//! Sizes and offsets of every field of a row and of a page.
//!
//! A page is one node of the tree. All integers are stored little-endian.

use vstd::prelude::*;

verus! {

/// Longest user name, in bytes, not counting the terminating zero byte.
pub const COLUMN_USERNAME_SIZE: usize = 32;

/// Longest e-mail address, in bytes, not counting the terminating zero byte.
pub const COLUMN_EMAIL_SIZE: usize = 255;

pub const ID_SIZE: u32 = 4;

pub const USERNAME_SIZE: u32 = 33;

pub const EMAIL_SIZE: u32 = 256;

pub const ID_OFFSET: u32 = 0;

pub const USERNAME_OFFSET: u32 = ID_OFFSET + ID_SIZE;

pub const EMAIL_OFFSET: u32 = USERNAME_OFFSET + USERNAME_SIZE;

pub const ROW_SIZE: u32 = ID_SIZE + USERNAME_SIZE + EMAIL_SIZE;

pub const PAGE_SIZE: u32 = 4096;

/// The number of page slots of a pager. It is the one bound on the size of a
/// database: a file has at most this many pages.
pub const TABLE_MAX_PAGES: usize = 100;

// Common node header.
pub const NODE_TYPE_SIZE: u32 = 1;

pub const NODE_TYPE_OFFSET: u32 = 0;

pub const IS_ROOT_SIZE: u32 = 1;

pub const IS_ROOT_OFFSET: u32 = NODE_TYPE_SIZE;

pub const PARENT_POINTER_SIZE: u32 = 4;

pub const PARENT_POINTER_OFFSET: u32 = IS_ROOT_OFFSET + IS_ROOT_SIZE;

pub const COMMON_NODE_HEADER_SIZE: u32 = NODE_TYPE_SIZE + IS_ROOT_SIZE + PARENT_POINTER_SIZE;

// Internal node header.
pub const INTERNAL_NODE_NUM_KEYS_SIZE: u32 = 4;

pub const INTERNAL_NODE_NUM_KEYS_OFFSET: u32 = COMMON_NODE_HEADER_SIZE;

pub const INTERNAL_NODE_RIGHT_CHILD_SIZE: u32 = 4;

pub const INTERNAL_NODE_RIGHT_CHILD_OFFSET: u32 = INTERNAL_NODE_NUM_KEYS_OFFSET
    + INTERNAL_NODE_NUM_KEYS_SIZE;

pub const INTERNAL_NODE_HEADER_SIZE: u32 = COMMON_NODE_HEADER_SIZE + INTERNAL_NODE_NUM_KEYS_SIZE
    + INTERNAL_NODE_RIGHT_CHILD_SIZE;

// Internal node body.
pub const INTERNAL_NODE_KEY_SIZE: u32 = 4;

pub const INTERNAL_NODE_CHILD_SIZE: u32 = 4;

pub const INTERNAL_NODE_CELL_SIZE: u32 = INTERNAL_NODE_CHILD_SIZE + INTERNAL_NODE_KEY_SIZE;

/// Kept small so that a handful of rows already fills an internal node.
pub const INTERNAL_NODE_MAX_CELLS: u32 = 3;

// Leaf node header.
pub const LEAF_NODE_NUM_CELLS_SIZE: u32 = 4;

pub const LEAF_NODE_NUM_CELLS_OFFSET: u32 = COMMON_NODE_HEADER_SIZE;

pub const LEAF_NODE_NEXT_LEAF_SIZE: u32 = 4;

pub const LEAF_NODE_NEXT_LEAF_OFFSET: u32 = LEAF_NODE_NUM_CELLS_OFFSET + LEAF_NODE_NUM_CELLS_SIZE;

pub const LEAF_NODE_HEADER_SIZE: u32 = COMMON_NODE_HEADER_SIZE + LEAF_NODE_NUM_CELLS_SIZE
    + LEAF_NODE_NEXT_LEAF_SIZE;

// Leaf node body.
pub const LEAF_NODE_KEY_SIZE: u32 = 4;

pub const LEAF_NODE_KEY_OFFSET: u32 = 0;

pub const LEAF_NODE_VALUE_SIZE: u32 = ROW_SIZE;

pub const LEAF_NODE_VALUE_OFFSET: u32 = LEAF_NODE_KEY_OFFSET + LEAF_NODE_KEY_SIZE;

pub const LEAF_NODE_CELL_SIZE: u32 = LEAF_NODE_KEY_SIZE + LEAF_NODE_VALUE_SIZE;

pub const LEAF_NODE_SPACE_FOR_CELLS: u32 = PAGE_SIZE - LEAF_NODE_HEADER_SIZE;

pub const LEAF_NODE_MAX_CELLS: u32 = LEAF_NODE_SPACE_FOR_CELLS / LEAF_NODE_CELL_SIZE;

/// How many of the cells of a full leaf and one more stay in the leaf when it
/// is split: half of them, and the odd one if there is one.
pub const LEAF_NODE_LEFT_SPLIT_COUNT: u32 = (LEAF_NODE_MAX_CELLS + 1 + 1) / 2;

/// How many of them go to the new leaf.
pub const LEAF_NODE_RIGHT_SPLIT_COUNT: u32 = (LEAF_NODE_MAX_CELLS + 1)
    - LEAF_NODE_LEFT_SPLIT_COUNT;

/// The layout that the sizes above add up to: a row takes 293 bytes, a leaf
/// holds at most 13 cells of 297 bytes behind a header of 14, and a full leaf
/// that takes one more cell splits into two leaves of 7.
pub proof fn layout_constants()
    ensures
        ROW_SIZE == 293,
        COMMON_NODE_HEADER_SIZE == 6,
        LEAF_NODE_HEADER_SIZE == 14,
        LEAF_NODE_CELL_SIZE == 297,
        LEAF_NODE_SPACE_FOR_CELLS == 4082,
        LEAF_NODE_MAX_CELLS == 13,
        LEAF_NODE_LEFT_SPLIT_COUNT == 7,
        LEAF_NODE_RIGHT_SPLIT_COUNT == 7,
        INTERNAL_NODE_HEADER_SIZE == 14,
        INTERNAL_NODE_CELL_SIZE == 8,
        LEAF_NODE_LEFT_SPLIT_COUNT + LEAF_NODE_RIGHT_SPLIT_COUNT == LEAF_NODE_MAX_CELLS + 1,
        LEAF_NODE_HEADER_SIZE + LEAF_NODE_MAX_CELLS * LEAF_NODE_CELL_SIZE <= PAGE_SIZE,
        INTERNAL_NODE_HEADER_SIZE + INTERNAL_NODE_MAX_CELLS * INTERNAL_NODE_CELL_SIZE <= PAGE_SIZE,
{
}

} // verus!
