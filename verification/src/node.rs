//! The fields of a node, read and written at fixed places of its page.
//!
//! Every node starts with its kind, its root flag and the page number of its
//! parent. A leaf goes on with the number of its cells and the page number of
//! the next leaf, then the cells: a key and a row each. An internal node goes
//! on with the number of its keys and the page number of its right child, then
//! the cells: a child's page number and a key each.

use vstd::prelude::*;
use crate::bytes::{spec_u32_at, spec_put_u32, spec_copy, read_u32, write_u32, lemma_put_then_get};
use crate::layout::{
    NODE_TYPE_OFFSET, IS_ROOT_OFFSET, PARENT_POINTER_OFFSET, INTERNAL_NODE_NUM_KEYS_OFFSET,
    INTERNAL_NODE_RIGHT_CHILD_OFFSET, INTERNAL_NODE_HEADER_SIZE, INTERNAL_NODE_CELL_SIZE,
    INTERNAL_NODE_CHILD_SIZE, LEAF_NODE_NUM_CELLS_OFFSET, LEAF_NODE_NEXT_LEAF_OFFSET,
    LEAF_NODE_HEADER_SIZE, LEAF_NODE_CELL_SIZE, LEAF_NODE_KEY_SIZE, layout_constants,
};

verus! {

/// The kind of a node, as its first byte holds it.
pub type NodeType = u32;

pub const NODE_LEAF: NodeType = 1;

pub const NODE_INTERNAL: NodeType = 0;

/// One cell of a leaf: a key and the bytes of its row.
pub struct Cell {
    pub key: u32,
    pub value: Seq<u8>,
}

/// One cell of an internal node: a child and the largest key below it.
pub struct Branch {
    pub child: u32,
    pub key: u32,
}

/// A buffer of the size of a page.
pub open spec fn is_page(p: Seq<u8>) -> bool {
    p.len() == 4096
}

pub open spec fn node_type_of(p: Seq<u8>) -> NodeType {
    p[0] as u32
}

pub open spec fn is_root_of(p: Seq<u8>) -> bool {
    p[1] != 0
}

pub open spec fn parent_of(p: Seq<u8>) -> u32 {
    spec_u32_at(p, 2)
}

pub open spec fn leaf_num_cells_of(p: Seq<u8>) -> u32 {
    spec_u32_at(p, 6)
}

pub open spec fn leaf_next_leaf_of(p: Seq<u8>) -> u32 {
    spec_u32_at(p, 10)
}

/// Where cell `i` of a leaf starts in its page.
pub open spec fn spec_leaf_cell_offset(i: int) -> int {
    14 + 297 * i
}

/// Cell `i` of a leaf lies inside the page.
pub open spec fn leaf_cell_in_page(i: int) -> bool {
    0 <= i < 13
}

pub open spec fn leaf_key_of(p: Seq<u8>, i: int) -> u32 {
    spec_u32_at(p, spec_leaf_cell_offset(i))
}

pub open spec fn leaf_value_of(p: Seq<u8>, i: int) -> Seq<u8> {
    p.subrange(spec_leaf_cell_offset(i) + 4, spec_leaf_cell_offset(i) + 297)
}

pub open spec fn leaf_cell_of(p: Seq<u8>, i: int) -> Cell {
    Cell { key: leaf_key_of(p, i), value: leaf_value_of(p, i) }
}

/// The cells of a leaf, in the order of the page.
pub open spec fn leaf_cells(p: Seq<u8>) -> Seq<Cell> {
    Seq::new(leaf_num_cells_of(p) as nat, |i: int| leaf_cell_of(p, i))
}

pub open spec fn internal_num_keys_of(p: Seq<u8>) -> u32 {
    spec_u32_at(p, 6)
}

pub open spec fn internal_right_child_of(p: Seq<u8>) -> u32 {
    spec_u32_at(p, 10)
}

/// Where cell `i` of an internal node starts in its page.
pub open spec fn spec_internal_cell_offset(i: int) -> int {
    14 + 8 * i
}

/// Cell `i` of an internal node lies inside the page.
pub open spec fn internal_cell_in_page(i: int) -> bool {
    0 <= i < 510
}

pub open spec fn internal_cell_child_of(p: Seq<u8>, i: int) -> u32 {
    spec_u32_at(p, spec_internal_cell_offset(i))
}

pub open spec fn internal_key_of(p: Seq<u8>, i: int) -> u32 {
    spec_u32_at(p, spec_internal_cell_offset(i) + 4)
}

pub open spec fn internal_branch_of(p: Seq<u8>, i: int) -> Branch {
    Branch { child: internal_cell_child_of(p, i), key: internal_key_of(p, i) }
}

/// The cells of an internal node, in the order of the page.
pub open spec fn internal_branches(p: Seq<u8>) -> Seq<Branch> {
    Seq::new(internal_num_keys_of(p) as nat, |i: int| internal_branch_of(p, i))
}

/// Child `i` of an internal node: the child of cell `i`, and the right child
/// behind the last cell.
pub open spec fn internal_child_of(p: Seq<u8>, i: int) -> u32 {
    if i == internal_num_keys_of(p) {
        internal_right_child_of(p)
    } else {
        internal_cell_child_of(p, i)
    }
}

/// The largest key of a node: the key of its last cell.
pub open spec fn max_key_of(p: Seq<u8>) -> u32 {
    if node_type_of(p) == NODE_INTERNAL {
        internal_key_of(p, internal_num_keys_of(p) - 1)
    } else {
        leaf_key_of(p, leaf_num_cells_of(p) - 1)
    }
}

/// Two buffers of one length that hold the same bytes outside `lo..hi`.
pub open spec fn agree_outside(a: Seq<u8>, b: Seq<u8>, lo: int, hi: int) -> bool {
    &&& a.len() == b.len()
    &&& forall|j: int| 0 <= j < a.len() && !(lo <= j < hi) ==> a[j] == b[j]
}

/// Two pages that differ only inside `lo..hi` agree on every field of the
/// header and of the cells of a leaf that lies outside that range.
pub proof fn lemma_agree_leaf(a: Seq<u8>, b: Seq<u8>, lo: int, hi: int)
    requires
        is_page(a),
        agree_outside(a, b, lo, hi),
    ensures
        !(lo <= 0 < hi) ==> node_type_of(a) == node_type_of(b),
        !(lo <= 1 < hi) ==> is_root_of(a) == is_root_of(b),
        (hi <= 2 || 6 <= lo) ==> parent_of(a) == parent_of(b),
        (hi <= 6 || 10 <= lo) ==> leaf_num_cells_of(a) == leaf_num_cells_of(b),
        (hi <= 10 || 14 <= lo) ==> leaf_next_leaf_of(a) == leaf_next_leaf_of(b),
        forall|i: int|
            leaf_cell_in_page(i) && (hi <= spec_leaf_cell_offset(i) || spec_leaf_cell_offset(i)
                + 297 <= lo) ==> #[trigger] leaf_cell_of(a, i) == leaf_cell_of(b, i),
{
    assert forall|i: int|
        leaf_cell_in_page(i) && (hi <= spec_leaf_cell_offset(i) || spec_leaf_cell_offset(i) + 297
            <= lo) implies #[trigger] leaf_cell_of(a, i) == leaf_cell_of(b, i) by {
        assert(leaf_value_of(a, i) =~= leaf_value_of(b, i));
    }
}

/// Two pages that differ only inside `lo..hi` agree on every field of the
/// header and of the cells of an internal node that lies outside that range.
pub proof fn lemma_agree_internal(a: Seq<u8>, b: Seq<u8>, lo: int, hi: int)
    requires
        is_page(a),
        agree_outside(a, b, lo, hi),
    ensures
        !(lo <= 0 < hi) ==> node_type_of(a) == node_type_of(b),
        !(lo <= 1 < hi) ==> is_root_of(a) == is_root_of(b),
        (hi <= 2 || 6 <= lo) ==> parent_of(a) == parent_of(b),
        (hi <= 6 || 10 <= lo) ==> internal_num_keys_of(a) == internal_num_keys_of(b),
        (hi <= 10 || 14 <= lo) ==> internal_right_child_of(a) == internal_right_child_of(b),
        forall|i: int|
            internal_cell_in_page(i) && (hi <= spec_internal_cell_offset(i)
                || spec_internal_cell_offset(i) + 4 <= lo) ==> #[trigger] internal_cell_child_of(
                a,
                i,
            ) == internal_cell_child_of(b, i),
        forall|i: int|
            internal_cell_in_page(i) && (hi <= spec_internal_cell_offset(i) + 4
                || spec_internal_cell_offset(i) + 8 <= lo) ==> #[trigger] internal_key_of(a, i)
                == internal_key_of(b, i),
{
}

/// Writing an integer changes no byte but the four it is written to.
pub proof fn lemma_put_agrees(s: Seq<u8>, offset: int, value: u32)
    requires
        0 <= offset,
        offset + 4 <= s.len(),
    ensures
        agree_outside(spec_put_u32(s, offset, value), s, offset, offset + 4),
{
}

/// The kind of the node in `node`.
pub fn get_node_type(node: &Vec<u8>) -> (kind: NodeType)
    requires
        is_page(node@),
    ensures
        kind == node_type_of(node@),
{
    node[NODE_TYPE_OFFSET as usize] as u32
}

/// Makes the node a leaf or an internal node. Of `kind` the lowest byte is
/// kept.
pub fn set_node_type(node: &mut Vec<u8>, kind: NodeType)
    requires
        is_page(old(node)@),
    ensures
        final(node)@ == old(node)@.update(0, (kind % 256) as u8),
        node_type_of(final(node)@) == kind % 256,
        agree_outside(final(node)@, old(node)@, 0, 1),
{
    node[NODE_TYPE_OFFSET as usize] = (kind % 256) as u8;
}

/// Whether the node is the root of the tree.
pub fn is_node_root(node: &Vec<u8>) -> (is_root: bool)
    requires
        is_page(node@),
    ensures
        is_root == is_root_of(node@),
{
    node[IS_ROOT_OFFSET as usize] != 0
}

/// Sets or clears the root flag of the node.
pub fn set_node_root(node: &mut Vec<u8>, is_root: bool)
    requires
        is_page(old(node)@),
    ensures
        final(node)@ == old(node)@.update(1, if is_root { 1u8 } else { 0u8 }),
        is_root_of(final(node)@) == is_root,
        agree_outside(final(node)@, old(node)@, 1, 2),
{
    node[IS_ROOT_OFFSET as usize] = if is_root { 1u8 } else { 0u8 };
}

/// The page number of the parent of the node. It means nothing for the root.
pub fn node_parent(node: &Vec<u8>) -> (value: u32)
    requires
        is_page(node@),
    ensures
        value == parent_of(node@),
{
    read_u32(node, PARENT_POINTER_OFFSET as usize)
}

/// Sets the page number of the parent of the node.
pub fn set_node_parent(node: &mut Vec<u8>, value: u32)
    requires
        is_page(old(node)@),
    ensures
        final(node)@ == spec_put_u32(old(node)@, 2, value),
        parent_of(final(node)@) == value,
        agree_outside(final(node)@, old(node)@, 2, 6),
{
    proof {
        lemma_put_then_get(node@, 2, value);
    }
    write_u32(node, PARENT_POINTER_OFFSET as usize, value);
}

/// The number of keys of an internal node.
pub fn internal_node_num_keys(node: &Vec<u8>) -> (value: u32)
    requires
        is_page(node@),
    ensures
        value == internal_num_keys_of(node@),
{
    read_u32(node, INTERNAL_NODE_NUM_KEYS_OFFSET as usize)
}

/// Sets the number of keys of an internal node.
pub fn set_internal_node_num_keys(node: &mut Vec<u8>, value: u32)
    requires
        is_page(old(node)@),
    ensures
        final(node)@ == spec_put_u32(old(node)@, 6, value),
        internal_num_keys_of(final(node)@) == value,
        agree_outside(final(node)@, old(node)@, 6, 10),
{
    proof {
        lemma_put_then_get(node@, 6, value);
    }
    write_u32(node, INTERNAL_NODE_NUM_KEYS_OFFSET as usize, value);
}

/// The page number of the right child of an internal node.
pub fn internal_node_right_child(node: &Vec<u8>) -> (value: u32)
    requires
        is_page(node@),
    ensures
        value == internal_right_child_of(node@),
{
    read_u32(node, INTERNAL_NODE_RIGHT_CHILD_OFFSET as usize)
}

/// Sets the page number of the right child of an internal node.
pub fn set_internal_node_right_child(node: &mut Vec<u8>, value: u32)
    requires
        is_page(old(node)@),
    ensures
        final(node)@ == spec_put_u32(old(node)@, 10, value),
        internal_right_child_of(final(node)@) == value,
        agree_outside(final(node)@, old(node)@, 10, 14),
{
    proof {
        lemma_put_then_get(node@, 10, value);
    }
    write_u32(node, INTERNAL_NODE_RIGHT_CHILD_OFFSET as usize, value);
}

/// The number of cells of a leaf.
pub fn leaf_node_num_cells(node: &Vec<u8>) -> (value: u32)
    requires
        is_page(node@),
    ensures
        value == leaf_num_cells_of(node@),
{
    read_u32(node, LEAF_NODE_NUM_CELLS_OFFSET as usize)
}

/// Sets the number of cells of a leaf.
pub fn set_leaf_node_num_cells(node: &mut Vec<u8>, value: u32)
    requires
        is_page(old(node)@),
    ensures
        final(node)@ == spec_put_u32(old(node)@, 6, value),
        leaf_num_cells_of(final(node)@) == value,
        agree_outside(final(node)@, old(node)@, 6, 10),
{
    proof {
        lemma_put_then_get(node@, 6, value);
    }
    write_u32(node, LEAF_NODE_NUM_CELLS_OFFSET as usize, value);
}

/// The page number of the leaf that follows this one, or 0 where none does.
pub fn leaf_node_next_leaf(node: &Vec<u8>) -> (value: u32)
    requires
        is_page(node@),
    ensures
        value == leaf_next_leaf_of(node@),
{
    read_u32(node, LEAF_NODE_NEXT_LEAF_OFFSET as usize)
}

/// Sets the page number of the leaf that follows this one.
pub fn set_leaf_node_next_leaf(node: &mut Vec<u8>, value: u32)
    requires
        is_page(old(node)@),
    ensures
        final(node)@ == spec_put_u32(old(node)@, 10, value),
        leaf_next_leaf_of(final(node)@) == value,
        agree_outside(final(node)@, old(node)@, 10, 14),
{
    proof {
        lemma_put_then_get(node@, 10, value);
    }
    write_u32(node, LEAF_NODE_NEXT_LEAF_OFFSET as usize, value);
}

/// The place in the page where cell `cell_num` of an internal node starts.
pub fn internal_node_cell(cell_num: u32) -> (offset: usize)
    requires
        internal_cell_in_page(cell_num as int),
    ensures
        offset == spec_internal_cell_offset(cell_num as int),
        offset + 8 <= 4096,
{
    proof {
        layout_constants();
    }
    (INTERNAL_NODE_HEADER_SIZE + cell_num * INTERNAL_NODE_CELL_SIZE) as usize
}

/// The page number of child `child_num` of an internal node: the right child
/// where `child_num` is the number of keys.
pub fn internal_node_child(node: &Vec<u8>, child_num: u32) -> (child: u32)
    requires
        is_page(node@),
        child_num <= internal_num_keys_of(node@),
        child_num < internal_num_keys_of(node@) ==> internal_cell_in_page(child_num as int),
    ensures
        child == internal_child_of(node@, child_num as int),
{
    let num_keys = internal_node_num_keys(node);
    if child_num == num_keys {
        internal_node_right_child(node)
    } else {
        read_u32(node, internal_node_cell(child_num))
    }
}

/// Sets the page number of child `child_num` of an internal node: the right
/// child where `child_num` is the number of keys.
pub fn set_internal_node_child(node: &mut Vec<u8>, child_num: u32, child: u32)
    requires
        is_page(old(node)@),
        child_num <= internal_num_keys_of(old(node)@),
        child_num < internal_num_keys_of(old(node)@) ==> internal_cell_in_page(child_num as int),
    ensures
        child_num == internal_num_keys_of(old(node)@) ==> final(node)@ == spec_put_u32(
            old(node)@,
            10,
            child,
        ) && agree_outside(final(node)@, old(node)@, 10, 14),
        child_num < internal_num_keys_of(old(node)@) ==> final(node)@ == spec_put_u32(
            old(node)@,
            spec_internal_cell_offset(child_num as int),
            child,
        ) && agree_outside(
            final(node)@,
            old(node)@,
            spec_internal_cell_offset(child_num as int),
            spec_internal_cell_offset(child_num as int) + 4,
        ),
        internal_num_keys_of(final(node)@) == internal_num_keys_of(old(node)@),
        internal_child_of(final(node)@, child_num as int) == child,
{
    let num_keys = internal_node_num_keys(node);
    if child_num == num_keys {
        set_internal_node_right_child(node, child);
    } else {
        let offset = internal_node_cell(child_num);
        proof {
            lemma_put_then_get(node@, offset as int, child);
        }
        write_u32(node, offset, child);
    }
}

/// Key `key_num` of an internal node.
pub fn internal_node_key(node: &Vec<u8>, key_num: u32) -> (key: u32)
    requires
        is_page(node@),
        internal_cell_in_page(key_num as int),
    ensures
        key == internal_key_of(node@, key_num as int),
{
    read_u32(node, internal_node_cell(key_num) + INTERNAL_NODE_CHILD_SIZE as usize)
}

/// Sets key `key_num` of an internal node.
pub fn set_internal_node_key(node: &mut Vec<u8>, key_num: u32, key: u32)
    requires
        is_page(old(node)@),
        internal_cell_in_page(key_num as int),
    ensures
        final(node)@ == spec_put_u32(
            old(node)@,
            spec_internal_cell_offset(key_num as int) + 4,
            key,
        ),
        internal_key_of(final(node)@, key_num as int) == key,
        agree_outside(
            final(node)@,
            old(node)@,
            spec_internal_cell_offset(key_num as int) + 4,
            spec_internal_cell_offset(key_num as int) + 8,
        ),
{
    let offset = internal_node_cell(key_num) + INTERNAL_NODE_CHILD_SIZE as usize;
    proof {
        lemma_put_then_get(node@, offset as int, key);
    }
    write_u32(node, offset, key);
}

/// The place in the page where cell `cell_num` of a leaf starts.
pub fn leaf_node_cell(cell_num: u32) -> (offset: usize)
    requires
        leaf_cell_in_page(cell_num as int),
    ensures
        offset == spec_leaf_cell_offset(cell_num as int),
        offset + 297 <= 4096,
{
    proof {
        layout_constants();
    }
    (LEAF_NODE_HEADER_SIZE + cell_num * LEAF_NODE_CELL_SIZE) as usize
}

/// The key of cell `cell_num` of a leaf.
pub fn leaf_node_key(node: &Vec<u8>, cell_num: u32) -> (key: u32)
    requires
        is_page(node@),
        leaf_cell_in_page(cell_num as int),
    ensures
        key == leaf_key_of(node@, cell_num as int),
{
    read_u32(node, leaf_node_cell(cell_num))
}

/// Sets the key of cell `cell_num` of a leaf.
pub fn set_leaf_node_key(node: &mut Vec<u8>, cell_num: u32, key: u32)
    requires
        is_page(old(node)@),
        leaf_cell_in_page(cell_num as int),
    ensures
        final(node)@ == spec_put_u32(old(node)@, spec_leaf_cell_offset(cell_num as int), key),
        leaf_key_of(final(node)@, cell_num as int) == key,
        agree_outside(
            final(node)@,
            old(node)@,
            spec_leaf_cell_offset(cell_num as int),
            spec_leaf_cell_offset(cell_num as int) + 4,
        ),
{
    let offset = leaf_node_cell(cell_num);
    proof {
        lemma_put_then_get(node@, offset as int, key);
    }
    write_u32(node, offset, key);
}

/// The place in the page where the row of cell `cell_num` of a leaf starts.
pub fn leaf_node_value(cell_num: u32) -> (offset: usize)
    requires
        leaf_cell_in_page(cell_num as int),
    ensures
        offset == spec_leaf_cell_offset(cell_num as int) + 4,
        offset + 293 <= 4096,
{
    leaf_node_cell(cell_num) + LEAF_NODE_KEY_SIZE as usize
}

/// The largest key of a node: the key of its last cell.
pub fn get_node_max_key(node: &Vec<u8>) -> (key: u32)
    requires
        is_page(node@),
        node_type_of(node@) == NODE_INTERNAL || node_type_of(node@) == NODE_LEAF,
        node_type_of(node@) == NODE_INTERNAL ==> internal_cell_in_page(
            internal_num_keys_of(node@) - 1,
        ),
        node_type_of(node@) == NODE_LEAF ==> leaf_cell_in_page(leaf_num_cells_of(node@) - 1),
    ensures
        key == max_key_of(node@),
{
    if get_node_type(node) == NODE_INTERNAL {
        internal_node_key(node, internal_node_num_keys(node) - 1)
    } else {
        leaf_node_key(node, leaf_node_num_cells(node) - 1)
    }
}

/// Makes the node an empty leaf that is not the root and has no next leaf.
pub fn initialize_leaf_node(node: &mut Vec<u8>)
    requires
        is_page(old(node)@),
    ensures
        is_page(final(node)@),
        node_type_of(final(node)@) == NODE_LEAF,
        !is_root_of(final(node)@),
        leaf_num_cells_of(final(node)@) == 0,
        leaf_next_leaf_of(final(node)@) == 0,
        parent_of(final(node)@) == parent_of(old(node)@),
        agree_outside(final(node)@, old(node)@, 0, 14),
{
    set_node_type(node, NODE_LEAF);
    set_node_root(node, false);
    set_leaf_node_num_cells(node, 0);
    set_leaf_node_next_leaf(node, 0);
}

/// Makes the node an internal node without keys that is not the root.
pub fn initialize_internal_node(node: &mut Vec<u8>)
    requires
        is_page(old(node)@),
    ensures
        is_page(final(node)@),
        node_type_of(final(node)@) == NODE_INTERNAL,
        !is_root_of(final(node)@),
        internal_num_keys_of(final(node)@) == 0,
        parent_of(final(node)@) == parent_of(old(node)@),
        internal_right_child_of(final(node)@) == internal_right_child_of(old(node)@),
        agree_outside(final(node)@, old(node)@, 0, 10),
{
    set_node_type(node, NODE_INTERNAL);
    set_node_root(node, false);
    set_internal_node_num_keys(node, 0);
}

} // verus!
