//! Whole cells of a leaf: putting one between the others, and dealing the
//! cells of a full leaf out to two.

use vstd::prelude::*;
use crate::bytes::{spec_copy, move_bytes};
use crate::layout::LEAF_NODE_CELL_SIZE;
use crate::node::{
    Cell, is_page, node_type_of, is_root_of, parent_of, leaf_num_cells_of, leaf_next_leaf_of,
    leaf_value_of, leaf_cell_of, leaf_cells, leaf_cell_in_page, spec_leaf_cell_offset,
    agree_outside, lemma_agree_leaf, leaf_node_num_cells, set_leaf_node_num_cells, leaf_node_cell,
    leaf_node_value, set_leaf_node_key,
};
use crate::row::{Row, serialize_row, lemma_row_bytes};

verus! {

/// A page that took the bytes of cell `from` of `src` at its cell `to` holds
/// that cell there.
pub proof fn lemma_cell_copied(dst: Seq<u8>, to: int, src: Seq<u8>, from: int)
    requires
        is_page(dst),
        is_page(src),
        leaf_cell_in_page(to),
        leaf_cell_in_page(from),
    ensures
        leaf_cell_of(
            spec_copy(dst, spec_leaf_cell_offset(to), src, spec_leaf_cell_offset(from), 297),
            to,
        ) == leaf_cell_of(src, from),
        agree_outside(
            spec_copy(dst, spec_leaf_cell_offset(to), src, spec_leaf_cell_offset(from), 297),
            dst,
            spec_leaf_cell_offset(to),
            spec_leaf_cell_offset(to) + 297,
        ),
{
    let after = spec_copy(dst, spec_leaf_cell_offset(to), src, spec_leaf_cell_offset(from), 297);
    assert(leaf_value_of(after, to) =~= leaf_value_of(src, from));
}

/// Writes a key and a row to cell `cell_num` of a leaf.
pub fn write_leaf_cell(node: &mut Vec<u8>, cell_num: u32, key: u32, value: &Row)
    requires
        is_page(old(node)@),
        leaf_cell_in_page(cell_num as int),
    ensures
        is_page(final(node)@),
        leaf_cell_of(final(node)@, cell_num as int) == (Cell { key, value: value.spec_bytes() }),
        agree_outside(
            final(node)@,
            old(node)@,
            spec_leaf_cell_offset(cell_num as int),
            spec_leaf_cell_offset(cell_num as int) + 297,
        ),
{
    set_leaf_node_key(node, cell_num, key);
    let ghost mid = node@;
    serialize_row(value, node, leaf_node_value(cell_num));
    proof {
        lemma_row_bytes(*value, *value);
        let off = spec_leaf_cell_offset(cell_num as int);
        assert(leaf_value_of(node@, cell_num as int) =~= value.spec_bytes());
        assert(agree_outside(node@, mid, off + 4, off + 297));
        lemma_agree_leaf(node@, mid, off + 4, off + 297);
    }
}

/// Puts a new cell at `cell_num` of a leaf that has room, moving the cells
/// from there on one place to the right.
pub fn leaf_insert_cell(node: &mut Vec<u8>, cell_num: u32, key: u32, value: &Row)
    requires
        is_page(old(node)@),
        leaf_num_cells_of(old(node)@) < 13,
        cell_num <= leaf_num_cells_of(old(node)@),
    ensures
        is_page(final(node)@),
        node_type_of(final(node)@) == node_type_of(old(node)@),
        is_root_of(final(node)@) == is_root_of(old(node)@),
        parent_of(final(node)@) == parent_of(old(node)@),
        leaf_next_leaf_of(final(node)@) == leaf_next_leaf_of(old(node)@),
        leaf_num_cells_of(final(node)@) == leaf_num_cells_of(old(node)@) + 1,
        leaf_cells(final(node)@) == leaf_cells(old(node)@).insert(
            cell_num as int,
            Cell { key, value: value.spec_bytes() },
        ),
{
    let num_cells = leaf_node_num_cells(node);
    if cell_num < num_cells {
        // Make room for the new cell
        let mut i: u32 = num_cells;
        while i > cell_num
            invariant
                cell_num <= i <= num_cells < 13,
                is_page(node@),
                agree_outside(node@, old(node)@, 14, 4096),
                forall|k: int|
                    0 <= k <= i ==> leaf_cell_of(node@, k) == leaf_cell_of(old(node)@, k),
                forall|k: int|
                    i < k <= num_cells ==> leaf_cell_of(node@, k) == leaf_cell_of(
                        old(node)@,
                        k - 1,
                    ),
            decreases i,
        {
            let ghost before = node@;
            move_bytes(
                node,
                leaf_node_cell(i),
                leaf_node_cell(i - 1),
                LEAF_NODE_CELL_SIZE as usize,
            );
            proof {
                lemma_cell_copied(before, i as int, before, i - 1);
                lemma_agree_leaf(
                    node@,
                    before,
                    spec_leaf_cell_offset(i as int),
                    spec_leaf_cell_offset(i as int) + 297,
                );
                assert forall|k: int| 0 <= k <= i - 1 implies leaf_cell_of(node@, k)
                    == leaf_cell_of(old(node)@, k) by {
                    assert(leaf_cell_of(node@, k) == leaf_cell_of(before, k));
                }
                assert forall|k: int| i - 1 < k <= num_cells implies leaf_cell_of(node@, k)
                    == leaf_cell_of(old(node)@, k - 1) by {
                    if k > i {
                        assert(leaf_cell_of(node@, k) == leaf_cell_of(before, k));
                    }
                }
            }
            i -= 1;
        }
    }
    let ghost shifted = node@;
    set_leaf_node_num_cells(node, num_cells + 1);
    let ghost counted = node@;
    write_leaf_cell(node, cell_num, key, value);
    proof {
        let off = spec_leaf_cell_offset(cell_num as int);
        lemma_agree_leaf(counted, shifted, 6, 10);
        lemma_agree_leaf(node@, counted, off, off + 297);
        lemma_agree_leaf(shifted, old(node)@, 14, 4096);
        let cell = Cell { key, value: value.spec_bytes() };
        assert forall|k: int| 0 <= k <= num_cells implies #[trigger] leaf_cells(node@)[k]
            == leaf_cells(old(node)@).insert(cell_num as int, cell)[k] by {
            if k != cell_num {
                assert(leaf_cell_of(node@, k) == leaf_cell_of(counted, k));
                assert(leaf_cell_of(counted, k) == leaf_cell_of(shifted, k));
            }
        }
        assert(leaf_cells(node@) =~= leaf_cells(old(node)@).insert(cell_num as int, cell));
    }
}

} // verus!
