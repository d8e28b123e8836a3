//! Whole cells of an internal node: taking in one more child.

use vstd::prelude::*;
use crate::bytes::{spec_copy, spec_put_u32, move_bytes};
use crate::layout::INTERNAL_NODE_CELL_SIZE;
use crate::node::{
    Branch, is_page, node_type_of, is_root_of, parent_of, internal_num_keys_of,
    internal_right_child_of, internal_key_of, internal_branch_of, internal_branches,
    internal_cell_in_page, spec_internal_cell_offset, agree_outside, lemma_agree_internal,
    internal_node_num_keys, set_internal_node_num_keys, internal_node_right_child,
    set_internal_node_right_child, internal_node_cell, set_internal_node_child,
    set_internal_node_key,
};
use crate::btree::internal_node_find_child;

verus! {

/// The keys of the node rise strictly.
pub open spec fn internal_keys_ascending(p: Seq<u8>) -> bool {
    forall|i: int, j: int|
        0 <= i < j < internal_num_keys_of(p) ==> internal_key_of(p, i) < internal_key_of(p, j)
}

/// `index` is the number of the child of the node that should hold `key`:
/// the keys before it are smaller, and the keys from it on are at least as
/// large.
pub open spec fn is_child_index(p: Seq<u8>, key: u32, index: int) -> bool {
    &&& 0 <= index <= internal_num_keys_of(p)
    &&& forall|i: int| 0 <= i < index ==> internal_key_of(p, i) < key
    &&& forall|i: int| index <= i < internal_num_keys_of(p) ==> internal_key_of(p, i) >= key
}

/// Where the search by halves for `key` among the cells `lo..hi` of the node
/// ends: it looks at the cell in the middle and goes on in the cells before
/// it, with it, if its key is at least `key`, and in the cells behind it if
/// not.
pub open spec fn spec_bisect(p: Seq<u8>, key: u32, lo: int, hi: int) -> int
    decreases hi - lo,
{
    if lo >= hi {
        lo
    } else if internal_key_of(p, (lo + hi) / 2) >= key {
        spec_bisect(p, key, lo, (lo + hi) / 2)
    } else {
        spec_bisect(p, key, (lo + hi) / 2 + 1, hi)
    }
}

/// The number of the first cell from `from` on whose key is at least `key`,
/// and the number of keys where there is none: the child that should hold
/// `key`.
pub open spec fn spec_find_child(p: Seq<u8>, key: u32, from: int) -> int
    decreases internal_num_keys_of(p) - from,
{
    if from >= internal_num_keys_of(p) {
        internal_num_keys_of(p) as int
    } else if internal_key_of(p, from) >= key {
        from
    } else {
        spec_find_child(p, key, from + 1)
    }
}

/// Where the keys rise, the first cell whose key is at least `key` parts
/// the smaller keys from the others, and no other place does.
pub proof fn lemma_find_child(p: Seq<u8>, key: u32, from: int)
    requires
        internal_keys_ascending(p),
        0 <= from <= internal_num_keys_of(p),
        forall|k: int| 0 <= k < from ==> internal_key_of(p, k) < key,
    ensures
        is_child_index(p, key, spec_find_child(p, key, from)),
        forall|index: int|
            is_child_index(p, key, index) ==> index == spec_find_child(p, key, from),
    decreases internal_num_keys_of(p) - from,
{
    let found = spec_find_child(p, key, from);
    if from >= internal_num_keys_of(p) {
    } else if internal_key_of(p, from) >= key {
        assert forall|k: int| from <= k < internal_num_keys_of(p) implies internal_key_of(p, k)
            >= key by {
            if k > from {
                assert(internal_key_of(p, from) < internal_key_of(p, k));
            }
        }
    } else {
        lemma_find_child(p, key, from + 1);
    }
    assert forall|index: int| is_child_index(p, key, index) implies index == found by {
        if index < found {
            assert(internal_key_of(p, index) < key);
        } else if index > found {
            assert(internal_key_of(p, found) < key);
        }
    }
}

/// A page that took the bytes of its own cell `from` at its cell `to` holds
/// that cell there.
proof fn lemma_branch_copied(p: Seq<u8>, to: int, from: int)
    requires
        is_page(p),
        internal_cell_in_page(to),
        internal_cell_in_page(from),
    ensures
        internal_branch_of(
            spec_copy(p, spec_internal_cell_offset(to), p, spec_internal_cell_offset(from), 8),
            to,
        ) == internal_branch_of(p, from),
        agree_outside(
            spec_copy(p, spec_internal_cell_offset(to), p, spec_internal_cell_offset(from), 8),
            p,
            spec_internal_cell_offset(to),
            spec_internal_cell_offset(to) + 8,
        ),
{
}

/// Gives the cell whose key is `old_key` the key `new_key`. The cell is the
/// first whose key is at least `old_key`; where there is none, the key
/// belongs to the right child, which has no cell, and nothing changes.
pub fn update_internal_node_key(node: &mut Vec<u8>, old_key: u32, new_key: u32)
    requires
        is_page(old(node)@),
        internal_num_keys_of(old(node)@) <= 510,
        internal_keys_ascending(old(node)@),
    ensures
        forall|index: int|
            is_child_index(old(node)@, old_key, index) ==> final(node)@ == if index
                < internal_num_keys_of(old(node)@) {
                spec_put_u32(old(node)@, spec_internal_cell_offset(index) + 4, new_key)
            } else {
                old(node)@
            },
        exists|index: int| is_child_index(old(node)@, old_key, index),
        is_page(final(node)@),
{
    let old_child_index = internal_node_find_child(node, old_key);
    assert(is_child_index(old(node)@, old_key, old_child_index as int));
    assert forall|index: int| is_child_index(old(node)@, old_key, index) implies index
        == old_child_index by {
        if index < old_child_index {
            assert(internal_key_of(old(node)@, index) < old_key);
        } else if index > old_child_index {
            assert(internal_key_of(old(node)@, old_child_index as int) < old_key);
        }
    }
    if old_child_index < internal_node_num_keys(node) {
        set_internal_node_key(node, old_child_index, new_key);
    }
}

/// Puts a new cell, with a child and its key, at `index` of an internal
/// node, moving the cells from there on one place to the right.
pub fn internal_insert_branch(node: &mut Vec<u8>, index: u32, child: u32, key: u32)
    requires
        is_page(old(node)@),
        internal_num_keys_of(old(node)@) < 509,
        index <= internal_num_keys_of(old(node)@),
    ensures
        is_page(final(node)@),
        node_type_of(final(node)@) == node_type_of(old(node)@),
        is_root_of(final(node)@) == is_root_of(old(node)@),
        parent_of(final(node)@) == parent_of(old(node)@),
        internal_right_child_of(final(node)@) == internal_right_child_of(old(node)@),
        internal_num_keys_of(final(node)@) == internal_num_keys_of(old(node)@) + 1,
        internal_branches(final(node)@) == internal_branches(old(node)@).insert(
            index as int,
            Branch { child, key },
        ),
{
    let original_num_keys = internal_node_num_keys(node);
    set_internal_node_num_keys(node, original_num_keys + 1);
    let ghost counted = node@;
    proof {
        lemma_agree_internal(counted, old(node)@, 6, 10);
    }
    // Make room for the new cell
    let mut i: u32 = original_num_keys;
    while i > index
        invariant
            index <= i <= original_num_keys < 509,
            is_page(node@),
            agree_outside(node@, counted, 14, 4096),
            forall|k: int|
                0 <= k <= i ==> internal_branch_of(node@, k) == internal_branch_of(old(node)@, k),
            forall|k: int|
                i < k <= original_num_keys ==> internal_branch_of(node@, k) == internal_branch_of(
                    old(node)@,
                    k - 1,
                ),
        decreases i,
    {
        let ghost before = node@;
        move_bytes(
            node,
            internal_node_cell(i),
            internal_node_cell(i - 1),
            INTERNAL_NODE_CELL_SIZE as usize,
        );
        proof {
            lemma_branch_copied(before, i as int, i - 1);
            lemma_agree_internal(
                node@,
                before,
                spec_internal_cell_offset(i as int),
                spec_internal_cell_offset(i as int) + 8,
            );
            assert forall|k: int| 0 <= k <= i - 1 implies internal_branch_of(node@, k)
                == internal_branch_of(old(node)@, k) by {
                assert(internal_branch_of(node@, k) == internal_branch_of(before, k));
            }
            assert forall|k: int| i - 1 < k <= original_num_keys implies internal_branch_of(
                node@,
                k,
            ) == internal_branch_of(old(node)@, k - 1) by {
                if k > i {
                    assert(internal_branch_of(node@, k) == internal_branch_of(before, k));
                }
            }
        }
        i -= 1;
    }
    let ghost shifted = node@;
    set_internal_node_child(node, index, child);
    let ghost with_child = node@;
    set_internal_node_key(node, index, key);
    proof {
        let off = spec_internal_cell_offset(index as int);
        lemma_agree_internal(shifted, counted, 14, 4096);
        lemma_agree_internal(with_child, shifted, off, off + 4);
        lemma_agree_internal(node@, with_child, off + 4, off + 8);
        let branch = Branch { child, key };
        assert forall|k: int| 0 <= k <= original_num_keys implies #[trigger] internal_branches(
            node@,
        )[k] == internal_branches(old(node)@).insert(index as int, branch)[k] by {
            if k != index {
                assert(internal_branch_of(node@, k) == internal_branch_of(with_child, k));
                assert(internal_branch_of(with_child, k) == internal_branch_of(shifted, k));
            }
        }
        assert(internal_branches(node@) =~= internal_branches(old(node)@).insert(
            index as int,
            branch,
        ));
    }
}

/// Makes `child` the right child of an internal node. The child that was the
/// right child gets the last cell, with `key`.
pub fn internal_replace_right_child(node: &mut Vec<u8>, child: u32, key: u32)
    requires
        is_page(old(node)@),
        internal_num_keys_of(old(node)@) < 509,
    ensures
        is_page(final(node)@),
        node_type_of(final(node)@) == node_type_of(old(node)@),
        is_root_of(final(node)@) == is_root_of(old(node)@),
        parent_of(final(node)@) == parent_of(old(node)@),
        internal_right_child_of(final(node)@) == child,
        internal_num_keys_of(final(node)@) == internal_num_keys_of(old(node)@) + 1,
        internal_branches(final(node)@) == internal_branches(old(node)@).push(
            Branch { child: internal_right_child_of(old(node)@), key },
        ),
{
    let original_num_keys = internal_node_num_keys(node);
    let right_child_page_num = internal_node_right_child(node);
    set_internal_node_num_keys(node, original_num_keys + 1);
    let ghost counted = node@;
    set_internal_node_child(node, original_num_keys, right_child_page_num);
    let ghost with_child = node@;
    set_internal_node_key(node, original_num_keys, key);
    let ghost with_key = node@;
    set_internal_node_right_child(node, child);
    proof {
        let off = spec_internal_cell_offset(original_num_keys as int);
        lemma_agree_internal(counted, old(node)@, 6, 10);
        lemma_agree_internal(with_child, counted, off, off + 4);
        lemma_agree_internal(with_key, with_child, off + 4, off + 8);
        lemma_agree_internal(node@, with_key, 10, 14);
        let branch = Branch { child: right_child_page_num, key };
        assert forall|k: int| 0 <= k <= original_num_keys implies #[trigger] internal_branches(
            node@,
        )[k] == internal_branches(old(node)@).push(branch)[k] by {
            if k != original_num_keys {
                assert(internal_branch_of(node@, k) == internal_branch_of(with_key, k));
                assert(internal_branch_of(with_key, k) == internal_branch_of(with_child, k));
                assert(internal_branch_of(with_child, k) == internal_branch_of(counted, k));
            }
        }
        assert(internal_branches(node@) =~= internal_branches(old(node)@).push(branch));
    }
}

} // verus!
