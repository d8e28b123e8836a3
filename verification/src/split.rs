//! Why a tree is still a tree after one of its leaves took a cell or was
//! split.

use vstd::prelude::*;
use crate::bytes::spec_put_u32;
use crate::insert::parent_with_child;
use crate::internal::{internal_keys_ascending, is_child_index};
use crate::node::{
    Cell, NODE_LEAF, NODE_INTERNAL, is_page, node_type_of, is_root_of, parent_of, leaf_num_cells_of,
    leaf_next_leaf_of, leaf_key_of, leaf_cells, internal_num_keys_of, internal_right_child_of,
    internal_cell_child_of, internal_key_of, internal_child_of, internal_branches,
    internal_branch_of, spec_internal_cell_offset, max_key_of, lemma_agree_leaf,
    lemma_agree_internal, lemma_put_agrees,
};
use crate::tree::{
    keys_ascending, is_rank, has_key, leaf_wf, tree_wf, child_wf, tree_leaves, tree_leaf_lists,
    cells_before, lemma_tree_lists, lemma_flatten_around, lemma_flatten_two_between,
};

verus! {

/// A page that holds a leaf with these fields and these cells.
pub open spec fn is_leaf_with(
    p: Seq<u8>,
    is_root: bool,
    parent: u32,
    next_leaf: u32,
    cells: Seq<Cell>,
) -> bool {
    &&& is_page(p)
    &&& node_type_of(p) == NODE_LEAF
    &&& is_root_of(p) == is_root
    &&& parent_of(p) == parent
    &&& leaf_next_leaf_of(p) == next_leaf
    &&& leaf_num_cells_of(p) == cells.len()
    &&& leaf_cells(p) == cells
}

/// The root after child `i` was split: one more key, `left_key` for child
/// `i` and `right_key` for the new child `new_page`, which stands behind
/// child `i`; the other children and keys are those of before.
pub open spec fn root_after_split(
    before: Seq<u8>,
    after: Seq<u8>,
    i: int,
    new_page: u32,
    left_key: u32,
    right_key: u32,
) -> bool {
    let n = internal_num_keys_of(before) as int;
    &&& is_page(after)
    &&& node_type_of(after) == NODE_INTERNAL
    &&& is_root_of(after)
    &&& internal_num_keys_of(after) == n + 1
    &&& forall|k: int|
        0 <= k <= n + 1 ==> #[trigger] internal_child_of(after, k) == if k <= i {
            internal_child_of(before, k)
        } else if k == i + 1 {
            new_page
        } else {
            internal_child_of(before, k - 1)
        }
    &&& forall|k: int|
        0 <= k < n + 1 ==> #[trigger] internal_key_of(after, k) == if k < i {
            internal_key_of(before, k)
        } else if k == i {
            left_key
        } else if k == i + 1 {
            right_key
        } else {
            internal_key_of(before, k - 1)
        }
}

/// Cells whose keys rise still do so with a new cell at the place of its
/// key, if no cell had that key.
pub proof fn lemma_insert_ascending(cells: Seq<Cell>, j: int, cell: Cell)
    requires
        keys_ascending(cells),
        is_rank(cells, cell.key, j),
        !has_key(cells, cell.key),
    ensures
        keys_ascending(cells.insert(j, cell)),
        cells.insert(j, cell).len() == cells.len() + 1,
{
    let after = cells.insert(j, cell);
    assert forall|a: int, b: int| 0 <= a < b < after.len() implies after[a].key
        < after[b].key by {
        if b == j {
            assert(after[a] == cells[a]);
        } else if a == j {
            assert(after[b] == cells[b - 1]);
            assert(cells[b - 1].key >= cell.key);
            assert(cells[b - 1].key != cell.key);
        } else {
            let a0 = if a < j { a } else { a - 1 };
            let b0 = if b < j { b } else { b - 1 };
            assert(after[a] == cells[a0]);
            assert(after[b] == cells[b0]);
        }
    }
}

/// The keys of the root of a tree rise, and each is the largest key of its
/// child.
pub proof fn lemma_root_keys(pages: Seq<Seq<u8>>, num_pages: int, i: int, j: int)
    requires
        tree_wf(pages, num_pages),
        node_type_of(pages[0]) != NODE_LEAF,
        0 <= i < j < internal_num_keys_of(pages[0]),
    ensures
        internal_key_of(pages[0], i) < internal_key_of(pages[0], j),
    decreases j - i,
{
    assert(child_wf(pages, num_pages, i));
    assert(child_wf(pages, num_pages, i + 1));
    let c = pages[internal_child_of(pages[0], i + 1) as int];
    let cells = leaf_cells(c);
    assert(cells[0].key <= cells[leaf_num_cells_of(c) - 1].key) by {
        if leaf_num_cells_of(c) > 1 {
            assert(cells[0].key < cells[leaf_num_cells_of(c) - 1].key);
        }
    }
    if i + 1 < j {
        lemma_root_keys(pages, num_pages, i + 1, j);
    }
}

/// A root leaf that took one more cell at the place of its key is the root
/// of a tree with that cell more.
pub proof fn lemma_leaf_root_grown(
    prior: Seq<Seq<u8>>,
    q: Seq<Seq<u8>>,
    num_pages: int,
    combined: Seq<Cell>,
)
    requires
        tree_wf(prior, num_pages),
        node_type_of(prior[0]) == NODE_LEAF,
        q.len() == 100,
        keys_ascending(combined),
        combined.len() <= 13,
        is_leaf_with(q[0], true, parent_of(prior[0]), 0, combined),
    ensures
        tree_wf(q, num_pages),
        tree_leaf_lists(q) == seq![combined],
        tree_leaf_lists(prior) == seq![leaf_cells(prior[0])],
{
    assert(tree_leaf_lists(q) =~= seq![combined]);
    assert(tree_leaf_lists(prior) =~= seq![leaf_cells(prior[0])]);
}

/// A child of the root that took one more cell at the place of its key
/// leaves the tree a tree, with that cell more in that leaf.
pub proof fn lemma_child_grown(
    prior: Seq<Seq<u8>>,
    q: Seq<Seq<u8>>,
    num_pages: int,
    i: int,
    combined: Seq<Cell>,
)
    requires
        tree_wf(prior, num_pages),
        node_type_of(prior[0]) == NODE_INTERNAL,
        0 <= i <= internal_num_keys_of(prior[0]),
        q.len() == 100,
        keys_ascending(combined),
        0 < combined.len() <= 13,
        i > 0 ==> max_key_of(prior[internal_child_of(prior[0], i - 1) as int]) < combined[0].key,
        i < internal_num_keys_of(prior[0]) ==> combined.last().key == internal_key_of(prior[0], i),
        is_leaf_with(
            q[internal_child_of(prior[0], i) as int],
            false,
            0,
            leaf_next_leaf_of(prior[internal_child_of(prior[0], i) as int]),
            combined,
        ),
        forall|m: int|
            0 <= m < 100 && m != internal_child_of(prior[0], i) ==> q[m] == prior[m],
    ensures
        tree_wf(q, num_pages),
        tree_leaf_lists(q) == tree_leaf_lists(prior).update(i, combined),
{
    let root = prior[0];
    let n = internal_num_keys_of(root) as int;
    let c = internal_child_of(root, i) as int;
    lemma_tree_lists(prior, num_pages);
    assert(child_wf(prior, num_pages, i));
    assert(q[0] == prior[0]);
    assert forall|k: int| 0 <= k <= n implies #[trigger] child_wf(q, num_pages, k) by {
        assert(child_wf(prior, num_pages, k));
        let ck = internal_child_of(root, k) as int;
        assert(tree_leaves(prior)[k] == ck);
        if k != i {
            assert(tree_leaves(prior)[i] == c);
            assert(ck != c);
            assert(q[ck] == prior[ck]);
        }
        if k < n {
            assert(child_wf(prior, num_pages, k + 1));
            let next = internal_child_of(root, k + 1) as int;
            assert(tree_leaves(prior)[k + 1] == next);
            if k + 1 != i {
                assert(next != c);
                assert(q[next] == prior[next]);
            } else {
                assert(leaf_cells(q[next])[0] == combined[0]);
            }
            if k == i {
                assert(leaf_cells(q[ck])[combined.len() - 1] == combined.last());
            }
        }
    }
    assert(tree_leaves(q) =~= tree_leaves(prior));
    assert forall|k: int| 0 <= k <= n implies #[trigger] tree_leaf_lists(q)[k]
        == tree_leaf_lists(prior).update(i, combined)[k] by {
        let ck = tree_leaves(prior)[k];
        if k != i {
            assert(tree_leaves(prior)[i] == c);
            assert(ck != c);
        }
    }
    assert(tree_leaf_lists(q) =~= tree_leaf_lists(prior).update(i, combined));
}

/// A full root leaf whose cells, with one more, went to two new leaves
/// below a new internal root is a tree with these two leaves.
pub proof fn lemma_root_split(
    prior: Seq<Seq<u8>>,
    q: Seq<Seq<u8>>,
    num_pages: int,
    left: int,
    right: int,
    combined: Seq<Cell>,
)
    requires
        tree_wf(prior, num_pages),
        node_type_of(prior[0]) == NODE_LEAF,
        q.len() == 100,
        num_pages + 2 <= 100,
        keys_ascending(combined),
        combined.len() == 14,
        1 <= left < num_pages + 2,
        1 <= right < num_pages + 2,
        left != right,
        is_page(q[0]),
        node_type_of(q[0]) == NODE_INTERNAL,
        is_root_of(q[0]),
        internal_num_keys_of(q[0]) == 1,
        internal_cell_child_of(q[0], 0) == left,
        internal_key_of(q[0], 0) == combined[6].key,
        internal_right_child_of(q[0]) == right,
        is_leaf_with(q[left], false, 0, right as u32, combined.take(7)),
        is_leaf_with(q[right], false, 0, 0, combined.skip(7)),
    ensures
        tree_wf(q, num_pages + 2),
        tree_leaves(q) == seq![left, right],
        tree_leaf_lists(q) == seq![combined.take(7), combined.skip(7)],
        tree_leaf_lists(prior) == seq![leaf_cells(prior[0])],
{
    let a = combined.take(7);
    let b = combined.skip(7);
    assert(leaf_cells(q[left])[6] == a[6]);
    assert(leaf_cells(q[right])[0] == b[0]);
    assert(keys_ascending(a));
    assert(keys_ascending(b)) by {
        assert forall|x: int, y: int| 0 <= x < y < b.len() implies b[x].key < b[y].key by {
            assert(b[x] == combined[x + 7]);
            assert(b[y] == combined[y + 7]);
        }
    }
    assert(child_wf(q, num_pages + 2, 0));
    assert(child_wf(q, num_pages + 2, 1));
    assert forall|k: int| 0 <= k <= 1 implies #[trigger] child_wf(q, num_pages + 2, k) by {
        if k == 0 {
        } else {
            assert(k == 1);
        }
    }
    assert(tree_leaves(q) =~= seq![left, right]);
    assert(tree_leaf_lists(q) =~= seq![a, b]);
    assert(tree_leaf_lists(prior) =~= seq![leaf_cells(prior[0])]);
}

/// What is given where child `i` of the root was split: the tree of
/// before, the root of after, the two leaves, and the pages that stayed.
pub open spec fn child_split_given(
    prior: Seq<Seq<u8>>,
    q: Seq<Seq<u8>>,
    num_pages: int,
    i: int,
    combined: Seq<Cell>,
) -> bool {
    &&& tree_wf(prior, num_pages)
    &&& num_pages < 100
    &&& node_type_of(prior[0]) == NODE_INTERNAL
    &&& internal_num_keys_of(prior[0]) < 3
    &&& 0 <= i <= internal_num_keys_of(prior[0])
    &&& q.len() == 100
    &&& keys_ascending(combined)
    &&& combined.len() == 14
    &&& i > 0 ==> max_key_of(prior[internal_child_of(prior[0], i - 1) as int]) < combined[0].key
    &&& i < internal_num_keys_of(prior[0]) ==> combined[13].key == internal_key_of(prior[0], i)
    &&& root_after_split(prior[0], q[0], i, num_pages as u32, combined[6].key, combined[13].key)
    &&& is_leaf_with(
        q[internal_child_of(prior[0], i) as int],
        false,
        0,
        num_pages as u32,
        combined.take(7),
    )
    &&& is_leaf_with(
        q[num_pages],
        false,
        0,
        leaf_next_leaf_of(prior[internal_child_of(prior[0], i) as int]),
        combined.skip(7),
    )
    &&& forall|m: int|
        0 <= m < 100 && m != 0 && m != internal_child_of(prior[0], i) && m != num_pages ==> q[m]
            == prior[m]
}

/// The two halves of fourteen cells whose keys rise: seven cells each, with
/// rising keys, the first half below the second.
proof fn lemma_halves(combined: Seq<Cell>)
    requires
        keys_ascending(combined),
        combined.len() == 14,
    ensures
        keys_ascending(combined.take(7)),
        keys_ascending(combined.skip(7)),
        combined.take(7).len() == 7,
        combined.skip(7).len() == 7,
        combined.take(7)[0] == combined[0],
        combined.take(7)[6] == combined[6],
        combined.skip(7)[0] == combined[7],
        combined.skip(7)[6] == combined[13],
        combined[0].key <= combined[6].key,
        combined[6].key < combined[7].key,
        combined[7].key <= combined[13].key,
{
    let a = combined.take(7);
    let b = combined.skip(7);
    assert forall|x: int, y: int| 0 <= x < y < a.len() implies a[x].key < a[y].key by {
        assert(a[x] == combined[x]);
        assert(a[y] == combined[y]);
    }
    assert forall|x: int, y: int| 0 <= x < y < b.len() implies b[x].key < b[y].key by {
        assert(b[x] == combined[x + 7]);
        assert(b[y] == combined[y + 7]);
    }
    assert(combined[0].key < combined[6].key);
    assert(combined[7].key < combined[13].key);
}

/// A leaf with these cells has them one by one, and its largest key is the
/// key of the last.
proof fn lemma_leaf_with(p: Seq<u8>, is_root: bool, parent: u32, next_leaf: u32, cells: Seq<Cell>)
    requires
        is_leaf_with(p, is_root, parent, next_leaf, cells),
        0 < cells.len() <= 13,
    ensures
        leaf_wf(p) <==> keys_ascending(cells),
        leaf_key_of(p, 0) == cells[0].key,
        max_key_of(p) == cells.last().key,
{
    assert(leaf_cells(p)[0] == cells[0]);
    assert(leaf_cells(p)[cells.len() - 1] == cells.last());
}

/// Where child `i` of the root was split, child `k` of the new root is in
/// order.
proof fn lemma_child_split_at(
    prior: Seq<Seq<u8>>,
    q: Seq<Seq<u8>>,
    num_pages: int,
    i: int,
    combined: Seq<Cell>,
    k: int,
)
    requires
        child_split_given(prior, q, num_pages, i, combined),
        0 <= k <= internal_num_keys_of(prior[0]) + 1,
    ensures
        child_wf(q, num_pages + 1, k),
{
    let root = prior[0];
    let n = internal_num_keys_of(root) as int;
    let c = internal_child_of(root, i) as int;
    let a = combined.take(7);
    let b = combined.skip(7);
    lemma_tree_lists(prior, num_pages);
    lemma_halves(combined);
    assert(child_wf(prior, num_pages, i));
    assert(tree_leaves(prior)[i] == c);
    lemma_leaf_with(q[c], false, 0, num_pages as u32, a);
    lemma_leaf_with(q[num_pages], false, 0, leaf_next_leaf_of(prior[c]), b);
    let ck = internal_child_of(q[0], k) as int;
    if k == i {
        assert(ck == c);
        assert(internal_child_of(q[0], i + 1) == num_pages);
        assert(internal_key_of(q[0], i) == combined[6].key);
    } else if k == i + 1 {
        assert(ck == num_pages);
        if i < n {
            assert(child_wf(prior, num_pages, i + 1));
            let next = internal_child_of(root, i + 1) as int;
            assert(internal_child_of(q[0], i + 2) == next);
            assert(tree_leaves(prior)[i + 1] == next);
            assert(next != c);
            assert(q[next] == prior[next]);
            assert(internal_key_of(q[0], i + 1) == combined[13].key);
        }
    } else {
        let k0 = if k <= i { k } else { k - 1 };
        assert(child_wf(prior, num_pages, k0));
        assert(ck == internal_child_of(root, k0));
        assert(tree_leaves(prior)[k0] == ck);
        assert(ck != c);
        assert(q[ck] == prior[ck]);
        if k < n + 1 {
            assert(internal_key_of(q[0], k) == internal_key_of(root, k0));
            let next = internal_child_of(q[0], k + 1) as int;
            if k + 1 == i {
                assert(next == c);
            } else {
                assert(child_wf(prior, num_pages, k0 + 1));
                assert(next == internal_child_of(root, k0 + 1));
                assert(tree_leaves(prior)[k0 + 1] == next);
                assert(next != c);
                assert(q[next] == prior[next]);
            }
        }
    }
}

/// A full child of the root whose cells, with one more, went to itself and
/// to a new leaf behind it leaves the tree a tree, with these two leaves in
/// the place of the one.
pub proof fn lemma_child_split(
    prior: Seq<Seq<u8>>,
    q: Seq<Seq<u8>>,
    num_pages: int,
    i: int,
    combined: Seq<Cell>,
)
    requires
        child_split_given(prior, q, num_pages, i, combined),
    ensures
        tree_wf(q, num_pages + 1),
        tree_leaves(q) == tree_leaves(prior).insert(i + 1, num_pages),
        tree_leaf_lists(q) == tree_leaf_lists(prior).take(i) + seq![
            combined.take(7),
            combined.skip(7),
        ] + tree_leaf_lists(prior).skip(i + 1),
{
    let root = prior[0];
    let n = internal_num_keys_of(root) as int;
    let c = internal_child_of(root, i) as int;
    let a = combined.take(7);
    let b = combined.skip(7);
    assert forall|k: int| 0 <= k <= n + 1 implies #[trigger] child_wf(q, num_pages + 1, k) by {
        lemma_child_split_at(prior, q, num_pages, i, combined, k);
    }
    lemma_tree_lists(prior, num_pages);
    assert(tree_leaves(prior)[i] == c);
    assert(tree_leaves(q) =~= tree_leaves(prior).insert(i + 1, num_pages));
    let lists = tree_leaf_lists(prior).take(i) + seq![a, b] + tree_leaf_lists(prior).skip(i + 1);
    assert forall|k: int| 0 <= k <= n + 1 implies #[trigger] tree_leaf_lists(q)[k]
        == lists[k] by {
        if k != i && k != i + 1 {
            let k0 = if k <= i { k } else { k - 1 };
            let ck = tree_leaves(prior)[k0];
            assert(ck != c);
            assert(child_wf(prior, num_pages, k0));
            assert(q[ck] == prior[ck]);
        }
    }
    assert(tree_leaf_lists(q) =~= lists);
}

/// The cells of lists in which one list took a cell are all cells of before
/// with that cell at its place; the same holds where the list was dealt out
/// to two lists in its place.
pub proof fn lemma_lists_insert(lists: Seq<Seq<Cell>>, i: int, j: int, cell: Cell)
    requires
        0 <= i < lists.len(),
        0 <= j <= lists[i].len(),
    ensures
        lists.update(i, lists[i].insert(j, cell)).flatten() == lists.flatten().insert(
            cells_before(lists, i).len() + j,
            cell,
        ),
        forall|cut: int|
            0 <= cut <= lists[i].len() + 1 ==> (lists.take(i) + seq![
                lists[i].insert(j, cell).take(cut),
                lists[i].insert(j, cell).skip(cut),
            ] + lists.skip(i + 1)).flatten() == lists.flatten().insert(
                cells_before(lists, i).len() + j,
                cell,
            ),
{
    let pre = cells_before(lists, i);
    let post = lists.skip(i + 1).flatten();
    let x = lists[i];
    let y = x.insert(j, cell);
    let grown = lists.update(i, y);
    lemma_flatten_around(lists, i);
    lemma_flatten_around(grown, i);
    assert(grown.take(i) =~= lists.take(i));
    assert(grown.skip(i + 1) =~= lists.skip(i + 1));
    assert(pre + y + post =~= (pre + x + post).insert(pre.len() + j, cell));
    assert forall|cut: int| 0 <= cut <= x.len() + 1 implies (lists.take(i) + seq![
        y.take(cut),
        y.skip(cut),
    ] + lists.skip(i + 1)).flatten() == lists.flatten().insert(pre.len() + j, cell) by {
        lemma_flatten_two_between(lists.take(i), y.take(cut), y.skip(cut), lists.skip(i + 1));
        assert(y.take(cut) + y.skip(cut) =~= y);
        assert(pre + y.take(cut) + y.skip(cut) + post =~= pre + y + post);
    }
}

/// The root that got the key `left_key` for its child `i`, where that child
/// has a cell, and then took in the child `new_page` with the key
/// `right_key`, is the root after child `i` was split.
pub proof fn lemma_root_after_split(
    r0: Seq<u8>,
    r1: Seq<u8>,
    r2: Seq<u8>,
    i: int,
    new_page: u32,
    left_key: u32,
    right_key: u32,
    right_max: u32,
)
    requires
        is_page(r0),
        node_type_of(r0) == NODE_INTERNAL,
        is_root_of(r0),
        internal_num_keys_of(r0) < 3,
        0 <= i <= internal_num_keys_of(r0),
        i < internal_num_keys_of(r0) ==> r1 == spec_put_u32(
            r0,
            spec_internal_cell_offset(i) + 4,
            left_key,
        ) && right_key <= right_max,
        i == internal_num_keys_of(r0) ==> r1 == r0 && right_key > right_max && right_max
            == left_key,
        parent_with_child(r1, r2, new_page, right_key, right_max, i + 1),
    ensures
        root_after_split(r0, r2, i, new_page, left_key, right_key),
{
    let n = internal_num_keys_of(r0) as int;
    if i < n {
        let off = spec_internal_cell_offset(i) + 4;
        lemma_put_agrees(r0, off, left_key);
        lemma_agree_internal(r1, r0, off, off + 4);
        crate::bytes::lemma_put_then_get(r0, off, left_key);
        assert(internal_key_of(r1, i) == left_key);
    }
    let b1 = internal_branches(r1);
    let b2 = internal_branches(r2);
    assert forall|k: int| 0 <= k < n implies #[trigger] b1[k] == internal_branch_of(r1, k) by {}
    assert forall|k: int| 0 <= k < n + 1 implies #[trigger] b2[k] == internal_branch_of(
        r2,
        k,
    ) by {}
    assert forall|k: int| 0 <= k <= n + 1 implies #[trigger] internal_child_of(r2, k) == if k
        <= i {
        internal_child_of(r0, k)
    } else if k == i + 1 {
        new_page
    } else {
        internal_child_of(r0, k - 1)
    } by {
        if k < n + 1 {
            assert(b2[k] == internal_branch_of(r2, k));
            if i < n {
                if k < i + 1 {
                    assert(b2[k] == b1[k]);
                } else if k > i + 1 {
                    assert(b2[k] == b1[k - 1]);
                }
            } else {
                if k < n {
                    assert(b2[k] == b1[k]);
                }
            }
        }
    }
    assert forall|k: int| 0 <= k < n + 1 implies #[trigger] internal_key_of(r2, k) == if k < i {
        internal_key_of(r0, k)
    } else if k == i {
        left_key
    } else if k == i + 1 {
        right_key
    } else {
        internal_key_of(r0, k - 1)
    } by {
        assert(b2[k] == internal_branch_of(r2, k));
        if i < n {
            if k < i + 1 {
                assert(b2[k] == b1[k]);
            } else if k > i + 1 {
                assert(b2[k] == b1[k - 1]);
            }
        } else {
            if k < n {
                assert(b2[k] == b1[k]);
            }
        }
    }
}

/// A leaf keeps its cells and its other fields when it gets a parent.
pub proof fn lemma_leaf_reparented(
    p: Seq<u8>,
    is_root: bool,
    parent: u32,
    next_leaf: u32,
    cells: Seq<Cell>,
    new_parent: u32,
)
    requires
        is_leaf_with(p, is_root, parent, next_leaf, cells),
        cells.len() <= 13,
    ensures
        is_leaf_with(spec_put_u32(p, 2, new_parent), is_root, new_parent, next_leaf, cells),
        is_leaf_with(p.update(1, 0u8), false, parent, next_leaf, cells),
{
    let a = spec_put_u32(p, 2, new_parent);
    lemma_put_agrees(p, 2, new_parent);
    crate::bytes::lemma_put_then_get(p, 2, new_parent);
    lemma_agree_leaf(a, p, 2, 6);
    assert(leaf_cells(a) =~= leaf_cells(p));
    let b = p.update(1, 0u8);
    lemma_agree_leaf(b, p, 1, 2);
    assert(leaf_cells(b) =~= leaf_cells(p));
}

/// In a tree with an internal root, the keys of the root rise, and the
/// largest key of child `i` has its place at `i`.
pub proof fn lemma_root_for_split(pages: Seq<Seq<u8>>, num_pages: int, i: int)
    requires
        tree_wf(pages, num_pages),
        node_type_of(pages[0]) != NODE_LEAF,
        0 <= i <= internal_num_keys_of(pages[0]),
    ensures
        internal_keys_ascending(pages[0]),
        is_child_index(pages[0], max_key_of(pages[internal_child_of(pages[0], i) as int]), i),
        internal_num_keys_of(pages[0]) > 0 ==> internal_key_of(
            pages[0],
            internal_num_keys_of(pages[0]) - 1,
        ) < max_key_of(pages[internal_right_child_of(pages[0]) as int]),
{
    let root = pages[0];
    let n = internal_num_keys_of(root) as int;
    assert forall|a: int, b: int| 0 <= a < b < n implies internal_key_of(root, a)
        < internal_key_of(root, b) by {
        lemma_root_keys(pages, num_pages, a, b);
    }
    assert(child_wf(pages, num_pages, n));
    assert(child_wf(pages, num_pages, n - 1));
    let right = pages[internal_child_of(root, n) as int];
    let cells = leaf_cells(right);
    assert(cells[0].key <= cells[leaf_num_cells_of(right) - 1].key) by {
        if leaf_num_cells_of(right) > 1 {
            assert(cells[0].key < cells[leaf_num_cells_of(right) - 1].key);
        }
    }
    assert(internal_key_of(root, n - 1) < max_key_of(right));
    assert(child_wf(pages, num_pages, i));
    let m = max_key_of(pages[internal_child_of(root, i) as int]);
    assert forall|k: int| 0 <= k < i implies internal_key_of(root, k) < m by {
        if i < n {
            assert(internal_key_of(root, k) < internal_key_of(root, i));
        } else if k < n - 1 {
            assert(internal_key_of(root, k) < internal_key_of(root, n - 1));
        }
    }
    assert forall|k: int| i <= k < n implies internal_key_of(root, k) >= m by {
        if k > i {
            assert(internal_key_of(root, i) < internal_key_of(root, k));
        }
    }
}

/// The root whose key for child `i` went down to `left_key`, still above
/// the key before, has rising keys, and the key that it had for child `i`
/// has its place behind child `i`.
pub proof fn lemma_root_key_lowered(r0: Seq<u8>, i: int, left_key: u32)
    requires
        is_page(r0),
        internal_num_keys_of(r0) <= 3,
        internal_keys_ascending(r0),
        0 <= i < internal_num_keys_of(r0),
        i > 0 ==> internal_key_of(r0, i - 1) < left_key,
        left_key < internal_key_of(r0, i),
    ensures
        ({
            let r1 = spec_put_u32(r0, spec_internal_cell_offset(i) + 4, left_key);
            &&& is_page(r1)
            &&& internal_keys_ascending(r1)
            &&& internal_num_keys_of(r1) == internal_num_keys_of(r0)
            &&& internal_right_child_of(r1) == internal_right_child_of(r0)
            &&& is_child_index(r1, internal_key_of(r0, i), i + 1)
        }),
{
    let off = spec_internal_cell_offset(i) + 4;
    let r1 = spec_put_u32(r0, off, left_key);
    lemma_put_agrees(r0, off, left_key);
    crate::bytes::lemma_put_then_get(r0, off, left_key);
    lemma_agree_internal(r1, r0, off, off + 4);
    assert(internal_key_of(r1, i) == left_key);
    assert forall|a: int, b: int| 0 <= a < b < internal_num_keys_of(r1) implies internal_key_of(
        r1,
        a,
    ) < internal_key_of(r1, b) by {
        if a != i {
            assert(internal_key_of(r1, a) == internal_key_of(r0, a));
        }
        if b != i {
            assert(internal_key_of(r1, b) == internal_key_of(r0, b));
        }
        if b == i && a < i - 1 {
            assert(internal_key_of(r0, a) < internal_key_of(r0, i - 1));
        }
        if a == i {
            assert(internal_key_of(r0, i) < internal_key_of(r0, b));
        }
    }
    assert forall|k: int| 0 <= k < i + 1 implies internal_key_of(r1, k) < internal_key_of(
        r0,
        i,
    ) by {
        if k < i {
            assert(internal_key_of(r1, k) == internal_key_of(r0, k));
        }
    }
    assert forall|k: int| i + 1 <= k < internal_num_keys_of(r1) implies internal_key_of(r1, k)
        >= internal_key_of(r0, i) by {
        assert(internal_key_of(r1, k) == internal_key_of(r0, k));
    }
}

} // verus!
