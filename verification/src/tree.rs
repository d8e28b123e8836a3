//! What the pages of a database mean: the tree, its leaves and its rows.
//!
//! No internal node is ever split, so a tree has at most two levels: the root
//! is a leaf, or an internal node whose children are leaves.

use vstd::prelude::*;
use vstd::seq_lib::lemma_flatten_concat;
use crate::node::{
    Cell, NODE_LEAF, NODE_INTERNAL, is_page, node_type_of, is_root_of, parent_of, leaf_num_cells_of,
    leaf_next_leaf_of, leaf_key_of, leaf_cells, internal_num_keys_of, internal_key_of,
    internal_child_of, max_key_of,
};

verus! {

/// The keys of the cells rise strictly.
pub open spec fn keys_ascending(cells: Seq<Cell>) -> bool {
    forall|i: int, j: int| 0 <= i < j < cells.len() ==> cells[i].key < cells[j].key
}

/// `pos` is the place of `key` among cells whose keys rise: every cell before
/// it has a smaller key, and every cell from it on has a key at least as
/// large.
pub open spec fn is_rank(cells: Seq<Cell>, key: u32, pos: int) -> bool {
    &&& 0 <= pos <= cells.len()
    &&& forall|i: int| 0 <= i < pos ==> cells[i].key < key
    &&& forall|i: int| pos <= i < cells.len() ==> cells[i].key >= key
}

/// Some cell has the key `key`.
pub open spec fn has_key(cells: Seq<Cell>, key: u32) -> bool {
    exists|i: int| 0 <= i < cells.len() && cells[i].key == key
}

/// A page that holds a leaf with room for its cells, whose keys rise.
pub open spec fn leaf_wf(p: Seq<u8>) -> bool {
    &&& is_page(p)
    &&& node_type_of(p) == NODE_LEAF
    &&& leaf_num_cells_of(p) <= 13
    &&& keys_ascending(leaf_cells(p))
}

/// The page numbers of the leaves of the tree, from left to right.
pub open spec fn tree_leaves(pages: Seq<Seq<u8>>) -> Seq<int> {
    if node_type_of(pages[0]) == NODE_LEAF {
        seq![0int]
    } else {
        Seq::new(
            internal_num_keys_of(pages[0]) as nat + 1,
            |i: int| internal_child_of(pages[0], i) as int,
        )
    }
}

/// The cells of each leaf of the tree, from left to right.
pub open spec fn tree_leaf_lists(pages: Seq<Seq<u8>>) -> Seq<Seq<Cell>> {
    Seq::new(tree_leaves(pages).len(), |i: int| leaf_cells(pages[tree_leaves(pages)[i]]))
}

/// All cells of the tree, leaf after leaf.
pub open spec fn tree_entries(pages: Seq<Seq<u8>>) -> Seq<Cell> {
    tree_leaf_lists(pages).flatten()
}

/// Child `i` of an internal root is a leaf of its own with at least one cell,
/// whose parent is the root. Its largest key is the root's key `i`, and is
/// smaller than every key of the next child, which is also its next leaf; the
/// right child has no next leaf.
pub open spec fn child_wf(pages: Seq<Seq<u8>>, num_pages: int, i: int) -> bool {
    let root = pages[0];
    let c = internal_child_of(root, i) as int;
    &&& 1 <= c < num_pages
    &&& leaf_wf(pages[c])
    &&& !is_root_of(pages[c])
    &&& parent_of(pages[c]) == 0
    &&& leaf_num_cells_of(pages[c]) >= 1
    &&& if i < internal_num_keys_of(root) {
        let next = internal_child_of(root, i + 1) as int;
        &&& leaf_next_leaf_of(pages[c]) == next
        &&& internal_key_of(root, i) == max_key_of(pages[c])
        &&& max_key_of(pages[c]) < leaf_key_of(pages[next], 0)
    } else {
        leaf_next_leaf_of(pages[c]) == 0
    }
}

/// The pages hold a tree: page 0 is the root and is marked so. It is a leaf
/// without a next leaf, or an internal node with one to three keys whose
/// children are leaves below `num_pages`, in the order of their keys.
pub open spec fn tree_wf(pages: Seq<Seq<u8>>, num_pages: int) -> bool {
    let root = pages[0];
    &&& pages.len() == 100
    &&& 1 <= num_pages <= 100
    &&& is_page(root)
    &&& is_root_of(root)
    &&& if node_type_of(root) == NODE_LEAF {
        leaf_wf(root) && leaf_next_leaf_of(root) == 0
    } else {
        &&& node_type_of(root) == NODE_INTERNAL
        &&& 1 <= internal_num_keys_of(root) <= 3
        &&& forall|i: int|
            0 <= i <= internal_num_keys_of(root) ==> #[trigger] child_wf(pages, num_pages, i)
    }
}

/// The lists are those of the leaves of a tree: the keys of each rise, and
/// where there are several, none is empty and each ends below the start of
/// the next.
pub open spec fn lists_ordered(lists: Seq<Seq<Cell>>) -> bool {
    &&& forall|i: int| 0 <= i < lists.len() ==> keys_ascending(#[trigger] lists[i])
    &&& lists.len() > 1 ==> forall|i: int| 0 <= i < lists.len() ==> (#[trigger] lists[i]).len() > 0
    &&& forall|i: int|
        0 <= i < lists.len() - 1 ==> (#[trigger] lists[i]).last().key < lists[i + 1].first().key
}

/// The cells of the lists before list `i`, and so, by its length, the place
/// of the first cell of list `i` among all cells.
pub open spec fn cells_before(lists: Seq<Seq<Cell>>, i: int) -> Seq<Cell> {
    lists.take(i).flatten()
}

/// All cells are those before list `i`, then list `i`, then those behind it.
pub proof fn lemma_flatten_around(lists: Seq<Seq<Cell>>, i: int)
    requires
        0 <= i < lists.len(),
    ensures
        lists.flatten() == cells_before(lists, i) + lists[i] + lists.skip(i + 1).flatten(),
{
    let pre = lists.take(i);
    let mid = seq![lists[i]];
    let post = lists.skip(i + 1);
    assert(lists =~= pre + mid + post);
    lemma_flatten_concat(pre + mid, post);
    lemma_flatten_concat(pre, mid);
    mid.lemma_flatten_one_element();
}

/// Two runs of lists side by side, with two lists between them, hold the
/// cells of the first run, of the two lists and of the second run.
pub proof fn lemma_flatten_two_between(
    pre: Seq<Seq<Cell>>,
    a: Seq<Cell>,
    b: Seq<Cell>,
    post: Seq<Seq<Cell>>,
)
    ensures
        (pre + seq![a, b] + post).flatten() == pre.flatten() + a + b + post.flatten(),
{
    lemma_flatten_concat(pre + seq![a, b], post);
    lemma_flatten_concat(pre, seq![a, b]);
    assert(seq![a, b] =~= seq![a] + seq![b]);
    lemma_flatten_concat(seq![a], seq![b]);
    seq![a].lemma_flatten_one_element();
    seq![b].lemma_flatten_one_element();
    assert(pre.flatten() + (a + b) + post.flatten() =~= pre.flatten() + a + b + post.flatten());
}

/// The cells of ordered lists rise, and where there is a list, end with the
/// last cell of the last list.
pub proof fn lemma_ordered_flatten(lists: Seq<Seq<Cell>>)
    requires
        lists_ordered(lists),
    ensures
        keys_ascending(lists.flatten()),
        lists.len() > 1 ==> lists.flatten().len() > 0 && lists.flatten().last()
            == lists.last().last(),
        lists.len() == 1 ==> lists.flatten() == lists[0],
    decreases lists.len(),
{
    if lists.len() == 0 {
        assert(lists.flatten() =~= Seq::empty());
    } else if lists.len() == 1 {
        lists.lemma_flatten_one_element();
        assert(lists.first() == lists[0]);
    } else {
        let front = lists.drop_last();
        let tail = lists.last();
        assert(lists =~= front.push(tail));
        front.lemma_flatten_push(tail);
        assert(lists_ordered(front)) by {
            assert forall|i: int| 0 <= i < front.len() implies keys_ascending(
                #[trigger] front[i],
            ) by {
                assert(front[i] == lists[i]);
            }
            assert forall|i: int| 0 <= i < front.len() implies (#[trigger] front[i]).len()
                > 0 by {
                assert(front[i] == lists[i]);
            }
            assert forall|i: int| 0 <= i < front.len() - 1 implies (#[trigger] front[i]).last().key
                < front[i + 1].first().key by {
                assert(front[i] == lists[i]);
                assert(front[i + 1] == lists[i + 1]);
            }
        }
        lemma_ordered_flatten(front);
        let f = front.flatten();
        let n = lists.len() as int;
        assert(lists[n - 2].last().key < lists[n - 1].first().key);
        assert(front.last() == lists[n - 2]);
        assert(f.len() > 0 && f.last() == lists[n - 2].last()) by {
            if front.len() == 1 {
                assert(f == front[0]);
                assert(lists[0].len() > 0);
            }
        }
        assert(keys_ascending(tail));
        assert(tail.len() > 0);
        let all = f + tail;
        assert forall|i: int, j: int| 0 <= i < j < all.len() implies all[i].key
            < all[j].key by {
            if j < f.len() {
            } else if i >= f.len() {
                assert(all[i] == tail[i - f.len()]);
                assert(all[j] == tail[j - f.len()]);
            } else {
                assert(all[j] == tail[j - f.len()]);
                assert(f[i].key <= f.last().key) by {
                    if i < f.len() - 1 {
                        assert(f[i].key < f[f.len() - 1].key);
                    }
                }
                assert(tail.first().key <= tail[j - f.len()].key) by {
                    if j - f.len() > 0 {
                        assert(tail[0].key < tail[j - f.len()].key);
                    }
                }
            }
        }
    }
}

/// The first lists of ordered lists are ordered.
pub proof fn lemma_ordered_take(lists: Seq<Seq<Cell>>, i: int)
    requires
        lists_ordered(lists),
        0 <= i <= lists.len(),
    ensures
        lists_ordered(lists.take(i)),
{
    let front = lists.take(i);
    assert forall|k: int| 0 <= k < front.len() implies keys_ascending(#[trigger] front[k]) by {
        assert(front[k] == lists[k]);
    }
    if front.len() > 1 {
        assert forall|k: int| 0 <= k < front.len() implies (#[trigger] front[k]).len() > 0 by {
            assert(front[k] == lists[k]);
        }
    }
    assert forall|k: int| 0 <= k < front.len() - 1 implies (#[trigger] front[k]).last().key
        < front[k + 1].first().key by {
        assert(front[k] == lists[k]);
        assert(front[k + 1] == lists[k + 1]);
    }
}

/// The cells before list `i + 1` are those before list `i`, then list `i`.
pub proof fn lemma_cells_before_next(lists: Seq<Seq<Cell>>, i: int)
    requires
        0 <= i < lists.len(),
    ensures
        cells_before(lists, i + 1) == cells_before(lists, i) + lists[i],
        cells_before(lists, 0) == Seq::<Cell>::empty(),
        cells_before(lists, lists.len() as int) == lists.flatten(),
{
    assert(lists.take(i + 1) =~= lists.take(i).push(lists[i]));
    lists.take(i).lemma_flatten_push(lists[i]);
    assert(lists.take(0) =~= Seq::<Seq<Cell>>::empty());
    assert(lists.take(lists.len() as int) =~= lists);
}

/// Where a key belongs in one list of ordered lists, it belongs among all
/// cells: if the lists before end below the key, and the place is on a cell or
/// the list is the last.
pub proof fn lemma_rank_in_lists(lists: Seq<Seq<Cell>>, i: int, j: int, key: u32)
    requires
        lists_ordered(lists),
        0 <= i < lists.len(),
        is_rank(lists[i], key, j),
        i > 0 ==> lists[i - 1].last().key < key,
        j < lists[i].len() || i == lists.len() - 1,
    ensures
        is_rank(lists.flatten(), key, cells_before(lists, i).len() + j),
        j < lists[i].len() ==> lists.flatten()[cells_before(lists, i).len() + j] == lists[i][j],
{
    let all = lists.flatten();
    let pre = cells_before(lists, i);
    let x = lists[i];
    let post = lists.skip(i + 1).flatten();
    let pos = pre.len() + j;
    lemma_flatten_around(lists, i);
    lemma_ordered_flatten(lists);
    assert(all == pre + x + post);
    if pos > 0 {
        assert(all[pos - 1].key < key) by {
            if j > 0 {
                assert(all[pos - 1] == x[j - 1]);
            } else {
                lemma_ordered_take(lists, i);
                lemma_ordered_flatten(lists.take(i));
                assert(lists.take(i).last() == lists[i - 1]);
                assert(lists.take(i)[0] == lists[0]);
                assert(lists[0].len() > 0);
                assert(pre.last() == lists[i - 1].last());
                assert(all[pos - 1] == pre.last());
            }
        }
    }
    if j < x.len() {
        assert(all[pos] == x[j]);
    } else {
        assert(lists.skip(i + 1) =~= Seq::<Seq<Cell>>::empty());
        assert(post =~= Seq::<Cell>::empty());
        assert(pos == all.len());
    }
    assert forall|k: int| 0 <= k < pos implies all[k].key < key by {
        if k < pos - 1 {
            assert(all[k].key < all[pos - 1].key);
        }
    }
    assert forall|k: int| pos <= k < all.len() implies all[k].key >= key by {
        if k > pos {
            assert(all[pos].key < all[k].key);
        }
    }
}

/// The leaves of a tree are ordered lists, one for each leaf, and no page is
/// a leaf twice.
pub proof fn lemma_tree_lists(pages: Seq<Seq<u8>>, num_pages: int)
    requires
        tree_wf(pages, num_pages),
    ensures
        lists_ordered(tree_leaf_lists(pages)),
        tree_leaf_lists(pages).len() == tree_leaves(pages).len(),
        1 <= tree_leaves(pages).len() <= 4,
        forall|i: int, j: int|
            0 <= i < j < tree_leaves(pages).len() ==> tree_leaves(pages)[i] != tree_leaves(
                pages,
            )[j],
        forall|i: int|
            0 <= i < tree_leaves(pages).len() ==> 0 <= #[trigger] tree_leaves(pages)[i]
                < num_pages && leaf_wf(pages[tree_leaves(pages)[i]]),
{
    let root = pages[0];
    let lists = tree_leaf_lists(pages);
    let leaves = tree_leaves(pages);
    if node_type_of(root) != NODE_LEAF {
        let n = internal_num_keys_of(root) as int;
        assert forall|i: int| 0 <= i < leaves.len() implies 0 <= #[trigger] leaves[i] < num_pages
            && leaf_wf(pages[leaves[i]]) && lists[i].len() > 0 && keys_ascending(lists[i]) by {
            assert(child_wf(pages, num_pages, i));
        }
        assert forall|i: int| 0 <= i < lists.len() - 1 implies (#[trigger] lists[i]).last().key
            < lists[i + 1].first().key by {
            assert(child_wf(pages, num_pages, i));
            assert(child_wf(pages, num_pages, i + 1));
        }
        assert forall|i: int, j: int| 0 <= i < j < leaves.len() implies leaves[i]
            != leaves[j] by {
            lemma_first_keys_rise(pages, num_pages, i, j);
        }
    }
}

/// In a tree with an internal root, the first keys of the children rise.
proof fn lemma_first_keys_rise(pages: Seq<Seq<u8>>, num_pages: int, i: int, j: int)
    requires
        tree_wf(pages, num_pages),
        node_type_of(pages[0]) != NODE_LEAF,
        0 <= i < j <= internal_num_keys_of(pages[0]),
    ensures
        leaf_key_of(pages[internal_child_of(pages[0], i) as int], 0) < leaf_key_of(
            pages[internal_child_of(pages[0], j) as int],
            0,
        ),
    decreases j - i,
{
    assert(child_wf(pages, num_pages, i));
    assert(child_wf(pages, num_pages, i + 1));
    let c = pages[internal_child_of(pages[0], i) as int];
    let cells = leaf_cells(c);
    assert(cells[0].key <= cells[leaf_num_cells_of(c) - 1].key) by {
        if leaf_num_cells_of(c) > 1 {
            assert(cells[0].key < cells[leaf_num_cells_of(c) - 1].key);
        }
    }
    if i + 1 < j {
        lemma_first_keys_rise(pages, num_pages, i + 1, j);
    }
}

/// Cell `j` of list `i` is the cell at its place among all cells.
pub proof fn lemma_index_in_lists(lists: Seq<Seq<Cell>>, i: int, j: int)
    requires
        0 <= i < lists.len(),
        0 <= j < lists[i].len(),
    ensures
        cells_before(lists, i).len() + j < lists.flatten().len(),
        lists.flatten()[cells_before(lists, i).len() + j] == lists[i][j],
{
    lemma_flatten_around(lists, i);
}

/// In ordered lists, only the first list starts at the first place, and all
/// cells together are none only where the first list is empty.
pub proof fn lemma_first_place(lists: Seq<Seq<Cell>>, i: int)
    requires
        lists_ordered(lists),
        0 <= i < lists.len(),
    ensures
        cells_before(lists, i).len() == 0 ==> i == 0,
        cells_before(lists, 0).len() == 0,
        lists[0].len() == 0 <==> lists.flatten().len() == 0,
{
    lemma_cells_before_next(lists, 0);
    lemma_flatten_around(lists, 0);
    if i > 0 {
        lemma_flatten_around(lists.take(i), 0);
        assert(lists.take(i)[0] == lists[0]);
        assert(lists.take(i).take(0) =~= lists.take(0));
    }
    if lists.len() == 1 {
        lemma_ordered_flatten(lists);
    }
}

/// Where a key that no cell has belongs among all cells of ordered lists,
/// at a place in list `i`, it belongs there in list `i`; the list before
/// ends below the key, and list `i` ends above it unless the place is behind
/// its last cell.
pub proof fn lemma_rank_local(lists: Seq<Seq<Cell>>, i: int, j: int, key: u32)
    requires
        lists_ordered(lists),
        0 <= i < lists.len(),
        0 <= j <= lists[i].len(),
        is_rank(lists.flatten(), key, cells_before(lists, i).len() + j),
        !has_key(lists.flatten(), key),
    ensures
        is_rank(lists[i], key, j),
        !has_key(lists[i], key),
        i > 0 ==> lists[i - 1].len() > 0 && lists[i - 1].last().key < key,
        j < lists[i].len() ==> key < lists[i].last().key,
{
    let all = lists.flatten();
    let pre = cells_before(lists, i);
    lemma_flatten_around(lists, i);
    assert forall|k: int| 0 <= k < lists[i].len() implies all[pre.len() + k] == lists[i][k] by {
        lemma_index_in_lists(lists, i, k);
    }
    assert forall|k: int| 0 <= k < j implies lists[i][k].key < key by {
        assert(all[pre.len() + k] == lists[i][k]);
    }
    assert forall|k: int| j <= k < lists[i].len() implies lists[i][k].key > key by {
        assert(all[pre.len() + k] == lists[i][k]);
        assert(all[pre.len() + k].key >= key);
    }
    if i > 0 {
        lemma_cells_before_next(lists, i - 1);
        let last = lists[i - 1].len() - 1;
        lemma_index_in_lists(lists, i - 1, last);
        assert(all[cells_before(lists, i - 1).len() + last] == lists[i - 1].last());
    }
    if j < lists[i].len() {
        assert(lists[i][lists[i].len() - 1].key > key);
    }
}

} // verus!
