//! Putting a row into the table: into a leaf that has room, or into a full
//! leaf that is split, with the new leaf hung into the root.

use vstd::prelude::*;
use crate::bytes::{spec_put_u32, copy_bytes, read_bytes};
use crate::btree::{Table, Cursor, internal_node_find_child};
use crate::internal::{
    is_child_index, internal_keys_ascending, internal_insert_branch,
    internal_replace_right_child, update_internal_node_key,
};
use crate::layout::{
    PAGE_SIZE, LEAF_NODE_MAX_CELLS, LEAF_NODE_LEFT_SPLIT_COUNT, LEAF_NODE_RIGHT_SPLIT_COUNT,
    LEAF_NODE_CELL_SIZE, layout_constants,
};
use crate::leaf::{write_leaf_cell, leaf_insert_cell, lemma_cell_copied};
use crate::node::{
    Branch, Cell, NODE_LEAF, NODE_INTERNAL, is_page, node_type_of, is_root_of, parent_of,
    leaf_num_cells_of, leaf_next_leaf_of, leaf_cell_of, leaf_cells, leaf_cell_in_page,
    spec_leaf_cell_offset, internal_num_keys_of, internal_right_child_of, internal_cell_child_of,
    internal_key_of, internal_child_of, internal_branches, internal_cell_in_page,
    spec_internal_cell_offset, max_key_of, agree_outside, lemma_agree_leaf, lemma_agree_internal,
    get_node_max_key, is_node_root, set_node_root, node_parent, set_node_parent,
    initialize_leaf_node, initialize_internal_node, leaf_node_num_cells, set_leaf_node_num_cells,
    leaf_node_next_leaf, set_leaf_node_next_leaf, leaf_node_cell, internal_node_num_keys,
    set_internal_node_num_keys, internal_node_right_child, set_internal_node_right_child,
    set_internal_node_child, set_internal_node_key,
};
use crate::pager::{get_page, read_page, get_unused_page_num};
use crate::row::Row;
use crate::split::{
    is_leaf_with, lemma_insert_ascending, lemma_leaf_root_grown, lemma_child_grown,
    lemma_root_split, lemma_child_split, lemma_lists_insert, lemma_root_after_split,
    lemma_leaf_reparented, lemma_root_for_split, lemma_root_key_lowered,
};
use crate::tree::{
    is_rank, has_key, keys_ascending, leaf_wf, tree_wf, child_wf, tree_leaves, lemma_tree_lists,
    lemma_rank_local,
};

verus! {

/// The node has a largest key that can be read: it is a leaf or an internal
/// node, and its last cell lies in the page.
pub open spec fn has_max_key(p: Seq<u8>) -> bool {
    &&& is_page(p)
    &&& node_type_of(p) == NODE_INTERNAL || node_type_of(p) == NODE_LEAF
    &&& node_type_of(p) == NODE_INTERNAL ==> internal_cell_in_page(internal_num_keys_of(p) - 1)
    &&& node_type_of(p) == NODE_LEAF ==> leaf_cell_in_page(leaf_num_cells_of(p) - 1)
}

/// The root after it was split: an internal node, marked as the root, with
/// one key, `key`, between the children `left` and `right`.
pub open spec fn is_new_root(p: Seq<u8>, left: u32, key: u32, right: u32) -> bool {
    &&& is_page(p)
    &&& node_type_of(p) == NODE_INTERNAL
    &&& is_root_of(p)
    &&& internal_num_keys_of(p) == 1
    &&& internal_cell_child_of(p, 0) == left
    &&& internal_key_of(p, 0) == key
    &&& internal_right_child_of(p) == right
}

/// The pages `q` are the pages `p` after the root at page `root` was split:
/// page `left` holds what the root held, no longer marked as the root, page
/// `root` is the new root above `left` and `right`, both of which have it as
/// their parent, and no other page differs.
pub open spec fn root_was_made(
    p: Seq<Seq<u8>>,
    q: Seq<Seq<u8>>,
    root: u32,
    left: u32,
    right: u32,
) -> bool {
    &&& q[left as int] == spec_put_u32(p[root as int].update(1, 0u8), 2, root)
    &&& q[right as int] == spec_put_u32(p[right as int], 2, root)
    &&& is_new_root(q[root as int], left, max_key_of(p[root as int]), right)
    &&& forall|n: int|
        0 <= n < 100 && n != root && n != right && n != left ==> q[n] == p[n]
}

/// The pages `q` are the pages `p` after the full leaf at `page` was split:
/// of `combined`, the first seven cells are in the leaf at `page` and the
/// other seven in a new leaf at `new_page`, which follows it in the chain of
/// leaves and has the same parent, and no other page differs.
pub open spec fn leaf_was_split(
    p: Seq<Seq<u8>>,
    q: Seq<Seq<u8>>,
    page: u32,
    new_page: u32,
    combined: Seq<Cell>,
) -> bool {
    let before = p[page as int];
    &&& is_leaf_with(
        q[page as int],
        is_root_of(before),
        parent_of(before),
        new_page,
        combined.take(7),
    )
    &&& is_leaf_with(
        q[new_page as int],
        false,
        parent_of(before),
        leaf_next_leaf_of(before),
        combined.skip(7),
    )
    &&& forall|m: int| 0 <= m < 100 && m != page && m != new_page ==> q[m] == p[m]
}

/// Splits the root: what it held goes to a new page and becomes the left
/// child, the page `right_child_page_num` becomes the right child, and the
/// root page becomes an internal node with these two children.
///
/// The new page gets the number that `num_pages` was, so the pager must have
/// a slot left.
pub fn create_new_root(table: &mut Table, right_child_page_num: u32)
    requires
        old(table).pager.wf(),
        old(table).root_page_num < old(table).pager.num_pages,
        right_child_page_num < old(table).pager.num_pages,
        right_child_page_num != old(table).root_page_num,
        old(table).pager.num_pages < 100,
        has_max_key(old(table).pager@[old(table).root_page_num as int]),
    ensures
        final(table).pager.wf(),
        final(table).root_page_num == old(table).root_page_num,
        final(table).pager.num_pages == old(table).pager.num_pages + 1,
        final(table).pager.file@ == old(table).pager.file@,
        root_was_made(
            old(table).pager@,
            final(table).pager@,
            old(table).root_page_num,
            old(table).pager.num_pages,
            right_child_page_num,
        ),
{
    let root_page_num = table.root_page_num;
    let root = read_page(&mut table.pager, root_page_num);
    let root_copy = read_bytes(root, 0, PAGE_SIZE as usize);
    assert(root_copy@ =~= old(table).pager@[root_page_num as int]);
    let left_child_page_num = get_unused_page_num(&table.pager);
    let left_child = get_page(&mut table.pager, left_child_page_num);
    // Left child has data copied from old root
    copy_bytes(left_child, 0, &root_copy, 0, PAGE_SIZE as usize);
    assert(left_child@ =~= root_copy@);
    set_node_root(left_child, false);
    let ghost left_unrooted = left_child@;
    let left_child_max_key = get_node_max_key(left_child);
    set_node_parent(left_child, root_page_num);
    proof {
        lemma_agree_leaf(left_unrooted, root_copy@, 1, 2);
        lemma_agree_internal(left_unrooted, root_copy@, 1, 2);
    }
    // Root node is a new internal node with one key and two children
    let root = get_page(&mut table.pager, root_page_num);
    let ghost r0 = root@;
    initialize_internal_node(root);
    let ghost r1 = root@;
    set_node_root(root, true);
    let ghost r2 = root@;
    set_internal_node_num_keys(root, 1);
    let ghost r3 = root@;
    set_internal_node_child(root, 0, left_child_page_num);
    let ghost r4 = root@;
    set_internal_node_key(root, 0, left_child_max_key);
    let ghost r5 = root@;
    set_internal_node_right_child(root, right_child_page_num);
    proof {
        lemma_agree_internal(r2, r1, 1, 2);
        lemma_agree_internal(r3, r2, 6, 10);
        lemma_agree_internal(r4, r3, 14, 18);
        lemma_agree_internal(r5, r4, 18, 22);
        lemma_agree_internal(root@, r5, 10, 14);
    }
    let right_child = get_page(&mut table.pager, right_child_page_num);
    set_node_parent(right_child, root_page_num);
}

/// The parent after it took in a child with the largest key `child_max`:
/// the child is the new right child where its key is above `right_max`, the
/// largest key of the right child, which then gets the last cell; else the
/// child gets a cell at the place of its key.
pub open spec fn parent_with_child(
    before: Seq<u8>,
    after: Seq<u8>,
    child: u32,
    child_max: u32,
    right_max: u32,
    index: int,
) -> bool {
    &&& is_page(after)
    &&& node_type_of(after) == node_type_of(before)
    &&& is_root_of(after) == is_root_of(before)
    &&& parent_of(after) == parent_of(before)
    &&& internal_num_keys_of(after) == internal_num_keys_of(before) + 1
    &&& if child_max > right_max {
        &&& internal_right_child_of(after) == child
        &&& internal_branches(after) == internal_branches(before).push(
            Branch { child: internal_right_child_of(before), key: right_max },
        )
    } else {
        &&& internal_right_child_of(after) == internal_right_child_of(before)
        &&& internal_branches(after) == internal_branches(before).insert(
            index,
            Branch { child, key: child_max },
        )
    }
}

/// Adds the child at `child_page_num` to the internal node at
/// `parent_page_num`, with the child's largest key.
///
/// The parent must have room for one more key: internal nodes are not split.
pub fn internal_node_insert(table: &mut Table, parent_page_num: u32, child_page_num: u32)
    requires
        old(table).pager.wf(),
        parent_page_num < old(table).pager.num_pages,
        child_page_num < old(table).pager.num_pages,
        parent_page_num != child_page_num,
        is_page(old(table).pager@[parent_page_num as int]),
        internal_num_keys_of(old(table).pager@[parent_page_num as int]) < 3,
        internal_keys_ascending(old(table).pager@[parent_page_num as int]),
        internal_right_child_of(old(table).pager@[parent_page_num as int]) < old(
            table,
        ).pager.num_pages,
        has_max_key(old(table).pager@[child_page_num as int]),
        has_max_key(
            old(table).pager@[internal_right_child_of(
                old(table).pager@[parent_page_num as int],
            ) as int],
        ),
    ensures
        final(table).pager.wf(),
        final(table).root_page_num == old(table).root_page_num,
        final(table).pager.num_pages == old(table).pager.num_pages,
        final(table).pager.file@ == old(table).pager.file@,
        forall|index: int|
            is_child_index(
                old(table).pager@[parent_page_num as int],
                max_key_of(old(table).pager@[child_page_num as int]),
                index,
            ) ==> parent_with_child(
                old(table).pager@[parent_page_num as int],
                final(table).pager@[parent_page_num as int],
                child_page_num,
                max_key_of(old(table).pager@[child_page_num as int]),
                max_key_of(
                    old(table).pager@[internal_right_child_of(
                        old(table).pager@[parent_page_num as int],
                    ) as int],
                ),
                index,
            ),
        forall|n: int|
            0 <= n < 100 && n != parent_page_num ==> final(table).pager@[n] == old(
                table,
            ).pager@[n],
{
    let child = read_page(&mut table.pager, child_page_num);
    let child_max_key = get_node_max_key(child);
    let parent = read_page(&mut table.pager, parent_page_num);
    let index = internal_node_find_child(parent, child_max_key);
    let original_num_keys = internal_node_num_keys(parent);
    let right_child_page_num = internal_node_right_child(parent);
    let right_child = read_page(&mut table.pager, right_child_page_num);
    let right_max_key = get_node_max_key(right_child);
    proof {
        let p = old(table).pager@[parent_page_num as int];
        assert(is_child_index(p, child_max_key, index as int));
        assert forall|other: int| is_child_index(p, child_max_key, other) implies other
            == index by {
            if other < index {
                assert(internal_key_of(p, other) < child_max_key);
            } else if other > index {
                assert(internal_key_of(p, index as int) < child_max_key);
            }
        }
    }
    let parent = get_page(&mut table.pager, parent_page_num);
    if child_max_key > right_max_key {
        // Replace right child
        internal_replace_right_child(parent, child_page_num, right_max_key);
    } else {
        internal_insert_branch(parent, index, child_page_num, child_max_key);
    }
}

/// Cell `k` of the cells of the leaf `snapshot` with `cell` put in at
/// `cell_num`.
pub open spec fn split_cell(snapshot: Seq<u8>, cell_num: int, cell: Cell, k: int) -> Cell {
    if k == cell_num {
        cell
    } else if k > cell_num {
        leaf_cell_of(snapshot, k - 1)
    } else {
        leaf_cell_of(snapshot, k)
    }
}

/// The cells `base..base + 7` above `done` stand in `page`, counted from its
/// first cell.
pub open spec fn dealt_out(
    page: Seq<u8>,
    snapshot: Seq<u8>,
    cell_num: int,
    cell: Cell,
    base: int,
    done: int,
) -> bool {
    forall|k: int|
        done < k && base <= k < base + 7 ==> #[trigger] leaf_cell_of(page, k - base) == split_cell(
            snapshot,
            cell_num,
            cell,
            k,
        )
}

impl Table {
    /// A leaf that is split finds the pages and the room in the root that
    /// the split needs: two pages where the root itself is the leaf, else
    /// one page and a free key in the root.
    pub open spec fn split_has_room(self) -> bool {
        if node_type_of(self.pager@[0]) == NODE_LEAF {
            self.pager.num_pages + 2 <= 100
        } else {
            internal_num_keys_of(self.pager@[0]) < 3 && self.pager.num_pages + 1 <= 100
        }
    }

    /// The cursor stands where `key`, which no cell has, belongs in the
    /// table: at its place among all cells, in the leaf that the search for
    /// the key ends in.
    pub open spec fn insert_place(self, cursor: Cursor, key: u32) -> bool {
        &&& self.wf()
        &&& self.cursor_wf(cursor)
        &&& is_rank(self@, key, self.position(cursor))
        &&& !has_key(self@, key)
        &&& cursor.cell_num < leaf_num_cells_of(self.pager@[cursor.page_num as int])
            || self.leaf_index(cursor.page_num) == self.leaves().len() - 1
    }
}

/// What holds of the leaf that a key belongs in, and of its neighbours.
pub proof fn lemma_insert_place(table: Table, cursor: Cursor, key: u32)
    requires
        table.insert_place(cursor, key),
    ensures
        ({
            let i = table.leaf_index(cursor.page_num);
            let pages = table.pager@;
            let leaf = pages[cursor.page_num as int];
            let n = table.leaves().len() - 1;
            &&& 0 <= i <= n <= 3
            &&& table.leaves()[i] == cursor.page_num
            &&& cursor.page_num < table.pager.num_pages
            &&& leaf_wf(leaf)
            &&& table.leaf_lists()[i] == leaf_cells(leaf)
            &&& is_rank(leaf_cells(leaf), key, cursor.cell_num as int)
            &&& !has_key(leaf_cells(leaf), key)
            &&& node_type_of(pages[0]) == NODE_LEAF ==> i == 0 && cursor.page_num == 0
            &&& node_type_of(pages[0]) != NODE_LEAF ==> {
                &&& n == internal_num_keys_of(pages[0])
                &&& cursor.page_num == internal_child_of(pages[0], i)
                &&& child_wf(pages, table.pager.num_pages as int, i)
                &&& i > 0 ==> max_key_of(pages[internal_child_of(pages[0], i - 1) as int]) < key
                &&& i < n ==> key < max_key_of(leaf)
            }
        }),
{
    let i = table.leaf_index(cursor.page_num);
    let pages = table.pager@;
    let num_pages = table.pager.num_pages as int;
    let lists = table.leaf_lists();
    lemma_tree_lists(pages, num_pages);
    lemma_rank_local(lists, i, cursor.cell_num as int, key);
    if node_type_of(pages[0]) != NODE_LEAF {
        assert(child_wf(pages, num_pages, i));
        if i > 0 {
            assert(child_wf(pages, num_pages, i - 1));
            let prev = pages[internal_child_of(pages[0], i - 1) as int];
            assert(lists[i - 1] == leaf_cells(prev));
            assert(leaf_cells(prev)[leaf_num_cells_of(prev) - 1] == lists[i - 1].last());
        }
        let leaf = pages[cursor.page_num as int];
        if i < table.leaves().len() - 1 {
            assert(leaf_cells(leaf)[leaf_num_cells_of(leaf) - 1] == lists[i].last());
        }
    }
}

/// Puts a key and a row into the leaf that the cursor stands on, at the
/// cursor's cell. A full leaf is split.
pub fn leaf_node_insert(table: &mut Table, cursor: &Cursor, key: u32, value: &Row)
    requires
        old(table).insert_place(*cursor, key),
        leaf_num_cells_of(old(table).pager@[cursor.page_num as int]) >= 13 ==> old(
            table,
        ).split_has_room(),
    ensures
        final(table).wf(),
        final(table).pager.file@ == old(table).pager.file@,
        final(table)@ == old(table)@.insert(
            old(table).position(*cursor),
            Cell { key, value: value.spec_bytes() },
        ),
        ({
            let i = old(table).leaf_index(cursor.page_num);
            let lists = old(table).leaf_lists();
            let grown = lists[i].insert(
                cursor.cell_num as int,
                Cell { key, value: value.spec_bytes() },
            );
            if leaf_num_cells_of(old(table).pager@[cursor.page_num as int]) < 13 {
                &&& final(table).leaf_lists() == lists.update(i, grown)
                &&& final(table).leaves() == old(table).leaves()
                &&& final(table).pager.num_pages == old(table).pager.num_pages
            } else {
                &&& split_result(
                    *old(table),
                    *final(table),
                    *cursor,
                    Cell { key, value: value.spec_bytes() },
                )
                &&& final(table).pager.num_pages == old(table).pager.num_pages + if node_type_of(
                    old(table).pager@[0],
                ) == NODE_LEAF {
                    2int
                } else {
                    1int
                }
            }
        }),
{
    proof {
        lemma_insert_place(*old(table), *cursor, key);
        layout_constants();
    }
    let node = read_page(&mut table.pager, cursor.page_num);
    let num_cells = leaf_node_num_cells(node);
    if num_cells >= LEAF_NODE_MAX_CELLS {
        // Node full
        leaf_node_split_and_insert(table, cursor, key, value);
        return ;
    }
    let node = get_page(&mut table.pager, cursor.page_num);
    leaf_insert_cell(node, cursor.cell_num, key, value);
    proof {
        let prior = old(table).pager@;
        let q = table.pager@;
        let num_pages = old(table).pager.num_pages as int;
        let i = old(table).leaf_index(cursor.page_num);
        let cell = Cell { key, value: value.spec_bytes() };
        let leaf = prior[cursor.page_num as int];
        let combined = leaf_cells(leaf).insert(cursor.cell_num as int, cell);
        lemma_insert_ascending(leaf_cells(leaf), cursor.cell_num as int, cell);
        lemma_lists_insert(old(table).leaf_lists(), i, cursor.cell_num as int, cell);
        if node_type_of(prior[0]) == NODE_LEAF {
            lemma_leaf_root_grown(prior, q, num_pages, combined);
            assert(seq![combined] =~= old(table).leaf_lists().update(i, combined));
        } else {
            lemma_place_in_child(*old(table), *cursor, cell);
            lemma_child_grown(prior, q, num_pages, i, combined);
        }
    }
}

/// The cells of a child of the root with one more cell, at the place that
/// its key belongs in, start above the child before and end with the key of
/// the child in the root.
proof fn lemma_place_in_child(table: Table, cursor: Cursor, cell: Cell)
    requires
        table.insert_place(cursor, cell.key),
        node_type_of(table.pager@[0]) != NODE_LEAF,
    ensures
        ({
            let pages = table.pager@;
            let i = table.leaf_index(cursor.page_num);
            let leaf = pages[cursor.page_num as int];
            let combined = leaf_cells(leaf).insert(cursor.cell_num as int, cell);
            &&& i > 0 ==> max_key_of(pages[internal_child_of(pages[0], i - 1) as int])
                < combined[0].key
            &&& i < internal_num_keys_of(pages[0]) ==> combined.last().key == internal_key_of(
                pages[0],
                i,
            )
            &&& combined.len() == leaf_num_cells_of(leaf) + 1
            &&& keys_ascending(combined)
        }),
{
    let pages = table.pager@;
    let num_pages = table.pager.num_pages as int;
    let i = table.leaf_index(cursor.page_num);
    let leaf = pages[cursor.page_num as int];
    let cells = leaf_cells(leaf);
    let combined = cells.insert(cursor.cell_num as int, cell);
    lemma_insert_place(table, cursor, cell.key);
    lemma_insert_ascending(cells, cursor.cell_num as int, cell);
    if i > 0 {
        assert(child_wf(pages, num_pages, i - 1));
        if cursor.cell_num > 0 {
            assert(combined[0] == cells[0]);
        }
    }
    if i < internal_num_keys_of(pages[0]) {
        assert(cells[cells.len() - 1].key > cell.key);
        assert(combined.last() == cells[cells.len() - 1]);
    }
}

/// Deals the cells of the full leaf that the cursor stands on, and one new
/// cell at the cursor's place, out to that leaf and to a new leaf behind it:
/// the first seven stay, the other seven go to the new leaf, which gets the
/// page number that is returned and takes the place behind the old leaf in
/// the chain of leaves.
pub fn leaf_node_split(table: &mut Table, cursor: &Cursor, key: u32, value: &Row) -> (new_page_num:
    u32)
    requires
        old(table).pager.wf(),
        cursor.page_num < old(table).pager.num_pages,
        old(table).pager.num_pages < 100,
        node_type_of(old(table).pager@[cursor.page_num as int]) == NODE_LEAF,
        leaf_num_cells_of(old(table).pager@[cursor.page_num as int]) == 13,
        cursor.cell_num <= 13,
    ensures
        final(table).pager.wf(),
        final(table).pager.file@ == old(table).pager.file@,
        final(table).root_page_num == old(table).root_page_num,
        new_page_num == old(table).pager.num_pages,
        final(table).pager.num_pages == old(table).pager.num_pages + 1,
        leaf_was_split(
            old(table).pager@,
            final(table).pager@,
            cursor.page_num,
            new_page_num,
            leaf_cells(old(table).pager@[cursor.page_num as int]).insert(
                cursor.cell_num as int,
                Cell { key, value: value.spec_bytes() },
            ),
        ),
{
    proof {
        layout_constants();
    }
    let old_page_num = cursor.page_num;
    let old_node = read_page(&mut table.pager, old_page_num);
    let snapshot = read_bytes(old_node, 0, PAGE_SIZE as usize);
    assert(snapshot@ =~= old(table).pager@[old_page_num as int]);
    let old_parent = node_parent(old_node);
    let old_next_leaf = leaf_node_next_leaf(old_node);
    let new_page_num = get_unused_page_num(&table.pager);
    let new_node = get_page(&mut table.pager, new_page_num);
    initialize_leaf_node(new_node);
    let ghost n1 = new_node@;
    set_node_parent(new_node, old_parent);
    let ghost n2 = new_node@;
    set_leaf_node_next_leaf(new_node, old_next_leaf);
    let ghost new_head = new_node@;
    proof {
        lemma_agree_leaf(n2, n1, 2, 6);
        lemma_agree_leaf(new_head, n2, 10, 14);
    }
    let old_node = get_page(&mut table.pager, old_page_num);
    set_leaf_node_next_leaf(old_node, new_page_num);
    let ghost old_head = old_node@;
    proof {
        lemma_agree_leaf(old_head, snapshot@, 10, 14);
    }
    let ghost cell = Cell { key, value: value.spec_bytes() };
    // All existing keys plus the new key are divided evenly between the old
    // (left) and the new (right) node. Starting from the right, each cell is
    // moved to its place.
    let mut i: i32 = LEAF_NODE_MAX_CELLS as i32;
    while i >= 0
        invariant
            -1 <= i <= 13,
            LEAF_NODE_LEFT_SPLIT_COUNT == 7,
            LEAF_NODE_CELL_SIZE == 297,
            old_page_num == cursor.page_num,
            old_page_num < new_page_num < 100,
            cursor.cell_num <= 13,
            is_page(snapshot@),
            is_page(old_head),
            is_page(new_head),
            table.pager.wf(),
            table.pager.file@ == old(table).pager.file@,
            table.root_page_num == old(table).root_page_num,
            table.pager.num_pages == new_page_num + 1,
            cell == (Cell { key, value: value.spec_bytes() }),
            agree_outside(table.pager@[old_page_num as int], old_head, 14, 4096),
            agree_outside(table.pager@[new_page_num as int], new_head, 14, 4096),
            dealt_out(
                table.pager@[old_page_num as int],
                snapshot@,
                cursor.cell_num as int,
                cell,
                0,
                i as int,
            ),
            dealt_out(
                table.pager@[new_page_num as int],
                snapshot@,
                cursor.cell_num as int,
                cell,
                7,
                i as int,
            ),
            forall|m: int|
                0 <= m < 100 && m != old_page_num && m != new_page_num ==> table.pager@[m] == old(
                    table,
                ).pager@[m],
        decreases i + 1,
    {
        let ghost before = table.pager@;
        let destination_page_num = if i as u32 >= LEAF_NODE_LEFT_SPLIT_COUNT {
            new_page_num
        } else {
            old_page_num
        };
        let index_within_node: u32 = i as u32 % LEAF_NODE_LEFT_SPLIT_COUNT;
        let destination_node = get_page(&mut table.pager, destination_page_num);
        let ghost d0 = destination_node@;
        if i as u32 == cursor.cell_num {
            write_leaf_cell(destination_node, index_within_node, key, value);
        } else if i as u32 > cursor.cell_num {
            copy_bytes(
                destination_node,
                leaf_node_cell(index_within_node),
                &snapshot,
                leaf_node_cell((i - 1) as u32),
                LEAF_NODE_CELL_SIZE as usize,
            );
            proof {
                lemma_cell_copied(d0, index_within_node as int, snapshot@, i - 1);
            }
        } else {
            copy_bytes(
                destination_node,
                leaf_node_cell(index_within_node),
                &snapshot,
                leaf_node_cell(i as u32),
                LEAF_NODE_CELL_SIZE as usize,
            );
            proof {
                lemma_cell_copied(d0, index_within_node as int, snapshot@, i as int);
            }
        }
        proof {
            let d1 = destination_node@;
            let off = spec_leaf_cell_offset(index_within_node as int);
            let base: int = if i >= 7 { 7 } else { 0 };
            assert(index_within_node == i - base);
            lemma_agree_leaf(d1, d0, off, off + 297);
            assert(leaf_cell_of(d1, index_within_node as int) == split_cell(
                snapshot@,
                cursor.cell_num as int,
                cell,
                i as int,
            ));
            assert forall|k: int| i - 1 < k && base <= k < base + 7 implies #[trigger] leaf_cell_of(
                d1,
                k - base,
            ) == split_cell(snapshot@, cursor.cell_num as int, cell, k) by {
                if k != i {
                    assert(leaf_cell_of(d1, k - base) == leaf_cell_of(d0, k - base));
                }
            }
        }
        i -= 1;
    }
    // Update cell count on both leaf nodes
    let ghost dealt = table.pager@;
    let old_node = get_page(&mut table.pager, old_page_num);
    set_leaf_node_num_cells(old_node, LEAF_NODE_LEFT_SPLIT_COUNT);
    let new_node = get_page(&mut table.pager, new_page_num);
    set_leaf_node_num_cells(new_node, LEAF_NODE_RIGHT_SPLIT_COUNT);
    proof {
        let before = old(table).pager@[cursor.page_num as int];
        let combined = leaf_cells(before).insert(cursor.cell_num as int, cell);
        let left = table.pager@[old_page_num as int];
        let right = table.pager@[new_page_num as int];
        lemma_agree_leaf(dealt[old_page_num as int], old_head, 14, 4096);
        lemma_agree_leaf(dealt[new_page_num as int], new_head, 14, 4096);
        lemma_agree_leaf(left, dealt[old_page_num as int], 6, 10);
        lemma_agree_leaf(right, dealt[new_page_num as int], 6, 10);
        assert forall|k: int| 0 <= k < 7 implies #[trigger] leaf_cells(left)[k]
            == combined.take(7)[k] by {
            assert(leaf_cell_of(dealt[old_page_num as int], k - 0) == split_cell(
                snapshot@,
                cursor.cell_num as int,
                cell,
                k,
            ));
        }
        assert forall|k: int| 0 <= k < 7 implies #[trigger] leaf_cells(right)[k]
            == combined.skip(7)[k] by {
            assert(leaf_cell_of(dealt[new_page_num as int], (k + 7) - 7) == split_cell(
                snapshot@,
                cursor.cell_num as int,
                cell,
                k + 7,
            ));
        }
        assert(leaf_cells(left) =~= combined.take(7));
        assert(leaf_cells(right) =~= combined.skip(7));
    }
    new_page_num
}

/// What the split of a leaf leaves behind.
pub open spec fn split_result(before: Table, after: Table, cursor: Cursor, cell: Cell) -> bool {
    let i = before.leaf_index(cursor.page_num);
    let lists = before.leaf_lists();
    let grown = lists[i].insert(cursor.cell_num as int, cell);
    &&& tree_wf(after.pager@, after.pager.num_pages as int)
    &&& after@ == before@.insert(before.position(cursor), cell)
    &&& after.leaf_lists() == lists.take(i) + seq![grown.take(7), grown.skip(7)] + lists.skip(
        i + 1,
    )
    &&& after.leaves() == if node_type_of(before.pager@[0]) == NODE_LEAF {
        seq![before.pager.num_pages + 1, before.pager.num_pages as int]
    } else {
        before.leaves().insert(i + 1, before.pager.num_pages as int)
    }
}

/// A full root leaf that was split, and got a new root above the two
/// leaves, is a tree that holds one cell more.
proof fn lemma_split_of_root(
    before: Table,
    after: Table,
    cursor: Cursor,
    cell: Cell,
    halved: Seq<Seq<u8>>,
)
    requires
        before.insert_place(cursor, cell.key),
        leaf_num_cells_of(before.pager@[cursor.page_num as int]) == 13,
        before.split_has_room(),
        is_root_of(before.pager@[cursor.page_num as int]),
        after.pager@.len() == 100,
        after.pager.num_pages == before.pager.num_pages + 2,
        leaf_was_split(
            before.pager@,
            halved,
            cursor.page_num,
            before.pager.num_pages,
            leaf_cells(before.pager@[cursor.page_num as int]).insert(cursor.cell_num as int, cell),
        ),
        root_was_made(
            halved,
            after.pager@,
            0,
            (before.pager.num_pages + 1) as u32,
            before.pager.num_pages,
        ),
    ensures
        split_result(before, after, cursor, cell),
        node_type_of(before.pager@[0]) == NODE_LEAF,
{
    let prior = before.pager@;
    let q = after.pager@;
    let num_pages = before.pager.num_pages as int;
    let i = before.leaf_index(cursor.page_num);
    let leaf = prior[cursor.page_num as int];
    let combined = leaf_cells(leaf).insert(cursor.cell_num as int, cell);
    lemma_insert_place(before, cursor, cell.key);
    if node_type_of(prior[0]) != NODE_LEAF {
        assert(child_wf(prior, num_pages, i));
    }
    lemma_insert_ascending(leaf_cells(leaf), cursor.cell_num as int, cell);
    lemma_lists_insert(before.leaf_lists(), i, cursor.cell_num as int, cell);
    assert(combined[6] == combined.take(7)[6]);
    assert(leaf_cells(halved[0])[6] == combined.take(7)[6]);
    lemma_leaf_reparented(halved[0], true, parent_of(leaf), num_pages as u32, combined.take(7), 0);
    lemma_leaf_reparented(
        halved[0].update(1, 0u8),
        false,
        parent_of(leaf),
        num_pages as u32,
        combined.take(7),
        0,
    );
    lemma_leaf_reparented(halved[num_pages], false, parent_of(leaf), 0, combined.skip(7), 0);
    lemma_root_split(prior, q, num_pages, num_pages + 1, num_pages, combined);
    assert(before.leaf_lists().take(0) =~= Seq::<Seq<Cell>>::empty());
    assert(before.leaf_lists().skip(1) =~= Seq::<Seq<Cell>>::empty());
    assert(seq![combined.take(7), combined.skip(7)] =~= before.leaf_lists().take(0) + seq![
        combined.take(7),
        combined.skip(7),
    ] + before.leaf_lists().skip(1));
}

/// A full child of the root that was split, after the root got the new
/// largest key of the child and took in the new leaf, is a tree that holds
/// one cell more.
proof fn lemma_split_of_child(
    before: Table,
    after: Table,
    cursor: Cursor,
    cell: Cell,
    halved: Seq<Seq<u8>>,
    keyed: Seq<Seq<u8>>,
)
    requires
        before.insert_place(cursor, cell.key),
        leaf_num_cells_of(before.pager@[cursor.page_num as int]) == 13,
        before.split_has_room(),
        !is_root_of(before.pager@[cursor.page_num as int]),
        after.pager@.len() == 100,
        keyed.len() == 100,
        after.pager.num_pages == before.pager.num_pages + 1,
        leaf_was_split(
            before.pager@,
            halved,
            cursor.page_num,
            before.pager.num_pages,
            leaf_cells(before.pager@[cursor.page_num as int]).insert(cursor.cell_num as int, cell),
        ),
        forall|index: int|
            is_child_index(halved[0], max_key_of(before.pager@[cursor.page_num as int]), index)
                ==> keyed[0] == if index < internal_num_keys_of(halved[0]) {
                spec_put_u32(
                    halved[0],
                    spec_internal_cell_offset(index) + 4,
                    max_key_of(halved[cursor.page_num as int]),
                )
            } else {
                halved[0]
            },
        forall|m: int| 0 < m < 100 ==> keyed[m] == halved[m],
        forall|index: int|
            is_child_index(keyed[0], max_key_of(keyed[before.pager.num_pages as int]), index)
                ==> parent_with_child(
                keyed[0],
                after.pager@[0],
                before.pager.num_pages,
                max_key_of(keyed[before.pager.num_pages as int]),
                max_key_of(keyed[internal_right_child_of(keyed[0]) as int]),
                index,
            ),
        forall|m: int| 0 < m < 100 ==> after.pager@[m] == keyed[m],
    ensures
        split_result(before, after, cursor, cell),
        node_type_of(before.pager@[0]) != NODE_LEAF,
{
    let prior = before.pager@;
    let q = after.pager@;
    let num_pages = before.pager.num_pages as int;
    let i = before.leaf_index(cursor.page_num);
    let leaf = prior[cursor.page_num as int];
    let cells = leaf_cells(leaf);
    let combined = cells.insert(cursor.cell_num as int, cell);
    let n = internal_num_keys_of(prior[0]) as int;
    let right = internal_right_child_of(prior[0]) as int;
    let old_max = max_key_of(leaf);
    let new_max = max_key_of(halved[cursor.page_num as int]);
    lemma_insert_place(before, cursor, cell.key);
    lemma_place_in_child(before, cursor, cell);
    lemma_lists_insert(before.leaf_lists(), i, cursor.cell_num as int, cell);
    lemma_root_for_split(prior, num_pages, i);
    lemma_tree_lists(prior, num_pages);
    assert(combined[6] == combined.take(7)[6]);
    assert(combined[13] == combined.skip(7)[6]);
    assert(combined[0] == combined.take(7)[0]);
    assert(combined[7] == combined.skip(7)[0]);
    assert(leaf_cells(halved[cursor.page_num as int])[6] == combined.take(7)[6]);
    assert(leaf_cells(halved[num_pages])[6] == combined.skip(7)[6]);
    assert(new_max == combined[6].key);
    assert(max_key_of(keyed[num_pages]) == combined[13].key);
    assert(halved[0] == prior[0]);
    assert(child_wf(prior, num_pages, i));
    assert(child_wf(prior, num_pages, n));
    assert(internal_child_of(prior[0], n) == right);
    assert(tree_leaves(prior)[n] == right);
    assert(tree_leaves(prior)[i] == cursor.page_num);
    assert(combined[13].key >= old_max) by {
        if cursor.cell_num < 13 {
            assert(combined[13] == cells[12]);
        } else {
            assert(cells[12].key < cell.key);
        }
    }
    assert(is_child_index(prior[0], old_max, i));
    if i < n {
        assert(combined[6].key < combined[13].key);
        if i > 0 {
            assert(child_wf(prior, num_pages, i - 1));
            assert(combined[0].key <= combined[6].key) by {
                assert(combined[0].key < combined[6].key);
            }
        }
        lemma_root_key_lowered(prior[0], i, new_max);
        assert(right != cursor.page_num);
        assert(keyed[right] == prior[right]);
        assert(internal_right_child_of(keyed[0]) == right);
        assert(is_child_index(keyed[0], combined[13].key, i + 1));
        assert(combined[13].key <= max_key_of(keyed[right]));
    } else {
        assert(keyed[0] == prior[0]);
        assert(right == cursor.page_num);
        assert(is_child_index(keyed[0], combined[13].key, n));
        assert(max_key_of(keyed[right]) == combined[6].key);
    }
    let right_max = max_key_of(keyed[right]);
    assert(parent_with_child(keyed[0], q[0], num_pages as u32, combined[13].key, right_max, i + 1));
    lemma_root_after_split(
        prior[0],
        keyed[0],
        q[0],
        i,
        num_pages as u32,
        combined[6].key,
        combined[13].key,
        right_max,
    );
    lemma_child_split(prior, q, num_pages, i, combined);
}

/// Splits the full leaf that the cursor stands on and puts a key and a row
/// in at the cursor's place: the cells are dealt out to the old leaf and a
/// new leaf behind it. Where the old leaf was the root, a new root is made
/// above the two; else the root gets the new largest key of the old leaf and
/// takes in the new leaf.
pub fn leaf_node_split_and_insert(table: &mut Table, cursor: &Cursor, key: u32, value: &Row)
    requires
        old(table).insert_place(*cursor, key),
        leaf_num_cells_of(old(table).pager@[cursor.page_num as int]) == 13,
        old(table).split_has_room(),
    ensures
        final(table).wf(),
        final(table).pager.file@ == old(table).pager.file@,
        final(table).pager.num_pages == old(table).pager.num_pages + if node_type_of(
            old(table).pager@[0],
        ) == NODE_LEAF {
            2int
        } else {
            1int
        },
        split_result(*old(table), *final(table), *cursor, Cell { key, value: value.spec_bytes() }),
{
    let ghost cell = Cell { key, value: value.spec_bytes() };
    proof {
        lemma_insert_place(*old(table), *cursor, key);
        if node_type_of(old(table).pager@[0]) != NODE_LEAF {
            assert(child_wf(
                old(table).pager@,
                old(table).pager.num_pages as int,
                old(table).leaf_index(cursor.page_num),
            ));
        }
    }
    let old_node = read_page(&mut table.pager, cursor.page_num);
    let old_max = get_node_max_key(old_node);
    let new_page_num = leaf_node_split(table, cursor, key, value);
    let ghost halved = table.pager@;
    let old_node = read_page(&mut table.pager, cursor.page_num);
    if is_node_root(old_node) {
        create_new_root(table, new_page_num);
        proof {
            lemma_split_of_root(*old(table), *table, *cursor, cell, halved);
        }
    } else {
        let parent_page_num = node_parent(old_node);
        let new_max = get_node_max_key(old_node);
        proof {
            lemma_root_for_split(
                old(table).pager@,
                old(table).pager.num_pages as int,
                old(table).leaf_index(cursor.page_num),
            );
        }
        let parent = get_page(&mut table.pager, parent_page_num);
        update_internal_node_key(parent, old_max, new_max);
        let ghost keyed = table.pager@;
        proof {
            lemma_split_requires(*old(table), *cursor, cell, halved, keyed);
        }
        internal_node_insert(table, parent_page_num, new_page_num);
        proof {
            lemma_split_of_child(*old(table), *table, *cursor, cell, halved, keyed);
        }
    }
}

/// After the root got the new largest key of a child that was split, it can
/// take in the new leaf.
proof fn lemma_split_requires(
    before: Table,
    cursor: Cursor,
    cell: Cell,
    halved: Seq<Seq<u8>>,
    keyed: Seq<Seq<u8>>,
)
    requires
        before.insert_place(cursor, cell.key),
        leaf_num_cells_of(before.pager@[cursor.page_num as int]) == 13,
        before.split_has_room(),
        !is_root_of(before.pager@[cursor.page_num as int]),
        keyed.len() == 100,
        leaf_was_split(
            before.pager@,
            halved,
            cursor.page_num,
            before.pager.num_pages,
            leaf_cells(before.pager@[cursor.page_num as int]).insert(cursor.cell_num as int, cell),
        ),
        forall|index: int|
            is_child_index(halved[0], max_key_of(before.pager@[cursor.page_num as int]), index)
                ==> keyed[0] == if index < internal_num_keys_of(halved[0]) {
                spec_put_u32(
                    halved[0],
                    spec_internal_cell_offset(index) + 4,
                    max_key_of(halved[cursor.page_num as int]),
                )
            } else {
                halved[0]
            },
        forall|m: int| 0 < m < 100 ==> keyed[m] == halved[m],
    ensures
        is_page(keyed[0]),
        internal_num_keys_of(keyed[0]) < 3,
        internal_keys_ascending(keyed[0]),
        internal_right_child_of(keyed[0]) < before.pager.num_pages,
        has_max_key(keyed[before.pager.num_pages as int]),
        has_max_key(keyed[internal_right_child_of(keyed[0]) as int]),
{
    let prior = before.pager@;
    let num_pages = before.pager.num_pages as int;
    let i = before.leaf_index(cursor.page_num);
    let leaf = prior[cursor.page_num as int];
    let cells = leaf_cells(leaf);
    let combined = cells.insert(cursor.cell_num as int, cell);
    let n = internal_num_keys_of(prior[0]) as int;
    let right = internal_right_child_of(prior[0]) as int;
    lemma_insert_place(before, cursor, cell.key);
    lemma_place_in_child(before, cursor, cell);
    lemma_root_for_split(prior, num_pages, i);
    lemma_tree_lists(prior, num_pages);
    assert(halved[0] == prior[0]);
    assert(child_wf(prior, num_pages, i));
    assert(child_wf(prior, num_pages, n));
    assert(internal_child_of(prior[0], n) == right);
    assert(tree_leaves(prior)[n] == right);
    assert(tree_leaves(prior)[i] == cursor.page_num);
    assert(combined[6] == combined.take(7)[6]);
    assert(combined[0] == combined.take(7)[0]);
    assert(leaf_cells(halved[cursor.page_num as int])[6] == combined.take(7)[6]);
    assert(is_child_index(prior[0], max_key_of(leaf), i));
    if i < n {
        assert(combined[13] == cells[12]);
        assert(combined[6].key < combined[13].key);
        if i > 0 {
            assert(child_wf(prior, num_pages, i - 1));
            assert(combined[0].key < combined[6].key);
        }
        lemma_root_key_lowered(prior[0], i, max_key_of(halved[cursor.page_num as int]));
        assert(right != cursor.page_num);
    } else {
        assert(keyed[0] == prior[0]);
    }
}

} // verus!
