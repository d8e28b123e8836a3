//! The table and its cursor: finding a key and walking the rows in order.

use vstd::prelude::*;
use crate::node::{
    Cell, NODE_LEAF, NODE_INTERNAL, is_page, node_type_of, leaf_num_cells_of, leaf_next_leaf_of,
    leaf_value_of, leaf_cells, internal_num_keys_of, internal_key_of, internal_child_of,
    get_node_type, leaf_node_num_cells, leaf_node_next_leaf, leaf_node_key, leaf_node_value,
    internal_node_num_keys, internal_node_key, internal_node_child,
};
use crate::bytes::read_bytes;
use crate::internal::{spec_find_child, spec_bisect, is_child_index, lemma_find_child};
use crate::split::lemma_root_for_split;
use crate::layout::ROW_SIZE;
use crate::pager::{Pager, read_page};
use crate::tree::{
    is_rank, leaf_wf, tree_wf, tree_leaves, tree_leaf_lists, tree_entries, cells_before, child_wf,
    lemma_tree_lists, lemma_rank_in_lists, lemma_index_in_lists, lemma_first_place,
    lemma_cells_before_next, lemma_flatten_around,
};

verus! {

/// A table: the pager of its file, and the page number of the root of its
/// tree, which is always 0.
pub struct Table {
    pub pager: Pager,
    pub root_page_num: u32,
}

/// A place in the table: a cell of a leaf, or the end of the table.
#[derive(Clone, Copy, Debug)]
pub struct Cursor {
    pub page_num: u32,
    pub cell_num: u32,
    pub end_of_table: bool,
}

impl Table {
    /// The pager is in order and its pages hold a tree with the root at page 0.
    pub open spec fn wf(self) -> bool {
        &&& self.pager.wf()
        &&& self.root_page_num == 0
        &&& tree_wf(self.pager@, self.pager.num_pages as int)
    }

    /// The cells of the table in the order of their keys.
    pub open spec fn view(self) -> Seq<Cell> {
        tree_entries(self.pager@)
    }

    /// The page numbers of the leaves, from left to right.
    pub open spec fn leaves(self) -> Seq<int> {
        tree_leaves(self.pager@)
    }

    /// The cells of each leaf, from left to right.
    pub open spec fn leaf_lists(self) -> Seq<Seq<Cell>> {
        tree_leaf_lists(self.pager@)
    }

    /// The table holds the same pages as `other`, in a pager that is in
    /// order: at most the cache differs.
    pub open spec fn same_pages(self, other: Table) -> bool {
        &&& self.pager.wf()
        &&& self.pager@ == other.pager@
        &&& self.pager.num_pages == other.pager.num_pages
        &&& self.pager.file@ == other.pager.file@
        &&& self.root_page_num == other.root_page_num
    }

    /// The page of the leaf that should hold `key`: the root where it is a
    /// leaf, else the child of the root that should hold the key.
    pub open spec fn key_leaf_page(self, key: u32) -> u32 {
        if node_type_of(self.pager@[0]) == NODE_LEAF {
            0
        } else {
            internal_child_of(self.pager@[0], spec_find_child(self.pager@[0], key, 0))
        }
    }

    /// The number, from the left, of the leaf at page `page_num`.
    pub open spec fn leaf_index(self, page_num: u32) -> int {
        choose|i: int| 0 <= i < self.leaves().len() && self.leaves()[i] == page_num
    }

    /// The cursor stands on a leaf of the table, on one of its cells or just
    /// behind the last.
    pub open spec fn cursor_wf(self, cursor: Cursor) -> bool {
        self.cursor_on_leaf(cursor, self.leaf_index(cursor.page_num))
    }

    /// The place among all cells of a cursor that stands on a leaf.
    pub open spec fn position(self, cursor: Cursor) -> int {
        self.cursor_pos(cursor, self.leaf_index(cursor.page_num))
    }

    /// The cursor stands on leaf `i` of the table, on one of its cells or
    /// just behind the last.
    pub open spec fn cursor_on_leaf(self, cursor: Cursor, i: int) -> bool {
        &&& 0 <= i < self.leaves().len()
        &&& self.leaves()[i] == cursor.page_num
        &&& cursor.cell_num <= self.leaf_lists()[i].len()
    }

    /// The place among all cells of a cursor that stands on leaf `i`.
    pub open spec fn cursor_pos(self, cursor: Cursor, i: int) -> int {
        cells_before(self.leaf_lists(), i).len() + cursor.cell_num
    }
}

/// The place of `key` in the leaf at `page_num`: the cell that has the key,
/// or the cell before which it belongs.
pub fn leaf_node_find(table: &mut Table, page_num: u32, key: u32) -> (cursor: Cursor)
    requires
        old(table).pager.wf(),
        page_num < old(table).pager.num_pages,
        leaf_wf(old(table).pager@[page_num as int]),
    ensures
        final(table).same_pages(*old(table)),
        cursor.page_num == page_num,
        !cursor.end_of_table,
        is_rank(leaf_cells(old(table).pager@[page_num as int]), key, cursor.cell_num as int),
{
    let node = read_page(&mut table.pager, page_num);
    let num_cells = leaf_node_num_cells(node);
    let ghost cells = leaf_cells(node@);
    // Binary search
    let mut min_index: u32 = 0;
    let mut one_past_max_index: u32 = num_cells;
    while one_past_max_index != min_index
        invariant
            after_borrow(table).same_pages(*old(table)),
            node@ == old(table).pager@[page_num as int],
            is_page(node@),
            leaf_wf(node@),
            cells == leaf_cells(node@),
            num_cells == leaf_num_cells_of(node@),
            min_index <= one_past_max_index <= num_cells,
            forall|i: int| 0 <= i < min_index ==> cells[i].key < key,
            forall|i: int| one_past_max_index <= i < num_cells ==> cells[i].key > key,
        decreases one_past_max_index - min_index,
    {
        let index: u32 = (min_index + one_past_max_index) / 2;
        let key_at_index = leaf_node_key(node, index);
        assert(cells[index as int].key == key_at_index);
        if key == key_at_index {
            return Cursor { page_num, cell_num: index, end_of_table: false };
        }
        if key < key_at_index {
            one_past_max_index = index;
        } else {
            min_index = index + 1;
        }
    }
    Cursor { page_num, cell_num: min_index, end_of_table: false }
}

/// The number of the child of an internal node that should hold `key`: the
/// first cell whose key is at least `key`, and the right child where there
/// is none.
pub fn internal_node_find_child(node: &Vec<u8>, key: u32) -> (index: u32)
    requires
        is_page(node@),
        internal_num_keys_of(node@) <= 510,
    ensures
        index == spec_bisect(node@, key, 0, internal_num_keys_of(node@) as int),
        index <= internal_num_keys_of(node@),
        index > 0 ==> internal_key_of(node@, index - 1) < key,
        index < internal_num_keys_of(node@) ==> internal_key_of(node@, index as int) >= key,
        (forall|i: int, j: int|
            0 <= i <= j < internal_num_keys_of(node@) ==> internal_key_of(node@, i)
                <= internal_key_of(node@, j)) ==> (forall|i: int|
            0 <= i < internal_num_keys_of(node@) ==> (internal_key_of(node@, i) < key <==> i
                < index)),
{
    let num_keys = internal_node_num_keys(node);
    // Binary search: there is one more child than key
    let mut min_index: u32 = 0;
    let mut max_index: u32 = num_keys;
    while min_index != max_index
        invariant
            is_page(node@),
            num_keys == internal_num_keys_of(node@),
            num_keys <= 510,
            min_index <= max_index <= num_keys,
            spec_bisect(node@, key, 0, num_keys as int) == spec_bisect(
                node@,
                key,
                min_index as int,
                max_index as int,
            ),
            min_index > 0 ==> internal_key_of(node@, min_index - 1) < key,
            max_index < num_keys ==> internal_key_of(node@, max_index as int) >= key,
        decreases max_index - min_index,
    {
        let index: u32 = (min_index + max_index) / 2;
        let key_to_right = internal_node_key(node, index);
        if key_to_right >= key {
            max_index = index;
        } else {
            min_index = index + 1;
        }
    }
    min_index
}

/// In a table in order, the leaf at the page of leaf `i` is leaf `i`.
pub proof fn lemma_leaf_index(table: Table, i: int)
    requires
        table.wf(),
        0 <= i < table.leaves().len(),
    ensures
        table.leaf_index(table.leaves()[i] as u32) == i,
        0 <= table.leaves()[i] < table.pager.num_pages,
{
    lemma_tree_lists(table.pager@, table.pager.num_pages as int);
    let k = table.leaf_index(table.leaves()[i] as u32);
    assert(0 <= k < table.leaves().len() && table.leaves()[k] == table.leaves()[i]);
}

/// The place of `key` below the internal node at `page_num`, which is the
/// root: in the child that should hold the key.
pub fn internal_node_find(table: &mut Table, page_num: u32, key: u32) -> (cursor: Cursor)
    requires
        old(table).wf(),
        page_num == old(table).root_page_num,
        node_type_of(old(table).pager@[0]) == NODE_INTERNAL,
    ensures
        final(table).same_pages(*old(table)),
        !cursor.end_of_table,
        cursor.page_num == old(table).key_leaf_page(key),
        old(table).cursor_wf(cursor),
        is_rank(old(table)@, key, old(table).position(cursor)),
        is_rank(
            leaf_cells(old(table).pager@[cursor.page_num as int]),
            key,
            cursor.cell_num as int,
        ),
        cursor.cell_num < leaf_num_cells_of(old(table).pager@[cursor.page_num as int])
            || old(table).leaf_index(cursor.page_num) == old(table).leaves().len() - 1,
    decreases 0int,
{
    let node = read_page(&mut table.pager, page_num);
    let child_index = internal_node_find_child(node, key);
    let child_num = internal_node_child(node, child_index);
    proof {
        lemma_root_for_split(old(table).pager@, old(table).pager.num_pages as int, 0);
        lemma_find_child(node@, key, 0);
        assert(is_child_index(node@, key, child_index as int));
        assert(child_wf(old(table).pager@, old(table).pager.num_pages as int, child_index as int));
    }
    let child = read_page(&mut table.pager, child_num);
    // The children of the root are leaves, so the search goes no deeper.
    if get_node_type(child) == NODE_LEAF {
        let cursor = leaf_node_find(table, child_num, key);
        proof {
            lemma_found_in_child(*old(table), child_index as int, cursor, key);
        }
        cursor
    } else {
        internal_node_find(table, child_num, key)
    }
}

/// A key that was looked up in the child that should hold it was found at
/// its place among all cells.
proof fn lemma_found_in_child(table: Table, i: int, cursor: Cursor, key: u32)
    requires
        table.wf(),
        node_type_of(table.pager@[0]) == NODE_INTERNAL,
        0 <= i <= internal_num_keys_of(table.pager@[0]),
        i > 0 ==> internal_key_of(table.pager@[0], i - 1) < key,
        i < internal_num_keys_of(table.pager@[0]) ==> internal_key_of(table.pager@[0], i) >= key,
        cursor.page_num == internal_child_of(table.pager@[0], i),
        is_rank(leaf_cells(table.pager@[cursor.page_num as int]), key, cursor.cell_num as int),
    ensures
        table.cursor_wf(cursor),
        table.leaf_index(cursor.page_num) == i,
        is_rank(table@, key, table.position(cursor)),
        cursor.cell_num < leaf_num_cells_of(table.pager@[cursor.page_num as int])
            || table.leaf_index(cursor.page_num) == table.leaves().len() - 1,
{
    let pages = table.pager@;
    let num_pages = table.pager.num_pages as int;
    let lists = table.leaf_lists();
    lemma_tree_lists(pages, num_pages);
    lemma_leaf_index(table, i);
    assert(child_wf(pages, num_pages, i));
    if i > 0 {
        assert(child_wf(pages, num_pages, i - 1));
    }
    let leaf = pages[cursor.page_num as int];
    assert(lists[i] == leaf_cells(leaf));
    if i < internal_num_keys_of(pages[0]) {
        assert(leaf_cells(leaf)[leaf_num_cells_of(leaf) - 1].key >= key);
    }
    lemma_rank_in_lists(lists, i, cursor.cell_num as int, key);
}

/// The place of `key` in the table: the cell that has the key, or the cell
/// before which it belongs. The cursor is not at the end of the table.
pub fn table_find(table: &mut Table, key: u32) -> (cursor: Cursor)
    requires
        old(table).wf(),
    ensures
        final(table).same_pages(*old(table)),
        !cursor.end_of_table,
        cursor.page_num == old(table).key_leaf_page(key),
        old(table).cursor_wf(cursor),
        is_rank(old(table)@, key, old(table).position(cursor)),
        is_rank(
            leaf_cells(old(table).pager@[cursor.page_num as int]),
            key,
            cursor.cell_num as int,
        ),
        cursor.cell_num < leaf_num_cells_of(old(table).pager@[cursor.page_num as int])
            || old(table).leaf_index(cursor.page_num) == old(table).leaves().len() - 1,
{
    let root_page_num = table.root_page_num;
    let root_node = read_page(&mut table.pager, root_page_num);
    if get_node_type(root_node) == NODE_LEAF {
        let cursor = leaf_node_find(table, root_page_num, key);
        proof {
            let lists = old(table).leaf_lists();
            lemma_tree_lists(old(table).pager@, old(table).pager.num_pages as int);
            lemma_leaf_index(*old(table), 0);
            assert(lists[0] == leaf_cells(old(table).pager@[0]));
            lemma_rank_in_lists(lists, 0, cursor.cell_num as int, key);
        }
        cursor
    } else {
        internal_node_find(table, root_page_num, key)
    }
}

/// The place of the first cell of the table, or the end of the table where
/// it has no cell.
pub fn table_start(table: &mut Table) -> (cursor: Cursor)
    requires
        old(table).wf(),
    ensures
        final(table).same_pages(*old(table)),
        old(table).cursor_wf(cursor),
        cursor.page_num == old(table).leaves()[0],
        cursor.cell_num == 0,
        old(table).position(cursor) == 0,
        cursor.end_of_table <==> old(table)@.len() == 0,
{
    let mut cursor = table_find(table, 0);
    proof {
        lemma_tree_lists(old(table).pager@, old(table).pager.num_pages as int);
    }
    let node = read_page(&mut table.pager, cursor.page_num);
    let num_cells = leaf_node_num_cells(node);
    cursor.end_of_table = num_cells == 0;
    proof {
        let lists = old(table).leaf_lists();
        let i = old(table).leaf_index(cursor.page_num);
        lemma_tree_lists(old(table).pager@, old(table).pager.num_pages as int);
        lemma_first_place(lists, i);
        assert(old(table).position(cursor) == 0) by {
            if old(table).position(cursor) > 0 {
                assert(old(table)@[0].key < 0);
            }
        }
    }
    cursor
}

/// A copy of the bytes of the row that the cursor stands on.
pub fn cursor_value(table: &mut Table, cursor: &Cursor) -> (value: Vec<u8>)
    requires
        old(table).pager.wf(),
        cursor.page_num < old(table).pager.num_pages,
        cursor.cell_num < 13,
    ensures
        final(table).same_pages(*old(table)),
        value@ == leaf_value_of(old(table).pager@[cursor.page_num as int], cursor.cell_num as int),
        old(table).wf() && old(table).cursor_wf(*cursor) && cursor.cell_num < leaf_num_cells_of(
            old(table).pager@[cursor.page_num as int],
        ) ==> old(table).position(*cursor) < old(table)@.len() && value@
            == old(table)@[old(table).position(*cursor)].value,
{
    let page_num = cursor.page_num;
    let page = read_page(&mut table.pager, page_num);
    let value = read_bytes(page, leaf_node_value(cursor.cell_num), ROW_SIZE as usize);
    proof {
        if old(table).wf() && old(table).cursor_wf(*cursor) && cursor.cell_num
            < leaf_num_cells_of(old(table).pager@[cursor.page_num as int]) {
            lemma_index_in_lists(
                old(table).leaf_lists(),
                old(table).leaf_index(cursor.page_num),
                cursor.cell_num as int,
            );
        }
    }
    value
}

/// The cursor after one step from `cursor` over the pages `pages`: the next
/// cell of its leaf, else the first cell of the next leaf, else the end of
/// the table.
pub open spec fn spec_advance(pages: Seq<Seq<u8>>, cursor: Cursor) -> Cursor {
    let node = pages[cursor.page_num as int];
    if cursor.cell_num + 1 >= leaf_num_cells_of(node) {
        if leaf_next_leaf_of(node) == 0 {
            Cursor {
                page_num: cursor.page_num,
                cell_num: (cursor.cell_num + 1) as u32,
                end_of_table: true,
            }
        } else {
            Cursor {
                page_num: leaf_next_leaf_of(node),
                cell_num: 0,
                end_of_table: cursor.end_of_table,
            }
        }
    } else {
        Cursor {
            page_num: cursor.page_num,
            cell_num: (cursor.cell_num + 1) as u32,
            end_of_table: cursor.end_of_table,
        }
    }
}

/// Moves the cursor one cell on. From the last cell of a leaf it goes to the
/// first cell of the next leaf, and from the last cell of the last leaf to
/// the end of the table.
pub fn cursor_advance(table: &mut Table, cursor: &mut Cursor)
    requires
        old(table).pager.wf(),
        old(cursor).page_num < old(table).pager.num_pages,
        old(cursor).cell_num < u32::MAX,
    ensures
        final(table).same_pages(*old(table)),
        *final(cursor) == spec_advance(old(table).pager@, *old(cursor)),
        old(table).wf() && old(table).cursor_wf(*old(cursor)) && !old(cursor).end_of_table && old(
            cursor,
        ).cell_num < leaf_num_cells_of(old(table).pager@[old(cursor).page_num as int]) ==> {
            &&& old(table).cursor_wf(*final(cursor))
            &&& old(table).position(*final(cursor)) == old(table).position(*old(cursor)) + 1
            &&& final(cursor).end_of_table <==> old(table).position(*final(cursor)) == old(
                table,
            )@.len()
            &&& !final(cursor).end_of_table ==> final(cursor).cell_num < leaf_num_cells_of(
                old(table).pager@[final(cursor).page_num as int],
            )
        },
{
    let page_num = cursor.page_num;
    let node = read_page(&mut table.pager, page_num);
    cursor.cell_num = cursor.cell_num + 1;
    if cursor.cell_num >= leaf_node_num_cells(node) {
        // Advance to next leaf node
        let next_page_num = leaf_node_next_leaf(node);
        if next_page_num == 0 {
            // This was the rightmost leaf
            cursor.end_of_table = true;
        } else {
            cursor.page_num = next_page_num;
            cursor.cell_num = 0;
        }
    }
    proof {
        if old(table).wf() && old(table).cursor_wf(*old(cursor)) && !old(cursor).end_of_table
            && old(cursor).cell_num < leaf_num_cells_of(
            old(table).pager@[old(cursor).page_num as int],
        ) {
            lemma_advance(*old(table), *old(cursor));
        }
    }
}

/// One step from a cell of a table in order leads to the next place among
/// all cells, which is the end of the table exactly where no cell is left.
pub proof fn lemma_advance(table: Table, cursor: Cursor)
    requires
        table.wf(),
        table.cursor_wf(cursor),
        cursor.cell_num < leaf_num_cells_of(table.pager@[cursor.page_num as int]),
        !cursor.end_of_table,
    ensures
        table.cursor_wf(spec_advance(table.pager@, cursor)),
        table.position(spec_advance(table.pager@, cursor)) == table.position(cursor) + 1,
        spec_advance(table.pager@, cursor).end_of_table <==> table.position(cursor) + 1
            == table@.len(),
        !spec_advance(table.pager@, cursor).end_of_table ==> spec_advance(
            table.pager@,
            cursor,
        ).cell_num < leaf_num_cells_of(
            table.pager@[spec_advance(table.pager@, cursor).page_num as int],
        ),
{
    let pages = table.pager@;
    let num_pages = table.pager.num_pages as int;
    let lists = table.leaf_lists();
    let i = table.leaf_index(cursor.page_num);
    let next = spec_advance(pages, cursor);
    let node = pages[cursor.page_num as int];
    lemma_tree_lists(pages, num_pages);
    lemma_flatten_around(lists, i);
    lemma_cells_before_next(lists, i);
    assert(lists[i] == leaf_cells(node));
    if node_type_of(pages[0]) == NODE_LEAF {
        assert(i == 0);
        assert(lists.skip(1) =~= Seq::<Seq<Cell>>::empty());
    } else {
        assert(child_wf(pages, num_pages, i));
        if i < lists.len() - 1 {
            assert(child_wf(pages, num_pages, i + 1));
            lemma_leaf_index(table, i + 1);
            lemma_flatten_around(lists, i + 1);
            assert(lists[i + 1] == leaf_cells(pages[table.leaves()[i + 1]]));
        } else {
            assert(lists.skip(i + 1) =~= Seq::<Seq<Cell>>::empty());
        }
    }
}

} // verus!
