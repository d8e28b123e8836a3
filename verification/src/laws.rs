//! What holds of every table that is in order, and of every insert.

use vstd::prelude::*;
use crate::btree::{Table, Cursor, spec_advance, lemma_advance, lemma_leaf_index};
use crate::db::{image_pages, inserted, lemma_duplicate};
use crate::node::{
    Cell, NODE_LEAF, NODE_INTERNAL, node_type_of, is_root_of, parent_of, leaf_num_cells_of,
    leaf_next_leaf_of, leaf_key_of, leaf_value_of, leaf_cells, leaf_cell_of,
    internal_num_keys_of, internal_key_of, internal_child_of,
};
use crate::row::{Row, row_matches, lemma_row_bytes};
use crate::tree::{
    is_rank, has_key, keys_ascending, child_wf, lemma_tree_lists, lemma_ordered_flatten,
    lemma_index_in_lists,
};

verus! {

/// The keys of the cells of a table rise strictly, so no two cells have the
/// same key.
pub proof fn law_keys_rise(table: Table)
    requires
        table.wf(),
    ensures
        keys_ascending(table@),
        forall|i: int, j: int|
            0 <= i < table@.len() && 0 <= j < table@.len() && i != j ==> table@[i].key
                != table@[j].key,
{
    lemma_tree_lists(table.pager@, table.pager.num_pages as int);
    lemma_ordered_flatten(table.leaf_lists());
    assert forall|i: int, j: int|
        0 <= i < table@.len() && 0 <= j < table@.len() && i != j implies table@[i].key
        != table@[j].key by {
        if i < j {
            assert(table@[i].key < table@[j].key);
        } else {
            assert(table@[j].key < table@[i].key);
        }
    }
}

/// A cursor on a cell stands on the cell at its place among all cells, and
/// one step from it leads to a cell with a larger key, or to the end of the
/// table: walking from the start, the keys come in strictly rising order.
pub proof fn law_walk_rises(table: Table, cursor: Cursor)
    requires
        table.wf(),
        table.cursor_wf(cursor),
        cursor.cell_num < leaf_num_cells_of(table.pager@[cursor.page_num as int]),
        !cursor.end_of_table,
    ensures
        table@[table.position(cursor)] == leaf_cell_of(
            table.pager@[cursor.page_num as int],
            cursor.cell_num as int,
        ),
        ({
            let next = spec_advance(table.pager@, cursor);
            !next.end_of_table ==> leaf_key_of(
                table.pager@[cursor.page_num as int],
                cursor.cell_num as int,
            ) < leaf_key_of(table.pager@[next.page_num as int], next.cell_num as int)
        }),
{
    let next = spec_advance(table.pager@, cursor);
    let lists = table.leaf_lists();
    lemma_tree_lists(table.pager@, table.pager.num_pages as int);
    lemma_advance(table, cursor);
    law_keys_rise(table);
    lemma_index_in_lists(lists, table.leaf_index(cursor.page_num), cursor.cell_num as int);
    if !next.end_of_table {
        lemma_index_in_lists(lists, table.leaf_index(next.page_num), next.cell_num as int);
        assert(table@[table.position(cursor)].key < table@[table.position(next)].key);
    }
}

/// After a row was put in, the table has its key: to put in a row with the
/// same key again gives a duplicate key.
pub proof fn law_inserted_key_is_there(before: Table, after: Table, row: Row)
    requires
        inserted(before, after, row),
    ensures
        has_key(after@, row.id),
        after@.len() == before@.len() + 1,
{
    let cell = Cell { key: row.id, value: row.spec_bytes() };
    let pos = choose|pos: int|
        is_rank(before@, row.id, pos) && after@ == before@.insert(pos, cell);
    assert(after@[pos] == cell);
}

/// Every cell that a table had before a row was put in is still there, and
/// so is the cell of the row.
pub proof fn law_insert_keeps_cells(before: Table, after: Table, row: Row, cell: Cell)
    requires
        inserted(before, after, row),
        before@.contains(cell) || cell == (Cell { key: row.id, value: row.spec_bytes() }),
    ensures
        after@.contains(cell),
{
    let new_cell = Cell { key: row.id, value: row.spec_bytes() };
    let pos = choose|pos: int|
        is_rank(before@, row.id, pos) && after@ == before@.insert(pos, new_cell);
    if cell == new_cell {
        assert(after@[pos] == cell);
    } else {
        let i = choose|i: int| 0 <= i < before@.len() && before@[i] == cell;
        if i < pos {
            assert(after@[i] == cell);
        } else {
            assert(after@[i + 1] == cell);
        }
    }
}

/// The search for the key of a cell of the table ends on that cell: the
/// cursor stands on a cell with the key, whose bytes are those of the cell.
/// Where they are the bytes of a row, that row and no other is read from
/// them.
pub proof fn law_found(table: Table, cell: Cell, cursor: Cursor, row: Row, read: Row)
    requires
        table.wf(),
        table@.contains(cell),
        table.cursor_wf(cursor),
        is_rank(table@, cell.key, table.position(cursor)),
        cursor.cell_num < leaf_num_cells_of(table.pager@[cursor.page_num as int])
            || table.leaf_index(cursor.page_num) == table.leaves().len() - 1,
    ensures
        cursor.cell_num < leaf_num_cells_of(table.pager@[cursor.page_num as int]),
        leaf_key_of(table.pager@[cursor.page_num as int], cursor.cell_num as int) == cell.key,
        leaf_value_of(table.pager@[cursor.page_num as int], cursor.cell_num as int) == cell.value,
        cell.value == row.spec_bytes() && row_matches(read, cell.value) ==> read == row,
{
    let all = table@;
    let pos = table.position(cursor);
    let i = table.leaf_index(cursor.page_num);
    let m = choose|m: int| 0 <= m < all.len() && all[m] == cell;
    assert(has_key(all, cell.key));
    lemma_duplicate(table, cursor, cell.key);
    law_keys_rise(table);
    lemma_tree_lists(table.pager@, table.pager.num_pages as int);
    lemma_index_in_lists(table.leaf_lists(), i, cursor.cell_num as int);
    assert(all[pos].key == cell.key);
    assert(m == pos);
    lemma_row_bytes(row, read);
}

/// The leaves of a table hang in one chain: each leaf but the last names the
/// next leaf, the last names none, and no leaf is in the chain twice.
pub proof fn law_sibling_chain(table: Table)
    requires
        table.wf(),
    ensures
        forall|i: int|
            0 <= i < table.leaves().len() ==> leaf_next_leaf_of(
                table.pager@[#[trigger] table.leaves()[i]],
            ) == if i + 1 < table.leaves().len() {
                table.leaves()[i + 1]
            } else {
                0
            },
        forall|i: int, j: int|
            0 <= i < j < table.leaves().len() ==> table.leaves()[i] != table.leaves()[j],
        forall|i: int| 0 < i < table.leaves().len() ==> #[trigger] table.leaves()[i] != 0,
{
    let pages = table.pager@;
    let num_pages = table.pager.num_pages as int;
    lemma_tree_lists(pages, num_pages);
    assert forall|i: int| 0 <= i < table.leaves().len() implies leaf_next_leaf_of(
        pages[#[trigger] table.leaves()[i]],
    ) == if i + 1 < table.leaves().len() {
        table.leaves()[i + 1]
    } else {
        0
    } by {
        if node_type_of(pages[0]) != NODE_LEAF {
            assert(child_wf(pages, num_pages, i));
        }
    }
    assert forall|i: int| 0 < i < table.leaves().len() implies #[trigger] table.leaves()[i]
        != 0 by {
        assert(child_wf(pages, num_pages, i));
    }
}

/// Every node but the root is a child of the root, once, and names the root
/// as its parent; the root alone is marked as the root.
pub proof fn law_parent_pointers(table: Table)
    requires
        table.wf(),
        node_type_of(table.pager@[0]) != NODE_LEAF,
    ensures
        is_root_of(table.pager@[table.root_page_num as int]),
        forall|i: int|
            0 <= i <= internal_num_keys_of(table.pager@[0]) ==> {
                let child = #[trigger] internal_child_of(table.pager@[0], i);
                &&& child != table.root_page_num
                &&& child < table.pager.num_pages
                &&& parent_of(table.pager@[child as int]) == table.root_page_num
                &&& !is_root_of(table.pager@[child as int])
                &&& table.leaves()[i] == child
            },
        forall|i: int, j: int|
            0 <= i < j <= internal_num_keys_of(table.pager@[0]) ==> internal_child_of(
                table.pager@[0],
                i,
            ) != internal_child_of(table.pager@[0], j),
{
    let pages = table.pager@;
    let num_pages = table.pager.num_pages as int;
    lemma_tree_lists(pages, num_pages);
    assert forall|i: int| 0 <= i <= internal_num_keys_of(pages[0]) implies {
        let child = #[trigger] internal_child_of(pages[0], i);
        &&& child != table.root_page_num
        &&& child < table.pager.num_pages
        &&& parent_of(pages[child as int]) == table.root_page_num
        &&& !is_root_of(pages[child as int])
        &&& table.leaves()[i] == child
    } by {
        assert(child_wf(pages, num_pages, i));
    }
    assert forall|i: int, j: int|
        0 <= i < j <= internal_num_keys_of(pages[0]) implies internal_child_of(pages[0], i)
        != internal_child_of(pages[0], j) by {
        assert(table.leaves()[i] != table.leaves()[j]);
    }
}

/// A root leaf that is full and takes one more row becomes two leaves of
/// seven cells below an internal root, whose one key is the largest key of
/// the left leaf.
pub proof fn law_leaf_capacity(before: Table, after: Table, row: Row)
    requires
        before.wf(),
        after.wf(),
        node_type_of(before.pager@[0]) == NODE_LEAF,
        leaf_num_cells_of(before.pager@[0]) == 13,
        inserted(before, after, row),
    ensures
        after.leaf_lists().len() == 2,
        after.leaf_lists()[0].len() == 7,
        after.leaf_lists()[1].len() == 7,
        node_type_of(after.pager@[0]) == NODE_INTERNAL,
        internal_num_keys_of(after.pager@[0]) == 1,
        internal_key_of(after.pager@[0], 0) == after.leaf_lists()[0].last().key,
{
    let lists = before.leaf_lists();
    let pages = after.pager@;
    let num_pages = after.pager.num_pages as int;
    lemma_tree_lists(before.pager@, before.pager.num_pages as int);
    lemma_leaf_index(before, 0);
    assert(lists =~= seq![leaf_cells(before.pager@[0])]);
    assert(lists.take(0) =~= Seq::<Seq<Cell>>::empty());
    assert(lists.skip(1) =~= Seq::<Seq<Cell>>::empty());
    lemma_tree_lists(pages, num_pages);
    assert(child_wf(pages, num_pages, 0));
    let left = pages[internal_child_of(pages[0], 0) as int];
    assert(after.leaf_lists()[0] == leaf_cells(left));
    assert(leaf_cells(left)[6].key == leaf_key_of(left, 6));
}

/// What is closed and opened again is the same table: the table that is
/// opened on the image which a table in order left when it was closed is in
/// order and holds the same cells in the same leaves.
pub proof fn law_reopened(closed: Table, file: Seq<u8>, opened: Table)
    requires
        closed.wf(),
        file.len() == closed.pager.num_pages * 4096,
        image_pages(file) == closed.pager@,
        opened.pager.wf(),
        opened.root_page_num == 0,
        file.len() > 0 ==> opened.pager@ == image_pages(file) && opened.pager.num_pages
            == file.len() / 4096,
    ensures
        opened.wf(),
        opened@ == closed@,
        opened.leaf_lists() == closed.leaf_lists(),
{
}

} // verus!
