//! Opening and closing a table, and the two statements that run on it.

use vstd::prelude::*;
use crate::btree::{
    Table, Cursor, table_find, table_start, cursor_value, cursor_advance, lemma_leaf_index,
};
use crate::insert::leaf_node_insert;
use crate::layout::{
    LEAF_NODE_MAX_CELLS, INTERNAL_NODE_MAX_CELLS, TABLE_MAX_PAGES, layout_constants,
};
use crate::node::{
    Cell, NODE_LEAF, NODE_INTERNAL, is_page, node_type_of, leaf_num_cells_of, leaf_key_of,
    leaf_cells, internal_num_keys_of, get_node_type, is_node_root, node_parent,
    leaf_node_num_cells, leaf_node_next_leaf, leaf_node_key, internal_node_num_keys,
    internal_node_child, internal_node_key, get_node_max_key, initialize_leaf_node,
    set_node_root, lemma_agree_leaf,
};
use crate::pager::{image_page, zeros, pager_open, get_page, read_page, pager_flush};
use crate::bytes::spec_u32_at;
use crate::row::{Row, row_matches, deserialize_row, lemma_row_bytes};
use crate::statement::{ExecuteResult, Statement, StatementType};
use crate::tree::{
    is_rank, has_key, leaf_wf, child_wf, tree_leaf_lists, lemma_tree_lists, lemma_index_in_lists,
    lemma_ordered_flatten, lemma_first_place,
};

verus! {

/// What every page of a pager holds that was opened on the file image
/// `file`: the pages of the image, and zero bytes behind them.
pub open spec fn image_pages(file: Seq<u8>) -> Seq<Seq<u8>> {
    Seq::new(
        100,
        |n: int|
            if n < file.len() as int / 4096 {
                image_page(file, n)
            } else {
                zeros(4096)
            },
    )
}

impl Table {
    /// A row with the key `key` can be put in: the table has the key, so
    /// that nothing is put in, or the leaf that should hold the key has
    /// room, or it can be split.
    pub open spec fn spec_insert_fits(self, key: u32) -> bool {
        ||| has_key(self@, key)
        ||| leaf_num_cells_of(self.pager@[self.key_leaf_page(key) as int]) < 13
        ||| self.split_has_room()
    }

    /// Every cell has the key that its row holds as its id. This holds of a
    /// table whose rows were all put in as statements.
    pub open spec fn keys_are_ids(self) -> bool {
        forall|k: int|
            0 <= k < self@.len() ==> (#[trigger] self@[k]).key == spec_u32_at(self@[k].value, 0)
    }
}

/// Opens the table in the file image `file`. An empty image is a new
/// database: page 0 becomes an empty leaf and the root.
///
/// The image must be a whole number of pages, at most as many as a pager has
/// slots.
pub fn db_open(file: Vec<u8>) -> (table: Table)
    requires
        file.len() % 4096 == 0,
        file.len() <= 100 * 4096,
    ensures
        table.pager.wf(),
        table.root_page_num == 0,
        file.len() == 0 ==> table.wf() && table@ == Seq::<Cell>::empty() && table.pager.num_pages
            == 1 && table.leaf_lists() == seq![Seq::<Cell>::empty()] && table.keys_are_ids(),
        file.len() == 0 ==> table.pager@ == image_pages(file@).update(
            0,
            zeros(4096).update(0, 1u8).update(1, 1u8),
        ),
        file.len() > 0 ==> table.pager@ == image_pages(file@) && table.pager.num_pages
            == file.len() / 4096 && forall|n: int| 0 <= n < 100 ==> table.pager.pages@[n] is None,
        table.pager.file@ == file@,
{
    let ghost image = file@;
    let mut pager = pager_open(file);
    proof {
        assert(pager@ =~= image_pages(image));
    }
    if pager.num_pages == 0 {
        // New database file. Initialize page 0 as leaf node.
        let root_node = get_page(&mut pager, 0);
        initialize_leaf_node(root_node);
        let ghost initialized = root_node@;
        set_node_root(root_node, true);
        proof {
            lemma_agree_leaf(root_node@, initialized, 1, 2);
            assert(leaf_cells(root_node@) =~= Seq::<Cell>::empty());
            assert(root_node@ =~= zeros(4096).update(0, 1u8).update(1, 1u8));
        }
    }
    let table = Table { pager, root_page_num: 0 };
    proof {
        if image.len() == 0 {
            assert(tree_leaf_lists(table.pager@) =~= seq![Seq::<Cell>::empty()]);
            seq![Seq::<Cell>::empty()].lemma_flatten_one_element();
            assert(seq![Seq::<Cell>::empty()].first() == Seq::<Cell>::empty());
        }
    }
    table
}

/// Closes the table: every cached page is written to the file image and
/// released. The image that is returned is what the file has to hold.
pub fn db_close(table: Table) -> (file: Vec<u8>)
    requires
        table.pager.wf(),
    ensures
        file.len() == table.pager.num_pages * 4096,
        image_pages(file@) == table.pager@,
{
    let mut pager = table.pager;
    let mut i: u32 = 0;
    while i < pager.num_pages
        invariant
            pager.wf(),
            pager@ == table.pager@,
            pager.num_pages == table.pager.num_pages,
            i <= pager.num_pages,
            forall|n: int| 0 <= n < i ==> pager.pages@[n] is None,
        decreases pager.num_pages - i,
    {
        if pager.pages[i as usize].is_some() {
            pager_flush(&mut pager, i);
            let ghost flushed = pager;
            pager.pages[i as usize] = None;
            proof {
                let page = flushed.pages@[i as int]->0@;
                assert(image_page(flushed.file@, i as int) =~= page);
                assert(pager@ =~= flushed@);
            }
        }
        i += 1;
    }
    let mut k: usize = 0;
    while k < TABLE_MAX_PAGES
        invariant
            pager.wf(),
            pager@ == table.pager@,
            pager.num_pages == table.pager.num_pages,
            k <= 100,
            forall|n: int| 0 <= n < pager.num_pages ==> pager.pages@[n] is None,
            forall|n: int| 0 <= n < k ==> pager.pages@[n] is None,
        decreases 100 - k,
    {
        if pager.pages[k].is_some() {
            pager.pages[k] = None;
        }
        k += 1;
    }
    proof {
        assert(image_pages(pager.file@) =~= pager@);
    }
    pager.file
}

/// Whether the cursor that the search for `key` ended in stands on a cell
/// with that key says whether the table has the key.
pub proof fn lemma_duplicate(table: Table, cursor: Cursor, key: u32)
    requires
        table.wf(),
        table.cursor_wf(cursor),
        is_rank(table@, key, table.position(cursor)),
        cursor.cell_num < leaf_num_cells_of(table.pager@[cursor.page_num as int])
            || table.leaf_index(cursor.page_num) == table.leaves().len() - 1,
    ensures
        has_key(table@, key) <==> cursor.cell_num < leaf_num_cells_of(
            table.pager@[cursor.page_num as int],
        ) && leaf_key_of(table.pager@[cursor.page_num as int], cursor.cell_num as int) == key,
{
    let lists = table.leaf_lists();
    let all = table@;
    let i = table.leaf_index(cursor.page_num);
    let pos = table.position(cursor);
    let leaf = table.pager@[cursor.page_num as int];
    lemma_tree_lists(table.pager@, table.pager.num_pages as int);
    lemma_ordered_flatten(lists);
    crate::tree::lemma_flatten_around(lists, i);
    assert(lists[i] == leaf_cells(leaf));
    if cursor.cell_num < leaf_num_cells_of(leaf) {
        lemma_index_in_lists(lists, i, cursor.cell_num as int);
        assert(all[pos] == leaf_cells(leaf)[cursor.cell_num as int]);
    } else {
        assert(lists.skip(i + 1) =~= Seq::<Seq<Cell>>::empty());
        assert(pos == all.len());
    }
    if has_key(all, key) {
        let m = choose|m: int| 0 <= m < all.len() && all[m].key == key;
        assert(m >= pos);
        if m > pos {
            assert(all[pos].key < all[m].key);
        }
    }
}

/// Puts the row of the statement into the table, unless the table has a row
/// with the same key.
///
/// The leaf that takes the row must have room or be such that it can be
/// split: see `insert_fits`.
pub fn execute_insert(statement: &Statement, table: &mut Table) -> (result: ExecuteResult)
    requires
        old(table).wf(),
        old(table).spec_insert_fits(statement.row_to_insert.id),
    ensures
        final(table).wf(),
        final(table).pager.file@ == old(table).pager.file@,
        has_key(old(table)@, statement.row_to_insert.id) ==> result
            == ExecuteResult::EXECUTE_DUPLICATE_KEY && final(table).same_pages(*old(table)),
        !has_key(old(table)@, statement.row_to_insert.id) ==> result
            == ExecuteResult::EXECUTE_SUCCESS && inserted(
            *old(table),
            *final(table),
            statement.row_to_insert,
        ),
        old(table).keys_are_ids() ==> final(table).keys_are_ids(),
{
    let key_to_insert = statement.row_to_insert.id;
    let cursor = table_find(table, key_to_insert);
    proof {
        lemma_tree_lists(old(table).pager@, old(table).pager.num_pages as int);
        lemma_duplicate(*old(table), cursor, key_to_insert);
    }
    let node = read_page(&mut table.pager, cursor.page_num);
    let num_cells = leaf_node_num_cells(node);
    if cursor.cell_num < num_cells {
        let key_at_index = leaf_node_key(node, cursor.cell_num);
        if key_at_index == key_to_insert {
            return ExecuteResult::EXECUTE_DUPLICATE_KEY;
        }
    }
    let ghost found = *table;
    proof {
        crate::insert::lemma_insert_place(found, cursor, key_to_insert);
    }
    leaf_node_insert(table, &cursor, statement.row_to_insert.id, &statement.row_to_insert);
    proof {
        let before = *old(table);
        let all = before@;
        let pos = before.position(cursor);
        let cell = Cell { key: key_to_insert, value: statement.row_to_insert.spec_bytes() };
        assert(found@ == all);
        assert(table@ == all.insert(pos, cell));
        assert forall|other: int| is_rank(all, key_to_insert, other) implies table@ == all.insert(
            other,
            cell,
        ) by {
            if other < pos {
                assert(all[other].key < key_to_insert);
            } else if other > pos {
                assert(all[pos].key < key_to_insert);
            }
        }
        let lists = before.leaf_lists();
        let i = before.leaf_index(cursor.page_num);
        assert(is_rank(lists[i], key_to_insert, cursor.cell_num as int));
        if before.keys_are_ids() {
            lemma_row_bytes(statement.row_to_insert, statement.row_to_insert);
            assert forall|k: int| 0 <= k < table@.len() implies (#[trigger] table@[k]).key
                == spec_u32_at(table@[k].value, 0) by {
                if k < pos {
                    assert(table@[k] == all[k]);
                } else if k > pos {
                    assert(table@[k] == all[k - 1]);
                }
            }
        }
    }
    ExecuteResult::EXECUTE_SUCCESS
}

/// The table `after` is the table `before` with the row `row` put in: at
/// the place of its key among all cells, and in the leaf that should hold the
/// key, which was split into two leaves of seven cells if it was full.
pub open spec fn inserted(before: Table, after: Table, row: Row) -> bool {
    let cell = Cell { key: row.id, value: row.spec_bytes() };
    let lists = before.leaf_lists();
    let i = before.leaf_index(before.key_leaf_page(row.id));
    &&& exists|pos: int| is_rank(before@, row.id, pos) && after@ == before@.insert(pos, cell)
    &&& forall|pos: int| is_rank(before@, row.id, pos) ==> after@ == before@.insert(pos, cell)
    &&& exists|j: int|
        is_rank(lists[i], row.id, j) && if lists[i].len() < 13 {
            after.leaf_lists() == lists.update(i, lists[i].insert(j, cell))
        } else {
            after.leaf_lists() == lists.take(i) + seq![
                lists[i].insert(j, cell).take(7),
                lists[i].insert(j, cell).skip(7),
            ] + lists.skip(i + 1)
        }
    &&& after.leaves() == if lists[i].len() < 13 {
        before.leaves()
    } else if node_type_of(before.pager@[0]) == NODE_LEAF {
        seq![before.pager.num_pages + 1, before.pager.num_pages as int]
    } else {
        before.leaves().insert(i + 1, before.pager.num_pages as int)
    }
    &&& after.pager.num_pages == before.pager.num_pages + if lists[i].len() < 13 {
        0int
    } else if node_type_of(before.pager@[0]) == NODE_LEAF {
        2int
    } else {
        1int
    }
}

/// Whether a row with the key `key` can be put into the table: whether
/// `execute_insert` can be called with it.
pub fn insert_fits(table: &mut Table, key: u32) -> (fits: bool)
    requires
        old(table).wf(),
    ensures
        final(table).same_pages(*old(table)),
        fits == old(table).spec_insert_fits(key),
{
    proof {
        layout_constants();
    }
    let cursor = table_find(table, key);
    proof {
        lemma_tree_lists(old(table).pager@, old(table).pager.num_pages as int);
        lemma_duplicate(*old(table), cursor, key);
    }
    let node = read_page(&mut table.pager, cursor.page_num);
    let num_cells = leaf_node_num_cells(node);
    if cursor.cell_num < num_cells && leaf_node_key(node, cursor.cell_num) == key {
        return true;
    }
    if num_cells < LEAF_NODE_MAX_CELLS {
        return true;
    }
    let num_pages = table.pager.num_pages;
    let root_page_num = table.root_page_num;
    let root = read_page(&mut table.pager, root_page_num);
    if get_node_type(root) == NODE_LEAF {
        num_pages + 2 <= TABLE_MAX_PAGES as u32
    } else {
        internal_node_num_keys(root) < INTERNAL_NODE_MAX_CELLS && num_pages + 1
            <= TABLE_MAX_PAGES as u32
    }
}

/// All rows of the table, in the order of their keys.
pub fn execute_select(statement: &Statement, table: &mut Table) -> (result: (
    ExecuteResult,
    Vec<Row>,
))
    requires
        old(table).wf(),
    ensures
        final(table).same_pages(*old(table)),
        result.0 == ExecuteResult::EXECUTE_SUCCESS,
        result.1@.len() == old(table)@.len(),
        forall|k: int|
            0 <= k < result.1@.len() ==> row_matches(
                #[trigger] result.1@[k],
                old(table)@[k].value,
            ),
        old(table).keys_are_ids() ==> forall|k: int, m: int|
            0 <= k < m < result.1@.len() ==> result.1@[k].id < result.1@[m].id,
{
    let mut rows: Vec<Row> = Vec::new();
    let mut cursor = table_start(table);
    let mut row = Row { id: 0, username: [0u8; 33], email: [0u8; 256] };
    proof {
        lemma_tree_lists(old(table).pager@, old(table).pager.num_pages as int);
        lemma_first_place(old(table).leaf_lists(), 0);
        lemma_leaf_index(*old(table), 0);
    }
    while !cursor.end_of_table
        invariant
            old(table).wf(),
            table.same_pages(*old(table)),
            old(table).cursor_wf(cursor),
            old(table).position(cursor) == rows@.len(),
            cursor.end_of_table <==> rows@.len() == old(table)@.len(),
            rows@.len() <= old(table)@.len(),
            !cursor.end_of_table ==> cursor.cell_num < leaf_num_cells_of(
                old(table).pager@[cursor.page_num as int],
            ),
            forall|k: int|
                0 <= k < rows@.len() ==> row_matches(#[trigger] rows@[k], old(table)@[k].value),
        decreases old(table)@.len() - rows@.len(),
    {
        proof {
            lemma_tree_lists(old(table).pager@, old(table).pager.num_pages as int);
        }
        let value = cursor_value(table, &cursor);
        deserialize_row(&value, 0, &mut row);
        assert(value@.subrange(0, 293) =~= value@);
        rows.push(row);
        cursor_advance(table, &mut cursor);
    }
    proof {
        let all = old(table)@;
        lemma_tree_lists(old(table).pager@, old(table).pager.num_pages as int);
        lemma_ordered_flatten(old(table).leaf_lists());
        if old(table).keys_are_ids() {
            assert forall|k: int, m: int| 0 <= k < m < rows@.len() implies rows@[k].id
                < rows@[m].id by {
                assert(row_matches(rows@[k], all[k].value));
                assert(row_matches(rows@[m], all[m].value));
                assert(all[k].key < all[m].key);
            }
        }
    }
    (ExecuteResult::EXECUTE_SUCCESS, rows)
}

/// Runs a statement on the table: an insert puts in the row of the
/// statement and gives no rows, a select gives all rows.
pub fn execute_statement(statement: &Statement, table: &mut Table) -> (result: (
    ExecuteResult,
    Vec<Row>,
))
    requires
        old(table).wf(),
        statement.type_0 == StatementType::STATEMENT_INSERT ==> old(table).spec_insert_fits(
            statement.row_to_insert.id,
        ),
    ensures
        final(table).wf(),
        final(table).pager.file@ == old(table).pager.file@,
        statement.type_0 == StatementType::STATEMENT_INSERT ==> {
            &&& result.1@.len() == 0
            &&& has_key(old(table)@, statement.row_to_insert.id) ==> result.0
                == ExecuteResult::EXECUTE_DUPLICATE_KEY && final(table).same_pages(*old(table))
            &&& !has_key(old(table)@, statement.row_to_insert.id) ==> result.0
                == ExecuteResult::EXECUTE_SUCCESS && inserted(
                *old(table),
                *final(table),
                statement.row_to_insert,
            )
        },
        old(table).keys_are_ids() ==> final(table).keys_are_ids(),
        statement.type_0 == StatementType::STATEMENT_SELECT ==> {
            &&& final(table).same_pages(*old(table))
            &&& result.0 == ExecuteResult::EXECUTE_SUCCESS
            &&& result.1@.len() == old(table)@.len()
            &&& forall|k: int|
                0 <= k < result.1@.len() ==> row_matches(
                    #[trigger] result.1@[k],
                    old(table)@[k].value,
                )
            &&& old(table).keys_are_ids() ==> forall|k: int, m: int|
                0 <= k < m < result.1@.len() ==> result.1@[k].id < result.1@[m].id
        },
{
    match statement.type_0 {
        StatementType::STATEMENT_INSERT => (execute_insert(statement, table), Vec::new()),
        StatementType::STATEMENT_SELECT => execute_select(statement, table),
    }
}

/// Whether the page holds a leaf whose cells fit in the page and whose keys
/// rise.
pub fn is_leaf_in_order(node: &Vec<u8>) -> (ok: bool)
    requires
        is_page(node@),
    ensures
        ok == leaf_wf(node@),
{
    proof {
        layout_constants();
    }
    if get_node_type(node) != NODE_LEAF {
        return false;
    }
    let num_cells = leaf_node_num_cells(node);
    if num_cells > LEAF_NODE_MAX_CELLS {
        return false;
    }
    let ghost cells = leaf_cells(node@);
    let mut i: u32 = 1;
    while i < num_cells
        invariant
            1 <= i,
            is_page(node@),
            num_cells == leaf_num_cells_of(node@),
            num_cells <= 13,
            cells == leaf_cells(node@),
            forall|a: int, b: int| 0 <= a < b < i && b < num_cells ==> cells[a].key < cells[b].key,
        decreases num_cells - i,
    {
        if leaf_node_key(node, i - 1) >= leaf_node_key(node, i) {
            assert(!(cells[i - 1].key < cells[i as int].key));
            return false;
        }
        assert forall|a: int, b: int| 0 <= a < b < i + 1 && b < num_cells implies cells[a].key
            < cells[b].key by {
            if b == i && a < i - 1 {
                assert(cells[a].key < cells[i - 1].key);
            }
        }
        i += 1;
    }
    true
}

/// Whether the pages of the table hold a tree that is in order. A table that
/// was opened on a file which this library wrote is; one that was opened on
/// another file need not be.
pub fn is_table_in_order(table: &mut Table) -> (ok: bool)
    requires
        old(table).pager.wf(),
    ensures
        final(table).same_pages(*old(table)),
        ok == old(table).wf(),
{
    proof {
        layout_constants();
    }
    let ghost pages = old(table).pager@;
    let num_pages = table.pager.num_pages;
    if table.root_page_num != 0 || num_pages < 1 {
        return false;
    }
    let root = read_page(&mut table.pager, 0);
    if !is_node_root(root) {
        return false;
    }
    let kind = get_node_type(root);
    if kind == NODE_LEAF {
        return is_leaf_in_order(root) && leaf_node_next_leaf(root) == 0;
    }
    if kind != NODE_INTERNAL {
        return false;
    }
    let num_keys = internal_node_num_keys(root);
    if num_keys < 1 || num_keys > INTERNAL_NODE_MAX_CELLS {
        return false;
    }
    let mut i: u32 = 0;
    while i <= num_keys
        invariant
            i <= num_keys + 1,
            1 <= num_keys <= 3,
            1 <= num_pages <= 100,
            pages == old(table).pager@,
            num_pages == old(table).pager.num_pages,
            table.same_pages(*old(table)),
            is_page(pages[0]),
            node_type_of(pages[0]) == NODE_INTERNAL,
            num_keys == internal_num_keys_of(pages[0]),
            forall|k: int| 0 <= k < i ==> #[trigger] child_wf(pages, num_pages as int, k),
        decreases num_keys + 1 - i,
    {
        let root = read_page(&mut table.pager, 0);
        let child = internal_node_child(root, i);
        let next = if i < num_keys {
            internal_node_child(root, i + 1)
        } else {
            0
        };
        let key = if i < num_keys {
            internal_node_key(root, i)
        } else {
            0
        };
        if child < 1 || child >= num_pages {
            assert(!child_wf(pages, num_pages as int, i as int));
            return false;
        }
        let leaf = read_page(&mut table.pager, child);
        if !is_leaf_in_order(leaf) || is_node_root(leaf) || node_parent(leaf) != 0
            || leaf_node_num_cells(leaf) < 1 || leaf_node_next_leaf(leaf) != next {
            assert(!child_wf(pages, num_pages as int, i as int));
            return false;
        }
        if i < num_keys {
            let max_key = get_node_max_key(leaf);
            if key != max_key {
                assert(!child_wf(pages, num_pages as int, i as int));
                return false;
            }
            if next >= num_pages {
                assert(!child_wf(pages, num_pages as int, i + 1));
                return false;
            }
            let next_leaf = read_page(&mut table.pager, next);
            if max_key >= leaf_node_key(next_leaf, 0) {
                assert(!child_wf(pages, num_pages as int, i as int));
                return false;
            }
        }
        assert(child_wf(pages, num_pages as int, i as int));
        i += 1;
    }
    true
}

} // verus!
