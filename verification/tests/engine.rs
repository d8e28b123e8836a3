use btree_store::btree::{cursor_value, table_find, Table};
use btree_store::db::{db_close, db_open, execute_insert, execute_select, insert_fits};
use btree_store::node::{
    get_node_type, internal_node_child, internal_node_key, internal_node_num_keys,
    internal_node_right_child, is_node_root, leaf_node_key, leaf_node_next_leaf,
    leaf_node_num_cells, node_parent, NODE_INTERNAL, NODE_LEAF,
};
use btree_store::pager::read_page;
use btree_store::row::{deserialize_row, Row};
use btree_store::statement::{ExecuteResult, Statement, StatementType};

fn text<const N: usize>(s: &str) -> [u8; N] {
    let mut out = [0u8; N];
    out[..s.len()].copy_from_slice(s.as_bytes());
    out
}

fn row(id: u32) -> Row {
    Row {
        id,
        username: text::<33>(&format!("user{}", id)),
        email: text::<256>(&format!("person{}@example.com", id)),
    }
}

fn insert(table: &mut Table, id: u32) -> ExecuteResult {
    assert!(insert_fits(table, id));
    let statement = Statement { type_0: StatementType::STATEMENT_INSERT, row_to_insert: row(id) };
    execute_insert(&statement, table)
}

fn select(table: &mut Table) -> Vec<Row> {
    let statement = Statement { type_0: StatementType::STATEMENT_SELECT, row_to_insert: row(0) };
    let (result, rows) = execute_select(&statement, table);
    assert_eq!(result, ExecuteResult::EXECUTE_SUCCESS);
    rows
}

fn same(a: &Row, b: &Row) -> bool {
    a.id == b.id && a.username == b.username && a.email == b.email
}

#[test]
fn insert_one_row_then_select_it() {
    let mut table = db_open(Vec::new());
    assert_eq!(insert(&mut table, 1), ExecuteResult::EXECUTE_SUCCESS);
    let rows = select(&mut table);
    assert_eq!(rows.len(), 1);
    assert!(same(&rows[0], &row(1)));
    assert_eq!(&rows[0].username[..6], b"user1\0");
    assert_eq!(&rows[0].email[..20], b"person1@example.com\0");
}

#[test]
fn second_insert_of_a_key_is_a_duplicate() {
    let mut table = db_open(Vec::new());
    assert_eq!(insert(&mut table, 1), ExecuteResult::EXECUTE_SUCCESS);
    assert_eq!(insert(&mut table, 1), ExecuteResult::EXECUTE_DUPLICATE_KEY);
    assert_eq!(select(&mut table).len(), 1);
}

#[test]
fn empty_table_selects_nothing() {
    let mut table = db_open(Vec::new());
    assert_eq!(select(&mut table).len(), 0);
    assert_eq!(table.pager.num_pages, 1);
    let root = read_page(&mut table.pager, 0);
    assert_eq!(get_node_type(root), NODE_LEAF);
    assert!(is_node_root(root));
    assert_eq!(leaf_node_num_cells(root), 0);
    assert_eq!(leaf_node_next_leaf(root), 0);
}

fn check_two_leaves_of_seven(table: &mut Table) {
    let root = read_page(&mut table.pager, 0).clone();
    assert_eq!(get_node_type(&root), NODE_INTERNAL);
    assert!(is_node_root(&root));
    assert_eq!(internal_node_num_keys(&root), 1);
    assert_eq!(internal_node_key(&root, 0), 7);
    let left_page = internal_node_child(&root, 0);
    let right_page = internal_node_right_child(&root);
    assert_eq!(internal_node_child(&root, 1), right_page);
    assert_ne!(left_page, right_page);
    let left = read_page(&mut table.pager, left_page).clone();
    let right = read_page(&mut table.pager, right_page).clone();
    for leaf in [&left, &right] {
        assert_eq!(get_node_type(leaf), NODE_LEAF);
        assert!(!is_node_root(leaf));
        assert_eq!(node_parent(leaf), 0);
        assert_eq!(leaf_node_num_cells(leaf), 7);
    }
    for i in 0..7u32 {
        assert_eq!(leaf_node_key(&left, i), i + 1);
        assert_eq!(leaf_node_key(&right, i), i + 8);
    }
    assert_eq!(leaf_node_next_leaf(&left), right_page);
    assert_eq!(leaf_node_next_leaf(&right), 0);
}

#[test]
fn fourteen_rows_in_order_split_the_root() {
    let mut table = db_open(Vec::new());
    for id in 1..=14u32 {
        assert_eq!(insert(&mut table, id), ExecuteResult::EXECUTE_SUCCESS);
    }
    let rows = select(&mut table);
    assert_eq!(rows.len(), 14);
    for (i, r) in rows.iter().enumerate() {
        assert!(same(r, &row(i as u32 + 1)));
    }
    check_two_leaves_of_seven(&mut table);
    assert_eq!(table.pager.num_pages, 3);
}

#[test]
fn fourteen_rows_backwards_come_out_in_order() {
    let mut table = db_open(Vec::new());
    for id in (1..=14u32).rev() {
        assert_eq!(insert(&mut table, id), ExecuteResult::EXECUTE_SUCCESS);
    }
    let rows = select(&mut table);
    assert_eq!(rows.len(), 14);
    for (i, r) in rows.iter().enumerate() {
        assert!(same(r, &row(i as u32 + 1)));
    }
    check_two_leaves_of_seven(&mut table);
}

#[test]
fn thirteen_rows_stay_in_the_root_leaf() {
    let mut table = db_open(Vec::new());
    for id in [5u32, 3, 9, 1, 13, 7, 11, 2, 4, 6, 8, 10, 12] {
        assert_eq!(insert(&mut table, id), ExecuteResult::EXECUTE_SUCCESS);
    }
    assert_eq!(table.pager.num_pages, 1);
    let root = read_page(&mut table.pager, 0);
    assert_eq!(get_node_type(root), NODE_LEAF);
    assert_eq!(leaf_node_num_cells(root), 13);
    for i in 0..13u32 {
        assert_eq!(leaf_node_key(root, i), i + 1);
    }
}

#[test]
fn rows_are_found_after_several_splits() {
    let mut table = db_open(Vec::new());
    let mut ids: Vec<u32> = Vec::new();
    let mut id: u32 = 17;
    for _ in 0..30 {
        id = (id * 31 + 7) % 1009;
        if ids.contains(&id) {
            continue;
        }
        if !insert_fits(&mut table, id) {
            break;
        }
        assert_eq!(insert(&mut table, id), ExecuteResult::EXECUTE_SUCCESS);
        ids.push(id);
    }
    assert!(ids.len() > 14);
    let rows = select(&mut table);
    ids.sort();
    assert_eq!(rows.len(), ids.len());
    for (r, id) in rows.iter().zip(ids.iter()) {
        assert!(same(r, &row(*id)));
    }
    for id in ids.iter() {
        let cursor = table_find(&mut table, *id);
        assert!(!cursor.end_of_table);
        let leaf = read_page(&mut table.pager, cursor.page_num);
        assert!(cursor.cell_num < leaf_node_num_cells(leaf));
        assert_eq!(leaf_node_key(leaf, cursor.cell_num), *id);
        let value = cursor_value(&mut table, &cursor);
        let mut found = row(0);
        deserialize_row(&value, 0, &mut found);
        assert!(same(&found, &row(*id)));
    }
}

#[test]
fn a_full_root_takes_no_fifth_leaf() {
    let mut table = db_open(Vec::new());
    let mut count = 0u32;
    for id in 1..=200u32 {
        if !insert_fits(&mut table, id) {
            break;
        }
        assert_eq!(insert(&mut table, id), ExecuteResult::EXECUTE_SUCCESS);
        count += 1;
    }
    // Four leaves: three of seven cells and the last, full, of thirteen.
    assert_eq!(count, 34);
    assert_eq!(select(&mut table).len(), 34);
    assert!(insert_fits(&mut table, 5));
    assert_eq!(insert(&mut table, 5), ExecuteResult::EXECUTE_DUPLICATE_KEY);
    let root = read_page(&mut table.pager, 0);
    assert_eq!(internal_node_num_keys(root), 3);
}

#[test]
fn closed_table_opens_with_the_same_rows() {
    let mut table = db_open(Vec::new());
    for id in [4u32, 20, 1, 15, 9, 3, 30, 2, 8, 14, 5, 6, 7, 10, 11, 12, 13, 40, 16] {
        assert_eq!(insert(&mut table, id), ExecuteResult::EXECUTE_SUCCESS);
    }
    let before = select(&mut table);
    let num_pages = table.pager.num_pages;
    let file = db_close(table);
    assert_eq!(file.len(), num_pages as usize * 4096);
    let mut table = db_open(file);
    assert_eq!(table.pager.num_pages, num_pages);
    let after = select(&mut table);
    assert_eq!(before.len(), after.len());
    for (a, b) in before.iter().zip(after.iter()) {
        assert!(same(a, b));
    }
    assert_eq!(insert(&mut table, 9), ExecuteResult::EXECUTE_DUPLICATE_KEY);
    assert_eq!(insert(&mut table, 17), ExecuteResult::EXECUTE_SUCCESS);
    assert_eq!(select(&mut table).len(), before.len() + 1);
}
