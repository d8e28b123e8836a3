use btree_store::btree::{
    cursor_advance, cursor_value, internal_node_find, leaf_node_find, table_find, table_start,
    Cursor, Table,
};
use btree_store::bytes::{
    copy_bytes, move_bytes, read_bytes, read_u32, scan, text_length, write_u32,
};
use btree_store::db::{
    db_close, db_open, execute_insert, insert_fits, is_leaf_in_order, is_table_in_order,
};
use btree_store::insert::{create_new_root, internal_node_insert, leaf_node_insert, leaf_node_split};
use btree_store::internal::{
    internal_insert_branch, internal_replace_right_child, update_internal_node_key,
};
use btree_store::btree::internal_node_find_child;
use btree_store::leaf::{leaf_insert_cell, write_leaf_cell};
use btree_store::node::{
    get_node_max_key, get_node_type, initialize_internal_node, initialize_leaf_node,
    internal_node_cell, internal_node_child, internal_node_key, internal_node_num_keys,
    internal_node_right_child, is_node_root, leaf_node_cell, leaf_node_key, leaf_node_next_leaf,
    leaf_node_num_cells, leaf_node_value, node_parent, set_internal_node_child,
    set_internal_node_key, set_internal_node_num_keys, set_internal_node_right_child,
    set_leaf_node_key, set_leaf_node_next_leaf, set_leaf_node_num_cells, set_node_parent,
    set_node_root, set_node_type, NODE_INTERNAL, NODE_LEAF,
};
use btree_store::pager::{get_page, get_unused_page_num, pager_flush, pager_open, read_page};
use btree_store::row::{deserialize_row, serialize_row, Row};
use btree_store::show::{print_tree, TreeLine, TreeLineKind};
use btree_store::statement::{ExecuteResult, Statement, StatementType};

fn text<const N: usize>(s: &str) -> [u8; N] {
    let mut out = [0u8; N];
    out[..s.len()].copy_from_slice(s.as_bytes());
    out
}

fn row(id: u32) -> Row {
    Row { id, username: text::<33>(&format!("u{}", id)), email: text::<256>(&format!("e{}@x", id)) }
}

fn insert(table: &mut Table, id: u32) {
    assert!(insert_fits(table, id));
    let statement = Statement { type_0: StatementType::STATEMENT_INSERT, row_to_insert: row(id) };
    assert_eq!(execute_insert(&statement, table), ExecuteResult::EXECUTE_SUCCESS);
}

#[test]
fn integers_are_little_endian() {
    let mut buffer = vec![0xffu8; 8];
    write_u32(&mut buffer, 2, 0x0102_0304);
    assert_eq!(buffer, vec![0xff, 0xff, 0x04, 0x03, 0x02, 0x01, 0xff, 0xff]);
    assert_eq!(read_u32(&buffer, 2), 0x0102_0304);
    write_u32(&mut buffer, 0, u32::MAX);
    assert_eq!(read_u32(&buffer, 0), u32::MAX);
    write_u32(&mut buffer, 4, 0);
    assert_eq!(read_u32(&buffer, 4), 0);
    assert_eq!(read_u32(&vec![1, 0, 0, 0], 0), 1);
    assert_eq!(read_u32(&vec![0, 1, 0, 0], 0), 256);
}

#[test]
fn byte_ranges_are_copied() {
    let src: Vec<u8> = (0..10).collect();
    let mut dst = vec![9u8; 6];
    copy_bytes(&mut dst, 1, &src, 4, 3);
    assert_eq!(dst, vec![9, 4, 5, 6, 9, 9]);
    assert_eq!(read_bytes(&src, 7, 3), vec![7, 8, 9]);
    assert_eq!(read_bytes(&src, 3, 0), Vec::<u8>::new());
    let mut buffer: Vec<u8> = (0..10).collect();
    move_bytes(&mut buffer, 6, 2, 4);
    assert_eq!(buffer, vec![0, 1, 2, 3, 4, 5, 2, 3, 4, 5]);
}

#[test]
fn header_fields_lie_at_their_offsets() {
    let mut page = vec![0u8; 4096];
    set_node_type(&mut page, NODE_LEAF);
    set_node_root(&mut page, true);
    set_node_parent(&mut page, 0x0a0b_0c0d);
    set_leaf_node_num_cells(&mut page, 5);
    set_leaf_node_next_leaf(&mut page, 9);
    assert_eq!(&page[..14], &[1, 1, 0x0d, 0x0c, 0x0b, 0x0a, 5, 0, 0, 0, 9, 0, 0, 0]);
    assert_eq!(get_node_type(&page), NODE_LEAF);
    assert!(is_node_root(&page));
    assert_eq!(node_parent(&page), 0x0a0b_0c0d);
    assert_eq!(leaf_node_num_cells(&page), 5);
    assert_eq!(leaf_node_next_leaf(&page), 9);
    set_node_root(&mut page, false);
    set_node_type(&mut page, NODE_INTERNAL);
    assert_eq!(&page[..2], &[0, 0]);
    assert!(!is_node_root(&page));
    assert_eq!(get_node_type(&page), NODE_INTERNAL);
    set_node_type(&mut page, 0x0102);
    assert_eq!(get_node_type(&page), 2);
}

#[test]
fn leaf_cells_lie_at_their_offsets() {
    assert_eq!(leaf_node_cell(0), 14);
    assert_eq!(leaf_node_cell(1), 14 + 297);
    assert_eq!(leaf_node_cell(12), 14 + 12 * 297);
    assert_eq!(leaf_node_value(0), 18);
    assert_eq!(leaf_node_value(12), 14 + 12 * 297 + 4);
    let mut page = vec![0u8; 4096];
    set_leaf_node_key(&mut page, 2, 77);
    assert_eq!(page[14 + 2 * 297], 77);
    assert_eq!(leaf_node_key(&page, 2), 77);
    write_leaf_cell(&mut page, 12, 5, &row(5));
    assert_eq!(leaf_node_key(&page, 12), 5);
    assert_eq!(read_u32(&page, 14 + 12 * 297 + 4), 5);
    assert_eq!(&page[14 + 12 * 297 + 8..14 + 12 * 297 + 11], b"u5\0");
    assert_eq!(&page[14 + 12 * 297 + 41..14 + 12 * 297 + 46], b"e5@x\0");
}

#[test]
fn internal_cells_lie_at_their_offsets() {
    assert_eq!(internal_node_cell(0), 14);
    assert_eq!(internal_node_cell(3), 38);
    let mut page = vec![0u8; 4096];
    initialize_internal_node(&mut page);
    set_internal_node_num_keys(&mut page, 2);
    set_internal_node_right_child(&mut page, 30);
    set_internal_node_child(&mut page, 0, 10);
    set_internal_node_key(&mut page, 0, 100);
    set_internal_node_child(&mut page, 1, 20);
    set_internal_node_key(&mut page, 1, 200);
    assert_eq!(
        &page[6..30],
        &[2, 0, 0, 0, 30, 0, 0, 0, 10, 0, 0, 0, 100, 0, 0, 0, 20, 0, 0, 0, 200, 0, 0, 0]
    );
    assert_eq!(internal_node_num_keys(&page), 2);
    assert_eq!(internal_node_child(&page, 0), 10);
    assert_eq!(internal_node_child(&page, 1), 20);
    assert_eq!(internal_node_child(&page, 2), 30);
    assert_eq!(internal_node_right_child(&page), 30);
    assert_eq!(internal_node_key(&page, 1), 200);
    assert_eq!(get_node_max_key(&page), 200);
    set_internal_node_child(&mut page, 2, 40);
    assert_eq!(internal_node_right_child(&page), 40);
    assert_eq!(internal_node_find_child(&page, 50), 0);
    assert_eq!(internal_node_find_child(&page, 100), 0);
    assert_eq!(internal_node_find_child(&page, 101), 1);
    assert_eq!(internal_node_find_child(&page, 200), 1);
    assert_eq!(internal_node_find_child(&page, 201), 2);
}

#[test]
fn nodes_are_initialized() {
    let mut page = vec![0xeeu8; 4096];
    initialize_leaf_node(&mut page);
    assert_eq!(get_node_type(&page), NODE_LEAF);
    assert!(!is_node_root(&page));
    assert_eq!(leaf_node_num_cells(&page), 0);
    assert_eq!(leaf_node_next_leaf(&page), 0);
    assert_eq!(node_parent(&page), 0xeeee_eeee);
    assert_eq!(page[14], 0xee);
    let mut page = vec![0xeeu8; 4096];
    initialize_internal_node(&mut page);
    assert_eq!(get_node_type(&page), NODE_INTERNAL);
    assert!(!is_node_root(&page));
    assert_eq!(internal_node_num_keys(&page), 0);
    assert_eq!(internal_node_right_child(&page), 0xeeee_eeee);
}

#[test]
fn row_is_written_and_read_back() {
    let r = Row { id: 0x1122_3344, username: [7u8; 33], email: [9u8; 256] };
    let mut buffer = vec![0u8; 300];
    serialize_row(&r, &mut buffer, 3);
    assert_eq!(&buffer[..3], &[0, 0, 0]);
    assert_eq!(&buffer[3..7], &[0x44, 0x33, 0x22, 0x11]);
    assert_eq!(&buffer[7..40], &[7u8; 33]);
    assert_eq!(&buffer[40..296], &[9u8; 256]);
    assert_eq!(&buffer[296..], &[0, 0, 0, 0]);
    let mut back = Row { id: 0, username: [0; 33], email: [0; 256] };
    deserialize_row(&buffer, 3, &mut back);
    assert_eq!(back.id, r.id);
    assert_eq!(back.username, r.username);
    assert_eq!(back.email, r.email);
}

#[test]
fn leaf_takes_a_cell_between_the_others() {
    let mut page = vec![0u8; 4096];
    initialize_leaf_node(&mut page);
    leaf_insert_cell(&mut page, 0, 10, &row(10));
    leaf_insert_cell(&mut page, 1, 30, &row(30));
    leaf_insert_cell(&mut page, 1, 20, &row(20));
    leaf_insert_cell(&mut page, 0, 5, &row(5));
    assert_eq!(leaf_node_num_cells(&page), 4);
    for (i, key) in [5u32, 10, 20, 30].iter().enumerate() {
        assert_eq!(leaf_node_key(&page, i as u32), *key);
        let mut back = row(0);
        deserialize_row(&page, leaf_node_value(i as u32), &mut back);
        assert_eq!(back.id, *key);
        assert_eq!(back.username, row(*key).username);
    }
    assert_eq!(get_node_max_key(&page), 30);
    assert!(is_leaf_in_order(&page));
    set_leaf_node_key(&mut page, 2, 10);
    assert!(!is_leaf_in_order(&page));
    set_leaf_node_key(&mut page, 2, 20);
    set_leaf_node_num_cells(&mut page, 14);
    assert!(!is_leaf_in_order(&page));
}

#[test]
fn internal_node_takes_cells() {
    let mut page = vec![0u8; 4096];
    initialize_internal_node(&mut page);
    set_internal_node_num_keys(&mut page, 1);
    set_internal_node_child(&mut page, 0, 2);
    set_internal_node_key(&mut page, 0, 7);
    set_internal_node_right_child(&mut page, 1);
    internal_replace_right_child(&mut page, 3, 14);
    assert_eq!(internal_node_num_keys(&page), 2);
    assert_eq!(
        (internal_node_child(&page, 0), internal_node_key(&page, 0)),
        (2, 7)
    );
    assert_eq!(
        (internal_node_child(&page, 1), internal_node_key(&page, 1)),
        (1, 14)
    );
    assert_eq!(internal_node_right_child(&page), 3);
    internal_insert_branch(&mut page, 1, 4, 10);
    assert_eq!(internal_node_num_keys(&page), 3);
    assert_eq!(
        (internal_node_child(&page, 1), internal_node_key(&page, 1)),
        (4, 10)
    );
    assert_eq!(
        (internal_node_child(&page, 2), internal_node_key(&page, 2)),
        (1, 14)
    );
    update_internal_node_key(&mut page, 10, 9);
    assert_eq!(internal_node_key(&page, 1), 9);
    let before = page.clone();
    update_internal_node_key(&mut page, 50, 60);
    assert_eq!(page, before);
}

#[test]
fn pager_counts_pages_and_keeps_buffers() {
    let mut file = vec![0u8; 2 * 4096];
    file[4096] = 42;
    let mut pager = pager_open(file);
    assert_eq!(pager.num_pages, 2);
    assert_eq!(pager.file_length, 8192);
    assert_eq!(get_unused_page_num(&pager), 2);
    assert!(pager.pages.iter().all(|slot| slot.is_none()));
    assert_eq!(pager.pages.len(), 100);
    assert_eq!(get_page(&mut pager, 1)[0], 42);
    assert_eq!(pager.num_pages, 2);
    get_page(&mut pager, 1)[1] = 43;
    assert_eq!(read_page(&mut pager, 1)[1], 43);
    assert_eq!(pager.file[4097], 0);
    let fresh = get_page(&mut pager, 5);
    assert_eq!(fresh.len(), 4096);
    assert!(fresh.iter().all(|b| *b == 0));
    assert_eq!(pager.num_pages, 6);
    assert_eq!(get_unused_page_num(&pager), 6);
    get_page(&mut pager, 3);
    assert_eq!(pager.num_pages, 6);
}

#[test]
fn flush_writes_a_page_to_the_image() {
    let mut pager = pager_open(vec![1u8; 4096]);
    get_page(&mut pager, 0)[10] = 7;
    get_page(&mut pager, 2)[0] = 9;
    pager_flush(&mut pager, 2);
    assert_eq!(pager.file.len(), 3 * 4096);
    assert_eq!(pager.file_length, 3 * 4096);
    assert_eq!(pager.file[10], 1);
    assert!(pager.file[4096..8192].iter().all(|b| *b == 0));
    assert_eq!(pager.file[8192], 9);
    pager_flush(&mut pager, 0);
    assert_eq!(pager.file[10], 7);
    assert_eq!(pager.file.len(), 3 * 4096);
}

#[test]
fn closing_writes_all_cached_pages() {
    let mut table = db_open(Vec::new());
    assert_eq!(table.root_page_num, 0);
    for id in 1..=14u32 {
        insert(&mut table, id);
    }
    let pages: Vec<Vec<u8>> =
        (0..3).map(|n| read_page(&mut table.pager, n).clone()).collect();
    let file = db_close(table);
    assert_eq!(file.len(), 3 * 4096);
    for n in 0..3 {
        assert_eq!(&file[n * 4096..(n + 1) * 4096], &pages[n][..]);
    }
    let file = db_close(db_open(file.clone()));
    assert_eq!(file.len(), 3 * 4096);
}

#[test]
fn empty_file_closes_as_one_page() {
    let file = db_close(db_open(Vec::new()));
    assert_eq!(file.len(), 4096);
    assert_eq!(&file[..14], &[1, 1, 0, 0, 0, 0, 0, 0, 0, 0, 0, 0, 0, 0]);
}

#[test]
fn cursor_walks_over_the_leaves() {
    let mut table = db_open(Vec::new());
    for id in (1..=20u32).rev() {
        insert(&mut table, id * 10);
    }
    let mut cursor = table_start(&mut table);
    assert!(!cursor.end_of_table);
    assert_eq!(cursor.cell_num, 0);
    let mut keys = Vec::new();
    let mut pages = Vec::new();
    while !cursor.end_of_table {
        let value = cursor_value(&mut table, &cursor);
        assert_eq!(value.len(), 293);
        keys.push(read_u32(&value, 0));
        if pages.last() != Some(&cursor.page_num) {
            pages.push(cursor.page_num);
        }
        cursor_advance(&mut table, &mut cursor);
    }
    assert_eq!(keys, (1..=20u32).map(|id| id * 10).collect::<Vec<u32>>());
    let mut distinct = pages.clone();
    distinct.sort();
    distinct.dedup();
    assert_eq!(distinct.len(), pages.len());
    let last = read_page(&mut table.pager, *pages.last().unwrap());
    assert_eq!(leaf_node_next_leaf(last), 0);
    let root = read_page(&mut table.pager, 0).clone();
    let num_keys = internal_node_num_keys(&root);
    assert_eq!(pages.len() as u32, num_keys + 1);
    for (i, page) in pages.iter().enumerate() {
        assert_eq!(internal_node_child(&root, i as u32), *page);
        let leaf = read_page(&mut table.pager, *page).clone();
        assert_eq!(node_parent(&leaf), 0);
        assert!(!is_node_root(&leaf));
        if (i as u32) < num_keys {
            assert_eq!(internal_node_key(&root, i as u32), get_node_max_key(&leaf));
            assert_eq!(leaf_node_next_leaf(&leaf), pages[i + 1]);
        }
    }
}

#[test]
fn find_gives_the_place_of_a_missing_key() {
    let mut table = db_open(Vec::new());
    for id in [10u32, 20, 30] {
        insert(&mut table, id);
    }
    let at = |table: &mut Table, key: u32| {
        let Cursor { page_num, cell_num, end_of_table } = table_find(table, key);
        (page_num, cell_num, end_of_table)
    };
    assert_eq!(at(&mut table, 5), (0, 0, false));
    assert_eq!(at(&mut table, 10), (0, 0, false));
    assert_eq!(at(&mut table, 15), (0, 1, false));
    assert_eq!(at(&mut table, 30), (0, 2, false));
    assert_eq!(at(&mut table, 31), (0, 3, false));
    let mut empty = db_open(Vec::new());
    let start = table_start(&mut empty);
    assert!(start.end_of_table);
    assert_eq!((start.page_num, start.cell_num), (0, 0));
}

#[test]
fn leaf_is_split_in_two_halves() {
    let mut table = db_open(Vec::new());
    for id in 1..=13u32 {
        insert(&mut table, id * 2);
    }
    let cursor = table_find(&mut table, 7);
    assert_eq!(cursor.cell_num, 3);
    let new_page = leaf_node_split(&mut table, &cursor, 7, &row(7));
    assert_eq!(new_page, 1);
    assert_eq!(table.pager.num_pages, 2);
    let left = read_page(&mut table.pager, 0).clone();
    let right = read_page(&mut table.pager, 1).clone();
    assert_eq!(leaf_node_num_cells(&left), 7);
    assert_eq!(leaf_node_num_cells(&right), 7);
    let keys = |p: &Vec<u8>| (0..7).map(|i| leaf_node_key(p, i)).collect::<Vec<u32>>();
    assert_eq!(keys(&left), vec![2, 4, 6, 7, 8, 10, 12]);
    assert_eq!(keys(&right), vec![14, 16, 18, 20, 22, 24, 26]);
    assert_eq!(leaf_node_next_leaf(&left), 1);
    assert_eq!(leaf_node_next_leaf(&right), 0);
    assert!(is_node_root(&left));
    assert!(!is_node_root(&right));
    create_new_root(&mut table, new_page);
    assert_eq!(table.pager.num_pages, 3);
    let root = read_page(&mut table.pager, 0).clone();
    assert_eq!(get_node_type(&root), NODE_INTERNAL);
    assert!(is_node_root(&root));
    assert_eq!(internal_node_num_keys(&root), 1);
    assert_eq!(internal_node_child(&root, 0), 2);
    assert_eq!(internal_node_key(&root, 0), 12);
    assert_eq!(internal_node_right_child(&root), 1);
    let moved = read_page(&mut table.pager, 2).clone();
    assert!(!is_node_root(&moved));
    assert_eq!(keys(&moved), vec![2, 4, 6, 7, 8, 10, 12]);
    assert!(is_table_in_order(&mut table));
}

#[test]
fn new_leaf_is_hung_into_the_root() {
    let mut table = db_open(Vec::new());
    for id in 1..=14u32 {
        insert(&mut table, id * 10);
    }
    // Root: left leaf 10..70 at page 2, right leaf 80..140 at page 1.
    for id in [81u32, 82, 83, 84, 85, 86] {
        insert(&mut table, id);
    }
    assert_eq!(table.pager.num_pages, 3);
    insert(&mut table, 87);
    assert_eq!(table.pager.num_pages, 4);
    let root = read_page(&mut table.pager, 0).clone();
    assert_eq!(internal_node_num_keys(&root), 2);
    assert_eq!((internal_node_child(&root, 0), internal_node_key(&root, 0)), (2, 70));
    assert_eq!((internal_node_child(&root, 1), internal_node_key(&root, 1)), (1, 86));
    assert_eq!(internal_node_right_child(&root), 3);
    // Fill the left leaf, so that a leaf in the middle of the root is split.
    for id in [11u32, 12, 13, 14, 15, 16] {
        insert(&mut table, id);
    }
    insert(&mut table, 17);
    assert_eq!(table.pager.num_pages, 5);
    let root = read_page(&mut table.pager, 0).clone();
    assert_eq!(internal_node_num_keys(&root), 3);
    assert_eq!((internal_node_child(&root, 0), internal_node_key(&root, 0)), (2, 16));
    assert_eq!((internal_node_child(&root, 1), internal_node_key(&root, 1)), (4, 70));
    assert_eq!((internal_node_child(&root, 2), internal_node_key(&root, 2)), (1, 86));
    assert_eq!(internal_node_right_child(&root), 3);
    assert!(is_table_in_order(&mut table));
    let leaf = read_page(&mut table.pager, 2).clone();
    assert_eq!(leaf_node_next_leaf(&leaf), 4);
    let leaf = read_page(&mut table.pager, 4).clone();
    assert_eq!(leaf_node_next_leaf(&leaf), 1);
    assert_eq!(node_parent(&leaf), 0);
}

#[test]
fn internal_node_insert_puts_the_child_at_its_key() {
    let mut table = db_open(Vec::new());
    for id in 1..=14u32 {
        insert(&mut table, id * 10);
    }
    // A leaf of its own, with keys between the two leaves of the tree.
    let page_num = get_unused_page_num(&table.pager);
    let page = get_page(&mut table.pager, page_num);
    initialize_leaf_node(page);
    leaf_insert_cell(page, 0, 75, &row(75));
    internal_node_insert(&mut table, 0, page_num);
    let root = read_page(&mut table.pager, 0).clone();
    assert_eq!(internal_node_num_keys(&root), 2);
    assert_eq!((internal_node_child(&root, 0), internal_node_key(&root, 0)), (2, 70));
    assert_eq!((internal_node_child(&root, 1), internal_node_key(&root, 1)), (3, 75));
    assert_eq!(internal_node_right_child(&root), 1);
}

#[test]
fn leaf_node_insert_puts_the_row_at_the_cursor() {
    let mut table = db_open(Vec::new());
    insert(&mut table, 10);
    insert(&mut table, 30);
    let cursor = table_find(&mut table, 20);
    leaf_node_insert(&mut table, &cursor, 20, &row(20));
    let root = read_page(&mut table.pager, 0);
    assert_eq!(leaf_node_num_cells(root), 3);
    assert_eq!(leaf_node_key(root, 1), 20);
}

#[test]
fn tree_is_shown_depth_first() {
    let mut table = db_open(Vec::new());
    for id in 1..=14u32 {
        insert(&mut table, id);
    }
    let mut lines: Vec<TreeLine> = Vec::new();
    print_tree(&mut table, 0, 0, &mut lines);
    let mut expected = vec![TreeLine { level: 0, kind: TreeLineKind::LINE_INTERNAL, value: 1 }];
    expected.push(TreeLine { level: 1, kind: TreeLineKind::LINE_LEAF, value: 7 });
    for key in 1..=7 {
        expected.push(TreeLine { level: 2, kind: TreeLineKind::LINE_LEAF_KEY, value: key });
    }
    expected.push(TreeLine { level: 1, kind: TreeLineKind::LINE_INTERNAL_KEY, value: 7 });
    expected.push(TreeLine { level: 1, kind: TreeLineKind::LINE_LEAF, value: 7 });
    for key in 8..=14 {
        expected.push(TreeLine { level: 2, kind: TreeLineKind::LINE_LEAF_KEY, value: key });
    }
    assert_eq!(lines, expected);
    let mut small = db_open(Vec::new());
    insert(&mut small, 3);
    let mut lines: Vec<TreeLine> = Vec::new();
    print_tree(&mut small, 0, 4, &mut lines);
    assert_eq!(
        lines,
        vec![
            TreeLine { level: 4, kind: TreeLineKind::LINE_LEAF, value: 1 },
            TreeLine { level: 5, kind: TreeLineKind::LINE_LEAF_KEY, value: 3 },
        ]
    );
}

#[test]
fn files_that_hold_no_tree_are_told() {
    let mut table = db_open(vec![0u8; 4096]);
    assert!(!is_table_in_order(&mut table));
    let mut table = db_open(Vec::new());
    for id in 1..=30u32 {
        insert(&mut table, id);
    }
    assert!(is_table_in_order(&mut table));
    let file = db_close(table);
    let mut table = db_open(file.clone());
    assert!(is_table_in_order(&mut table));
    // A key of the root that is not the largest key of its child.
    let mut bad = file.clone();
    bad[18] = bad[18].wrapping_add(1);
    assert!(!is_table_in_order(&mut db_open(bad)));
    // A child beyond the pages of the file.
    let mut bad = file.clone();
    bad[14] = 99;
    assert!(!is_table_in_order(&mut db_open(bad)));
    // Keys of a leaf out of order.
    let mut bad = file.clone();
    bad[4096 + 14] = 200;
    assert!(!is_table_in_order(&mut db_open(bad)));
    // A root that is not marked.
    let mut bad = file;
    bad[1] = 0;
    assert!(!is_table_in_order(&mut db_open(bad)));
}

#[test]
fn text_ends_at_the_first_zero_byte() {
    assert_eq!(text_length(b"abc\0def\0"), 3);
    assert_eq!(text_length(b"abc"), 3);
    assert_eq!(text_length(b"\0"), 0);
    assert_eq!(text_length(b""), 0);
    assert_eq!(scan(b"  ab  c", 7, 0, b' ', false), 2);
    assert_eq!(scan(b"  ab  c", 7, 2, b' ', true), 4);
    assert_eq!(scan(b"  ab  c", 7, 6, b' ', true), 7);
    assert_eq!(scan(b"  ab  c", 5, 4, b' ', false), 5);
    assert_eq!(scan(b"  ab  c", 7, 7, b' ', false), 7);
}

#[test]
fn search_below_the_root_ends_in_the_right_leaf() {
    let mut table = db_open(Vec::new());
    for id in 1..=14u32 {
        insert(&mut table, id * 10);
    }
    // Left leaf 10..70 at page 2, right leaf 80..140 at page 1.
    let at = |c: Cursor| (c.page_num, c.cell_num, c.end_of_table);
    assert_eq!(at(internal_node_find(&mut table, 0, 5)), (2, 0, false));
    assert_eq!(at(internal_node_find(&mut table, 0, 70)), (2, 6, false));
    assert_eq!(at(internal_node_find(&mut table, 0, 71)), (1, 0, false));
    assert_eq!(at(internal_node_find(&mut table, 0, 95)), (1, 2, false));
    assert_eq!(at(internal_node_find(&mut table, 0, 141)), (1, 7, false));
    assert_eq!(at(leaf_node_find(&mut table, 1, 100)), (1, 2, false));
    assert_eq!(at(leaf_node_find(&mut table, 2, 100)), (2, 7, false));
    assert_eq!(at(leaf_node_find(&mut table, 2, 0)), (2, 0, false));
    assert_eq!(at(table_find(&mut table, 71)), (1, 0, false));
}
