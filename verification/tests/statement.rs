use btree_store::btree::Table;
use btree_store::db::{db_open, execute_statement, insert_fits};
use btree_store::row::Row;
use btree_store::show::print_row;
use btree_store::statement::{
    do_meta_command, new_input_buffer, prepare_insert, prepare_statement, read_input,
    ExecuteResult, InputBuffer, MetaCommand, MetaCommandResult, PrepareResult, Statement,
    StatementType,
};

fn input(line: &str) -> InputBuffer {
    let mut buffer = new_input_buffer();
    let mut bytes = line.as_bytes().to_vec();
    bytes.push(b'\n');
    read_input(&mut buffer, bytes);
    buffer
}

fn blank() -> Statement {
    Statement {
        type_0: StatementType::STATEMENT_INSERT,
        row_to_insert: Row { id: 0, username: [0; 33], email: [0; 256] },
    }
}

fn prepare(line: &str) -> (PrepareResult, Statement) {
    let mut statement = blank();
    let result = prepare_statement(&input(line), &mut statement);
    (result, statement)
}

fn c_text(bytes: &[u8]) -> String {
    let end = bytes.iter().position(|b| *b == 0).unwrap_or(bytes.len());
    String::from_utf8_lossy(&bytes[..end]).into_owned()
}

/// What the prompt answers to one line.
fn answer(table: &mut Table, line: &str) -> Vec<String> {
    let mut out = Vec::new();
    let (prepared, statement) = prepare(line);
    match prepared {
        PrepareResult::PREPARE_SUCCESS => {}
        PrepareResult::PREPARE_NEGATIVE_ID => {
            out.push("ID must be positive.".to_string());
            return out;
        }
        PrepareResult::PREPARE_STRING_TOO_LONG => {
            out.push("String is too long.".to_string());
            return out;
        }
        PrepareResult::PREPARE_SYNTAX_ERROR => {
            out.push("Syntax error. Could not parse statement.".to_string());
            return out;
        }
        PrepareResult::PREPARE_UNRECOGNIZED_STATEMENT => {
            out.push(format!("Unrecognized keyword at start of '{}'.", line));
            return out;
        }
    }
    if statement.type_0 == StatementType::STATEMENT_INSERT {
        assert!(insert_fits(table, statement.row_to_insert.id));
    }
    let (result, rows) = execute_statement(&statement, table);
    for row in rows.iter() {
        out.push(String::from_utf8(print_row(row)).unwrap());
    }
    match result {
        ExecuteResult::EXECUTE_SUCCESS => out.push("Executed.".to_string()),
        ExecuteResult::EXECUTE_DUPLICATE_KEY => out.push("Error: Duplicate key.".to_string()),
    }
    out
}

#[test]
fn read_input_drops_the_newline() {
    let buffer = input("select");
    assert_eq!(buffer.buffer, b"select".to_vec());
    assert_eq!(buffer.input_length, 6);
    assert_eq!(buffer.buffer_length, 7);
    let empty = new_input_buffer();
    assert_eq!(empty.buffer.len(), 0);
    assert_eq!(empty.input_length, 0);
}

#[test]
fn insert_line_is_prepared() {
    let (result, statement) = prepare("insert 1 user1 person1@example.com");
    assert_eq!(result, PrepareResult::PREPARE_SUCCESS);
    assert_eq!(statement.type_0, StatementType::STATEMENT_INSERT);
    assert_eq!(statement.row_to_insert.id, 1);
    assert_eq!(c_text(&statement.row_to_insert.username), "user1");
    assert_eq!(c_text(&statement.row_to_insert.email), "person1@example.com");
}

#[test]
fn words_may_be_parted_by_several_spaces() {
    let (result, statement) = prepare("insert   42  bob    bob@example.com  ");
    assert_eq!(result, PrepareResult::PREPARE_SUCCESS);
    assert_eq!(statement.row_to_insert.id, 42);
    assert_eq!(c_text(&statement.row_to_insert.username), "bob");
    assert_eq!(c_text(&statement.row_to_insert.email), "bob@example.com");
}

#[test]
fn prepare_insert_copies_text_and_terminator_only() {
    let mut statement = blank();
    statement.row_to_insert.username = [b'x'; 33];
    statement.row_to_insert.email = [b'y'; 256];
    let result = prepare_insert(&input("insert 7 ab c@d"), &mut statement);
    assert_eq!(result, PrepareResult::PREPARE_SUCCESS);
    assert_eq!(&statement.row_to_insert.username[..4], b"ab\0x");
    assert_eq!(&statement.row_to_insert.email[..5], b"c@d\0y");
    assert_eq!(statement.row_to_insert.username[32], b'x');
    assert_eq!(statement.row_to_insert.email[255], b'y');
}

#[test]
fn negative_id_is_refused() {
    let (result, statement) = prepare("insert -1 a a@b");
    assert_eq!(result, PrepareResult::PREPARE_NEGATIVE_ID);
    assert_eq!(statement.row_to_insert.id, 0);
    let mut table = db_open(Vec::new());
    assert_eq!(answer(&mut table, "insert -1 a a@b"), vec!["ID must be positive.".to_string()]);
}

#[test]
fn long_texts_are_refused() {
    let name33 = "n".repeat(33);
    let name32 = "n".repeat(32);
    let mail256 = "m".repeat(256);
    let mail255 = "m".repeat(255);
    let (result, _) = prepare(&format!("insert 1 {} a@b", name33));
    assert_eq!(result, PrepareResult::PREPARE_STRING_TOO_LONG);
    let (result, _) = prepare(&format!("insert 1 a {}", mail256));
    assert_eq!(result, PrepareResult::PREPARE_STRING_TOO_LONG);
    let (result, statement) = prepare(&format!("insert 1 {} {}", name32, mail255));
    assert_eq!(result, PrepareResult::PREPARE_SUCCESS);
    assert_eq!(c_text(&statement.row_to_insert.username), name32);
    assert_eq!(c_text(&statement.row_to_insert.email), mail255);
    assert_eq!(statement.row_to_insert.username[32], 0);
    assert_eq!(statement.row_to_insert.email[255], 0);
    let mut table = db_open(Vec::new());
    assert_eq!(
        answer(&mut table, &format!("insert 1 {} a@b", name33)),
        vec!["String is too long.".to_string()]
    );
}

#[test]
fn missing_words_are_a_syntax_error() {
    for line in ["insert", "insert 1", "insert 1 a", "insert   ", "insert 1 a "] {
        let (result, _) = prepare(line);
        assert_eq!(result, PrepareResult::PREPARE_SYNTAX_ERROR, "{}", line);
    }
    let mut table = db_open(Vec::new());
    assert_eq!(
        answer(&mut table, "insert 1 a"),
        vec!["Syntax error. Could not parse statement.".to_string()]
    );
}

#[test]
fn negative_id_comes_before_long_text() {
    let (result, _) = prepare(&format!("insert -5 {} a@b", "n".repeat(40)));
    assert_eq!(result, PrepareResult::PREPARE_NEGATIVE_ID);
}

#[test]
fn numbers_are_read_as_far_as_they_go() {
    let (_, s) = prepare("insert abc a b");
    assert_eq!(s.row_to_insert.id, 0);
    let (_, s) = prepare("insert 12x a b");
    assert_eq!(s.row_to_insert.id, 12);
    let (_, s) = prepare("insert +5 a b");
    assert_eq!(s.row_to_insert.id, 5);
    let (_, s) = prepare("insert \t7 a b");
    assert_eq!(s.row_to_insert.id, 7);
    let (r, s) = prepare("insert 2147483647 a b");
    assert_eq!(r, PrepareResult::PREPARE_SUCCESS);
    assert_eq!(s.row_to_insert.id, 2147483647);
    let (r, _) = prepare("insert 2147483648 a b");
    assert_eq!(r, PrepareResult::PREPARE_NEGATIVE_ID);
    let (r, s) = prepare("insert 4294967297 a b");
    assert_eq!(r, PrepareResult::PREPARE_SUCCESS);
    assert_eq!(s.row_to_insert.id, 1);
    let (r, s) = prepare("insert -0 a b");
    assert_eq!(r, PrepareResult::PREPARE_SUCCESS);
    assert_eq!(s.row_to_insert.id, 0);
    let (r, s) = prepare("insert --3 a b");
    assert_eq!(r, PrepareResult::PREPARE_SUCCESS);
    assert_eq!(s.row_to_insert.id, 0);
}

#[test]
fn select_line_is_prepared() {
    let (result, statement) = prepare("select");
    assert_eq!(result, PrepareResult::PREPARE_SUCCESS);
    assert_eq!(statement.type_0, StatementType::STATEMENT_SELECT);
    let mut buffer = new_input_buffer();
    read_input(&mut buffer, b"select\0junk\n".to_vec());
    let mut statement = blank();
    assert_eq!(prepare_statement(&buffer, &mut statement), PrepareResult::PREPARE_SUCCESS);
    assert_eq!(statement.type_0, StatementType::STATEMENT_SELECT);
}

#[test]
fn other_lines_are_not_recognized() {
    for line in ["", "foo", "select ", "selects", " select", "inser 1 a b", "INSERT 1 a b"] {
        let (result, statement) = prepare(line);
        assert_eq!(result, PrepareResult::PREPARE_UNRECOGNIZED_STATEMENT, "{}", line);
        assert_eq!(statement.type_0, StatementType::STATEMENT_INSERT);
    }
    let mut table = db_open(Vec::new());
    assert_eq!(
        answer(&mut table, "update 1"),
        vec!["Unrecognized keyword at start of 'update 1'.".to_string()]
    );
}

#[test]
fn line_that_starts_with_insert_is_an_insert() {
    let (result, statement) = prepare("insertion 3 a b");
    assert_eq!(result, PrepareResult::PREPARE_SUCCESS);
    assert_eq!(statement.row_to_insert.id, 3);
}

#[test]
fn meta_commands_are_told_apart() {
    assert_eq!(
        do_meta_command(&input(".exit")),
        (MetaCommandResult::META_COMMAND_SUCCESS, MetaCommand::META_EXIT)
    );
    assert_eq!(
        do_meta_command(&input(".btree")),
        (MetaCommandResult::META_COMMAND_SUCCESS, MetaCommand::META_BTREE)
    );
    assert_eq!(
        do_meta_command(&input(".constants")),
        (MetaCommandResult::META_COMMAND_SUCCESS, MetaCommand::META_CONSTANTS)
    );
    for line in [".", ".exit ", ".tables", ".btre", ".constant"] {
        assert_eq!(
            do_meta_command(&input(line)),
            (MetaCommandResult::META_COMMAND_UNRECOGNIZED_COMMAND, MetaCommand::META_UNKNOWN),
            "{}",
            line
        );
    }
}

#[test]
fn one_row_is_put_in_and_selected() {
    let mut table = db_open(Vec::new());
    assert_eq!(
        answer(&mut table, "insert 1 user1 person1@example.com"),
        vec!["Executed.".to_string()]
    );
    assert_eq!(
        answer(&mut table, "select"),
        vec!["(1, user1, person1@example.com)".to_string(), "Executed.".to_string()]
    );
}

#[test]
fn same_key_twice_is_an_error() {
    let mut table = db_open(Vec::new());
    assert_eq!(answer(&mut table, "insert 1 a a@b"), vec!["Executed.".to_string()]);
    assert_eq!(answer(&mut table, "insert 1 c c@d"), vec!["Error: Duplicate key.".to_string()]);
    assert_eq!(
        answer(&mut table, "select"),
        vec!["(1, a, a@b)".to_string(), "Executed.".to_string()]
    );
}

#[test]
fn fourteen_lines_in_order_are_selected_in_order() {
    let mut table = db_open(Vec::new());
    for id in 1..=14 {
        let line = format!("insert {} user{} person{}@example.com", id, id, id);
        assert_eq!(answer(&mut table, &line), vec!["Executed.".to_string()]);
    }
    let out = answer(&mut table, "select");
    assert_eq!(out.len(), 15);
    for id in 1..=14 {
        assert_eq!(out[id - 1], format!("({}, user{}, person{}@example.com)", id, id, id));
    }
    assert_eq!(out[14], "Executed.");
}

#[test]
fn fourteen_lines_backwards_are_selected_in_order() {
    let mut table = db_open(Vec::new());
    for id in (1..=14).rev() {
        let line = format!("insert {} user{} person{}@example.com", id, id, id);
        assert_eq!(answer(&mut table, &line), vec!["Executed.".to_string()]);
    }
    let out = answer(&mut table, "select");
    assert_eq!(out.len(), 15);
    for id in 1..=14 {
        assert_eq!(out[id - 1], format!("({}, user{}, person{}@example.com)", id, id, id));
    }
}

#[test]
fn rows_are_shown_in_brackets() {
    let mut row = Row { id: 0, username: [0; 33], email: [0; 256] };
    assert_eq!(print_row(&row), b"(0, , )".to_vec());
    row.id = 4294967295;
    row.username[..3].copy_from_slice(b"abc");
    row.email = [b'e'; 256];
    let mut expected = b"(4294967295, abc, ".to_vec();
    expected.extend_from_slice(&[b'e'; 256]);
    expected.push(b')');
    assert_eq!(print_row(&row), expected);
    row.id = 1050;
    row.username = [b'u'; 33];
    row.username[5] = 0;
    row.email[1] = 0;
    assert_eq!(print_row(&row), b"(1050, uuuuu, e)".to_vec());
    row.id = 10;
    assert_eq!(print_row(&row), b"(10, uuuuu, e)".to_vec());
    row.id = 9;
    assert_eq!(print_row(&row), b"(9, uuuuu, e)".to_vec());
}
