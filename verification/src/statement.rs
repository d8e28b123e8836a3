//! Statements: what a line of input asks for.

use vstd::prelude::*;
use crate::bytes::{spec_scan, spec_text, scan, text_length};
use crate::layout::{COLUMN_USERNAME_SIZE, COLUMN_EMAIL_SIZE};
use crate::row::Row;

verus! {

/// A line of input. `buffer` holds the line without the newline at its end.
pub struct InputBuffer {
    pub buffer: Vec<u8>,
    pub buffer_length: usize,
    pub input_length: usize,
}

/// How a statement ended.
#[allow(non_camel_case_types)]
#[derive(Clone, Copy, Debug, PartialEq, Eq, Structural)]
pub enum ExecuteResult {
    EXECUTE_SUCCESS,
    EXECUTE_DUPLICATE_KEY,
}

/// Whether a line that starts with a dot was a command.
#[allow(non_camel_case_types)]
#[derive(Clone, Copy, Debug, PartialEq, Eq, Structural)]
pub enum MetaCommandResult {
    META_COMMAND_SUCCESS,
    META_COMMAND_UNRECOGNIZED_COMMAND,
}

/// Whether a line was a statement, and if not, why not.
#[allow(non_camel_case_types)]
#[derive(Clone, Copy, Debug, PartialEq, Eq, Structural)]
pub enum PrepareResult {
    PREPARE_SUCCESS,
    PREPARE_NEGATIVE_ID,
    PREPARE_STRING_TOO_LONG,
    PREPARE_SYNTAX_ERROR,
    PREPARE_UNRECOGNIZED_STATEMENT,
}

/// The kinds of statement.
#[allow(non_camel_case_types)]
#[derive(Clone, Copy, Debug, PartialEq, Eq, Structural)]
pub enum StatementType {
    STATEMENT_INSERT,
    STATEMENT_SELECT,
}

/// A statement: its kind, and the row of an insert.
#[derive(Clone, Copy, Debug)]
pub struct Statement {
    pub type_0: StatementType,
    pub row_to_insert: Row,
}

/// What a line that starts with a dot asks for.
#[allow(non_camel_case_types)]
#[derive(Clone, Copy, Debug, PartialEq, Eq, Structural)]
pub enum MetaCommand {
    /// `.exit`: close the table and leave.
    META_EXIT,
    /// `.btree`: show the tree.
    META_BTREE,
    /// `.constants`: show the sizes of the layout.
    META_CONSTANTS,
    /// Nothing that is known.
    META_UNKNOWN,
}

/// Where the word starts that is looked for from `from` on: behind the
/// spaces there.
pub open spec fn spec_word_start(text: Seq<u8>, from: int) -> int {
    spec_scan(text, from, 32, false)
}

/// Where the word ends that starts at `start`: at the next space, or with the
/// text.
pub open spec fn spec_word_end(text: Seq<u8>, start: int) -> int {
    spec_scan(text, start, 32, true)
}

/// A byte that counts as white space before a number.
pub open spec fn is_space_byte(b: u8) -> bool {
    b == 32 || 9 <= b <= 13
}

/// The first place from `from` on where `s` has no white space.
pub open spec fn spec_skip_space(s: Seq<u8>, from: int) -> int
    decreases s.len() - from,
{
    if from < s.len() && is_space_byte(s[from]) {
        spec_skip_space(s, from + 1)
    } else {
        from
    }
}

/// The number that the digits of `s` from `from` on add to `acc`, kept to 32
/// bits.
pub open spec fn spec_digits(s: Seq<u8>, from: int, acc: u32) -> u32
    decreases s.len() - from,
{
    if from < s.len() && 48 <= s[from] <= 57 {
        spec_digits(s, from + 1, ((acc * 10 + (s[from] - 48)) % 0x1_0000_0000) as u32)
    } else {
        acc
    }
}

/// The number at the start of `s`, as the 32 bits of a signed integer: white
/// space, then a sign or none, then digits up to the first byte that is none.
/// No digits give 0; a number too large for 32 bits keeps its lowest 32 bits.
pub open spec fn spec_atoi(s: Seq<u8>) -> u32 {
    let start = spec_skip_space(s, 0);
    if start < s.len() && s[start] == 45 {
        ((0x1_0000_0000 - spec_digits(s, start + 1, 0)) % 0x1_0000_0000) as u32
    } else if start < s.len() && s[start] == 43 {
        spec_digits(s, start + 1, 0)
    } else {
        spec_digits(s, start, 0)
    }
}

/// The 32 bits stand for a negative number.
pub open spec fn is_negative(bits: u32) -> bool {
    bits >= 0x8000_0000
}

/// `dst` after the text `src` and a zero byte were copied to its start.
pub open spec fn spec_strcpy(dst: Seq<u8>, src: Seq<u8>) -> Seq<u8> {
    Seq::new(
        dst.len(),
        |i: int|
            if i < src.len() {
                src[i]
            } else if i == src.len() {
                0u8
            } else {
                dst[i]
            },
    )
}

/// What an insert statement in `text` prepares: the result, and the row if
/// the result is success. The words of the text are parted by spaces; the
/// first is the keyword, then come the id, the user name and the e-mail
/// address.
pub open spec fn spec_prepare_insert(
    text: Seq<u8>,
    before: Row,
    result: PrepareResult,
    after: Row,
) -> bool {
    let keyword_end = spec_word_end(text, spec_word_start(text, 0));
    let id_start = spec_word_start(text, keyword_end);
    let id_end = spec_word_end(text, id_start);
    let username_start = spec_word_start(text, id_end);
    let username_end = spec_word_end(text, username_start);
    let email_start = spec_word_start(text, username_end);
    let email_end = spec_word_end(text, email_start);
    let id = spec_atoi(text.subrange(id_start, id_end));
    if email_start >= text.len() {
        result == PrepareResult::PREPARE_SYNTAX_ERROR && after == before
    } else if is_negative(id) {
        result == PrepareResult::PREPARE_NEGATIVE_ID && after == before
    } else if username_end - username_start > 32 || email_end - email_start > 255 {
        result == PrepareResult::PREPARE_STRING_TOO_LONG && after == before
    } else {
        &&& result == PrepareResult::PREPARE_SUCCESS
        &&& after.id == id
        &&& after.username@ == spec_strcpy(
            before.username@,
            text.subrange(username_start, username_end),
        )
        &&& after.email@ == spec_strcpy(before.email@, text.subrange(email_start, email_end))
    }
}

/// An input buffer that holds no line yet.
pub fn new_input_buffer() -> (input_buffer: InputBuffer)
    ensures
        input_buffer.buffer@.len() == 0,
        input_buffer.buffer_length == 0,
        input_buffer.input_length == 0,
{
    InputBuffer { buffer: Vec::new(), buffer_length: 0, input_length: 0 }
}

/// Takes a line that was read, with the newline at its end, into the buffer.
/// The newline is dropped.
pub fn read_input(input_buffer: &mut InputBuffer, line: Vec<u8>)
    requires
        line.len() > 0,
    ensures
        final(input_buffer).buffer@ == line@.drop_last(),
        final(input_buffer).input_length == line.len() - 1,
        final(input_buffer).buffer_length == line.len(),
{
    let mut line = line;
    let bytes_read = line.len();
    // Ignore trailing newline
    line.pop();
    input_buffer.buffer = line;
    input_buffer.buffer_length = bytes_read;
    input_buffer.input_length = bytes_read - 1;
}

/// Whether the `len` bytes of `buffer` are those of `word`.
fn text_is(buffer: &Vec<u8>, len: usize, word: &[u8]) -> (same: bool)
    requires
        len <= buffer.len(),
    ensures
        same == (buffer@.take(len as int) == word@),
{
    if len != word.len() {
        return false;
    }
    let mut i: usize = 0;
    while i < len
        invariant
            i <= len,
            len == word.len(),
            len <= buffer.len(),
            forall|k: int| 0 <= k < i ==> buffer@[k] == word@[k],
        decreases len - i,
    {
        if buffer[i] != word[i] {
            assert(buffer@.take(len as int)[i as int] != word@[i as int]);
            return false;
        }
        i += 1;
    }
    assert(buffer@.take(len as int) =~= word@);
    true
}

/// The number at the start of the bytes `from..to` of `buffer`.
fn atoi(buffer: &Vec<u8>, from: usize, to: usize) -> (bits: u32)
    requires
        from <= to <= buffer.len(),
    ensures
        bits == spec_atoi(buffer@.subrange(from as int, to as int)),
{
    let ghost s = buffer@.subrange(from as int, to as int);
    let mut i = from;
    while i < to && (buffer[i] == 32 || (9 <= buffer[i] && buffer[i] <= 13))
        invariant
            from <= i <= to <= buffer.len(),
            s == buffer@.subrange(from as int, to as int),
            spec_skip_space(s, 0) == spec_skip_space(s, i - from),
        decreases to - i,
    {
        assert(s[i - from] == buffer@[i as int]);
        i += 1;
    }
    proof {
        if i < to {
            assert(s[i - from] == buffer@[i as int]);
        }
    }
    let mut negative = false;
    if i < to && buffer[i] == 45 {
        negative = true;
        i += 1;
    } else if i < to && buffer[i] == 43 {
        i += 1;
    }
    let ghost digits_from = i - from;
    let mut acc: u32 = 0;
    while i < to && 48 <= buffer[i] && buffer[i] <= 57
        invariant
            from <= i <= to <= buffer.len(),
            0 <= digits_from <= i - from,
            s == buffer@.subrange(from as int, to as int),
            spec_digits(s, digits_from, 0) == spec_digits(s, i - from, acc),
        decreases to - i,
    {
        assert(s[i - from] == buffer@[i as int]);
        let digit: u64 = (buffer[i] - 48) as u64;
        acc = ((acc as u64 * 10 + digit) % 0x1_0000_0000) as u32;
        i += 1;
    }
    proof {
        if i < to {
            assert(s[i - from] == buffer@[i as int]);
        }
    }
    if negative {
        ((0x1_0000_0000u64 - acc as u64) % 0x1_0000_0000) as u32
    } else {
        acc
    }
}

/// Copies the bytes `from..to` of `buffer` and a zero byte to the start of
/// `destination`.
fn copy_text<const N: usize>(destination: &mut [u8; N], buffer: &Vec<u8>, from: usize, to: usize)
    requires
        from <= to <= buffer.len(),
        to - from < N,
    ensures
        final(destination)@ == spec_strcpy(
            old(destination)@,
            buffer@.subrange(from as int, to as int),
        ),
{
    let len = to - from;
    let mut i: usize = 0;
    while i < len
        invariant
            i <= len,
            len == to - from,
            from <= to <= buffer.len(),
            len < N,
            forall|k: int| 0 <= k < i ==> destination@[k] == buffer@[from + k],
            forall|k: int| i <= k < N ==> destination@[k] == old(destination)@[k],
        decreases len - i,
    {
        destination[i] = buffer[from + i];
        i += 1;
    }
    destination[len] = 0;
    assert(destination@ =~= spec_strcpy(
        old(destination)@,
        buffer@.subrange(from as int, to as int),
    ));
}

/// Prepares an insert statement from the line in the buffer: the words
/// behind the keyword are the id, the user name and the e-mail address.
pub fn prepare_insert(input_buffer: &InputBuffer, statement: &mut Statement) -> (result:
    PrepareResult)
    ensures
        final(statement).type_0 == StatementType::STATEMENT_INSERT,
        spec_prepare_insert(
            spec_text(input_buffer.buffer@),
            old(statement).row_to_insert,
            result,
            final(statement).row_to_insert,
        ),
{
    statement.type_0 = StatementType::STATEMENT_INSERT;
    let buffer = &input_buffer.buffer;
    let len = text_length(buffer.as_slice());
    let ghost text = spec_text(buffer@);
    let keyword_start = scan(buffer.as_slice(), len, 0, 32, false);
    let keyword_end = scan(buffer.as_slice(), len, keyword_start, 32, true);
    let id_start = scan(buffer.as_slice(), len, keyword_end, 32, false);
    let id_end = scan(buffer.as_slice(), len, id_start, 32, true);
    let username_start = scan(buffer.as_slice(), len, id_end, 32, false);
    let username_end = scan(buffer.as_slice(), len, username_start, 32, true);
    let email_start = scan(buffer.as_slice(), len, username_end, 32, false);
    let email_end = scan(buffer.as_slice(), len, email_start, 32, true);
    if id_start >= len || username_start >= len || email_start >= len {
        return PrepareResult::PREPARE_SYNTAX_ERROR;
    }
    let id = atoi(buffer, id_start, id_end);
    proof {
        assert(buffer@.subrange(id_start as int, id_end as int) =~= text.subrange(
            id_start as int,
            id_end as int,
        ));
        assert(buffer@.subrange(username_start as int, username_end as int) =~= text.subrange(
            username_start as int,
            username_end as int,
        ));
        assert(buffer@.subrange(email_start as int, email_end as int) =~= text.subrange(
            email_start as int,
            email_end as int,
        ));
    }
    if id >= 0x8000_0000 {
        return PrepareResult::PREPARE_NEGATIVE_ID;
    }
    if username_end - username_start > COLUMN_USERNAME_SIZE {
        return PrepareResult::PREPARE_STRING_TOO_LONG;
    }
    if email_end - email_start > COLUMN_EMAIL_SIZE {
        return PrepareResult::PREPARE_STRING_TOO_LONG;
    }
    statement.row_to_insert.id = id;
    copy_text(&mut statement.row_to_insert.username, buffer, username_start, username_end);
    copy_text(&mut statement.row_to_insert.email, buffer, email_start, email_end);
    PrepareResult::PREPARE_SUCCESS
}

/// Prepares the statement of the line in the buffer: an insert where the
/// line starts with `insert`, a select where it is `select`.
pub fn prepare_statement(input_buffer: &InputBuffer, statement: &mut Statement) -> (result:
    PrepareResult)
    ensures
        ({
            let text = spec_text(input_buffer.buffer@);
            if text.len() >= 6 && text.take(6) == seq![105u8, 110u8, 115u8, 101u8, 114u8, 116u8] {
                &&& final(statement).type_0 == StatementType::STATEMENT_INSERT
                &&& spec_prepare_insert(
                    text,
                    old(statement).row_to_insert,
                    result,
                    final(statement).row_to_insert,
                )
            } else if text == seq![115u8, 101u8, 108u8, 101u8, 99u8, 116u8] {
                &&& result == PrepareResult::PREPARE_SUCCESS
                &&& final(statement).type_0 == StatementType::STATEMENT_SELECT
                &&& final(statement).row_to_insert == old(statement).row_to_insert
            } else {
                &&& result == PrepareResult::PREPARE_UNRECOGNIZED_STATEMENT
                &&& *final(statement) == *old(statement)
            }
        }),
{
    let buffer = &input_buffer.buffer;
    let len = text_length(buffer.as_slice());
    let insert: [u8; 6] = [105, 110, 115, 101, 114, 116];
    let select: [u8; 6] = [115, 101, 108, 101, 99, 116];
    proof {
        assert(insert@ =~= seq![105u8, 110u8, 115u8, 101u8, 114u8, 116u8]);
        assert(select@ =~= seq![115u8, 101u8, 108u8, 101u8, 99u8, 116u8]);
        if len >= 6 {
            assert(buffer@.take(6) =~= spec_text(buffer@).take(6));
        }
    }
    if len >= 6 && text_is(buffer, 6, insert.as_slice()) {
        return prepare_insert(input_buffer, statement);
    }
    if text_is(buffer, len, select.as_slice()) {
        statement.type_0 = StatementType::STATEMENT_SELECT;
        return PrepareResult::PREPARE_SUCCESS;
    }
    PrepareResult::PREPARE_UNRECOGNIZED_STATEMENT
}

/// What the line in the buffer, which starts with a dot, asks for, and
/// whether that is a command.
pub fn do_meta_command(input_buffer: &InputBuffer) -> (result: (MetaCommandResult, MetaCommand))
    ensures
        ({
            let text = spec_text(input_buffer.buffer@);
            result.1 == if text == seq![46u8, 101u8, 120u8, 105u8, 116u8] {
                MetaCommand::META_EXIT
            } else if text == seq![46u8, 98u8, 116u8, 114u8, 101u8, 101u8] {
                MetaCommand::META_BTREE
            } else if text == seq![
                46u8,
                99u8,
                111u8,
                110u8,
                115u8,
                116u8,
                97u8,
                110u8,
                116u8,
                115u8,
            ] {
                MetaCommand::META_CONSTANTS
            } else {
                MetaCommand::META_UNKNOWN
            }
        }),
        result.0 == if result.1 == MetaCommand::META_UNKNOWN {
            MetaCommandResult::META_COMMAND_UNRECOGNIZED_COMMAND
        } else {
            MetaCommandResult::META_COMMAND_SUCCESS
        },
{
    let buffer = &input_buffer.buffer;
    let len = text_length(buffer.as_slice());
    let exit: [u8; 5] = [46, 101, 120, 105, 116];
    let btree: [u8; 6] = [46, 98, 116, 114, 101, 101];
    let constants: [u8; 10] = [46, 99, 111, 110, 115, 116, 97, 110, 116, 115];
    proof {
        assert(exit@ =~= seq![46u8, 101u8, 120u8, 105u8, 116u8]);
        assert(btree@ =~= seq![46u8, 98u8, 116u8, 114u8, 101u8, 101u8]);
        assert(constants@ =~= seq![
            46u8,
            99u8,
            111u8,
            110u8,
            115u8,
            116u8,
            97u8,
            110u8,
            116u8,
            115u8,
        ]);
    }
    if text_is(buffer, len, exit.as_slice()) {
        (MetaCommandResult::META_COMMAND_SUCCESS, MetaCommand::META_EXIT)
    } else if text_is(buffer, len, btree.as_slice()) {
        (MetaCommandResult::META_COMMAND_SUCCESS, MetaCommand::META_BTREE)
    } else if text_is(buffer, len, constants.as_slice()) {
        (MetaCommandResult::META_COMMAND_SUCCESS, MetaCommand::META_CONSTANTS)
    } else {
        (MetaCommandResult::META_COMMAND_UNRECOGNIZED_COMMAND, MetaCommand::META_UNKNOWN)
    }
}

} // verus!
