//! The tree as lines to show, one for each node and each key.

use vstd::prelude::*;
use crate::btree::Table;
use crate::bytes::{spec_text, text_length};
use crate::row::Row;
use crate::node::{
    NODE_LEAF, is_page, node_type_of, leaf_num_cells_of, leaf_key_of, internal_num_keys_of,
    internal_key_of, internal_child_of, internal_right_child_of, get_node_type, leaf_node_num_cells,
    leaf_node_key, internal_node_num_keys, internal_node_child, internal_node_key,
    internal_node_right_child,
};
use crate::pager::read_page;
use crate::tree::child_wf;

verus! {

/// What a line shows.
#[allow(non_camel_case_types)]
#[derive(Clone, Copy, Debug, PartialEq, Eq, Structural)]
pub enum TreeLineKind {
    /// A leaf, with the number of its cells.
    LINE_LEAF,
    /// A key of a leaf.
    LINE_LEAF_KEY,
    /// An internal node, with the number of its keys.
    LINE_INTERNAL,
    /// A key of an internal node.
    LINE_INTERNAL_KEY,
}

/// One line: how far it is indented, what it shows, and the number in it.
#[derive(Clone, Copy, Debug, PartialEq, Eq, Structural)]
pub struct TreeLine {
    pub level: u32,
    pub kind: TreeLineKind,
    pub value: u32,
}

/// The lines of a leaf: the leaf, then its keys, one level deeper.
pub open spec fn spec_leaf_lines(p: Seq<u8>, level: u32) -> Seq<TreeLine> {
    seq![TreeLine { level, kind: TreeLineKind::LINE_LEAF, value: leaf_num_cells_of(p) }]
        + Seq::new(
        leaf_num_cells_of(p) as nat,
        |i: int|
            TreeLine {
                level: (level + 1) as u32,
                kind: TreeLineKind::LINE_LEAF_KEY,
                value: leaf_key_of(p, i),
            },
    )
}

/// The lines of the first `upto` children of the root, each with the key
/// of the root behind it.
pub open spec fn spec_children_lines(pages: Seq<Seq<u8>>, level: u32, upto: int) -> Seq<TreeLine>
    decreases upto,
{
    if upto <= 0 {
        Seq::empty()
    } else {
        spec_children_lines(pages, level, upto - 1) + spec_leaf_lines(
            pages[internal_child_of(pages[0], upto - 1) as int],
            (level + 1) as u32,
        ) + seq![
            TreeLine {
                level: (level + 1) as u32,
                kind: TreeLineKind::LINE_INTERNAL_KEY,
                value: internal_key_of(pages[0], upto - 1),
            },
        ]
    }
}

/// The lines of the node at `page_num`, which is a leaf or the root, and of
/// what is below it, depth first: each child before its key, the right child
/// last.
pub open spec fn spec_tree_lines(pages: Seq<Seq<u8>>, page_num: int, level: u32) -> Seq<TreeLine> {
    if node_type_of(pages[page_num]) == NODE_LEAF {
        spec_leaf_lines(pages[page_num], level)
    } else {
        seq![
            TreeLine {
                level,
                kind: TreeLineKind::LINE_INTERNAL,
                value: internal_num_keys_of(pages[0]),
            },
        ] + spec_children_lines(pages, level, internal_num_keys_of(pages[0]) as int)
            + spec_leaf_lines(
            pages[internal_right_child_of(pages[0]) as int],
            (level + 1) as u32,
        )
    }
}

/// The node at page `page_num` is the root of the tree or one of its leaves.
pub open spec fn is_tree_page(pages: Seq<Seq<u8>>, page_num: int) -> bool {
    page_num == 0 || (node_type_of(pages[0]) != NODE_LEAF && exists|i: int|
        0 <= i <= internal_num_keys_of(pages[0]) && internal_child_of(pages[0], i) == page_num)
}

/// Adds to `lines` the lines of the node at `page_num` and of what is below
/// it.
pub fn print_tree(
    table: &mut Table,
    page_num: u32,
    indentation_level: u32,
    lines: &mut Vec<TreeLine>,
)
    requires
        old(table).wf(),
        is_tree_page(old(table).pager@, page_num as int),
        indentation_level < u32::MAX - 1 || (indentation_level < u32::MAX && node_type_of(
            old(table).pager@[page_num as int],
        ) == NODE_LEAF),
    ensures
        final(table).same_pages(*old(table)),
        final(lines)@ == old(lines)@ + spec_tree_lines(
            old(table).pager@,
            page_num as int,
            indentation_level,
        ),
    decreases
            (if page_num == 0 && node_type_of(old(table).pager@[0]) != NODE_LEAF {
                1int
            } else {
                0int
            }),
{
    let ghost pages = old(table).pager@;
    let ghost num_pages = old(table).pager.num_pages as int;
    proof {
        if page_num != 0 {
            let i = choose|i: int|
                0 <= i <= internal_num_keys_of(pages[0]) && internal_child_of(pages[0], i)
                    == page_num;
            assert(child_wf(pages, num_pages, i));
        }
    }
    let node = read_page(&mut table.pager, page_num);
    if get_node_type(node) == NODE_LEAF {
        let num_keys = leaf_node_num_cells(node);
        lines.push(
            TreeLine { level: indentation_level, kind: TreeLineKind::LINE_LEAF, value: num_keys },
        );
        let ghost head = lines@;
        let mut i: u32 = 0;
        while i < num_keys
            invariant
                i <= num_keys <= 13,
                is_page(node@),
                num_keys == leaf_num_cells_of(node@),
                indentation_level < u32::MAX,
                lines@ == head + Seq::new(
                    i as nat,
                    |k: int|
                        TreeLine {
                            level: (indentation_level + 1) as u32,
                            kind: TreeLineKind::LINE_LEAF_KEY,
                            value: leaf_key_of(node@, k),
                        },
                ),
            decreases num_keys - i,
        {
            lines.push(
                TreeLine {
                    level: indentation_level + 1,
                    kind: TreeLineKind::LINE_LEAF_KEY,
                    value: leaf_node_key(node, i),
                },
            );
            i += 1;
            assert(lines@ =~= head + Seq::new(
                i as nat,
                |k: int|
                    TreeLine {
                        level: (indentation_level + 1) as u32,
                        kind: TreeLineKind::LINE_LEAF_KEY,
                        value: leaf_key_of(node@, k),
                    },
            ));
        }
        proof {
            assert(lines@ =~= old(lines)@ + spec_leaf_lines(node@, indentation_level));
        }
    } else {
        let num_keys = internal_node_num_keys(node);
        let right_child = internal_node_right_child(node);
        lines.push(
            TreeLine {
                level: indentation_level,
                kind: TreeLineKind::LINE_INTERNAL,
                value: num_keys,
            },
        );
        let ghost head = lines@;
        let mut i: u32 = 0;
        while i < num_keys
            invariant
                i <= num_keys <= 3,
                page_num == 0,
                old(table).wf(),
                pages == old(table).pager@,
                node_type_of(pages[0]) != NODE_LEAF,
                num_keys == internal_num_keys_of(pages[0]),
                table.same_pages(*old(table)),
                indentation_level < u32::MAX - 1,
                lines@ == head + spec_children_lines(pages, indentation_level, i as int),
            decreases num_keys - i,
        {
            let node = read_page(&mut table.pager, page_num);
            let child = internal_node_child(node, i);
            let key = internal_node_key(node, i);
            let ghost before = lines@;
            proof {
                assert(child_wf(pages, old(table).pager.num_pages as int, i as int));
            }
            print_tree(table, child, indentation_level + 1, lines);
            lines.push(
                TreeLine {
                    level: indentation_level + 1,
                    kind: TreeLineKind::LINE_INTERNAL_KEY,
                    value: key,
                },
            );
            i += 1;
            assert(lines@ =~= head + spec_children_lines(pages, indentation_level, i as int));
        }
        proof {
            assert(child_wf(pages, num_pages, num_keys as int));
        }
        print_tree(table, right_child, indentation_level + 1, lines);
        proof {
            assert(lines@ =~= old(lines)@ + spec_tree_lines(
                pages,
                page_num as int,
                indentation_level,
            ));
        }
    }
}

/// The decimal digits of `n`.
pub open spec fn spec_decimal(n: nat) -> Seq<u8>
    decreases n,
{
    if n < 10 {
        seq![(48 + n) as u8]
    } else {
        spec_decimal(n / 10).push((48 + n % 10) as u8)
    }
}

/// The line that shows a row: its id, the text of its user name and the
/// text of its e-mail address, parted by a comma and a space, in round
/// brackets.
pub open spec fn spec_row_line(row: Row) -> Seq<u8> {
    seq![40u8] + spec_decimal(row.id as nat) + seq![44u8, 32u8] + spec_text(row.username@)
        + seq![44u8, 32u8] + spec_text(row.email@) + seq![41u8]
}

/// Adds the decimal digits of `n` to `out`.
fn push_decimal(n: u32, out: &mut Vec<u8>)
    ensures
        final(out)@ == old(out)@ + spec_decimal(n as nat),
    decreases n,
{
    if n >= 10 {
        push_decimal(n / 10, out);
    }
    out.push(48 + (n % 10) as u8);
    assert(out@ =~= old(out)@ + spec_decimal(n as nat));
}

/// Adds the first `len` bytes of `text` to `out`.
fn push_text(text: &[u8], len: usize, out: &mut Vec<u8>)
    requires
        len <= text.len(),
    ensures
        final(out)@ == old(out)@ + text@.take(len as int),
{
    let mut i: usize = 0;
    while i < len
        invariant
            i <= len <= text.len(),
            out@ == old(out)@ + text@.take(i as int),
        decreases len - i,
    {
        out.push(text[i]);
        i += 1;
        assert(out@ =~= old(out)@ + text@.take(i as int));
    }
    assert(old(out)@ + text@.take(0) =~= old(out)@);
}

/// The line that shows a row.
pub fn print_row(row: &Row) -> (line: Vec<u8>)
    ensures
        line@ == spec_row_line(*row),
{
    let mut line: Vec<u8> = Vec::new();
    line.push(40);
    push_decimal(row.id, &mut line);
    line.push(44);
    line.push(32);
    let username = row.username.as_slice();
    push_text(username, text_length(username), &mut line);
    line.push(44);
    line.push(32);
    let email = row.email.as_slice();
    push_text(email, text_length(email), &mut line);
    line.push(41);
    assert(line@ =~= spec_row_line(*row));
    line
}

} // verus!
