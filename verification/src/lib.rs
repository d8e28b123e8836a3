//! A single-file table of rows kept in a B+tree of fixed-size pages.
//!
//! Rows are found by a 32-bit key. The file is a run of 4096-byte pages, each
//! of them one node of the tree; page 0 is the root. A pager hands out the
//! pages and writes them back when the table is closed.

pub mod btree;
pub mod bytes;
pub mod db;
pub mod insert;
pub mod internal;
pub mod laws;
pub mod layout;
pub mod leaf;
pub mod node;
pub mod pager;
pub mod row;
pub mod show;
pub mod split;
pub mod statement;
pub mod tree;
