//! An ordered index from 32-bit keys to strings, with what it needs to be
//! kept in files and to be served.
//!
//! - [`btree`] and [`bptree`] hold the two trees: lookup, insertion with
//!   node splitting, deletion with borrowing and merging, and a full scan
//!   in key order. The B+ tree keeps its records in leaves that are chained
//!   in key order, and offers a cursor over them.
//! - [`entries`] and [`flat`] hold the model that the contracts of the
//!   trees are stated over.
//! - [`storage`] reads and writes the record log, [`page`] the page image
//!   of a leaf, and [`pager`] plans the traffic between pages and a file.
//! - [`cli`] and [`web`] say what the commands of a shell and the requests
//!   of a server do to a tree, and how they are answered.
//! - [`text`] holds characters, strings and decimal numbers.

pub mod entries;
pub mod flat;
pub mod btree;
pub mod bptree;
pub mod text;
pub mod storage;
pub mod page;
pub mod pager;
pub mod cli;
pub mod web;
