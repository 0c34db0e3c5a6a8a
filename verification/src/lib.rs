//! A single-file, single-table embedded database with a fixed row schema.
//!
//! The storage engine is an on-disk B+ tree: a paged file format, a pager
//! that lazily materializes nodes from a page image and writes them back on
//! flush, typed nodes (leaf and internal) that serialize in place, a cursor
//! that locates keys by descending the tree, and leaf splits that promote
//! the root in place. Keys are unique unsigned integers; values are
//! fixed-width row records.

use vstd::prelude::*;

pub mod bytes_util;
pub mod codec;
pub mod constant;
pub mod cursor;
pub mod errors;
pub mod node;
pub mod pager;
pub mod row;
pub mod table;
pub mod tree;
