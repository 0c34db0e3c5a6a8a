//! Sizes and offsets of the row, page and node formats.
//!
//! All multi-byte integers on disk are little-endian 8-byte words.

use vstd::prelude::*;

verus! {

// Row format: an 8-byte id, then the username window, then the email window,
// each string padded with zero bytes to its fixed width.
pub const ID_SIZE: usize = 8;

pub const USER_NAME_SIZE: usize = 32;

pub const EMAIL_SIZE: usize = 255;

pub const USER_NAME_OFFSET: usize = 8;

pub const EMAIL_OFFSET: usize = 40;

pub const ROW_SIZE: usize = 295;

// Pages.
pub const PAGE_SIZE: usize = 4096;

pub const TABLE_MAX_PAGES: usize = 100;

// Common node header.
pub const NODE_TYPE_OFFSET: usize = 0;

pub const IS_ROOT_OFFSET: usize = 1;

pub const PARENT_PAGE_NUM_OFFSET: usize = 2;

pub const SPACE_FOR_COMMON_HEADER: usize = 10;

// Leaf node layout.
pub const CELLS_COUNT_OFFSET: usize = 10;

pub const LEAF_NEXT_LEAF_OFFSET: usize = 18;

pub const LEAF_NODE_CELLS_OFFSET: usize = 26;

pub const CELL_SIZE: usize = 303;

pub const LEAF_NODE_MAX_CELLS: usize = 3;

// Internal node layout.
pub const KEY_COUNT_OFFSET: usize = 10;

pub const RIGHT_CHILD_OFFSET: usize = 18;

pub const KEY_VALUE_OFFSET: usize = 26;

pub const PAGE_NUM_SIZE: usize = 8;

pub const INTERNAL_CELL_SIZE: usize = 16;

pub const INTERNAL_NODE_MAX_CELLS: usize = 3;

} // verus!
