//! The error taxonomy of the storage engine.

use vstd::prelude::*;

verus! {

/// An error surfaced by the storage layer.
///
/// `DuplicateKey` and `RowTooLarge` are recoverable user errors: the
/// operation that reports them leaves the table unchanged. The others
/// indicate corruption or an exhausted capacity.
#[derive(Clone, Copy, PartialEq, Eq, Structural, Debug)]
pub enum DbError {
    /// A page held an unknown node type byte or an out-of-range count.
    CorruptPage,
    /// More than `TABLE_MAX_PAGES` pages would be needed, or an internal
    /// node split (not implemented) would be required.
    CapacityExceeded,
    /// An insert carried an id that is already present.
    DuplicateKey,
    /// A string field of a row does not fit its fixed-width window.
    RowTooLarge,
    /// A row's byte image has the wrong length, an over-wide id, or a
    /// string window that is not valid UTF-8.
    DecodeError,
}

impl DbError {
    /// A short description, for reporting at the prompt.
    pub fn message(&self) -> (r: &'static str)
        ensures
            r@.len() > 0,
    {
        proof {
            reveal_strlit("corrupt page");
            reveal_strlit("capacity exceeded");
            reveal_strlit("duplicate key");
            reveal_strlit("row too large");
            reveal_strlit("decode error");
        }
        match self {
            DbError::CorruptPage => "corrupt page",
            DbError::CapacityExceeded => "capacity exceeded",
            DbError::DuplicateKey => "duplicate key",
            DbError::RowTooLarge => "row too large",
            DbError::DecodeError => "decode error",
        }
    }
}

} // verus!
