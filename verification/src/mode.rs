//! The modes of the builder's composite operations.
use vstd::prelude::*;

verus! {

/// What `put` does when the key is already in the database.
#[derive(Clone, Copy, Debug, PartialEq, Eq, Structural)]
pub enum CdbPutMode {
    /// No check for an earlier record: the same as `add`.
    Add,
    /// Every earlier record under the key is taken out of the database
    /// before the new one is added. The records behind it move up, which
    /// takes time in a large database.
    Replace,
    /// The record is added only if the key is not in the database yet.
    Insert,
    /// The record is added in any case, and the result tells whether the
    /// key was in the database before.
    Warn,
    /// Every earlier record under the key is zeroed before the new one is
    /// added: it keeps its place but no lookup reaches it.
    Replace0,
}

/// What the builder does with the records that it finds under a key.
#[derive(Clone, Copy, Debug, PartialEq, Eq, Structural)]
pub enum CdbFindMode {
    /// Only tell whether there is one.
    Find,
    /// Take them out of the database.
    Remove,
    /// Zero them in place.
    Fill0,
}

/// The search that `put` makes in each mode before it adds the record.
pub open spec fn find_mode_of(mode: CdbPutMode) -> CdbFindMode {
    match mode {
        CdbPutMode::Replace => CdbFindMode::Remove,
        CdbPutMode::Replace0 => CdbFindMode::Fill0,
        _ => CdbFindMode::Find,
    }
}

} // verus!
