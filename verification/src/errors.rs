use vstd::prelude::*;

verus! {

/// The failure conditions of the ranking engine.
///
/// `DuplicateEntry` carries the position of the entry that already holds the
/// offered title, so a caller can treat the collision as a lookup that found
/// the existing entry.  `InvalidState` covers operations attempted in the
/// wrong session phase and operations that need at least two entries.
#[derive(Clone, Copy, Debug, PartialEq, Eq, Structural)]
pub enum RankError {
    DuplicateCategory,
    DuplicateEntry(usize),
    NoActiveMatch,
    InvalidState,
}

} // verus!
