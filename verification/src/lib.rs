//! Compact identifier allocation.
//!
//! Assigns dense, non-negative integer-like handles to keys or values and
//! reclaims freed handles for reuse, so the live handle space stays as small
//! as possible. Two structures share one allocation policy: a bidirectional
//! key <-> id map ([`bimap::CompactIdBiMap`]) and a unidirectional id -> value
//! map ([`unimap::CompactIdMap`]) over any incrementable id type.

use vstd::prelude::*;

pub mod bimap;
pub mod incr;
mod table;
pub mod unimap;

verus! {

/// A handle in the bidirectional compact map.
pub type ID = usize;

/// Why an insertion could not be performed.
#[derive(Clone, Copy, Debug, PartialEq, Eq, Structural)]
pub enum IdAllocError {
    /// The key is already present in the bidirectional map.
    DuplicateKey,
    /// The recycle bin is empty and the next fresh id has no successor.
    Exhausted,
}

} // verus!
