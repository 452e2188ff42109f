//! Why an artifact operation is refused.
use vstd::prelude::*;

verus! {

/// Errors of the artifact operations.
#[derive(Clone, Copy, Debug, PartialEq, Eq)]
pub enum Error {
    /// The chunk pool refused: no chunk of a sufficient size is free.
    Exhausted,
    /// A descriptor or reference names no chunk of the pool.
    OutOfBounds,
    /// A region is too small for the record that belongs in it.
    LayoutOverflow(&'static str),
    /// A chunk was not in the state the operation needs.
    BadState,
    /// The borrow journal has no free slot.
    JournalFull,
    /// The record does not fit in the allocated chunk.
    ChunkTooSmall { need: usize, have: usize },
    /// Another writer holds the exclusive lease.
    WriteLocked,
    /// This writer's lease was force-released: its fence token is stale.
    Fenced,
    /// Another commit moved the current version first.
    Conflict { expected: u64, actual: u64 },
    /// The handle's occupant is no longer the one in service.
    Stale,
    /// The request is not supported.
    Unsupported(&'static str),
    /// The record does not start with the expected magic.
    BadMagic,
    /// Nothing is committed, or the record is inconsistent.
    VersionGone,
    /// The manifest is intact but belongs to another artifact or version.
    StaleManifest,
}

} // verus!
