//! Why a batch cannot be written or read.
use vstd::prelude::*;

verus! {

/// Errors of the batch operations.
#[derive(Clone, Copy, Debug, PartialEq, Eq)]
pub enum Error {
    /// The pool refused.
    Core(crate::artifact::error::Error),
    /// A descriptor names a chunk that was recycled since.
    StaleDescriptor,
    /// The array library refused.
    Arrow,
    /// The chunk does not start with a batch header.
    BadMagic,
    /// The schema id is not known here.
    UnknownSchema(u32),
    /// The descriptor and the batch header disagree about the schema.
    SchemaMismatch { desc: u32, header: u32 },
    /// The batch does not fit.
    ChunkTooSmall { need: usize, have: usize },
    /// The input is not supported.
    Unsupported(&'static str),
    /// The tables in the chunk are inconsistent.
    Layout(&'static str),
}

} // verus!
