//! Why a message is refused.
use vstd::prelude::*;

verus! {

/// Errors of the message layer, and of the handlers.
#[derive(Clone, Debug, PartialEq, Eq)]
pub enum Error {
    /// The envelope has a bad magic or version, or there is no room for one.
    BadEnvelope,
    /// The descriptor is not that of a message; its schema id.
    NotEnvelope(u32),
    /// No such kind of message.
    BadKind(u16),
    /// A payload of the wrong size.
    BadPayload { expected: usize, got: usize },
    /// A payload of the wrong schema.
    SchemaMismatch { expected: u32, got: u32 },
    /// A body that does not fit.
    BodyTooLarge { len: usize, max: usize },
    /// No handler for the schema.
    UnknownSchema(u32),
    /// No actor of that id here.
    NoSuchActor(u64),
    /// A cell could not be opened, pinned or read.
    Cell(String),
    /// The handler failed.
    Handler(String),
}

} // verus!
