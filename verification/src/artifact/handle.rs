//! The handle: which artifact, and which occupant of its head region.
use vstd::prelude::*;

verus! {

/// A named, versioned, shared object.
///
/// The handle is a pair of numbers. What it names lives in a head and a chunk
/// pool, which every operation takes as arguments.
#[derive(Clone, Copy, Debug, PartialEq, Eq, Structural)]
pub struct Artifact {
    /// The interned name.
    pub name_id: u32,
    /// The occupant of the head region this handle means.
    pub incarnation: u32,
}

} // verus!
