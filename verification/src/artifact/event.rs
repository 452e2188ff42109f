//! The notice a commit gives: which artifact moved to which version, and how.
use vstd::prelude::*;

use crate::chunk::ChunkDesc;

verus! {

/// The topic version events are published on.
pub const ARTIFACTS_TOPIC: &'static str = "__artifacts";

/// Marks a descriptor that carries an event: the little-endian bytes of `b"EVNT"`.
pub const EVENT_MAGIC: u32 = 0x544e_5645;

/// How a commit related its version to the one before.
#[derive(Clone, Copy, Debug, PartialEq, Eq, Structural)]
pub enum CommitKind {
    /// Superseded wholesale.
    Replace,
    /// Extended.
    Append,
    /// Updated in a range.
    Patch,
    /// Re-rooted on the newest batches.
    Window,
}

impl CommitKind {
    pub open spec fn spec_as_u32(self) -> u32 {
        match self {
            CommitKind::Replace => 0,
            CommitKind::Append => 1,
            CommitKind::Patch => 2,
            CommitKind::Window => 3,
        }
    }

    /// The number that stands for the kind on the wire.
    pub fn as_u32(self) -> (n: u32)
        ensures
            n == self.spec_as_u32(),
    {
        match self {
            CommitKind::Replace => 0,
            CommitKind::Append => 1,
            CommitKind::Patch => 2,
            CommitKind::Window => 3,
        }
    }

    /// The kind a number stands for.
    pub fn from_u32(v: u32) -> (k: Option<CommitKind>)
        ensures
            k matches Some(c) ==> c.spec_as_u32() == v,
            k is None <==> v > 3,
    {
        match v {
            0 => Some(CommitKind::Replace),
            1 => Some(CommitKind::Append),
            2 => Some(CommitKind::Patch),
            3 => Some(CommitKind::Window),
            _ => None,
        }
    }
}

/// A committed version.
#[derive(Clone, Copy, Debug, PartialEq, Eq, Structural)]
pub struct VersionEvent {
    pub version: u64,
    /// The artifact's interned name.
    pub name_id: u32,
    /// The commit kind's number.
    pub kind: u32,
}

impl VersionEvent {
    pub fn new(name_id: u32, version: u64, kind: CommitKind) -> (e: VersionEvent)
        ensures
            e == (VersionEvent { version, name_id, kind: kind.spec_as_u32() }),
    {
        VersionEvent { version, name_id, kind: kind.as_u32() }
    }

    /// The descriptor that carries the event.
    pub open spec fn spec_to_desc(self) -> ChunkDesc {
        ChunkDesc {
            segment_id: self.name_id,
            generation: self.kind,
            offset: (self.version % 0x1_0000_0000) as u32,
            len: (self.version / 0x1_0000_0000) as u32,
            schema_id: EVENT_MAGIC,
            _pad: 0,
        }
    }

    /// The event a descriptor carries, if it carries one.
    pub open spec fn spec_from_desc(d: ChunkDesc) -> Option<VersionEvent> {
        if d.schema_id != EVENT_MAGIC {
            None
        } else {
            Some(
                VersionEvent {
                    version: (d.offset + 0x1_0000_0000 * d.len) as u64,
                    name_id: d.segment_id,
                    kind: d.generation,
                },
            )
        }
    }

    /// Pack the event into a descriptor, so that it can ride a topic of
    /// descriptors.
    pub fn to_desc(&self) -> (d: ChunkDesc)
        ensures
            d == self.spec_to_desc(),
    {
        ChunkDesc {
            segment_id: self.name_id,
            generation: self.kind,
            offset: (self.version % 0x1_0000_0000) as u32,
            len: (self.version / 0x1_0000_0000) as u32,
            schema_id: EVENT_MAGIC,
            _pad: 0,
        }
    }

    /// Unpack an event; `None` if the descriptor carries something else.
    pub fn from_desc(desc: &ChunkDesc) -> (e: Option<VersionEvent>)
        ensures
            e == VersionEvent::spec_from_desc(*desc),
    {
        if desc.schema_id != EVENT_MAGIC {
            return None;
        }
        Some(
            VersionEvent {
                version: desc.offset as u64 + 0x1_0000_0000 * (desc.len as u64),
                name_id: desc.segment_id,
                kind: desc.generation,
            },
        )
    }
}

/// An event survives the trip through a descriptor.
pub proof fn event_round_trip(e: VersionEvent)
    ensures
        VersionEvent::spec_from_desc(e.spec_to_desc()) == Some(e),
{
}

/// Kinds and their numbers are one to one.
pub proof fn kind_numbers_are_distinct(a: CommitKind, b: CommitKind)
    ensures
        a.spec_as_u32() == b.spec_as_u32() ==> a == b,
{
}

} // verus!
