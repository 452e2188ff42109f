//! Names for chunks of shared memory: the descriptor and the packed reference.
use vstd::prelude::*;

use crate::le::{get_u32, put_u32, same_outside, u32_at};

verus! {

/// The number of bytes a [`ChunkDesc`] occupies inside a record.
pub const CHUNK_DESC_BYTES: usize = 24;

/// A descriptor naming one chunk: where it lives, how long it is, what schema
/// its bytes follow, and the generation of the chunk it was minted for.
#[derive(Clone, Copy, Debug, PartialEq, Eq, Structural)]
pub struct ChunkDesc {
    pub segment_id: u32,
    pub generation: u32,
    pub offset: u32,
    pub len: u32,
    pub schema_id: u32,
    pub _pad: u32,
}

impl ChunkDesc {
    /// The descriptor that names nothing.
    pub fn zero() -> (d: ChunkDesc)
        ensures
            d == (ChunkDesc {
                segment_id: 0,
                generation: 0,
                offset: 0,
                len: 0,
                schema_id: 0,
                _pad: 0,
            }),
    {
        ChunkDesc { segment_id: 0, generation: 0, offset: 0, len: 0, schema_id: 0, _pad: 0 }
    }
}

/// The descriptor whose 24-byte record starts at `at`.
pub open spec fn desc_at(b: Seq<u8>, at: int) -> ChunkDesc {
    ChunkDesc {
        segment_id: u32_at(b, at),
        generation: u32_at(b, at + 4),
        offset: u32_at(b, at + 8),
        len: u32_at(b, at + 12),
        schema_id: u32_at(b, at + 16),
        _pad: u32_at(b, at + 20),
    }
}

pub fn get_desc(b: &[u8], at: usize) -> (d: ChunkDesc)
    requires
        at + CHUNK_DESC_BYTES <= b@.len(),
    ensures
        d == desc_at(b@, at as int),
{
    let n: usize = b.len();
    assert(at + 24 <= n);
    ChunkDesc {
        segment_id: get_u32(b, at),
        generation: get_u32(b, at + 4),
        offset: get_u32(b, at + 8),
        len: get_u32(b, at + 12),
        schema_id: get_u32(b, at + 16),
        _pad: get_u32(b, at + 20),
    }
}

pub fn put_desc(b: &mut [u8], at: usize, d: &ChunkDesc)
    requires
        at + CHUNK_DESC_BYTES <= old(b)@.len(),
    ensures
        same_outside(old(b)@, final(b)@, at as int, CHUNK_DESC_BYTES as int),
        desc_at(final(b)@, at as int) == *d,
{
    let n: usize = b.len();
    assert(at + 24 <= n);
    put_u32(b, at, d.segment_id);
    put_u32(b, at + 4, d.generation);
    put_u32(b, at + 8, d.offset);
    put_u32(b, at + 12, d.len);
    put_u32(b, at + 16, d.schema_id);
    put_u32(b, at + 20, d._pad);
}

/// A chunk reference packed into one word: the segment id in the high half,
/// the byte offset inside the segment in the low half.
#[derive(Clone, Copy, Debug, PartialEq, Eq, Structural)]
pub struct PackedRef(pub u64);

impl PackedRef {
    pub open spec fn spec_pack(segment_id: u32, offset: u32) -> PackedRef {
        PackedRef((segment_id * 0x1_0000_0000 + offset) as u64)
    }

    pub open spec fn spec_segment_id(self) -> u32 {
        (self.0 / 0x1_0000_0000) as u32
    }

    pub open spec fn spec_offset(self) -> u32 {
        (self.0 % 0x1_0000_0000) as u32
    }

    pub fn pack(segment_id: u32, offset: u32) -> (r: PackedRef)
        ensures
            r == PackedRef::spec_pack(segment_id, offset),
            r.spec_segment_id() == segment_id,
            r.spec_offset() == offset,
    {
        PackedRef(segment_id as u64 * 0x1_0000_0000 + offset as u64)
    }

    /// The reference to the chunk `desc` names.
    pub fn from_desc(desc: &ChunkDesc) -> (r: PackedRef)
        ensures
            r == PackedRef::spec_pack(desc.segment_id, desc.offset),
            r.spec_segment_id() == desc.segment_id,
            r.spec_offset() == desc.offset,
    {
        PackedRef::pack(desc.segment_id, desc.offset)
    }

    pub fn to_bits(self) -> (bits: u64)
        ensures
            bits == self.0,
    {
        self.0
    }

    pub fn segment_id(self) -> (id: u32)
        ensures
            id == self.spec_segment_id(),
    {
        (self.0 / 0x1_0000_0000) as u32
    }

    pub fn offset(self) -> (off: u32)
        ensures
            off == self.spec_offset(),
    {
        (self.0 % 0x1_0000_0000) as u32
    }
}

/// Packing and unpacking a reference are inverse to each other: every word is
/// the packing of the segment and the offset it unpacks to, and every segment
/// and offset come back out of their packing.
pub proof fn packed_ref_round_trip(r: PackedRef, segment_id: u32, offset: u32)
    ensures
        PackedRef::spec_pack(r.spec_segment_id(), r.spec_offset()) == r,
        PackedRef::spec_pack(segment_id, offset).spec_segment_id() == segment_id,
        PackedRef::spec_pack(segment_id, offset).spec_offset() == offset,
{
}

} // verus!
