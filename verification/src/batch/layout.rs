//! The layout of a batch.
//!
//! The primary chunk starts with a header, followed by the node table, the
//! buffer table and, 64-byte aligned, the first buffers. Further buffers lie in
//! continuation chunks.
use vstd::prelude::*;

use crate::batch::error::Error;
use crate::le::{get_u32, get_u64, put_u32, put_u64, same_outside, u32_at, u64_at};

verus! {

/// The first word of a batch: the little-endian bytes of `b"SHMARBT2"`.
pub const BATCH_MAGIC: u64 = 0x3254_4252_414d_4853;

/// The layout version.
pub const BATCH_FORMAT: u32 = 2;

/// Every buffer starts at a multiple of this.
pub const BUFFER_ALIGN: usize = 64;

/// The bytes of a header.
pub const HEADER_BYTES: usize = 32;

/// The bytes of a node entry.
pub const NODE_BYTES: usize = 24;

/// The bytes of a buffer entry.
pub const ENTRY_BYTES: usize = 12;

/// The start of a batch.
#[derive(Clone, Copy, Debug, PartialEq, Eq, Structural)]
pub struct BatchHeader {
    pub magic: u64,
    pub format: u32,
    pub schema_id: u32,
    pub row_count: u32,
    pub node_count: u32,
    pub buffer_count: u32,
    /// How many chunks the batch spans, the primary one included.
    pub chunk_count: u32,
}

/// One node of the array trees, in pre-order. The type is not stored: it comes
/// from the schema.
#[derive(Clone, Copy, Debug, PartialEq, Eq, Structural)]
pub struct NodeEntry {
    pub len: u32,
    pub null_count: u32,
    /// `1` if a validity bitmap precedes the data buffers.
    pub has_validity: u32,
    pub data_buffers: u32,
    pub child_count: u32,
    pub _pad: u32,
}

/// Where a buffer lies.
#[derive(Clone, Copy, Debug, PartialEq, Eq, Structural)]
pub struct BufferEntry {
    pub chunk_index: u32,
    pub offset: u32,
    pub len: u32,
}

/// The smallest multiple of 64 that is at least `x`.
pub open spec fn aligned(x: int) -> int {
    (x + 63) / 64 * 64
}

/// The smallest multiple of 64 that is at least `x`.
pub fn align_up(x: usize) -> (r: usize)
    requires
        x + 63 <= usize::MAX,
    ensures
        r == aligned(x as int),
        x <= r < x + 64,
        r % 64 == 0,
{
    (x + 63) / 64 * 64
}

/// Where the node table starts.
pub fn nodes_offset() -> (at: usize)
    ensures
        at == 32,
{
    HEADER_BYTES
}

/// Where the buffer table starts, after `nodes` nodes.
pub open spec fn entries_at(nodes: int) -> int {
    32 + 24 * nodes
}

/// Where the buffer table starts, after `node_count` nodes.
pub fn buffers_offset(node_count: usize) -> (at: usize)
    requires
        entries_at(node_count as int) <= usize::MAX,
    ensures
        at == entries_at(node_count as int),
{
    HEADER_BYTES + node_count * NODE_BYTES
}

/// Where the tables end.
pub open spec fn tables_end(nodes: int, buffers: int) -> int {
    entries_at(nodes) + 12 * buffers
}

/// Where the first buffer may start.
pub open spec fn payload_at(nodes: int, buffers: int) -> int {
    aligned(tables_end(nodes, buffers))
}

/// Where the first buffer may start.
pub fn payload_start(node_count: usize, buffer_count: usize) -> (at: usize)
    requires
        payload_at(node_count as int, buffer_count as int) + 63 <= usize::MAX,
    ensures
        at == payload_at(node_count as int, buffer_count as int),
        at % 64 == 0,
        at >= tables_end(node_count as int, buffer_count as int),
{
    let ghost e = tables_end(node_count as int, buffer_count as int);
    assert(e <= aligned(e));
    align_up(HEADER_BYTES + node_count * NODE_BYTES + buffer_count * ENTRY_BYTES)
}

// ---- records in bytes ----

pub open spec fn header_at(b: Seq<u8>, at: int) -> BatchHeader {
    BatchHeader {
        magic: u64_at(b, at),
        format: u32_at(b, at + 8),
        schema_id: u32_at(b, at + 12),
        row_count: u32_at(b, at + 16),
        node_count: u32_at(b, at + 20),
        buffer_count: u32_at(b, at + 24),
        chunk_count: u32_at(b, at + 28),
    }
}

pub open spec fn node_at(b: Seq<u8>, at: int) -> NodeEntry {
    NodeEntry {
        len: u32_at(b, at),
        null_count: u32_at(b, at + 4),
        has_validity: u32_at(b, at + 8),
        data_buffers: u32_at(b, at + 12),
        child_count: u32_at(b, at + 16),
        _pad: u32_at(b, at + 20),
    }
}

pub open spec fn entry_at(b: Seq<u8>, at: int) -> BufferEntry {
    BufferEntry { chunk_index: u32_at(b, at), offset: u32_at(b, at + 4), len: u32_at(b, at + 8) }
}

/// Where node `i` lies.
pub open spec fn node_pos(i: int) -> int {
    32 + 24 * i
}

/// Where buffer entry `i` lies, after `nodes` nodes.
pub open spec fn entry_pos(nodes: int, i: int) -> int {
    entries_at(nodes) + 12 * i
}

pub fn get_header(b: &[u8]) -> (h: BatchHeader)
    requires
        b@.len() >= 32,
    ensures
        h == header_at(b@, 0),
{
    BatchHeader {
        magic: get_u64(b, 0),
        format: get_u32(b, 8),
        schema_id: get_u32(b, 12),
        row_count: get_u32(b, 16),
        node_count: get_u32(b, 20),
        buffer_count: get_u32(b, 24),
        chunk_count: get_u32(b, 28),
    }
}

pub(crate) fn put_header(b: &mut [u8], h: &BatchHeader)
    requires
        old(b)@.len() >= 32,
    ensures
        same_outside(old(b)@, final(b)@, 0, 32),
        header_at(final(b)@, 0) == *h,
{
    put_u64(b, 0, h.magic);
    put_u32(b, 8, h.format);
    put_u32(b, 12, h.schema_id);
    put_u32(b, 16, h.row_count);
    put_u32(b, 20, h.node_count);
    put_u32(b, 24, h.buffer_count);
    put_u32(b, 28, h.chunk_count);
}

fn get_node(b: &[u8], at: usize) -> (n: NodeEntry)
    requires
        at + 24 <= b@.len(),
    ensures
        n == node_at(b@, at as int),
{
    let m: usize = b.len();
    assert(at + 24 <= m);
    NodeEntry {
        len: get_u32(b, at),
        null_count: get_u32(b, at + 4),
        has_validity: get_u32(b, at + 8),
        data_buffers: get_u32(b, at + 12),
        child_count: get_u32(b, at + 16),
        _pad: get_u32(b, at + 20),
    }
}

pub(crate) fn put_node(b: &mut [u8], at: usize, n: &NodeEntry)
    requires
        at + 24 <= old(b)@.len(),
    ensures
        same_outside(old(b)@, final(b)@, at as int, 24),
        node_at(final(b)@, at as int) == *n,
{
    let m: usize = b.len();
    assert(at + 24 <= m);
    put_u32(b, at, n.len);
    put_u32(b, at + 4, n.null_count);
    put_u32(b, at + 8, n.has_validity);
    put_u32(b, at + 12, n.data_buffers);
    put_u32(b, at + 16, n.child_count);
    put_u32(b, at + 20, n._pad);
}

fn get_entry(b: &[u8], at: usize) -> (e: BufferEntry)
    requires
        at + 12 <= b@.len(),
    ensures
        e == entry_at(b@, at as int),
{
    let m: usize = b.len();
    assert(at + 12 <= m);
    BufferEntry { chunk_index: get_u32(b, at), offset: get_u32(b, at + 4), len: get_u32(b, at + 8) }
}

pub(crate) fn put_entry(b: &mut [u8], at: usize, e: &BufferEntry)
    requires
        at + 12 <= old(b)@.len(),
    ensures
        same_outside(old(b)@, final(b)@, at as int, 12),
        entry_at(final(b)@, at as int) == *e,
{
    let m: usize = b.len();
    assert(at + 12 <= m);
    put_u32(b, at, e.chunk_index);
    put_u32(b, at + 4, e.offset);
    put_u32(b, at + 8, e.len);
}

// ---- the parser ----

/// The nodes of the table in `b`.
pub open spec fn nodes_of(b: Seq<u8>, n: int) -> Seq<NodeEntry> {
    Seq::new(n as nat, |i: int| node_at(b, node_pos(i)))
}

/// The buffer entries of the table in `b`, after `nodes` nodes.
pub open spec fn entries_of(b: Seq<u8>, nodes: int, n: int) -> Seq<BufferEntry> {
    Seq::new(n as nat, |i: int| entry_at(b, entry_pos(nodes, i)))
}

/// Why an entry does not lie inside its chunk.
pub open spec fn entry_refusal(e: BufferEntry, lens: Seq<usize>) -> Option<Error> {
    if e.chunk_index >= lens.len() {
        Some(Error::Layout("buffer chunk_index out of range"))
    } else if e.offset + e.len > usize::MAX {
        Some(Error::Layout("buffer extent overflow"))
    } else if e.offset + e.len > lens[e.chunk_index as int] {
        Some(Error::Layout("buffer extends past its chunk"))
    } else {
        None
    }
}

/// Why the first entry that does not lie inside its chunk does not.
pub open spec fn entries_refusal(s: Seq<BufferEntry>, lens: Seq<usize>) -> Option<Error>
    decreases s.len(),
{
    if s.len() == 0 {
        None
    } else {
        match entry_refusal(s[0], lens) {
            Some(e) => Some(e),
            None => entries_refusal(s.skip(1), lens),
        }
    }
}

/// Why a primary chunk with these bytes, of a batch whose chunks have these
/// lengths, is refused.
pub open spec fn layout_refusal(b: Seq<u8>, lens: Seq<usize>) -> Option<Error> {
    let h = header_at(b, 0);
    if b.len() < 32 {
        Some(Error::Layout("primary chunk smaller than batch header"))
    } else if h.magic != BATCH_MAGIC || h.format != BATCH_FORMAT {
        Some(Error::BadMagic)
    } else if h.chunk_count != lens.len() {
        Some(Error::Layout("header chunk_count != chunk list length"))
    } else if 24 * h.node_count > usize::MAX {
        Some(Error::Layout("node table size overflow"))
    } else if entries_at(h.node_count as int) > usize::MAX {
        Some(Error::Layout("node table offset overflow"))
    } else if 12 * h.buffer_count > usize::MAX {
        Some(Error::Layout("buffer table size overflow"))
    } else if tables_end(h.node_count as int, h.buffer_count as int) > usize::MAX {
        Some(Error::Layout("buffer table offset overflow"))
    } else if tables_end(h.node_count as int, h.buffer_count as int) > b.len() {
        Some(Error::Layout("node/buffer tables overrun primary chunk"))
    } else {
        entries_refusal(entries_of(b, h.node_count as int, h.buffer_count as int), lens)
    }
}

/// Read the header and the tables of a batch out of its primary chunk, and
/// check that every buffer lies inside its chunk.
pub fn read_batch_layout(primary: &[u8], chunk_lens: &[usize]) -> (r: Result<
    (BatchHeader, Vec<NodeEntry>, Vec<BufferEntry>),
    Error,
>)
    ensures
        match layout_refusal(primary@, chunk_lens@) {
            Some(e) => r is Err && r->Err_0 == e,
            None => {
                let h = header_at(primary@, 0);
                &&& r is Ok
                &&& r->Ok_0.0 == h
                &&& r->Ok_0.1@ == nodes_of(primary@, h.node_count as int)
                &&& r->Ok_0.2@ == entries_of(
                    primary@,
                    h.node_count as int,
                    h.buffer_count as int,
                )
            },
        },
{
    let total: usize = primary.len();
    let chunks: usize = chunk_lens.len();
    if total < HEADER_BYTES {
        return Err(Error::Layout("primary chunk smaller than batch header"));
    }
    let header: BatchHeader = get_header(primary);
    if header.magic != BATCH_MAGIC || header.format != BATCH_FORMAT {
        return Err(Error::BadMagic);
    }
    if header.chunk_count as u64 != chunks as u64 {
        return Err(Error::Layout("header chunk_count != chunk list length"));
    }
    let node_count: usize = header.node_count as usize;
    let buffer_count: usize = header.buffer_count as usize;
    let node_bytes: usize = match node_count.checked_mul(NODE_BYTES) {
        Some(n) => n,
        None => {
            return Err(Error::Layout("node table size overflow"));
        },
    };
    let buffers_off: usize = match nodes_offset().checked_add(node_bytes) {
        Some(n) => n,
        None => {
            return Err(Error::Layout("node table offset overflow"));
        },
    };
    let buffer_bytes: usize = match buffer_count.checked_mul(ENTRY_BYTES) {
        Some(n) => n,
        None => {
            return Err(Error::Layout("buffer table size overflow"));
        },
    };
    let end: usize = match buffers_off.checked_add(buffer_bytes) {
        Some(n) => n,
        None => {
            return Err(Error::Layout("buffer table offset overflow"));
        },
    };
    if end > total {
        return Err(Error::Layout("node/buffer tables overrun primary chunk"));
    }
    let mut nodes: Vec<NodeEntry> = Vec::new();
    let mut i: usize = 0;
    while i < node_count
        invariant
            i <= node_count,
            total == primary@.len(),
            entries_at(node_count as int) <= total,
            nodes@ == nodes_of(primary@, i as int),
        decreases node_count - i,
    {
        nodes.push(get_node(primary, nodes_offset() + i * NODE_BYTES));
        proof {
            assert(nodes@ =~= nodes_of(primary@, i + 1));
        }
        i = i + 1;
    }
    let mut entries: Vec<BufferEntry> = Vec::new();
    let mut k: usize = 0;
    while k < buffer_count
        invariant
            k <= buffer_count,
            total == primary@.len(),
            buffers_off == entries_at(node_count as int),
            tables_end(node_count as int, buffer_count as int) <= total,
            entries@ == entries_of(primary@, node_count as int, k as int),
        decreases buffer_count - k,
    {
        entries.push(get_entry(primary, buffers_off + k * ENTRY_BYTES));
        proof {
            assert(entries@ =~= entries_of(primary@, node_count as int, k + 1));
        }
        k = k + 1;
    }
    let mut j: usize = 0;
    proof {
        assert(entries@.skip(0) =~= entries@);
    }
    while j < buffer_count
        invariant
            j <= buffer_count,
            chunks == chunk_lens@.len(),
            buffer_count == entries@.len(),
            entries_refusal(entries@, chunk_lens@) == entries_refusal(
                entries@.skip(j as int),
                chunk_lens@,
            ),
            entries@ == entries_of(primary@, node_count as int, buffer_count as int),
            layout_refusal(primary@, chunk_lens@) == entries_refusal(entries@, chunk_lens@),
        decreases buffer_count - j,
    {
        let e: BufferEntry = entries[j];
        proof {
            assert(entries@.skip(j as int).skip(1) =~= entries@.skip(j + 1));
            assert(entries@.skip(j as int)[0] == e);
        }
        if e.chunk_index as u64 >= chunks as u64 {
            return Err(Error::Layout("buffer chunk_index out of range"));
        }
        let clen: usize = chunk_lens[e.chunk_index as usize];
        match (e.offset as usize).checked_add(e.len as usize) {
            None => {
                return Err(Error::Layout("buffer extent overflow"));
            },
            Some(last) => {
                if last > clen {
                    return Err(Error::Layout("buffer extends past its chunk"));
                }
            },
        }
        j = j + 1;
    }
    Ok((header, nodes, entries))
}

} // verus!
