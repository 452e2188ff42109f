//! Reading batches.
//!
//! Nothing is copied: what is read is where each buffer lies.
use std::sync::Arc;

use arrow_schema::{DataType, Schema};
use vstd::prelude::*;

use crate::artifact::pool::{chunk_ok, ChunkPool};
use crate::batch::error::Error;
use crate::batch::layout::{
    entries_of, get_header, header_at, layout_refusal, nodes_of, read_batch_layout, BatchHeader,
    BufferEntry, NodeEntry, BATCH_FORMAT, BATCH_MAGIC, HEADER_BYTES,
};
use crate::batch::outside::field_types;
use crate::batch::plain::{child_types, inner_of, plain_of};
use crate::batch::schema::{SchemaRegistry, RAW_SCHEMA_ID};
use crate::chunk::ChunkDesc;

verus! {

/// An array as it lies in the chunks of a batch.
#[derive(Debug)]
pub struct ReadNode {
    pub len: u32,
    pub null_count: u32,
    pub validity: Option<BufferEntry>,
    pub buffers: Vec<BufferEntry>,
    pub children: Vec<ReadNode>,
}

/// What an array that was read is.
pub struct ReadView {
    pub len: u32,
    pub null_count: u32,
    pub validity: Option<BufferEntry>,
    pub buffers: Seq<BufferEntry>,
    pub children: Seq<ReadView>,
}

/// What the array `r` is.
pub open spec fn read_view(r: ReadNode) -> ReadView
    decreases r,
{
    ReadView {
        len: r.len,
        null_count: r.null_count,
        validity: r.validity,
        buffers: r.buffers@,
        children: Seq::new(
            r.children@.len(),
            |i: int|
                if 0 <= i < r.children@.len() {
                    read_view(r.children@[i])
                } else {
                    arbitrary()
                },
        ),
    }
}

/// What each array is.
pub open spec fn read_views(s: Seq<ReadNode>) -> Seq<ReadView> {
    Seq::new(s.len(), |i: int| read_view(s[i]))
}

/// How many buffers a node has.
pub open spec fn own_count(n: NodeEntry) -> int {
    n.data_buffers + if n.has_validity != 0 {
        1int
    } else {
        0
    }
}

/// What is left of the tables after reading.
pub struct Rest {
    pub nodes: Seq<NodeEntry>,
    pub entries: Seq<BufferEntry>,
}

/// The array of type `t` at the front of the tables, and what is left of them.
pub open spec fn built(t: DataType, u: Rest) -> Result<(ReadView, Rest), Error>
    decreases u.nodes.len(), 0nat,
{
    if u.nodes.len() == 0 {
        Err(Error::Layout("node table underrun"))
    } else {
        let n = u.nodes[0];
        let v = if n.has_validity != 0 {
            1int
        } else {
            0
        };
        if u.entries.len() < own_count(n) {
            Err(Error::Layout("schema demands more buffers than the buffer table holds"))
        } else if child_types(t).len() != n.child_count {
            Err(Error::Layout("schema child count != stored child count"))
        } else {
            let below = Rest { nodes: u.nodes.skip(1), entries: u.entries.skip(own_count(n)) };
            match built_all(child_types(t), below) {
                Err(e) => Err(e),
                Ok((children, rest)) => Ok(
                    (
                        ReadView {
                            len: n.len,
                            null_count: n.null_count,
                            validity: if n.has_validity != 0 {
                                Some(u.entries[0])
                            } else {
                                None
                            },
                            buffers: u.entries.subrange(v, own_count(n)),
                            children,
                        },
                        rest,
                    ),
                ),
            }
        }
    }
}

/// The arrays of the types `t` at the front of the tables, and what is left.
pub open spec fn built_all(t: Seq<DataType>, u: Rest) -> Result<(Seq<ReadView>, Rest), Error>
    decreases u.nodes.len(), 1 + t.len(),
{
    if t.len() == 0 {
        Ok((seq![], u))
    } else {
        match built(t[0], u) {
            Err(e) => Err(e),
            Ok((r, u1)) => if u1.nodes.len() > u.nodes.len() {
                arbitrary()
            } else {
                match built_all(t.skip(1), u1) {
                    Err(e) => Err(e),
                    Ok((rs, u2)) => Ok((seq![r] + rs, u2)),
                }
            },
        }
    }
}

/// Reading an array uses up a node.
pub proof fn lemma_built_uses(t: DataType, u: Rest)
    ensures
        built(t, u) matches Ok((_, u1)) ==> u1.nodes.len() < u.nodes.len(),
    decreases u.nodes.len(), 0nat,
{
    if u.nodes.len() > 0 {
        let n = u.nodes[0];
        if u.entries.len() >= own_count(n) {
            lemma_built_all_uses(
                child_types(t),
                Rest { nodes: u.nodes.skip(1), entries: u.entries.skip(own_count(n)) },
            );
        }
    }
}

proof fn lemma_built_all_uses(t: Seq<DataType>, u: Rest)
    ensures
        built_all(t, u) matches Ok((_, u1)) ==> u1.nodes.len() <= u.nodes.len(),
    decreases u.nodes.len(), 1 + t.len(),
{
    if t.len() > 0 {
        lemma_built_uses(t[0], u);
        if let Ok((_, u1)) = built(t[0], u) {
            lemma_built_all_uses(t.skip(1), u1);
        }
    }
}

/// The tables from node `ni` and buffer entry `bi` on.
pub open spec fn rest_from(nodes: Seq<NodeEntry>, entries: Seq<BufferEntry>, ni: int, bi: int) -> Rest {
    Rest { nodes: nodes.skip(ni), entries: entries.skip(bi) }
}

/// An array that was read, and how far the tables were used.
pub struct Built {
    pub node: ReadNode,
    pub ni: usize,
    pub bi: usize,
}

/// Read the array of type `t` from node `ni` and buffer entry `bi` on.
pub fn build_node(
    t: &DataType,
    nodes: &Vec<NodeEntry>,
    entries: &Vec<BufferEntry>,
    ni: usize,
    bi: usize,
) -> (r: Result<Built, Error>)
    requires
        ni <= nodes@.len(),
        bi <= entries@.len(),
    ensures
        match built(*t, rest_from(nodes@, entries@, ni as int, bi as int)) {
            Err(e) => r is Err && r->Err_0 == e,
            Ok((v, u)) => {
                &&& r is Ok
                &&& read_view(r->Ok_0.node) == v
                &&& ni < r->Ok_0.ni <= nodes@.len()
                &&& bi <= r->Ok_0.bi <= entries@.len()
                &&& u == rest_from(nodes@, entries@, r->Ok_0.ni as int, r->Ok_0.bi as int)
            },
        },
    decreases nodes@.len() - ni, 0nat,
{
    let ghost u = rest_from(nodes@, entries@, ni as int, bi as int);
    let node_total: usize = nodes.len();
    let entry_total: usize = entries.len();
    if ni >= node_total {
        return Err(Error::Layout("node table underrun"));
    }
    let n: NodeEntry = nodes[ni];
    assert(u.nodes[0] == n);
    let mut b: usize = bi;
    let validity: Option<BufferEntry> = if n.has_validity != 0 {
        if b >= entry_total {
            return Err(Error::Layout("schema demands more buffers than the buffer table holds"));
        }
        b = b + 1;
        Some(entries[b - 1])
    } else {
        None
    };
    let ghost v = b - bi;
    let mut buffers: Vec<BufferEntry> = Vec::new();
    let mut k: u32 = 0;
    while k < n.data_buffers
        invariant
            k <= n.data_buffers,
            entry_total == entries@.len(),
            bi <= entries@.len(),
            0 <= v <= 1,
            v == (if n.has_validity != 0 {
                1int
            } else {
                0
            }),
            b == bi + v + k,
            b <= entry_total,
            u == rest_from(nodes@, entries@, ni as int, bi as int),
            u.nodes.len() > 0,
            u.nodes[0] == n,
            buffers@ == u.entries.subrange(v, v + k),
        decreases n.data_buffers - k,
    {
        if b >= entry_total {
            return Err(Error::Layout("schema demands more buffers than the buffer table holds"));
        }
        buffers.push(entries[b]);
        proof {
            assert(u.entries[v + k] == entries@[b as int]);
            assert(u.entries.subrange(v, v + k + 1) =~= u.entries.subrange(v, v + k).push(
                u.entries[v + k],
            ));
        }
        b = b + 1;
        k = k + 1;
    }
    let inner: Vec<DataType> = inner_of(plain_of(t));
    let ghost below = Rest { nodes: u.nodes.skip(1), entries: u.entries.skip(own_count(n)) };
    proof {
        assert(inner@ == child_types(*t));
        assert(below.nodes =~= nodes@.skip(ni + 1));
        assert(below.entries =~= entries@.skip(b as int));
        assert(below == rest_from(nodes@, entries@, ni + 1, b as int));
    }
    if inner.len() as u64 != n.child_count as u64 {
        return Err(Error::Layout("schema child count != stored child count"));
    }
    let (children, ni2, bi2) = match build_all(&inner, nodes, entries, ni + 1, b) {
        Ok(x) => x,
        Err(e) => {
            return Err(e);
        },
    };
    let node = ReadNode { len: n.len, null_count: n.null_count, validity, buffers, children };
    proof {
        assert(read_view(node).children =~= read_views(children@));
    }
    Ok(Built { node, ni: ni2, bi: bi2 })
}

/// Read the arrays of the types `types` from node `ni` and buffer entry `bi` on.
pub fn build_all(
    types: &Vec<DataType>,
    nodes: &Vec<NodeEntry>,
    entries: &Vec<BufferEntry>,
    ni: usize,
    bi: usize,
) -> (r: Result<(Vec<ReadNode>, usize, usize), Error>)
    requires
        ni <= nodes@.len(),
        bi <= entries@.len(),
    ensures
        match built_all(types@, rest_from(nodes@, entries@, ni as int, bi as int)) {
            Err(e) => r is Err && r->Err_0 == e,
            Ok((v, u)) => {
                &&& r is Ok
                &&& read_views(r->Ok_0.0@) == v
                &&& ni <= r->Ok_0.1 <= nodes@.len()
                &&& bi <= r->Ok_0.2 <= entries@.len()
                &&& u == rest_from(nodes@, entries@, r->Ok_0.1 as int, r->Ok_0.2 as int)
            },
        },
    decreases nodes@.len() - ni, 1nat,
{
    let ghost tv = types@;
    let ghost u0 = rest_from(nodes@, entries@, ni as int, bi as int);
    let mut out: Vec<ReadNode> = Vec::new();
    let mut nx: usize = ni;
    let mut bx: usize = bi;
    let m: usize = types.len();
    let mut i: usize = 0;
    proof {
        assert(tv.skip(0) =~= tv);
        assert(read_views(out@) =~= seq![]);
        if built_all(tv, u0) is Ok {
            assert(read_views(out@) + built_all(tv, u0)->Ok_0.0 =~= built_all(tv, u0)->Ok_0.0);
        }
    }
    while i < m
        invariant
            m == types@.len(),
            tv == types@,
            u0 == rest_from(nodes@, entries@, ni as int, bi as int),
            i <= m,
            ni <= nx <= nodes@.len(),
            bi <= bx <= entries@.len(),
            continues(
                built_all(tv, u0),
                read_views(out@),
                built_all(tv.skip(i as int), rest_from(nodes@, entries@, nx as int, bx as int)),
            ),
        decreases m - i,
    {
        let ghost o0 = read_views(out@);
        let ghost before = built_all(
            tv.skip(i as int),
            rest_from(nodes@, entries@, nx as int, bx as int),
        );
        proof {
            assert(tv.skip(i as int)[0] == types@[i as int]);
            assert(tv.skip(i as int).skip(1) =~= tv.skip(i + 1));
        }
        match build_node(&types[i], nodes, entries, nx, bx) {
            Err(e) => {
                return Err(e);
            },
            Ok(x) => {
                nx = x.ni;
                bx = x.bi;
                let ghost v = read_view(x.node);
                out.push(x.node);
                proof {
                    let after = built_all(
                        tv.skip(i + 1),
                        rest_from(nodes@, entries@, nx as int, bx as int),
                    );
                    assert(read_views(out@) =~= o0.push(v));
                    if before is Ok {
                        assert(o0 + (seq![v] + after->Ok_0.0) =~= o0.push(v) + after->Ok_0.0);
                    }
                }
            },
        }
        i = i + 1;
    }
    proof {
        assert(read_views(out@) + Seq::<ReadView>::empty() =~= read_views(out@));
    }
    Ok((out, nx, bx))
}

/// Whether reading as a whole gives what was read so far, followed by what
/// reading on gives.
spec fn continues(
    all: Result<(Seq<ReadView>, Rest), Error>,
    so_far: Seq<ReadView>,
    on: Result<(Seq<ReadView>, Rest), Error>,
) -> bool {
    match on {
        Err(e) => all == Err::<(Seq<ReadView>, Rest), Error>(e),
        Ok((rs, t)) => all == Ok::<(Seq<ReadView>, Rest), Error>((so_far + rs, t)),
    }
}

// ---- a whole batch ----

/// A batch as it lies in its chunks.
pub struct ReadBatch {
    pub schema: Arc<Schema>,
    pub row_count: u32,
    pub columns: Vec<ReadNode>,
}

/// Why a chunk cannot be read through a descriptor.
pub open spec fn chunk_refusal(pool: &ChunkPool, d: ChunkDesc) -> Option<Error> {
    if pool@[pool.at(d.offset)].generation != d.generation {
        Some(Error::StaleDescriptor)
    } else if pool@[pool.at(d.offset)].len < d.len {
        Some(Error::Core(crate::artifact::error::Error::OutOfBounds))
    } else {
        None
    }
}

/// Why the first chunk that cannot be read cannot.
pub open spec fn chunks_refusal(pool: &ChunkPool, s: Seq<ChunkDesc>) -> Option<Error>
    decreases s.len(),
{
    if s.len() == 0 {
        None
    } else {
        match chunk_refusal(pool, s[0]) {
            Some(e) => Some(e),
            None => chunks_refusal(pool, s.skip(1)),
        }
    }
}

/// The lengths the descriptors give.
pub open spec fn desc_lens(s: Seq<ChunkDesc>) -> Seq<usize> {
    Seq::new(s.len(), |i: int| s[i].len as usize)
}

/// The bytes of the primary chunk.
pub open spec fn primary(pool: &ChunkPool, s: Seq<ChunkDesc>) -> Seq<u8> {
    pool@[pool.at(s[0].offset)].bytes.take(s[0].len as int)
}

/// Whether a chunk starts with the header of a batch.
pub open spec fn is_batch(b: Seq<u8>) -> bool {
    b.len() >= 32 && header_at(b, 0).magic == BATCH_MAGIC && header_at(b, 0).format == BATCH_FORMAT
}

/// The header and the tables of the batch in the chunks `s`, or why it is
/// refused.
pub open spec fn tables_read(
    pool: &ChunkPool,
    reg: crate::batch::schema::RegistryView,
    s: Seq<ChunkDesc>,
) -> Result<(BatchHeader, Rest), Error> {
    let b = primary(pool, s);
    let h = header_at(b, 0);
    if s.len() == 0 {
        Err(Error::Layout("empty chunk list"))
    } else if exists|i: int| 0 <= i < s.len() && !pool.names((#[trigger] s[i]).segment_id, s[i].offset) {
        Err(Error::Core(crate::artifact::error::Error::OutOfBounds))
    } else if chunks_refusal(pool, s) is Some {
        Err(chunks_refusal(pool, s)->Some_0)
    } else if is_batch(b) && h.schema_id != s[0].schema_id {
        Err(Error::SchemaMismatch { desc: s[0].schema_id, header: h.schema_id })
    } else if layout_refusal(b, desc_lens(s)) is Some {
        Err(layout_refusal(b, desc_lens(s))->Some_0)
    } else if h.schema_id == RAW_SCHEMA_ID || !reg.by_id.contains_key(h.schema_id) {
        Err(Error::UnknownSchema(h.schema_id))
    } else {
        Ok(
            (
                h,
                Rest {
                    nodes: nodes_of(b, h.node_count as int),
                    entries: entries_of(b, h.node_count as int, h.buffer_count as int),
                },
            ),
        )
    }
}

/// What reading the chunks `s` gives: why it is refused, or the columns.
pub open spec fn batch_read(
    pool: &ChunkPool,
    reg: crate::batch::schema::RegistryView,
    s: Seq<ChunkDesc>,
) -> Result<(BatchHeader, Seq<ReadView>), Error> {
    match tables_read(pool, reg, s) {
        Err(e) => Err(e),
        Ok((h, t)) => match built_all(reg.types_of_id(h.schema_id), t) {
            Err(e) => Err(e),
            Ok((rs, rest)) => if rest.nodes.len() != 0 || rest.entries.len() != 0 {
                Err(Error::Layout("node/buffer table not fully consumed by schema"))
            } else {
                Ok((h, rs))
            },
        },
    }
}

/// Check the descriptors of a batch against the pool.
fn check_chunks(pool: &ChunkPool, chunks: &[ChunkDesc]) -> (r: Result<(), Error>)
    requires
        pool.wf(),
    ensures
        r == if exists|i: int|
            0 <= i < chunks@.len() && !pool.names((#[trigger] chunks@[i]).segment_id, chunks@[i].offset) {
            Err::<(), Error>(Error::Core(crate::artifact::error::Error::OutOfBounds))
        } else if chunks_refusal(pool, chunks@) is Some {
            Err(chunks_refusal(pool, chunks@)->Some_0)
        } else {
            Ok(())
        },
{
    let n: usize = chunks.len();
    let mut i: usize = 0;
    while i < n
        invariant
            pool.wf(),
            n == chunks@.len(),
            i <= n,
            forall|k: int| 0 <= k < i ==> pool.names((#[trigger] chunks@[k]).segment_id, chunks@[k].offset),
        decreases n - i,
    {
        if pool.find(chunks[i].segment_id, chunks[i].offset).is_none() {
            assert(!pool.names(chunks@[i as int].segment_id, chunks@[i as int].offset));
            return Err(Error::Core(crate::artifact::error::Error::OutOfBounds));
        }
        i = i + 1;
    }
    let mut k: usize = 0;
    proof {
        assert(chunks@.skip(0) =~= chunks@);
    }
    while k < n
        invariant
            pool.wf(),
            n == chunks@.len(),
            k <= n,
            forall|x: int| 0 <= x < n ==> pool.names((#[trigger] chunks@[x]).segment_id, chunks@[x].offset),
            chunks_refusal(pool, chunks@) == chunks_refusal(pool, chunks@.skip(k as int)),
        decreases n - k,
    {
        let d: ChunkDesc = chunks[k];
        proof {
            assert(chunks@.skip(k as int).skip(1) =~= chunks@.skip(k + 1));
            assert(chunks@.skip(k as int)[0] == d);
            assert(pool.names(chunks@[k as int].segment_id, chunks@[k as int].offset));
        }
        if let Some(j) = pool.find(d.segment_id, d.offset) {
            assert(pool@[j as int] == pool.chunks@[j as int]@);
            if !pool.chunks[j].validate(&d) {
                return Err(Error::StaleDescriptor);
            }
            if pool.chunks[j].len < d.len {
                return Err(Error::Core(crate::artifact::error::Error::OutOfBounds));
            }
        }
        k = k + 1;
    }
    Ok(())
}

/// The first `n` bytes of `b`.
fn front(b: &Vec<u8>, n: usize) -> (r: Vec<u8>)
    requires
        n <= b@.len(),
    ensures
        r@ == b@.take(n as int),
{
    let mut r: Vec<u8> = Vec::new();
    let mut i: usize = 0;
    while i < n
        invariant
            n <= b@.len(),
            i <= n,
            r@ == b@.take(i as int),
        decreases n - i,
    {
        r.push(b[i]);
        proof {
            assert(b@.take(i + 1) =~= b@.take(i as int).push(b@[i as int]));
        }
        i = i + 1;
    }
    r
}

/// The header and the tables of a batch, with the schema it follows.
pub struct Tables {
    pub schema: Arc<Schema>,
    pub header: BatchHeader,
    pub nodes: Vec<NodeEntry>,
    pub entries: Vec<BufferEntry>,
}

/// Read the header and the tables of a batch. `chunks[0]` is the primary chunk.
pub fn read_tables(pool: &ChunkPool, chunks: &[ChunkDesc], registry: &SchemaRegistry) -> (r: Result<
    Tables,
    Error,
>)
    requires
        pool.wf(),
    ensures
        match tables_read(pool, registry@, chunks@) {
            Err(e) => r is Err && r->Err_0 == e,
            Ok((h, t)) => {
                &&& r is Ok
                &&& r->Ok_0.schema == registry@.by_id[h.schema_id]
                &&& r->Ok_0.header == h
                &&& r->Ok_0.nodes@ == t.nodes
                &&& r->Ok_0.entries@ == t.entries
            },
        },
{
    let n: usize = chunks.len();
    if n == 0 {
        return Err(Error::Layout("empty chunk list"));
    }
    match check_chunks(pool, chunks) {
        Ok(_) => {},
        Err(e) => {
            return Err(e);
        },
    }
    let first: ChunkDesc = chunks[0];
    proof {
        assert(pool.names(chunks@[0].segment_id, chunks@[0].offset));
        assert(chunk_refusal(pool, chunks@[0]) is None);
    }
    let bytes: Vec<u8> = match pool.find(first.segment_id, first.offset) {
        None => {
            return Err(Error::Core(crate::artifact::error::Error::OutOfBounds));
        },
        Some(j) => {
            proof {
                assert(pool@[j as int] == pool.chunks@[j as int]@);
                assert(chunk_ok(pool@[j as int]));
            }
            front(&pool.chunks[j].bytes, first.len as usize)
        },
    };
    let mut lens: Vec<usize> = Vec::new();
    let mut i: usize = 0;
    while i < n
        invariant
            n == chunks@.len(),
            i <= n,
            lens@ == desc_lens(chunks@.take(i as int)),
        decreases n - i,
    {
        lens.push(chunks[i].len as usize);
        proof {
            assert(lens@ =~= desc_lens(chunks@.take(i + 1)));
        }
        i = i + 1;
    }
    proof {
        assert(chunks@.take(n as int) =~= chunks@);
    }
    if bytes.len() >= HEADER_BYTES {
        let h: BatchHeader = get_header(bytes.as_slice());
        if h.magic == BATCH_MAGIC && h.format == BATCH_FORMAT && h.schema_id != first.schema_id {
            return Err(Error::SchemaMismatch { desc: first.schema_id, header: h.schema_id });
        }
    }
    let (header, nodes, entries) = match read_batch_layout(bytes.as_slice(), lens.as_slice()) {
        Ok(l) => l,
        Err(e) => {
            return Err(e);
        },
    };
    let schema: Arc<Schema> = match registry.resolve(header.schema_id) {
        None => {
            return Err(Error::UnknownSchema(header.schema_id));
        },
        Some(s) => s,
    };
    Ok(Tables { schema, header, nodes, entries })
}

/// Locate a batch in its chunks. `chunks[0]` is the primary one.
pub fn locate_batch_chunks(pool: &ChunkPool, chunks: &[ChunkDesc], registry: &SchemaRegistry) -> (r: Result<
    ReadBatch,
    Error,
>)
    requires
        pool.wf(),
    ensures
        match batch_read(pool, registry@, chunks@) {
            Err(e) => r is Err && r->Err_0 == e,
            Ok((h, rs)) => {
                &&& r is Ok
                &&& r->Ok_0.schema == registry@.by_id[h.schema_id]
                &&& r->Ok_0.row_count == h.row_count
                &&& read_views(r->Ok_0.columns@) == rs
            },
        },
{
    let Tables { schema, header, nodes, entries } = match read_tables(pool, chunks, registry) {
        Ok(t) => t,
        Err(e) => {
            return Err(e);
        },
    };
    let types: Vec<DataType> = field_types(&schema);
    proof {
        assert(nodes@.skip(0) =~= nodes@);
        assert(entries@.skip(0) =~= entries@);
    }
    match build_all(&types, &nodes, &entries, 0, 0) {
        Err(e) => Err(e),
        Ok((columns, ni, bi)) => {
            if ni != nodes.len() || bi != entries.len() {
                return Err(Error::Layout("node/buffer table not fully consumed by schema"));
            }
            Ok(ReadBatch { schema, row_count: header.row_count, columns })
        },
    }
}

/// Locate a batch in the one chunk it was written to.
pub fn locate_batch(pool: &ChunkPool, desc: &ChunkDesc, registry: &SchemaRegistry) -> (r: Result<
    ReadBatch,
    Error,
>)
    requires
        pool.wf(),
    ensures
        match batch_read(pool, registry@, seq![*desc]) {
            Err(e) => r is Err && r->Err_0 == e,
            Ok((h, rs)) => {
                &&& r is Ok
                &&& r->Ok_0.schema == registry@.by_id[h.schema_id]
                &&& r->Ok_0.row_count == h.row_count
                &&& read_views(r->Ok_0.columns@) == rs
            },
        },
{
    let mut one: Vec<ChunkDesc> = Vec::new();
    one.push(*desc);
    proof {
        assert(one@ =~= seq![*desc]);
    }
    locate_batch_chunks(pool, one.as_slice(), registry)
}

/// Whether a buffer entry of the batch in the chunks `s` can be looked at: the
/// descriptor of its chunk is current, and it lies inside.
pub open spec fn visible(pool: &ChunkPool, s: Seq<ChunkDesc>, e: BufferEntry) -> bool {
    let d = s[e.chunk_index as int];
    &&& e.chunk_index < s.len()
    &&& pool.names(d.segment_id, d.offset)
    &&& chunk_refusal(pool, d) is None
    &&& e.offset + e.len <= d.len
}

/// The bytes a buffer entry names, where they lie. Nothing is copied.
pub fn bytes_in_place<'a>(pool: &'a ChunkPool, chunks: &[ChunkDesc], e: &BufferEntry) -> (r: Option<
    &'a [u8],
>)
    requires
        pool.wf(),
    ensures
        r is Some <==> visible(pool, chunks@, *e),
        r matches Some(b) ==> b@ == pool@[pool.at(chunks@[e.chunk_index as int].offset)].bytes.subrange(
            e.offset as int,
            e.offset + e.len,
        ),
{
    if e.chunk_index as u64 >= chunks.len() as u64 {
        return None;
    }
    let d: ChunkDesc = chunks[e.chunk_index as usize];
    match pool.find(d.segment_id, d.offset) {
        None => None,
        Some(j) => {
            proof {
                assert(pool@[j as int] == pool.chunks@[j as int]@);
                assert(chunk_ok(pool@[j as int]));
            }
            if !pool.chunks[j].validate(&d) || pool.chunks[j].len < d.len || e.offset as u64 + e.len as u64
                > d.len as u64 {
                return None;
            }
            let b: &'a [u8] = pool.chunks[j].bytes.as_slice();
            Some(
                vstd::slice::slice_subrange(b, e.offset as usize, e.offset as usize + e.len as usize),
            )
        },
    }
}

} // verus!
