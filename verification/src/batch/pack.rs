//! Where the buffers of a batch go, and the bytes of its chunks.
use vstd::prelude::*;

use crate::batch::array::{byte_views, Plan};
use crate::batch::error::Error;
use crate::batch::layout::{
    aligned, entries_of, entry_at, entry_pos, header_at, node_at, node_pos, nodes_of, payload_at,
    put_entry, put_header, put_node, tables_end, BatchHeader, BufferEntry, NodeEntry, BATCH_FORMAT,
    BATCH_MAGIC, ENTRY_BYTES, HEADER_BYTES, NODE_BYTES,
};
use crate::le::same_outside;

verus! {

/// How far the first `i` buffers reach: the last chunk in use and the end in it.
pub open spec fn reach(b: Seq<Seq<u8>>, start: int, cap: int, i: int) -> (int, int)
    decreases i,
{
    if i <= 0 {
        (0, start)
    } else {
        let p = behind(reach(b, start, cap, i - 1), b[i - 1].len() as int, cap);
        (p.0, p.1 + b[i - 1].len())
    }
}

/// Where a buffer of `len` bytes goes behind `r`: there, aligned, or at the
/// start of a new chunk if it does not fit.
pub open spec fn behind(r: (int, int), len: int, cap: int) -> (int, int) {
    if aligned(r.1) + len > cap {
        (r.0 + 1, 0)
    } else {
        (r.0, aligned(r.1))
    }
}

/// Where buffer `i` goes.
pub open spec fn place(b: Seq<Seq<u8>>, start: int, cap: int, i: int) -> (int, int) {
    behind(reach(b, start, cap, i), b[i].len() as int, cap)
}

/// How many bytes the first `i` buffers use of each chunk.
pub open spec fn used(b: Seq<Seq<u8>>, start: int, cap: int, i: int) -> Seq<int>
    decreases i,
{
    if i <= 0 {
        seq![start]
    } else {
        let u = used(b, start, cap, i - 1);
        let r = reach(b, start, cap, i);
        if r.0 == u.len() {
            u.push(r.1)
        } else {
            u.update(r.0, r.1)
        }
    }
}

/// Whether every buffer fits in a chunk.
pub open spec fn each_fits(b: Seq<Seq<u8>>, cap: int) -> bool {
    forall|i: int| 0 <= i < b.len() ==> (#[trigger] b[i]).len() <= cap
}

/// Where buffer `i` lies within what is used.
pub proof fn lemma_place(b: Seq<Seq<u8>>, start: int, cap: int, n: int, i: int)
    requires
        0 <= start <= cap,
        each_fits(b, cap),
        0 <= i < n <= b.len(),
    ensures
        ({
            let p = place(b, start, cap, i);
            let u = used(b, start, cap, n);
            &&& 0 <= p.0 < u.len()
            &&& p.0 == 0 ==> p.1 >= start
            &&& 0 <= p.1
            &&& p.1 + b[i].len() <= u[p.0] <= cap
            &&& p.1 % 64 == 0
        }),
    decreases n,
{
    lemma_used(b, start, cap, n);
    lemma_used(b, start, cap, n - 1);
    if i < n - 1 {
        lemma_place(b, start, cap, n - 1, i);
        lemma_order(b, start, cap, i, n - 1);
    } else {
        assert(b[i].len() <= cap);
        lemma_aligned(reach(b, start, cap, i).1);
    }
}

proof fn lemma_aligned(x: int)
    requires
        x >= 0,
    ensures
        x <= aligned(x) < x + 64,
        aligned(x) % 64 == 0,
{
}

/// What is used, and how it grows.
pub proof fn lemma_used(b: Seq<Seq<u8>>, start: int, cap: int, n: int)
    requires
        0 <= start <= cap,
        each_fits(b, cap),
        0 <= n <= b.len(),
    ensures
        ({
            let u = used(b, start, cap, n);
            let r = reach(b, start, cap, n);
            &&& u.len() == r.0 + 1
            &&& 0 <= r.0 <= n
            &&& u[r.0] == r.1
            &&& u[0] >= start
            &&& 0 <= r.1 <= cap
            &&& r.0 == 0 ==> r.1 >= start
            &&& forall|c: int| 0 <= c < u.len() ==> 0 <= #[trigger] u[c] <= cap
            &&& n > 0 ==> {
                let v = used(b, start, cap, n - 1);
                &&& v.len() <= u.len()
                &&& forall|c: int| 0 <= c < v.len() ==> #[trigger] v[c] <= u[c]
            }
        }),
    decreases n,
{
    if n > 0 {
        lemma_used(b, start, cap, n - 1);
        assert(b[n - 1].len() <= cap);
        lemma_aligned(reach(b, start, cap, n - 1).1);
        let u = used(b, start, cap, n - 1);
        let r = reach(b, start, cap, n);
        let w = used(b, start, cap, n);
        let q = reach(b, start, cap, n - 1);
        assert(r == (if aligned(q.1) + b[n - 1].len() > cap {
            (q.0 + 1, b[n - 1].len() as int)
        } else {
            (q.0, aligned(q.1) + b[n - 1].len())
        }));
        assert(w == (if r.0 == u.len() {
            u.push(r.1)
        } else {
            u.update(r.0, r.1)
        }));
        assert forall|c: int| 0 <= c < w.len() implies 0 <= #[trigger] w[c] <= cap by {
            if c < u.len() && c != r.0 {
                assert(w[c] == u[c]);
            }
        }
    }
}

/// Buffers lie one behind the other.
pub proof fn lemma_order(b: Seq<Seq<u8>>, start: int, cap: int, i: int, j: int)
    requires
        0 <= start <= cap,
        each_fits(b, cap),
        0 <= i < j < b.len(),
    ensures
        ({
            let p = place(b, start, cap, i);
            let q = place(b, start, cap, j);
            p.0 < q.0 || (p.0 == q.0 && p.1 + b[i].len() <= q.1)
        }),
    decreases j,
{
    lemma_used(b, start, cap, j);
    lemma_used(b, start, cap, i);
    lemma_aligned(reach(b, start, cap, j).1);
    lemma_aligned(reach(b, start, cap, i).1);
    if i < j - 1 {
        lemma_order(b, start, cap, i, j - 1);
        lemma_used(b, start, cap, j - 1);
        lemma_aligned(reach(b, start, cap, j - 1).1);
    }
}

/// The buffer table.
pub open spec fn entries(b: Seq<Seq<u8>>, start: int, cap: int) -> Seq<BufferEntry> {
    Seq::new(
        b.len(),
        |i: int|
            BufferEntry {
                chunk_index: place(b, start, cap, i).0 as u32,
                offset: place(b, start, cap, i).1 as u32,
                len: b[i].len() as u32,
            },
    )
}

/// A length as `usize`, as far as it fits.
pub open spec fn clamped(x: int) -> usize {
    if x > usize::MAX {
        usize::MAX
    } else {
        x as usize
    }
}

/// Why buffers cannot be packed.
pub open spec fn pack_refusal(nodes: int, b: Seq<Seq<u8>>, cap: int) -> Option<Error> {
    let start = payload_at(nodes, b.len() as int);
    if start > cap {
        Some(Error::ChunkTooSmall { need: clamped(start), have: cap as usize })
    } else if !each_fits(b, cap) {
        Some(Error::Unsupported("buffer exceeds max chunk size"))
    } else {
        None
    }
}

/// Where every buffer goes, and how much of each chunk is used.
#[derive(Debug)]
pub struct Packing {
    /// Chunk and offset of each buffer.
    pub locs: Vec<(usize, usize)>,
    pub chunk_used: Vec<usize>,
    /// Where the first buffer may start.
    pub start: usize,
}

impl Packing {
    pub open spec fn is_of(&self, nodes: int, b: Seq<Seq<u8>>, cap: int) -> bool {
        let start = payload_at(nodes, b.len() as int);
        &&& self.start == start
        &&& self.locs@.len() == b.len()
        &&& forall|i: int|
            0 <= i < b.len() ==> (#[trigger] self.locs@[i]).0 == place(b, start, cap, i).0
                && self.locs@[i].1 == place(b, start, cap, i).1
        &&& self.chunk_used@.len() == used(b, start, cap, b.len() as int).len()
        &&& forall|c: int|
            0 <= c < self.chunk_used@.len() ==> (#[trigger] self.chunk_used@[c]) == used(
                b,
                start,
                cap,
                b.len() as int,
            )[c]
    }
}

/// Assign every buffer to a chunk of at most `cap` bytes, opening a new chunk
/// whenever the next buffer does not fit behind the one before.
pub fn pack(plan: &Plan, cap: u32) -> (r: Result<Packing, Error>)
    ensures
        match pack_refusal(plan.nodes@.len() as int, byte_views(plan.buffers@), cap as int) {
            Some(e) => r is Err && r->Err_0 == e,
            None => r is Ok && r->Ok_0.is_of(
                plan.nodes@.len() as int,
                byte_views(plan.buffers@),
                cap as int,
            ),
        },
{
    let ghost b = byte_views(plan.buffers@);
    let n: usize = plan.buffers.len();
    let count: usize = plan.nodes.len();
    let raw: u128 = 32 + 24 * (count as u128) + 12 * (n as u128);
    let first: u128 = (raw + 63) / 64 * 64;
    let ghost start = payload_at(plan.nodes@.len() as int, b.len() as int);
    assert(first == start);
    if first > cap as u128 {
        return Err(
            Error::ChunkTooSmall {
                need: if first > usize::MAX as u128 {
                    usize::MAX
                } else {
                    first as usize
                },
                have: cap as usize,
            },
        );
    }
    let begin: usize = first as usize;
    let mut k: usize = 0;
    while k < n
        invariant
            n == plan.buffers@.len(),
            b == byte_views(plan.buffers@),
            start <= cap,
            start == payload_at(plan.nodes@.len() as int, b.len() as int),
            k <= n,
            forall|i: int| 0 <= i < k ==> (#[trigger] b[i]).len() <= cap,
        decreases n - k,
    {
        assert(b[k as int] == plan.buffers@[k as int]@);
        if plan.buffers[k].len() > cap as usize {
            return Err(Error::Unsupported("buffer exceeds max chunk size"));
        }
        k = k + 1;
    }
    assert(each_fits(b, cap as int));
    let mut locs: Vec<(usize, usize)> = Vec::new();
    let mut chunk_used: Vec<usize> = Vec::new();
    chunk_used.push(begin);
    let mut cur: usize = 0;
    let mut cursor: usize = begin;
    let mut i: usize = 0;
    while i < n
        invariant
            n == plan.buffers@.len(),
            b == byte_views(plan.buffers@),
            0 <= start <= cap,
            each_fits(b, cap as int),
            i <= n,
            cur == reach(b, start, cap as int, i as int).0,
            cursor == reach(b, start, cap as int, i as int).1,
            locs@.len() == i,
            forall|j: int|
                0 <= j < i ==> (#[trigger] locs@[j]).0 == place(b, start, cap as int, j).0
                    && locs@[j].1 == place(b, start, cap as int, j).1,
            chunk_used@.len() == used(b, start, cap as int, i as int).len(),
            forall|c: int|
                0 <= c < chunk_used@.len() ==> (#[trigger] chunk_used@[c]) == used(
                    b,
                    start,
                    cap as int,
                    i as int,
                )[c],
        decreases n - i,
    {
        proof {
            lemma_used(b, start, cap as int, i as int);
            lemma_used(b, start, cap as int, i + 1);
            assert(b[i as int] == plan.buffers@[i as int]@);
        }
        let blen: usize = plan.buffers[i].len();
        let off: u64 = (cursor as u64 + 63) / 64 * 64;
        let ghost u0 = used(b, start, cap as int, i as int);
        if off + blen as u64 > cap as u64 {
            cur = cur + 1;
            cursor = blen;
            chunk_used.push(blen);
            locs.push((cur, 0));
        } else {
            cursor = off as usize + blen;
            chunk_used.set(cur, cursor);
            locs.push((cur, off as usize));
        }
        proof {
            let u1 = used(b, start, cap as int, i + 1);
            assert forall|c: int| 0 <= c < chunk_used@.len() implies (#[trigger] chunk_used@[c])
                == u1[c] by {
                if c < u0.len() && c != cur {
                    assert(u1[c] == u0[c]);
                }
            }
        }
        i = i + 1;
    }
    Ok(Packing { locs, chunk_used, start: begin })
}

/// Whether the chunks of a batch hold it: the header and the tables at the
/// start of the first, and every buffer in its place.
pub open spec fn holds_batch(
    c: Seq<Seq<u8>>,
    header: BatchHeader,
    nodes: Seq<NodeEntry>,
    b: Seq<Seq<u8>>,
    cap: int,
) -> bool {
    let n = nodes.len() as int;
    let m = b.len() as int;
    let start = payload_at(n, m);
    &&& c.len() > 0
    &&& c[0].len() >= start
    &&& header_at(c[0], 0) == header
    &&& nodes_of(c[0], n) == nodes
    &&& entries_of(c[0], n, m) == entries(b, start, cap)
    &&& forall|i: int| 0 <= i < m ==> #[trigger] in_place(c, b, start, cap, i)
}

/// Whether buffer `i` is in its place.
pub open spec fn in_place(c: Seq<Seq<u8>>, b: Seq<Seq<u8>>, start: int, cap: int, i: int) -> bool {
    let p = place(b, start, cap, i);
    &&& 0 <= p.0 < c.len()
    &&& 0 <= p.1
    &&& p.1 + b[i].len() <= c[p.0].len()
    &&& c[p.0].subrange(p.1, p.1 + b[i].len()) == b[i]
}

/// The header of a batch.
pub open spec fn header_of(
    schema_id: u32,
    rows: int,
    nodes: Seq<NodeEntry>,
    b: Seq<Seq<u8>>,
    cap: int,
) -> BatchHeader {
    BatchHeader {
        magic: BATCH_MAGIC,
        format: BATCH_FORMAT,
        schema_id,
        row_count: rows as u32,
        node_count: nodes.len() as u32,
        buffer_count: b.len() as u32,
        chunk_count: used(b, payload_at(nodes.len() as int, b.len() as int), cap, b.len() as int).len() as u32,
    }
}

/// Copy `data` into `c` at `at`.
fn copy_into(c: &mut Vec<u8>, at: usize, data: &Vec<u8>)
    requires
        at + data@.len() <= old(c)@.len(),
    ensures
        final(c)@.len() == old(c)@.len(),
        same_outside(old(c)@, final(c)@, at as int, data@.len() as int),
        final(c)@.subrange(at as int, at + data@.len()) == data@,
{
    let n: usize = data.len();
    let total: usize = c.len();
    let mut i: usize = 0;
    while i < n
        invariant
            n == data@.len(),
            total == c@.len(),
            at + n <= total,
            i <= n,
            same_outside(old(c)@, c@, at as int, n as int),
            forall|k: int| 0 <= k < i ==> #[trigger] c@[at + k] == data@[k],
        decreases n - i,
    {
        c.set(at + i, data[i]);
        i = i + 1;
    }
    proof {
        assert(c@.subrange(at as int, at + n) =~= data@) by {
            assert forall|k: int| 0 <= k < n implies c@.subrange(at as int, at + n)[k] == data@[k] by {
                assert(c@[at + k] == data@[k]);
            }
        }
    }
}

/// Bytes that start alike have the same tables.
pub proof fn lemma_tables_same(a: Seq<u8>, b: Seq<u8>, n: int, m: int)
    requires
        a.len() >= tables_end(n, m),
        b.len() >= a.len(),
        forall|i: int| 0 <= i < a.len() ==> #[trigger] b[i] == a[i],
        n >= 0,
        m >= 0,
    ensures
        header_at(b, 0) == header_at(a, 0),
        nodes_of(b, n) == nodes_of(a, n),
        entries_of(b, n, m) == entries_of(a, n, m),
{
    assert forall|i: int| 0 <= i < n implies node_at(b, node_pos(i)) == node_at(a, node_pos(i)) by {}
    assert forall|i: int| 0 <= i < m implies entry_at(b, entry_pos(n, i)) == entry_at(
        a,
        entry_pos(n, i),
    ) by {}
    assert(nodes_of(b, n) =~= nodes_of(a, n));
    assert(entries_of(b, n, m) =~= entries_of(a, n, m));
}

/// Writing behind the tables leaves the tables alone.
proof fn lemma_tables_kept(a: Seq<u8>, b: Seq<u8>, n: int, m: int, at: int, len: int)
    requires
        same_outside(a, b, at, len),
        at >= tables_end(n, m),
        a.len() >= tables_end(n, m),
        n >= 0,
        m >= 0,
    ensures
        header_at(b, 0) == header_at(a, 0),
        nodes_of(b, n) == nodes_of(a, n),
        entries_of(b, n, m) == entries_of(a, n, m),
{
    assert forall|i: int| 0 <= i < n implies node_at(b, node_pos(i)) == node_at(a, node_pos(i)) by {}
    assert forall|i: int| 0 <= i < m implies entry_at(b, entry_pos(n, i)) == entry_at(
        a,
        entry_pos(n, i),
    ) by {}
    assert(nodes_of(b, n) =~= nodes_of(a, n));
    assert(entries_of(b, n, m) =~= entries_of(a, n, m));
}

/// Write the header and the tables to the start of the primary chunk.
fn write_tables(c: &mut Vec<u8>, header: &BatchHeader, plan: &Plan, packing: &Packing, cap: u32)
    requires
        packing.is_of(plan.nodes@.len() as int, byte_views(plan.buffers@), cap as int),
        packing.start <= cap,
        each_fits(byte_views(plan.buffers@), cap as int),
        packing.start <= old(c)@.len(),
        packing.chunk_used@.len() <= u32::MAX,
    ensures
        final(c)@.len() == old(c)@.len(),
        header_at(final(c)@, 0) == *header,
        nodes_of(final(c)@, plan.nodes@.len() as int) == plan.nodes@,
        entries_of(final(c)@, plan.nodes@.len() as int, plan.buffers@.len() as int) == entries(
            byte_views(plan.buffers@),
            packing.start as int,
            cap as int,
        ),
{
    let ghost b = byte_views(plan.buffers@);
    let ghost start = packing.start as int;
    let n: usize = plan.nodes.len();
    let m: usize = plan.buffers.len();
    let total: usize = c.len();
    proof {
        lemma_aligned(tables_end(n as int, m as int));
    }
    put_header(c.as_mut_slice(), header);
    let mut i: usize = 0;
    while i < n
        invariant
            n == plan.nodes@.len(),
            i <= n,
            total == c@.len(),
            tables_end(n as int, m as int) <= total,
            m >= 0,
            header_at(c@, 0) == *header,
            nodes_of(c@, i as int) == plan.nodes@.take(i as int),
        decreases n - i,
    {
        let ghost c0 = c@;
        put_node(c.as_mut_slice(), HEADER_BYTES + i * NODE_BYTES, &plan.nodes[i]);
        proof {
            assert forall|k: int| 0 <= k < i implies node_at(c@, node_pos(k)) == node_at(
                c0,
                node_pos(k),
            ) by {}
            assert(nodes_of(c@, i + 1) =~= nodes_of(c0, i as int).push(plan.nodes@[i as int]));
            assert(plan.nodes@.take(i + 1) =~= plan.nodes@.take(i as int).push(plan.nodes@[i as int]));
        }
        i = i + 1;
    }
    assert(plan.nodes@.take(n as int) =~= plan.nodes@);
    let ghost es = entries(b, start, cap as int);
    let mut k: usize = 0;
    while k < m
        invariant
            packing.is_of(plan.nodes@.len() as int, b, cap as int),
            b == byte_views(plan.buffers@),
            start == packing.start,
            0 <= start <= cap,
            each_fits(b, cap as int),
            packing.chunk_used@.len() <= u32::MAX,
            es == entries(b, start, cap as int),
            n == plan.nodes@.len(),
            m == plan.buffers@.len(),
            k <= m,
            total == c@.len(),
            tables_end(n as int, m as int) <= total,
            header_at(c@, 0) == *header,
            nodes_of(c@, n as int) == plan.nodes@,
            entries_of(c@, n as int, k as int) == es.take(k as int),
        decreases m - k,
    {
        let ghost c0 = c@;
        proof {
            lemma_place(b, start, cap as int, m as int, k as int);
            assert(b[k as int] == plan.buffers@[k as int]@);
            assert(packing.locs@[k as int].0 == place(b, start, cap as int, k as int).0);
        }
        let e = BufferEntry {
            chunk_index: packing.locs[k].0 as u32,
            offset: packing.locs[k].1 as u32,
            len: plan.buffers[k].len() as u32,
        };
        assert(e == es[k as int]);
        put_entry(c.as_mut_slice(), HEADER_BYTES + n * NODE_BYTES + k * ENTRY_BYTES, &e);
        proof {
            assert forall|j: int| 0 <= j < n implies node_at(c@, node_pos(j)) == node_at(
                c0,
                node_pos(j),
            ) by {}
            assert(nodes_of(c@, n as int) =~= nodes_of(c0, n as int));
            assert forall|j: int| 0 <= j < k implies entry_at(c@, entry_pos(n as int, j)) == entry_at(
                c0,
                entry_pos(n as int, j),
            ) by {}
            assert(entries_of(c@, n as int, k + 1) =~= entries_of(c0, n as int, k as int).push(e));
            assert(es.take(k + 1) =~= es.take(k as int).push(es[k as int]));
        }
        k = k + 1;
    }
    assert(es.take(m as int) =~= es);
}

fn zeros(n: usize) -> (v: Vec<u8>)
    ensures
        v@.len() == n,
{
    let mut v: Vec<u8> = Vec::new();
    let mut i: usize = 0;
    while i < n
        invariant
            i <= n,
            v@.len() == i,
        decreases n - i,
    {
        v.push(0);
        i = i + 1;
    }
    v
}

/// The bytes of the chunks of a batch.
pub fn images(header: &BatchHeader, plan: &Plan, packing: &Packing, cap: u32) -> (c: Vec<Vec<u8>>)
    requires
        pack_refusal(plan.nodes@.len() as int, byte_views(plan.buffers@), cap as int) is None,
        packing.is_of(plan.nodes@.len() as int, byte_views(plan.buffers@), cap as int),
        packing.chunk_used@.len() <= u32::MAX,
    ensures
        holds_batch(byte_views(c@), *header, plan.nodes@, byte_views(plan.buffers@), cap as int),
        c@.len() == packing.chunk_used@.len(),
        forall|k: int| 0 <= k < c@.len() ==> (#[trigger] c@[k])@.len() == packing.chunk_used@[k],
{
    let ghost b = byte_views(plan.buffers@);
    let ghost start = packing.start as int;
    let ghost capi = cap as int;
    let m: usize = plan.buffers.len();
    let n: usize = plan.nodes.len();
    let parts: usize = packing.chunk_used.len();
    proof {
        lemma_aligned(tables_end(n as int, m as int));
        lemma_used(b, start, capi, m as int);
    }
    let mut c: Vec<Vec<u8>> = Vec::new();
    let mut k: usize = 0;
    while k < parts
        invariant
            k <= parts,
            parts == packing.chunk_used@.len(),
            c@.len() == k,
            forall|j: int| 0 <= j < k ==> (#[trigger] c@[j])@.len() == packing.chunk_used@[j],
        decreases parts - k,
    {
        c.push(zeros(packing.chunk_used[k]));
        k = k + 1;
    }
    let first: &mut Vec<u8> = &mut c[0];
    write_tables(first, header, plan, packing, cap);
    let mut i: usize = 0;
    while i < m
        invariant
            b == byte_views(plan.buffers@),
            n == plan.nodes@.len(),
            m == plan.buffers@.len(),
            start == payload_at(n as int, m as int),
            start >= tables_end(n as int, m as int),
            0 <= start <= capi,
            each_fits(b, capi),
            capi == cap as int,
            packing.is_of(n as int, b, capi),
            parts == packing.chunk_used@.len(),
            parts > 0,
            packing.chunk_used@[0] >= start,
            c@.len() == parts,
            forall|j: int| 0 <= j < parts ==> (#[trigger] c@[j])@.len() == packing.chunk_used@[j],
            i <= m,
            header_at(c@[0]@, 0) == *header,
            nodes_of(c@[0]@, n as int) == plan.nodes@,
            entries_of(c@[0]@, n as int, m as int) == entries(b, start, capi),
            forall|j: int| 0 <= j < i ==> #[trigger] in_place(byte_views(c@), b, start, capi, j),
        decreases m - i,
    {
        let ghost c0 = byte_views(c@);
        let ghost p = place(b, start, capi, i as int);
        proof {
            lemma_place(b, start, capi, m as int, i as int);
            assert(b[i as int] == plan.buffers@[i as int]@);
            assert(packing.locs@[i as int].0 == p.0);
        }
        let at: usize = packing.locs[i].0;
        let off: usize = packing.locs[i].1;
        let target: &mut Vec<u8> = &mut c[at];
        copy_into(target, off, &plan.buffers[i]);
        proof {
            let c1 = byte_views(c@);
            assert(c1 =~= c0.update(at as int, c1[at as int]));
            assert(same_outside(c0[at as int], c1[at as int], off as int, b[i as int].len() as int));
            if at == 0 {
                lemma_tables_kept(
                    c0[0],
                    c1[0],
                    n as int,
                    m as int,
                    off as int,
                    b[i as int].len() as int,
                );
            }
            assert forall|j: int| 0 <= j < i + 1 implies #[trigger] in_place(c1, b, start, capi, j) by {
                lemma_place(b, start, capi, m as int, j);
                let q = place(b, start, capi, j);
                if j < i {
                    assert(in_place(c0, b, start, capi, j));
                    lemma_order(b, start, capi, j, i as int);
                    assert(c1[q.0].subrange(q.1, q.1 + b[j].len()) =~= c0[q.0].subrange(
                        q.1,
                        q.1 + b[j].len(),
                    ));
                }
            }
        }
        i = i + 1;
    }
    c
}

} // verus!
