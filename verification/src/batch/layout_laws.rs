//! Where the parts of a batch are, and which chunks hold one.
use arrow_schema::DataType;
use vstd::prelude::*;

use crate::artifact::pool::{lemma_at, ChunkPool};
use crate::batch::array::{plan_refusal, ArrayView};
use crate::batch::error::Error;
use crate::batch::layout::{
    entries_of, entries_refusal, entry_at, entry_refusal, header_at, layout_refusal, node_at,
    nodes_of, tables_end, BatchHeader, BufferEntry,
};
use crate::batch::outside::type_plain;
use crate::batch::plain::child_types;
use crate::batch::read::{
    batch_read, built, built_all, chunk_refusal, chunks_refusal, desc_lens, primary, tables_read,
    visible, ReadView, Rest,
};
use crate::batch::schema::RegistryView;
use crate::batch::type_laws::is_refused;
use crate::chunk::ChunkDesc;
use crate::message::laws::{counts_to, lemma_counts_4, lemma_counts_8};

verus! {

// ---- bytes ----

/// Where the parts of a batch's header are, each with its lowest byte first.
pub proof fn where_parts_of_a_batch_header_are(b: Seq<u8>)
    requires
        b.len() >= 32,
    ensures
        ({
            let h = header_at(b, 0);
            &&& counts_to(b.subrange(0, 8), h.magic as int)
            &&& counts_to(b.subrange(8, 12), h.format as int)
            &&& counts_to(b.subrange(12, 16), h.schema_id as int)
            &&& counts_to(b.subrange(16, 20), h.row_count as int)
            &&& counts_to(b.subrange(20, 24), h.node_count as int)
            &&& counts_to(b.subrange(24, 28), h.buffer_count as int)
            &&& counts_to(b.subrange(28, 32), h.chunk_count as int)
        }),
{
    lemma_counts_8(b, 0);
    lemma_counts_4(b, 8);
    lemma_counts_4(b, 12);
    lemma_counts_4(b, 16);
    lemma_counts_4(b, 20);
    lemma_counts_4(b, 24);
    lemma_counts_4(b, 28);
}

/// Where the parts of a node are, and those of a buffer's entry.
pub proof fn where_parts_of_a_node_are(b: Seq<u8>, at: int)
    requires
        0 <= at,
        at + 24 <= b.len(),
    ensures
        counts_to(b.subrange(at, at + 4), node_at(b, at).len as int),
        counts_to(b.subrange(at + 4, at + 8), node_at(b, at).null_count as int),
        counts_to(b.subrange(at + 8, at + 12), node_at(b, at).has_validity as int),
        counts_to(b.subrange(at + 12, at + 16), node_at(b, at).data_buffers as int),
        counts_to(b.subrange(at + 16, at + 20), node_at(b, at).child_count as int),
        counts_to(b.subrange(at, at + 4), entry_at(b, at).chunk_index as int),
        counts_to(b.subrange(at + 4, at + 8), entry_at(b, at).offset as int),
        counts_to(b.subrange(at + 8, at + 12), entry_at(b, at).len as int),
{
    lemma_counts_4(b, at);
    lemma_counts_4(b, at + 4);
    lemma_counts_4(b, at + 8);
    lemma_counts_4(b, at + 12);
    lemma_counts_4(b, at + 16);
}

/// Where the tables are: the nodes behind the header, the entries behind the nodes.
pub proof fn where_tables_are(b: Seq<u8>, n: nat, m: nat, i: int)
    ensures
        0 <= i < n ==> nodes_of(b, n as int)[i] == node_at(b, 32 + 24 * i),
        0 <= i < m ==> entries_of(b, n as int, m as int)[i] == entry_at(b, 32 + 24 * n + 12 * i),
        nodes_of(b, n as int).len() == n && entries_of(b, n as int, m as int).len() == m,
        tables_end(n as int, m as int) == 32 + 24 * n + 12 * m,
{
}

// ---- layouts ----

/// Whether an entry is of one of the chunks and ends in it.
pub open spec fn ends_inside(e: BufferEntry, lens: Seq<usize>) -> bool {
    exists|c: int| 0 <= c < lens.len() && c == e.chunk_index && e.offset + e.len <= #[trigger] lens[c]
}

proof fn lemma_entries(s: Seq<BufferEntry>, lens: Seq<usize>)
    ensures
        entries_refusal(s, lens) is None <==> forall|i: int|
            0 <= i < s.len() ==> ends_inside(#[trigger] s[i], lens),
        entries_refusal(s, lens) matches Some(e) ==> exists|i: int|
            0 <= i < s.len() && !ends_inside(#[trigger] s[i], lens) && entry_refusal(s[i], lens) == Some(e)
                && forall|k: int| 0 <= k < i ==> ends_inside(#[trigger] s[k], lens),
    decreases s.len(),
{
    if s.len() > 0 {
        let r = s.skip(1);
        lemma_entries(r, lens);
        let x = s[0];
        assert(entry_refusal(x, lens) is None <==> ends_inside(x, lens)) by {
            if entry_refusal(x, lens) is None {
                let c = x.chunk_index as int;
                assert(x.offset + x.len <= lens[c]);
            }
        }
        if entry_refusal(x, lens) is None {
            if entries_refusal(r, lens) is None {
                assert forall|i: int| 0 <= i < s.len() implies ends_inside(#[trigger] s[i], lens) by {
                    if i > 0 {
                        assert(r[i - 1] == s[i]);
                    }
                }
            }
            if let Some(e) = entries_refusal(r, lens) {
                let i = choose|i: int|
                    0 <= i < r.len() && !ends_inside(#[trigger] r[i], lens) && entry_refusal(r[i], lens)
                        == Some(e) && forall|k: int| 0 <= k < i ==> ends_inside(#[trigger] r[k], lens);
                assert(s[i + 1] == r[i]);
                assert forall|k: int| 0 <= k < i + 1 implies ends_inside(#[trigger] s[k], lens) by {
                    if k > 0 {
                        assert(r[k - 1] == s[k]);
                    }
                }
            }
        } else {
            assert(!ends_inside(s[0], lens));
        }
    }
}

/// Which layouts are read: those with a whole header under the mark and of the format
/// two, that count the chunks there are, whose tables are whole, and whose entries each
/// end in a chunk there is. What has another mark or format is told apart.
pub proof fn which_layouts_are_read(b: Seq<u8>, lens: Seq<usize>)
    requires
        b.len() <= usize::MAX,
    ensures
        ({
            let h = header_at(b, 0);
            let n = h.node_count;
            let marked = h.magic == 0x3254_4252_414d_4853 && h.format == 2;
            let e = entries_of(b, n as int, h.buffer_count as int);
            let r = layout_refusal(b, lens);
            &&& r is None <==> {
                &&& b.len() >= 32 && marked
                &&& h.chunk_count == lens.len()
                &&& 32 + 24 * n + 12 * h.buffer_count <= b.len()
                &&& forall|i: int| 0 <= i < e.len() ==> ends_inside(#[trigger] e[i], lens)
            }
            &&& r == Some(Error::BadMagic) <==> b.len() >= 32 && !marked
            &&& r is Some && r->Some_0 !is BadMagic ==> r->Some_0 is Layout
        }),
{
    let h = header_at(b, 0);
    let e = entries_of(b, h.node_count as int, h.buffer_count as int);
    lemma_entries(e, lens);
    if let Some(x) = entries_refusal(e, lens) {
        let i = choose|i: int|
            0 <= i < e.len() && !ends_inside(#[trigger] e[i], lens) && entry_refusal(e[i], lens) == Some(x);
        assert(x is Layout);
    }
}

/// What is told of entries: of the first that does not end in its chunk.
pub proof fn the_first_bad_entry_is_told(s: Seq<BufferEntry>, lens: Seq<usize>, i: int)
    requires
        0 <= i < s.len(),
        !ends_inside(s[i], lens),
        forall|k: int| 0 <= k < i ==> ends_inside(#[trigger] s[k], lens),
    ensures
        s[i].chunk_index >= lens.len() ==> entries_refusal(s, lens) == Some(
            Error::Layout("buffer chunk_index out of range"),
        ),
        s[i].chunk_index < lens.len() && s[i].offset + s[i].len <= usize::MAX ==> entries_refusal(s, lens)
            == Some(Error::Layout("buffer extends past its chunk")),
{
    lemma_entries(s, lens);
    let e = entries_refusal(s, lens)->Some_0;
    let j = choose|j: int|
        0 <= j < s.len() && !ends_inside(#[trigger] s[j], lens) && entry_refusal(s[j], lens) == Some(e)
            && forall|k: int| 0 <= k < j ==> ends_inside(#[trigger] s[k], lens);
    assert(i == j) by {
        if i < j {
            assert(ends_inside(s[i], lens));
        } else if j < i {
            assert(ends_inside(s[j], lens));
        }
    }
    if s[i].chunk_index < lens.len() {
        let c = s[i].chunk_index as int;
        assert(!(s[i].offset + s[i].len <= lens[c]));
    }
}

// ---- chunks ----

/// Whether a descriptor is good: the pool has the chunk, in that generation, and it is
/// at least as long.
pub open spec fn is_good(pool: &ChunkPool, d: ChunkDesc) -> bool {
    exists|j: int|
        0 <= j < pool@.len() && d.segment_id == pool.segment_id && d.offset == pool.lay@[j] && d.generation
            == (#[trigger] pool@[j]).generation && d.len <= pool@[j].len
}

proof fn lemma_good(pool: &ChunkPool, d: ChunkDesc)
    requires
        pool.wf(),
    ensures
        is_good(pool, d) <==> pool.names(d.segment_id, d.offset) && chunk_refusal(pool, d) is None,
{
    if is_good(pool, d) {
        let j = choose|j: int|
            0 <= j < pool@.len() && d.segment_id == pool.segment_id && d.offset == pool.lay@[j] && d.generation
                == (#[trigger] pool@[j]).generation && d.len <= pool@[j].len;
        lemma_at(pool.lay@, j);
    }
    if pool.names(d.segment_id, d.offset) {
        crate::artifact::pool::lemma_has(pool.lay@, d.offset);
        let j = pool.at(d.offset);
        assert(pool@[j].generation == pool@[j].generation);
    }
}

proof fn lemma_refused(pool: &ChunkPool, s: Seq<ChunkDesc>)
    ensures
        chunks_refusal(pool, s) is None <==> forall|i: int|
            0 <= i < s.len() ==> chunk_refusal(pool, #[trigger] s[i]) is None,
        chunks_refusal(pool, s) matches Some(e) ==> exists|i: int|
            0 <= i < s.len() && chunk_refusal(pool, #[trigger] s[i]) == Some(e) && forall|k: int|
                0 <= k < i ==> chunk_refusal(pool, #[trigger] s[k]) is None,
    decreases s.len(),
{
    if s.len() > 0 {
        let r = s.skip(1);
        lemma_refused(pool, r);
        if chunk_refusal(pool, s[0]) is None {
            if chunks_refusal(pool, r) is None {
                assert forall|i: int| 0 <= i < s.len() implies chunk_refusal(pool, #[trigger] s[i]) is None by {
                    if i > 0 {
                        assert(r[i - 1] == s[i]);
                    }
                }
            }
            if let Some(e) = chunks_refusal(pool, r) {
                let i = choose|i: int|
                    0 <= i < r.len() && chunk_refusal(pool, #[trigger] r[i]) == Some(e) && forall|k: int|
                        0 <= k < i ==> chunk_refusal(pool, #[trigger] r[k]) is None;
                assert(s[i + 1] == r[i]);
                assert forall|k: int| 0 <= k < i + 1 implies chunk_refusal(pool, #[trigger] s[k]) is None by {
                    if k > 0 {
                        assert(r[k - 1] == s[k]);
                    }
                }
            }
        } else {
            assert(chunk_refusal(pool, s[0]) is Some);
        }
    }
}

/// Which chunks hold a batch: some, all good, the first with a layout that is read, of
/// the schema that its descriptor says, which is known and is not the raw one. What is
/// read is then the header and the tables behind it.
pub proof fn which_chunks_hold_a_batch(pool: &ChunkPool, reg: RegistryView, s: Seq<ChunkDesc>)
    requires
        pool.wf(),
    ensures
        ({
            let b = primary(pool, s);
            let h = header_at(b, 0);
            let r = tables_read(pool, reg, s);
            &&& r is Ok <==> {
                &&& s.len() > 0
                &&& forall|i: int| 0 <= i < s.len() ==> is_good(pool, #[trigger] s[i])
                &&& layout_refusal(b, desc_lens(s)) is None
                &&& h.schema_id == s[0].schema_id
                &&& h.schema_id > 0
                &&& reg.by_id.contains_key(h.schema_id)
            }
            &&& r is Ok ==> r->Ok_0.0 == h && r->Ok_0.1.nodes == nodes_of(b, h.node_count as int)
                && r->Ok_0.1.entries == entries_of(b, h.node_count as int, h.buffer_count as int)
        }),
{
    let b = primary(pool, s);
    let h = header_at(b, 0);
    lemma_refused(pool, s);
    assert forall|i: int| 0 <= i < s.len() implies (is_good(pool, #[trigger] s[i]) <==> pool.names(
        s[i].segment_id,
        s[i].offset,
    ) && chunk_refusal(pool, s[i]) is None) by {
        lemma_good(pool, s[i]);
    }
    if exists|i: int| 0 <= i < s.len() && !pool.names((#[trigger] s[i]).segment_id, s[i].offset) {
        let i = choose|i: int| 0 <= i < s.len() && !pool.names((#[trigger] s[i]).segment_id, s[i].offset);
        assert(!is_good(pool, s[i]));
    }
    if chunks_refusal(pool, s) is Some {
        let e = chunks_refusal(pool, s)->Some_0;
        let i = choose|i: int| 0 <= i < s.len() && chunk_refusal(pool, #[trigger] s[i]) == Some(e);
        assert(!is_good(pool, s[i]));
    }
}

/// Why a chunk is not read: it is in another generation, or else too short.
pub proof fn why_a_chunk_is_not_read(pool: &ChunkPool, reg: RegistryView, s: Seq<ChunkDesc>, k: int, j: int)
    requires
        pool.wf(),
        0 <= j < s.len(),
        0 <= k < pool@.len(),
        s[j].segment_id == pool.segment_id,
        s[j].offset == pool.lay@[k],
        forall|i: int| 0 <= i < s.len() ==> pool.names((#[trigger] s[i]).segment_id, s[i].offset),
        forall|i: int| 0 <= i < j ==> is_good(pool, #[trigger] s[i]),
    ensures
        s[j].generation != pool@[k].generation ==> batch_read(pool, reg, s) == Err::<
            (BatchHeader, Seq<ReadView>),
            Error,
        >(Error::StaleDescriptor),
        s[j].generation == pool@[k].generation && s[j].len > pool@[k].len ==> batch_read(pool, reg, s) == Err::<
            (BatchHeader, Seq<ReadView>),
            Error,
        >(Error::Core(crate::artifact::error::Error::OutOfBounds)),
{
    lemma_at(pool.lay@, k);
    lemma_refused(pool, s);
    assert forall|i: int| 0 <= i < j implies chunk_refusal(pool, #[trigger] s[i]) is None by {
        lemma_good(pool, s[i]);
    }
    if let Some(e) = chunks_refusal(pool, s) {
        let i = choose|i: int|
            0 <= i < s.len() && chunk_refusal(pool, #[trigger] s[i]) == Some(e) && forall|a: int|
                0 <= a < i ==> chunk_refusal(pool, #[trigger] s[a]) is None;
        if chunk_refusal(pool, s[j]) is Some {
            assert(i == j) by {
                if i < j {
                    assert(chunk_refusal(pool, s[i]) is None);
                } else if j < i {
                    assert(chunk_refusal(pool, s[j]) is None);
                }
            }
        }
    }
    if chunk_refusal(pool, s[j]) is Some {
        assert(chunks_refusal(pool, s) is Some);
    }
}

/// Which buffers can be looked at where they lie: those of a chunk of the batch whose
/// descriptor is good, as far as it reaches.
pub proof fn which_buffers_can_be_looked_at(pool: &ChunkPool, s: Seq<ChunkDesc>, e: BufferEntry)
    requires
        pool.wf(),
    ensures
        visible(pool, s, e) <==> e.chunk_index < s.len() && is_good(pool, s[e.chunk_index as int]) && e.offset
            + e.len <= s[e.chunk_index as int].len,
{
    if e.chunk_index < s.len() {
        lemma_good(pool, s[e.chunk_index as int]);
    }
}

// ---- arrays ----

/// How many nodes an array takes.
pub open spec fn nodes_in(r: ReadView) -> nat
    decreases r,
{
    1 + nodes_in_all(r.children)
}

/// How many nodes arrays take.
pub open spec fn nodes_in_all(s: Seq<ReadView>) -> nat
    decreases s, s.len(),
{
    if s.len() == 0 {
        0
    } else {
        nodes_in(s[0]) + nodes_in_all(s.skip(1))
    }
}

/// How many buffers an array takes.
pub open spec fn buffers_in(r: ReadView) -> nat
    decreases r,
{
    (if r.validity is Some {
        1nat
    } else {
        0
    }) + r.buffers.len() + buffers_in_all(r.children)
}

/// How many buffers arrays take.
pub open spec fn buffers_in_all(s: Seq<ReadView>) -> nat
    decreases s, s.len(),
{
    if s.len() == 0 {
        0
    } else {
        buffers_in(s[0]) + buffers_in_all(s.skip(1))
    }
}

proof fn lemma_built(t: DataType, u: Rest)
    ensures
        built(t, u) matches Ok((r, v)) ==> {
            &&& u.nodes.len() == nodes_in(r) + v.nodes.len()
            &&& u.entries.len() == buffers_in(r) + v.entries.len()
            &&& v.nodes == u.nodes.skip(nodes_in(r) as int)
            &&& v.entries == u.entries.skip(buffers_in(r) as int)
            &&& r.children.len() == child_types(t).len()
        },
    decreases u.nodes.len(), 0nat,
{
    if let Ok((r, v)) = built(t, u) {
        let n = u.nodes[0];
        let own = crate::batch::read::own_count(n);
        let below = Rest { nodes: u.nodes.skip(1), entries: u.entries.skip(own) };
        lemma_built_all(child_types(t), below);
        assert(v.nodes =~= u.nodes.skip(nodes_in(r) as int));
        assert(v.entries =~= u.entries.skip(buffers_in(r) as int));
    }
}

proof fn lemma_built_all(t: Seq<DataType>, u: Rest)
    ensures
        built_all(t, u) matches Ok((rs, v)) ==> {
            &&& u.nodes.len() == nodes_in_all(rs) + v.nodes.len()
            &&& u.entries.len() == buffers_in_all(rs) + v.entries.len()
            &&& v.nodes == u.nodes.skip(nodes_in_all(rs) as int)
            &&& v.entries == u.entries.skip(buffers_in_all(rs) as int)
            &&& rs.len() == t.len()
        },
    decreases u.nodes.len(), 1 + t.len(),
{
    if t.len() == 0 {
        assert(u.nodes.skip(0) =~= u.nodes);
        assert(u.entries.skip(0) =~= u.entries);
    } else {
        lemma_built(t[0], u);
        if let Ok((r, u1)) = built(t[0], u) {
            if u1.nodes.len() <= u.nodes.len() {
                crate::batch::read::lemma_built_uses(t[0], u);
                lemma_built_all(t.skip(1), u1);
                if let Ok((rs, v)) = built_all(t.skip(1), u1) {
                    let all = seq![r] + rs;
                    assert(all.skip(1) =~= rs);
                    assert(v.nodes =~= u.nodes.skip(nodes_in_all(all) as int));
                    assert(v.entries =~= u.entries.skip(buffers_in_all(all) as int));
                }
            }
        }
    }
}

/// What is read uses the tables up: there is an array for each field of the schema, and
/// their nodes and buffers, at all depths, are as many as the tables have.
pub proof fn what_is_read_uses_up_the_tables(pool: &ChunkPool, reg: RegistryView, s: Seq<ChunkDesc>)
    requires
        batch_read(pool, reg, s) is Ok,
    ensures
        ({
            let (h, rs) = batch_read(pool, reg, s)->Ok_0;
            &&& h == header_at(primary(pool, s), 0)
            &&& rs.len() == reg.types_of_id(h.schema_id).len()
            &&& nodes_in_all(rs) == h.node_count
            &&& buffers_in_all(rs) == h.buffer_count
        }),
{
    let (h, t) = tables_read(pool, reg, s)->Ok_0;
    lemma_built_all(reg.types_of_id(h.schema_id), t);
}

/// An array is as its node says: as long, with as many nulls, with a bitmap if it says so,
/// which is its first buffer, and with as many others as it says.
pub proof fn an_array_is_as_its_node_says(t: DataType, u: Rest, i: int)
    requires
        built(t, u) is Ok,
    ensures
        ({
            let r = built(t, u)->Ok_0.0;
            let n = u.nodes[0];
            let first = if n.has_validity != 0 {
                1int
            } else {
                0
            };
            &&& r.len == n.len && r.null_count == n.null_count
            &&& r.validity == if n.has_validity != 0 {
                Some(u.entries[0])
            } else {
                None
            }
            &&& r.buffers.len() == n.data_buffers && r.children.len() == n.child_count
            &&& 0 <= i < r.buffers.len() ==> r.buffers[i] == u.entries[first + i]
        }),
{
    lemma_built(t, u);
}

// ---- plans ----

/// An array is not planned if its type is refused, a count does not fit its word, or an
/// array inside is not planned.
pub proof fn what_is_not_planned(a: ArrayView, i: int)
    ensures
        is_refused(type_plain(a.of)) ==> plan_refusal(a) is Some,
        a.len > 0xffff_ffff || a.null_count > 0xffff_ffff || a.buffers.len() > 0xffff_ffff || a.children.len()
            > 0xffff_ffff ==> plan_refusal(a) is Some,
        0 <= i < a.children.len() && plan_refusal(a.children[i]) is Some ==> plan_refusal(a) is Some,
{
    if 0 <= i < a.children.len() && plan_refusal(a.children[i]) is Some {
        lemma_plans(a.children, i);
    }
}

proof fn lemma_plans(s: Seq<ArrayView>, i: int)
    requires
        0 <= i < s.len(),
        plan_refusal(s[i]) is Some,
    ensures
        crate::batch::array::plans_refusal(s) is Some,
    decreases s.len(),
{
    if i > 0 {
        lemma_plans(s.skip(1), i - 1);
    }
}

} // verus!
