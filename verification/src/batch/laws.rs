//! What is read is what was written.
use arrow_schema::DataType;
use vstd::prelude::*;

use crate::artifact::pool::{chunk_ok, lemma_at, lemma_has, ChunkPool, ChunkView};
use crate::batch::array::{
    flat_buffers, flat_buffers_all, flat_nodes, flat_nodes_all, node_of, own_buffers, plan_refusal,
    plans_refusal, readable_tree, readable_trees, ArrayView,
};
use crate::batch::column::{all_fit, fits};
use crate::batch::error::Error;
use crate::batch::layout::{
    aligned, entries_of, entries_refusal, entry_refusal, header_at, layout_refusal, nodes_of,
    payload_at, tables_end, BufferEntry, NodeEntry,
};
use crate::batch::outside::array_trees;
use crate::batch::pack::{
    each_fits, entries, header_of, holds_batch, in_place, lemma_place, lemma_used, place, used,
};
use crate::batch::plain::child_types;
use crate::batch::read::{
    batch_read, built, built_all, chunk_refusal, chunks_refusal, desc_lens, lemma_built_uses,
    own_count, primary, tables_read, visible, ReadView, Rest,
};
use crate::batch::rows::{
    certain_rows, group_bytes, is_rows_read, lemma_has_chunks, lemma_tables_sound,
    rows_hold_what_was_written, rows_read, Rows,
};
use crate::batch::schema::{RegistryView, RAW_SCHEMA_ID};
use crate::batch::write::{
    allot, allotted, batch_refusal, batch_sizes, batch_written, chunk_bytes, desc_of, longest_of,
    Batch,
};
use crate::chunk::ChunkDesc;

verus! {

/// Whether an array has the type `t`, as far as its children go.
pub open spec fn conforms(t: DataType, a: ArrayView) -> bool
    decreases a,
{
    conform(child_types(t), a.children)
}

/// Whether arrays have the types `t`.
pub open spec fn conform(t: Seq<DataType>, a: Seq<ArrayView>) -> bool
    decreases a, a.len(),
{
    &&& a.len() == t.len()
    &&& a.len() > 0 ==> conforms(t[0], a[0]) && conform(t.skip(1), a.skip(1))
}

/// Arrays of kinds that are read conform to their types if they fit them.
pub proof fn lemma_fit_conform(t: Seq<DataType>, a: Seq<ArrayView>)
    requires
        all_fit(t, a),
        readable_trees(a),
    ensures
        conform(t, a),
    decreases a, a.len(),
{
    if a.len() > 0 {
        assert(readable_tree(a[0]) && fits(a[0]) && a[0].of == t[0]);
        lemma_fit_conform(child_types(a[0].of), a[0].children);
        lemma_fit_conform(t.skip(1), a.skip(1));
        assert(conforms(t[0], a[0]));
    }
}

/// The bytes a buffer entry names among the chunks `c`.
pub open spec fn bytes_at(c: Seq<Seq<u8>>, e: BufferEntry) -> Seq<u8> {
    c[e.chunk_index as int].subrange(e.offset as int, e.offset + e.len)
}

/// Whether what was read from the chunks `c` is the array `a`.
pub open spec fn mirrors(r: ReadView, a: ArrayView, c: Seq<Seq<u8>>) -> bool
    decreases a,
{
    &&& r.len == a.len
    &&& r.null_count == a.null_count
    &&& match a.nulls {
        Some(n) => r.validity is Some && bytes_at(c, r.validity->Some_0) == n.1,
        None => r.validity is None,
    }
    &&& r.buffers.len() == a.buffers.len()
    &&& forall|i: int| 0 <= i < a.buffers.len() ==> bytes_at(c, r.buffers[i]) == #[trigger] a.buffers[i]
    &&& mirror(r.children, a.children, c)
}

/// Whether what was read from the chunks `c` are the arrays `a`.
pub open spec fn mirror(r: Seq<ReadView>, a: Seq<ArrayView>, c: Seq<Seq<u8>>) -> bool
    decreases a, a.len(),
{
    &&& r.len() == a.len()
    &&& a.len() > 0 ==> mirrors(r[0], a[0], c) && mirror(r.skip(1), a.skip(1), c)
}

/// Whether the entries name the buffers.
spec fn names_buffers(e: Seq<BufferEntry>, b: Seq<Seq<u8>>, c: Seq<Seq<u8>>) -> bool {
    &&& e.len() >= b.len()
    &&& forall|i: int| 0 <= i < b.len() ==> bytes_at(c, e[i]) == #[trigger] b[i]
}

proof fn lemma_names_skip(e: Seq<BufferEntry>, a: Seq<Seq<u8>>, b: Seq<Seq<u8>>, c: Seq<Seq<u8>>)
    requires
        names_buffers(e, a + b, c),
    ensures
        names_buffers(e, a, c),
        names_buffers(e.skip(a.len() as int), b, c),
{
    assert forall|i: int| 0 <= i < a.len() implies bytes_at(c, e[i]) == #[trigger] a[i] by {
        assert((a + b)[i] == a[i]);
    }
    assert forall|i: int| 0 <= i < b.len() implies bytes_at(c, e.skip(a.len() as int)[i])
        == #[trigger] b[i] by {
        assert((a + b)[a.len() + i] == b[i]);
    }
}

/// Reading one array off the front of the tables of a batch.
proof fn lemma_built(
    t: DataType,
    a: ArrayView,
    u: Rest,
    nodes: Seq<NodeEntry>,
    c: Seq<Seq<u8>>,
)
    requires
        conforms(t, a),
        plan_refusal(a) is None,
        u.nodes == flat_nodes(a) + nodes,
        names_buffers(u.entries, flat_buffers(a), c),
    ensures
        built(t, u) is Ok,
        built(t, u)->Ok_0.1 == (Rest {
            nodes,
            entries: u.entries.skip(flat_buffers(a).len() as int),
        }),
        mirrors(built(t, u)->Ok_0.0, a, c),
    decreases a,
{
    let n = node_of(a);
    let own = own_buffers(a);
    assert(u.nodes[0] == n);
    assert(u.nodes.skip(1) =~= flat_nodes_all(a.children) + nodes);
    lemma_names_skip(u.entries, own, flat_buffers_all(a.children), c);
    assert(own.len() == own_count(n));
    let below = Rest { nodes: u.nodes.skip(1), entries: u.entries.skip(own_count(n)) };
    assert(child_types(t).len() == a.children.len());
    lemma_built_all(child_types(t), a.children, below, nodes, c);
    assert(below.entries.skip(flat_buffers_all(a.children).len() as int) =~= u.entries.skip(
        flat_buffers(a).len() as int,
    ));
    let r = built(t, u)->Ok_0.0;
    assert forall|i: int| 0 <= i < a.buffers.len() implies bytes_at(c, r.buffers[i])
        == #[trigger] a.buffers[i] by {
        if a.nulls is Some {
            assert(own[i + 1] == a.buffers[i]);
        } else {
            assert(own[i] == a.buffers[i]);
        }
    }
    if a.nulls is Some {
        assert(own[0] == a.nulls->Some_0.1);
    }
}

proof fn lemma_built_all(
    t: Seq<DataType>,
    a: Seq<ArrayView>,
    u: Rest,
    nodes: Seq<NodeEntry>,
    c: Seq<Seq<u8>>,
)
    requires
        conform(t, a),
        plans_refusal(a) is None,
        u.nodes == flat_nodes_all(a) + nodes,
        names_buffers(u.entries, flat_buffers_all(a), c),
    ensures
        built_all(t, u) is Ok,
        built_all(t, u)->Ok_0.1 == (Rest {
            nodes,
            entries: u.entries.skip(flat_buffers_all(a).len() as int),
        }),
        mirror(built_all(t, u)->Ok_0.0, a, c),
    decreases a, a.len(),
{
    if t.len() == 0 {
        assert(u.nodes =~= nodes);
        assert(u.entries.skip(0) =~= u.entries);
    } else {
        let b = a.skip(1);
        assert(u.nodes =~= flat_nodes(a[0]) + (flat_nodes_all(b) + nodes));
        lemma_names_skip(u.entries, flat_buffers(a[0]), flat_buffers_all(b), c);
        lemma_built(t[0], a[0], u, flat_nodes_all(b) + nodes, c);
        let u1 = built(t[0], u)->Ok_0.1;
        lemma_built_all(t.skip(1), b, u1, nodes, c);
        assert(u1.entries.skip(flat_buffers_all(b).len() as int) =~= u.entries.skip(
            flat_buffers_all(a).len() as int,
        ));
        let r = built(t[0], u)->Ok_0.0;
        let rs = built_all(t.skip(1), u1)->Ok_0.0;
        assert((seq![r] + rs).skip(1) =~= rs);
    }
}

proof fn lemma_entries_fit(s: Seq<BufferEntry>, lens: Seq<usize>)
    requires
        forall|i: int| 0 <= i < s.len() ==> entry_refusal(#[trigger] s[i], lens) is None,
    ensures
        entries_refusal(s, lens) is None,
    decreases s.len(),
{
    if s.len() > 0 {
        assert forall|i: int| 0 <= i < s.skip(1).len() implies entry_refusal(
            #[trigger] s.skip(1)[i],
            lens,
        ) is None by {
            assert(s.skip(1)[i] == s[i + 1]);
        }
        lemma_entries_fit(s.skip(1), lens);
    }
}

pub proof fn lemma_chunks_fit(pool: &ChunkPool, s: Seq<ChunkDesc>)
    requires
        forall|i: int| 0 <= i < s.len() ==> chunk_refusal(pool, #[trigger] s[i]) is None,
    ensures
        chunks_refusal(pool, s) is None,
    decreases s.len(),
{
    if s.len() > 0 {
        assert forall|i: int| 0 <= i < s.skip(1).len() implies chunk_refusal(
            pool,
            #[trigger] s.skip(1)[i],
        ) is None by {
            assert(s.skip(1)[i] == s[i + 1]);
        }
        lemma_chunks_fit(pool, s.skip(1));
    }
}

pub proof fn lemma_longest(p: Seq<ChunkView>)
    ensures
        0 <= longest_of(p) <= u32::MAX,
    decreases p.len(),
{
    if p.len() > 0 {
        lemma_longest(p.drop_last());
    }
}

/// The tables of a batch that was written are accepted.
proof fn lemma_layout_accepted(
    c: Seq<Seq<u8>>,
    lens: Seq<usize>,
    schema_id: u32,
    rows: int,
    nodes: Seq<NodeEntry>,
    b: Seq<Seq<u8>>,
    cap: int,
)
    requires
        0 <= cap <= u32::MAX,
        payload_at(nodes.len() as int, b.len() as int) <= cap,
        each_fits(b, cap),
        holds_batch(c, header_of(schema_id, rows, nodes, b, cap), nodes, b, cap),
        lens.len() == c.len(),
        c.len() == used(
            b,
            payload_at(nodes.len() as int, b.len() as int),
            cap,
            b.len() as int,
        ).len(),
        forall|k: int| 0 <= k < c.len() ==> (#[trigger] c[k]).len() == lens[k] && lens[k] <= u32::MAX,
    ensures
        layout_refusal(c[0], lens) is None,
        names_buffers(entries(b, payload_at(nodes.len() as int, b.len() as int), cap), b, c),
{
    let n = nodes.len() as int;
    let m = b.len() as int;
    let start = payload_at(n, m);
    let h = header_at(c[0], 0);
    let e = tables_end(n, m);
    assert(e <= aligned(e));
    lemma_used(b, start, cap, m);
    assert(h.node_count == n && h.buffer_count == m && h.chunk_count == c.len());
    let es = entries(b, start, cap);
    assert(c[0].len() == lens[0]);
    assert forall|i: int| 0 <= i < es.len() implies entry_refusal(#[trigger] es[i], lens) is None by {
        assert(in_place(c, b, start, cap, i));
        let p = place(b, start, cap, i);
        assert(c[p.0].len() == lens[p.0]);
        lemma_place(b, start, cap, m, i);
    }
    lemma_entries_fit(es, lens);
    assert forall|i: int| 0 <= i < m implies bytes_at(c, es[i]) == #[trigger] b[i] by {
        assert(in_place(c, b, start, cap, i));
        let p = place(b, start, cap, i);
        assert(c[p.0].len() == lens[p.0]);
        lemma_place(b, start, cap, m, i);
    }
}

/// The descriptors of a batch that was written are accepted, and lead to its
/// chunks.
proof fn lemma_chunks_accepted(
    p0: &ChunkPool,
    p1: &ChunkPool,
    descs: Seq<ChunkDesc>,
    ks: Seq<int>,
    q: Seq<ChunkView>,
    sizes: Seq<int>,
    schema_id: u32,
)
    requires
        p0.wf(),
        p1.wf(),
        p1.same_place(p0),
        p1@.len() == p0@.len(),
        allotted(p0@, sizes, ks, q),
        ks.len() > 0,
        descs == Seq::new(ks.len(), |c: int| desc_of(p0, ks[c], schema_id)),
        forall|j: int|
            0 <= j < p0@.len() ==> #[trigger] p1@[j] == (ChunkView { bytes: p1@[j].bytes, ..q[j] }),
    ensures
        forall|i: int|
            0 <= i < descs.len() ==> p1.names((#[trigger] descs[i]).segment_id, descs[i].offset),
        chunks_refusal(p1, descs) is None,
        primary(p1, descs) == chunk_bytes(p1@, ks)[0],
        group_bytes(p1, descs) == chunk_bytes(p1@, ks),
        forall|k: int|
            0 <= k < ks.len() ==> (#[trigger] chunk_bytes(p1@, ks)[k]).len() == desc_lens(descs)[k]
                && desc_lens(descs)[k] <= u32::MAX,
{
    let c = chunk_bytes(p1@, ks);
    let lens = desc_lens(descs);
    assert forall|i: int| 0 <= i < descs.len() implies p1.names(
        (#[trigger] descs[i]).segment_id,
        descs[i].offset,
    ) && chunk_refusal(p1, descs[i]) is None && p1.at(descs[i].offset) == ks[i] && c[i].len()
        == lens[i] by {
        let k = ks[i];
        assert(descs[i] == desc_of(p0, k, schema_id));
        assert(0 <= k < p0@.len());
        lemma_at(p0.lay@, k);
        assert(p1.lay@[k] == descs[i].offset);
        assert(p1@[k] == (ChunkView { bytes: p1@[k].bytes, ..q[k] }));
        assert(p1@[k].generation == p0@[k].generation && p1@[k].len == p0@[k].len);
        assert(chunk_ok(p1@[k]));
    }
    lemma_chunks_fit(p1, descs);
    assert(group_bytes(p1, descs) =~= c) by {
        assert forall|i: int| 0 <= i < descs.len() implies group_bytes(p1, descs)[i] == c[i] by {
            assert(p1.names(descs[i].segment_id, descs[i].offset));
            assert(p1.at(descs[i].offset) == ks[i]);
        }
    }
    assert(p1.names(descs[0].segment_id, descs[0].offset));
    assert(p1.at(descs[0].offset) == ks[0]);
    assert(primary(p1, descs) =~= c[0]) by {
        assert(c[0].len() == lens[0]);
    }
    assert forall|k: int| 0 <= k < ks.len() implies (#[trigger] c[k]).len() == lens[k] && lens[k]
        <= u32::MAX by {
        assert(p1.names(descs[k].segment_id, descs[k].offset));
    }
}

/// Chunks that hold a batch and are accepted read back as that batch.
pub proof fn lemma_read_back(
    p1: &ChunkPool,
    descs: Seq<ChunkDesc>,
    c: Seq<Seq<u8>>,
    cols: Seq<ArrayView>,
    rows: int,
    schema_id: u32,
    reg: RegistryView,
    cap: int,
)
    requires
        0 <= cap <= u32::MAX,
        0 <= rows <= u32::MAX,
        batch_refusal(cols, rows, cap) is None,
        schema_id != RAW_SCHEMA_ID,
        reg.by_id.contains_key(schema_id),
        conform(reg.types_of_id(schema_id), cols),
        c.len() == descs.len(),
        c.len() == batch_sizes(cols, cap).len(),
        descs.len() > 0,
        descs[0].schema_id == schema_id,
        holds_batch(
            c,
            header_of(schema_id, rows, flat_nodes_all(cols), flat_buffers_all(cols), cap),
            flat_nodes_all(cols),
            flat_buffers_all(cols),
            cap,
        ),
        forall|i: int|
            0 <= i < descs.len() ==> p1.names((#[trigger] descs[i]).segment_id, descs[i].offset),
        chunks_refusal(p1, descs) is None,
        primary(p1, descs) == c[0],
        forall|k: int|
            0 <= k < c.len() ==> (#[trigger] c[k]).len() == desc_lens(descs)[k] && desc_lens(descs)[k]
                <= u32::MAX,
    ensures
        batch_read(p1, reg, descs) is Ok,
        ({
            let (h, rs) = batch_read(p1, reg, descs)->Ok_0;
            &&& h.schema_id == schema_id
            &&& h.row_count == rows
            &&& mirror(rs, cols, c)
        }),
{
    let b = flat_buffers_all(cols);
    let nodes = flat_nodes_all(cols);
    let n = nodes.len() as int;
    let m = b.len() as int;
    let lens = desc_lens(descs);
    let e = tables_end(n, m);
    assert(e <= aligned(e));
    lemma_layout_accepted(c, lens, schema_id, rows, nodes, b, cap);
    let t = Rest { nodes: nodes_of(c[0], n), entries: entries_of(c[0], n, m) };
    assert(t.nodes =~= nodes + Seq::<NodeEntry>::empty());
    lemma_built_all(
        reg.types_of_id(schema_id),
        cols,
        t,
        Seq::<NodeEntry>::empty(),
        c,
    );
    let h = header_at(c[0], 0);
    assert(h.node_count == n && h.buffer_count == m && h.schema_id == schema_id && h.row_count == rows);
    assert(!exists|i: int|
        0 <= i < descs.len() && !p1.names((#[trigger] descs[i]).segment_id, descs[i].offset));
}

/// A batch reads back as what was written: same rows, same arrays, each buffer
/// byte for byte.
pub proof fn read_gives_back_what_was_written(
    p0: &ChunkPool,
    p1: &ChunkPool,
    descs: Seq<ChunkDesc>,
    cols: Seq<ArrayView>,
    rows: int,
    schema_id: u32,
    reg: RegistryView,
)
    requires
        p0.wf(),
        p1.wf(),
        batch_refusal(cols, rows, p0.longest()) is None,
        0 <= rows,
        batch_written(p0, p1, descs, cols, rows, schema_id),
        schema_id != RAW_SCHEMA_ID,
        reg.by_id.contains_key(schema_id),
        conform(reg.types_of_id(schema_id), cols),
    ensures
        batch_read(p1, reg, descs) is Ok,
        ({
            let (h, rs) = batch_read(p1, reg, descs)->Ok_0;
            &&& h.schema_id == schema_id
            &&& h.row_count == rows
            &&& mirror(rs, cols, group_bytes(p1, descs))
        }),
{
    let cap = p0.longest();
    lemma_longest(p0@);
    let (ks, q) = allot(p0@, batch_sizes(cols, cap))->Some_0;
    lemma_sizes(cols, rows, cap);
    lemma_chunks_accepted(p0, p1, descs, ks, q, batch_sizes(cols, cap), schema_id);
    lemma_read_back(p1, descs, chunk_bytes(p1@, ks), cols, rows, schema_id, reg, cap);
}

/// Whether the pools hold the same, as far as reading goes: chunks in the same
/// places, with the same lengths, generations and bytes.
pub open spec fn reads_alike(p: &ChunkPool, q: &ChunkPool) -> bool {
    &&& q.same_place(p)
    &&& q@.len() == p@.len()
    &&& forall|j: int|
        0 <= j < p@.len() ==> (#[trigger] q@[j]).bytes == p@[j].bytes && q@[j].len == p@[j].len
            && q@[j].generation == p@[j].generation
}

proof fn lemma_refusals_alike(p: &ChunkPool, q: &ChunkPool, s: Seq<ChunkDesc>)
    requires
        p.wf(),
        reads_alike(p, q),
        forall|i: int| 0 <= i < s.len() ==> p.names((#[trigger] s[i]).segment_id, s[i].offset),
    ensures
        chunks_refusal(p, s) == chunks_refusal(q, s),
    decreases s.len(),
{
    if s.len() > 0 {
        lemma_has(p.lay@, s[0].offset);
        assert(p.names(s[0].segment_id, s[0].offset));
        assert(q@[p.at(s[0].offset)].len == p@[p.at(s[0].offset)].len);
        assert(chunk_refusal(p, s[0]) == chunk_refusal(q, s[0]));
        assert forall|i: int| 0 <= i < s.skip(1).len() implies p.names(
            (#[trigger] s.skip(1)[i]).segment_id,
            s.skip(1)[i].offset,
        ) by {
            assert(s.skip(1)[i] == s[i + 1]);
        }
        lemma_refusals_alike(p, q, s.skip(1));
    }
}

/// Reading sees the bytes of the chunks and whether the descriptors are current,
/// and nothing else: not who holds a chunk, nor how often, nor what else is in
/// the pool.
pub proof fn reading_sees_the_bytes_only(
    p: &ChunkPool,
    q: &ChunkPool,
    reg: RegistryView,
    s: Seq<ChunkDesc>,
)
    requires
        p.wf(),
        reads_alike(p, q),
    ensures
        batch_read(q, reg, s) == batch_read(p, reg, s),
        rows_read(q, reg, s) == rows_read(p, reg, s),
        certain_rows(q, reg, s) == certain_rows(p, reg, s),
        batch_read(p, reg, s) is Ok ==> group_bytes(q, s) == group_bytes(p, s),
{
    if forall|i: int| 0 <= i < s.len() ==> p.names((#[trigger] s[i]).segment_id, s[i].offset) {
        assert forall|i: int| 0 <= i < s.len() implies q.names((#[trigger] s[i]).segment_id, s[i].offset)
            && q@[p.at(s[i].offset)].bytes == p@[p.at(s[i].offset)].bytes by {
            assert(p.names(s[i].segment_id, s[i].offset));
            lemma_has(p.lay@, s[i].offset);
        }
        lemma_refusals_alike(p, q, s);
        assert(group_bytes(q, s) =~= group_bytes(p, s));
        if s.len() > 0 {
            assert(p.names(s[0].segment_id, s[0].offset));
            assert(primary(q, s) == primary(p, s));
        }
    } else {
        let i = choose|i: int|
            0 <= i < s.len() && !p.names((#[trigger] s[i]).segment_id, s[i].offset);
        assert(!q.names(s[i].segment_id, s[i].offset));
    }
}

/// The rows of a batch that was written are read, and they are its columns: with
/// the types, the elements and the nulls that were written, and the same bytes in
/// the same buffers. Whatever was done to the pool `p1` since, as long as `p2`
/// reads alike: the chunks may have been loaned and published. This holds of
/// schemas with at least one field and of types that are read, list views being
/// the ones that are written and not read.
pub proof fn rows_read_are_those_written(
    p0: &ChunkPool,
    p1: &ChunkPool,
    p2: &ChunkPool,
    descs: Seq<ChunkDesc>,
    batch: &Batch,
    schema_id: u32,
    reg: RegistryView,
    r: Result<Rows, Error>,
)
    requires
        p0.wf(),
        p1.wf(),
        batch.wf(),
        batch.cols().len() > 0,
        readable_trees(batch.cols()),
        batch_refusal(batch.cols(), batch.num_rows as int, p0.longest()) is None,
        batch_written(p0, p1, descs, batch.cols(), batch.num_rows as int, schema_id),
        schema_id != RAW_SCHEMA_ID,
        reg.by_id.contains_key(schema_id),
        *reg.by_id[schema_id] == *batch.schema,
        reads_alike(p1, p2),
        is_rows_read(p2, reg, descs, r),
    ensures
        r is Ok,
        *r->Ok_0.schema == *batch.schema,
        array_trees(r->Ok_0.columns@) == batch.cols(),
{
    let cols = batch.cols();
    lemma_fit_conform(reg.types_of_id(schema_id), cols);
    read_gives_back_what_was_written(p0, p1, descs, cols, batch.num_rows as int, schema_id, reg);
    reading_sees_the_bytes_only(p1, p2, reg, descs);
    rows_hold_what_was_written(p2, reg, descs, batch, r);
}

/// How many chunks a batch takes.
pub proof fn lemma_sizes(cols: Seq<ArrayView>, rows: int, cap: int)
    requires
        batch_refusal(cols, rows, cap) is None,
        0 <= cap <= u32::MAX,
    ensures
        0 < batch_sizes(cols, cap).len() <= u32::MAX,
{
    let b = flat_buffers_all(cols);
    let n = flat_nodes_all(cols).len() as int;
    let e = tables_end(n, b.len() as int);
    assert(e <= aligned(e));
    lemma_used(b, payload_at(n, b.len() as int), cap, b.len() as int);
}

// ---- where the buffers lie ----

/// Whether every buffer of an array that was located, at any depth, lies in the
/// chunks `s` of the pool, and can be looked at there.
pub open spec fn lies_in_place(pool: &ChunkPool, s: Seq<ChunkDesc>, r: ReadView) -> bool
    decreases r,
{
    &&& r.validity matches Some(e) ==> visible(pool, s, e)
    &&& forall|i: int| 0 <= i < r.buffers.len() ==> visible(pool, s, #[trigger] r.buffers[i])
    &&& all_lie_in_place(pool, s, r.children)
}

/// Whether the buffers of all the arrays do.
pub open spec fn all_lie_in_place(pool: &ChunkPool, s: Seq<ChunkDesc>, r: Seq<ReadView>) -> bool
    decreases r, r.len(),
{
    r.len() > 0 ==> lies_in_place(pool, s, r[0]) && all_lie_in_place(pool, s, r.skip(1))
}

spec fn entries_in_place(pool: &ChunkPool, s: Seq<ChunkDesc>, e: Seq<BufferEntry>) -> bool {
    forall|i: int| 0 <= i < e.len() ==> visible(pool, s, #[trigger] e[i])
}

proof fn lemma_built_in_place(pool: &ChunkPool, s: Seq<ChunkDesc>, t: DataType, u: Rest)
    requires
        entries_in_place(pool, s, u.entries),
        built(t, u) is Ok,
    ensures
        lies_in_place(pool, s, built(t, u)->Ok_0.0),
        entries_in_place(pool, s, built(t, u)->Ok_0.1.entries),
    decreases u.nodes.len(), 0nat,
{
    let n = u.nodes[0];
    let below = Rest { nodes: u.nodes.skip(1), entries: u.entries.skip(own_count(n)) };
    assert forall|i: int| 0 <= i < below.entries.len() implies visible(
        pool,
        s,
        #[trigger] below.entries[i],
    ) by {
        assert(below.entries[i] == u.entries[i + own_count(n)]);
    }
    lemma_all_built_in_place(pool, s, child_types(t), below);
    let r = built(t, u)->Ok_0.0;
    assert forall|i: int| 0 <= i < r.buffers.len() implies visible(pool, s, #[trigger] r.buffers[i]) by {
        let v = if n.has_validity != 0 {
            1int
        } else {
            0
        };
        assert(r.buffers[i] == u.entries[i + v]);
    }
    if n.has_validity != 0 {
        assert(visible(pool, s, u.entries[0]));
    }
}

proof fn lemma_all_built_in_place(pool: &ChunkPool, s: Seq<ChunkDesc>, t: Seq<DataType>, u: Rest)
    requires
        entries_in_place(pool, s, u.entries),
        built_all(t, u) is Ok,
    ensures
        all_lie_in_place(pool, s, built_all(t, u)->Ok_0.0),
        entries_in_place(pool, s, built_all(t, u)->Ok_0.1.entries),
    decreases u.nodes.len(), 1 + t.len(),
{
    if t.len() > 0 {
        lemma_built_uses(t[0], u);
        lemma_built_in_place(pool, s, t[0], u);
        let (r, u1) = built(t[0], u)->Ok_0;
        lemma_all_built_in_place(pool, s, t.skip(1), u1);
        let rs = built_all(t.skip(1), u1)->Ok_0.0;
        assert((seq![r] + rs).skip(1) =~= rs);
        assert((seq![r] + rs)[0] == r);
    }
}

/// Every bitmap and every buffer of a batch that is located, at any depth, lies
/// inside of the batch's own chunks in the pool, and can be looked at there
/// without a copy.
pub proof fn located_buffers_lie_in_the_pool(pool: &ChunkPool, reg: RegistryView, s: Seq<ChunkDesc>)
    requires
        batch_read(pool, reg, s) is Ok,
    ensures
        all_lie_in_place(pool, s, batch_read(pool, reg, s)->Ok_0.1),
{
    let (h, t) = tables_read(pool, reg, s)->Ok_0;
    lemma_tables_sound(pool, reg, s);
    assert forall|i: int| 0 <= i < t.entries.len() implies visible(pool, s, #[trigger] t.entries[i]) by {
        let e = t.entries[i];
        assert(entry_refusal(e, desc_lens(s)) is None);
        let d = s[e.chunk_index as int];
        assert(pool.names(d.segment_id, d.offset));
        lemma_has_chunks(pool, s, e.chunk_index as int);
        assert(desc_lens(s)[e.chunk_index as int] == d.len);
    }
    lemma_all_built_in_place(pool, s, reg.types_of_id(h.schema_id), t);
}

} // verus!
