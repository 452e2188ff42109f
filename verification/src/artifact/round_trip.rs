//! What a reader sees of a committed batch.
use vstd::prelude::*;

use crate::artifact::batches::{
    batch_committed, batch_staged, loaned, named, unwrapped, CommitError,
};
use crate::artifact::commit::{lemma_current, lemma_table_data, Commit};
use crate::artifact::handle::Artifact;
use crate::artifact::head::{ArtifactHead, HeadView};
use crate::artifact::install::committed;
use crate::artifact::lease::commit_outcome;
use crate::artifact::live::{current_table, live};
use crate::artifact::manifest::span_sum;
use crate::artifact::pool::{chunk_ok, data_ok, lemma_at, ChunkPool, ChunkView};
use crate::artifact::reading::lemma_story;
use crate::artifact::window::{all_chunks, all_spans, batches, cut, lemma_table_lens, start};
use crate::batch::array::readable_trees;
use crate::batch::error::Error as BatchError;
use crate::batch::laws::{
    conform, lemma_chunks_fit, lemma_fit_conform, lemma_longest, lemma_read_back, lemma_sizes,
    mirror,
};
use crate::batch::outside::array_trees;
use crate::batch::read::{batch_read, chunk_refusal, chunks_refusal, desc_lens, primary};
use crate::batch::rows::{group_bytes, is_rows_read, rows_hold_what_was_written, Rows};
use crate::batch::schema::RegistryView;
use crate::batch::write::{
    allot, allotted, batch_sizes, batch_written, chunk_bytes, desc_of, handed_out, Batch,
};
use crate::chunk::ChunkDesc;

verus! {

/// A group of one span is the whole list.
proof fn lemma_one_group(s: Seq<ChunkDesc>)
    requires
        s.len() <= u32::MAX,
    ensures
        cut(s, seq![s.len() as u32]).len() == 1,
        cut(s, seq![s.len() as u32])[0] == s,
{
    let sp = seq![s.len() as u32];
    assert(sp.take(0) =~= seq![]);
    assert(sp.take(1) =~= sp);
    assert(sp.drop_last() =~= seq![]);
    assert(span_sum(sp.drop_last()) == 0);
    assert(start(sp, 0) == 0);
    assert(start(sp, 1) == s.len());
    assert(s.subrange(0, s.len() as int) =~= s);
}

/// The chunks of a batch keep their bytes and generations through the commit.
proof fn lemma_chunks_through(
    p0: &ChunkPool,
    pw: &ChunkPool,
    p2: &ChunkPool,
    p1: &ChunkPool,
    descs: Seq<ChunkDesc>,
    ks: Seq<int>,
    q: Seq<ChunkView>,
    sizes: Seq<int>,
    schema_id: u32,
    owner: u32,
)
    requires
        p0.wf(),
        pw.wf(),
        p2.wf(),
        p1.wf(),
        allotted(p0@, sizes, ks, q),
        ks.len() > 0,
        descs == Seq::new(ks.len(), |c: int| desc_of(p0, ks[c], schema_id)),
        pw.same_place(p0),
        pw@.len() == p0@.len(),
        forall|j: int|
            0 <= j < p0@.len() ==> #[trigger] pw@[j] == (ChunkView { bytes: pw@[j].bytes, ..q[j] }),
        loaned(pw, p2, descs, owner),
        p1.same_place(p2),
        p1@.len() == p2@.len(),
        forall|j: int|
            0 <= j < p2@.len() && p2@[j].allocated ==> (#[trigger] p1@[j]).bytes == p2@[j].bytes,
        forall|t: int|
            0 <= t < descs.len() ==> data_ok(p1.lay@, p1.segment_id, p1@, #[trigger] descs[t]),
    ensures
        forall|i: int|
            0 <= i < descs.len() ==> p1.names((#[trigger] descs[i]).segment_id, descs[i].offset),
        chunks_refusal(p1, descs) is None,
        primary(p1, descs) == chunk_bytes(pw@, ks)[0],
        group_bytes(p1, descs) == chunk_bytes(pw@, ks),
        forall|k: int|
            0 <= k < ks.len() ==> (#[trigger] chunk_bytes(pw@, ks)[k]).len() == desc_lens(descs)[k]
                && desc_lens(descs)[k] <= u32::MAX,
{
    let c = chunk_bytes(pw@, ks);
    let lens = desc_lens(descs);
    assert forall|i: int| 0 <= i < descs.len() implies p1.names(
        (#[trigger] descs[i]).segment_id,
        descs[i].offset,
    ) && chunk_refusal(p1, descs[i]) is None && p1.at(descs[i].offset) == ks[i] && c[i].len()
        == lens[i] && p1@[ks[i]].bytes == c[i] && p1@[ks[i]].len == descs[i].len by {
        let k = ks[i];
        assert(descs[i] == desc_of(p0, k, schema_id));
        assert(0 <= k < p0@.len());
        lemma_at(p0.lay@, k);
        assert(pw@[k] == (ChunkView { bytes: pw@[k].bytes, ..q[k] }));
        assert(q[k] == handed_out(p0@[k]));
        assert(named(pw.lay@, descs, k));
        assert(p2@[k].allocated && p2@[k].bytes == pw@[k].bytes);
        assert(chunk_ok(pw@[k]));
        assert(chunk_ok(p1@[k]));
        assert(data_ok(p1.lay@, p1.segment_id, p1@, descs[i]));
    }
    lemma_chunks_fit(p1, descs);
    assert(p1.names(descs[0].segment_id, descs[0].offset));
    assert(primary(p1, descs) =~= c[0]) by {
        assert(c[0].len() == lens[0]);
    }
    assert forall|k: int| 0 <= k < ks.len() implies (#[trigger] c[k]).len() == lens[k] && lens[k]
        <= u32::MAX by {
        assert(p1.names(descs[k].segment_id, descs[k].offset));
    }
    assert forall|k: int| 0 <= k < ks.len() implies group_bytes(p1, descs)[k] == c[k] by {
        assert(p1.names(descs[k].segment_id, descs[k].offset));
    }
    assert(group_bytes(p1, descs) =~= c);
}

/// The newest batch of the current table is the committed one, and its chunks
/// are there.
proof fn lemma_newest(
    art: Artifact,
    h0: HeadView,
    p2: &ChunkPool,
    h1: &ArtifactHead,
    p1: &ChunkPool,
    expect: u64,
    commit: Commit,
    descs: Seq<ChunkDesc>,
    schema_id: u32,
)
    requires
        expect < u64::MAX,
        descs.len() <= u32::MAX,
        live(h1, p1, art.name_id),
        committed(
            h0,
            p2,
            h1@,
            p1,
            art.name_id,
            expect,
            commit,
            descs,
            seq![descs.len() as u32],
            schema_id,
        ),
    ensures
        batches(current_table(h1@, p1.lay@, p1@)).len() > 0,
        batches(current_table(h1@, p1.lay@, p1@)).last() == descs,
        forall|t: int|
            0 <= t < descs.len() ==> data_ok(p1.lay@, p1.segment_id, p1@, #[trigger] descs[t]),
{
    let t1 = current_table(h1@, p1.lay@, p1@);
    let b = batches(t1);
    lemma_one_group(descs);
    assert(b.last() == descs);
    lemma_current(h1, p1, art.name_id);
    let i = crate::artifact::commit::current_chunk(h1@, p1);
    lemma_story(p1, i);
    lemma_table_lens(t1);
    let last = b.len() - 1;
    let sp = all_spans(t1);
    assert(b == cut(all_chunks(t1), sp));
    let from = start(sp, last as int);
    assert(b[last as int] == all_chunks(t1).subrange(from, start(sp, last + 1)));
    crate::artifact::window::lemma_start_mono(sp, last as int, last + 1);
    crate::artifact::window::lemma_start_mono(sp, last + 1, last + 1);
    assert forall|t: int| 0 <= t < descs.len() implies data_ok(
        p1.lay@,
        p1.segment_id,
        p1@,
        #[trigger] descs[t],
    ) by {
        assert(descs[t] == all_chunks(t1)[from + t]);
        lemma_table_data(p1, i, from + t);
    }
}

/// A committed batch is the newest batch of the current version, and reads
/// back as what was committed, byte for byte.
pub proof fn committed_batch_reads_back(
    art: Artifact,
    h0: HeadView,
    p0: &ChunkPool,
    reg0: RegistryView,
    h1: &ArtifactHead,
    p1: &ChunkPool,
    reg1: RegistryView,
    expect: u64,
    owner: u32,
    commit: Commit,
    batch: &Batch,
    lease_fence: Option<u32>,
    v: u64,
)
    requires
        expect < u64::MAX,
        p0.wf(),
        reg0.wf(),
        reg0.has_room(*batch.schema),
        live(h1, p1, art.name_id),
        batch_committed(
            art,
            h0,
            p0,
            reg0,
            h1@,
            p1,
            reg1,
            expect,
            owner,
            commit,
            batch,
            lease_fence,
            Ok::<u64, CommitError>(v),
        ),
        conform(reg1.types_of_id(batch.id_in(reg0)), batch.cols()),
    ensures
        h1@.current == v,
        ({
            let b = batches(current_table(h1@, p1.lay@, p1@));
            let r = batch_read(p1, reg1, b.last());
            &&& b.len() > 0
            &&& r is Ok
            &&& r->Ok_0.0.schema_id == batch.id_in(reg0)
            &&& r->Ok_0.0.row_count == batch.num_rows
            &&& mirror(r->Ok_0.1, batch.cols(), group_bytes(p1, b.last()))
        }),
{
    let cols = batch.cols();
    let rows = batch.num_rows as int;
    let schema_id = batch.id_in(reg0);
    let cap = p0.longest();
    let sizes = batch_sizes(cols, cap);
    let (p2, descs) = choose|p2: ChunkPool, descs: Seq<ChunkDesc>| #[trigger]
        batch_staged(p0, &p2, descs, batch, schema_id, owner) && commit_outcome(
            art,
            h0,
            &p2,
            h1@,
            p1,
            expect,
            owner,
            commit,
            descs,
            seq![descs.len() as u32],
            schema_id,
            lease_fence,
            unwrapped(Ok::<u64, CommitError>(v)),
        );
    let pw = choose|pw: ChunkPool|
        batch_written(p0, &pw, descs, cols, rows, schema_id) && #[trigger] loaned(
            &pw,
            &p2,
            descs,
            owner,
        );
    let (ks, q) = allot(p0@, sizes)->Some_0;
    lemma_longest(p0@);
    lemma_sizes(cols, rows, cap);
    lemma_newest(art, h0, &p2, h1, p1, expect, commit, descs, schema_id);
    lemma_chunks_through(p0, &pw, &p2, p1, descs, ks, q, sizes, schema_id, owner);
    assert(descs[0] == desc_of(p0, ks[0], schema_id));
    lemma_read_back(p1, descs, chunk_bytes(pw@, ks), cols, rows, schema_id, reg1, cap);
}

/// The rows of a committed batch are read, and they are its columns. This holds
/// of schemas with at least one field and of types that are read, list views
/// being the ones that are written and not read.
pub proof fn committed_rows_read_back(
    art: Artifact,
    h0: HeadView,
    p0: &ChunkPool,
    reg0: RegistryView,
    h1: &ArtifactHead,
    p1: &ChunkPool,
    reg1: RegistryView,
    expect: u64,
    owner: u32,
    commit: Commit,
    batch: &Batch,
    lease_fence: Option<u32>,
    v: u64,
    r: Result<Rows, BatchError>,
)
    requires
        expect < u64::MAX,
        p0.wf(),
        reg0.wf(),
        reg0.has_room(*batch.schema),
        live(h1, p1, art.name_id),
        batch_committed(
            art,
            h0,
            p0,
            reg0,
            h1@,
            p1,
            reg1,
            expect,
            owner,
            commit,
            batch,
            lease_fence,
            Ok::<u64, CommitError>(v),
        ),
        batch.wf(),
        batch.cols().len() > 0,
        readable_trees(batch.cols()),
        *reg1.by_id[batch.id_in(reg0)] == *batch.schema,
        is_rows_read(p1, reg1, batches(current_table(h1@, p1.lay@, p1@)).last(), r),
    ensures
        r is Ok,
        *r->Ok_0.schema == *batch.schema,
        array_trees(r->Ok_0.columns@) == batch.cols(),
{
    lemma_fit_conform(reg1.types_of_id(batch.id_in(reg0)), batch.cols());
    committed_batch_reads_back(
        art,
        h0,
        p0,
        reg0,
        h1,
        p1,
        reg1,
        expect,
        owner,
        commit,
        batch,
        lease_fence,
        v,
    );
    let g = batches(current_table(h1@, p1.lay@, p1@)).last();
    rows_hold_what_was_written(p1, reg1, g, batch, r);
}

} // verus!
