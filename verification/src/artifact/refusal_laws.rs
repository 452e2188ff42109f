//! What a commit is refused for, what becomes of the head, and what of the chunks.
use vstd::prelude::*;

use crate::artifact::batches::{batch_committed, batch_staged, unwrapped, CommitError};
use crate::artifact::commit::Commit;
use crate::artifact::commit_laws::{all_loaned, has_loaned, lemma_stageable, loaned_as};
use crate::artifact::error::Error;
use crate::artifact::handle::Artifact;
use crate::artifact::head::{first_endorsed, HeadView, PinSlot};
use crate::artifact::install::{committed, installs, late_refusal, manifest_refusal, tables_kept};
use crate::artifact::lease::commit_outcome;
use crate::artifact::live::current_table;
use crate::artifact::pool::{at, is_laid, lemma_at, lemma_has, ChunkPool};
use crate::artifact::staging::{picked, picks, publish_refusal, stage_error, stageable};
use crate::batch::error::Error as BatchError;
use crate::batch::schema::RegistryView;
use crate::batch::write::{allot, batch_refusal, batch_sizes, Batch};
use crate::chunk::ChunkDesc;

verus! {

/// Whether the descriptor names chunk `j` of the pool.
pub open spec fn names_chunk(pool: &ChunkPool, d: ChunkDesc, j: int) -> bool {
    0 <= j < pool@.len() && d.segment_id == pool.segment_id && d.offset == pool.lay@[j]
}

proof fn lemma_all_loaned(p: &ChunkPool, staged: Seq<ChunkDesc>)
    requires
        p.wf(),
    ensures
        all_loaned(p, staged) <==> stageable(p.lay@, p.segment_id, p@, staged),
{
    if all_loaned(p, staged) {
        lemma_stageable(p, staged);
    }
    if stageable(p.lay@, p.segment_id, p@, staged) {
        assert forall|i: int| 0 <= i < staged.len() implies has_loaned(p, #[trigger] staged[i]) by {
            let j = at(p.lay@, staged[i].offset);
            lemma_has(p.lay@, staged[i].offset);
            assert(picks(p.lay@, p.segment_id, p@, staged[i], j));
            assert(loaned_as(p, staged[i], j));
        }
    }
}

/// Chunks are refused for the first of them that cannot be staged: because the pool
/// does not have it, or because it is not loaned, or not in that generation, or was
/// named before.
pub proof fn the_first_bad_chunk_is_told(p: &ChunkPool, staged: Seq<ChunkDesc>, i: int)
    requires
        p.wf(),
        0 <= i < staged.len(),
        all_loaned(p, staged.take(i)),
        !all_loaned(p, staged.take(i + 1)),
    ensures
        ({
            let e = stage_error(p.lay@, p.segment_id, p@, staged);
            &&& !stageable(p.lay@, p.segment_id, p@, staged)
            &&& (exists|j: int| names_chunk(p, staged[i], j)) ==> e == Error::BadState
            &&& !(exists|j: int| names_chunk(p, staged[i], j)) ==> e == Error::OutOfBounds
        }),
    decreases staged.len(),
{
    let d = staged.drop_last();
    lemma_all_loaned(p, staged);
    if i < d.len() {
        assert(d.take(i) =~= staged.take(i));
        assert(d.take(i + 1) =~= staged.take(i + 1));
        the_first_bad_chunk_is_told(p, d, i);
        assert(d[i] == staged[i]);
        if stageable(p.lay@, p.segment_id, p@, staged) {
            assert forall|t: int| 0 <= t < d.len() implies is_laid(p.lay@, (#[trigger] d[t]).offset)
                && picks(p.lay@, p.segment_id, p@, d[t], at(p.lay@, d[t].offset)) by {
                assert(d[t] == staged[t]);
            }
            assert(crate::artifact::staging::distinct(d)) by {
                assert forall|t: int, u: int| 0 <= t < u < d.len() implies d[t].offset != d[u].offset by {
                    assert(staged[t].offset != staged[u].offset);
                }
            }
            assert(stageable(p.lay@, p.segment_id, p@, d));
        }
    } else {
        assert(staged.take(i) =~= d);
        assert(staged.take(i + 1) =~= staged);
        lemma_all_loaned(p, d);
        let x = staged[i];
        if exists|j: int| names_chunk(p, x, j) {
            let j = choose|j: int| names_chunk(p, x, j);
            lemma_at(p.lay@, j);
        } else if x.segment_id == p.segment_id && is_laid(p.lay@, x.offset) {
            lemma_has(p.lay@, x.offset);
            assert(names_chunk(p, x, at(p.lay@, x.offset)));
        }
    }
}

/// When a chunk is published: if it is loaned, in the generation that is said.
pub proof fn when_a_chunk_is_published(p: &ChunkPool, d: ChunkDesc, j: int)
    requires
        p.wf(),
    ensures
        ({
            let r = publish_refusal(p.lay@, p.segment_id, p@, d);
            &&& names_chunk(p, d, j) && p@[j].state is Loaned && p@[j].generation == d.generation ==> r is None
            &&& names_chunk(p, d, j) && !(p@[j].state is Loaned && p@[j].generation == d.generation) ==> r
                == Some(Error::BadState)
            &&& r == Some(Error::OutOfBounds) <==> forall|k: int| !names_chunk(p, d, k)
        }),
{
    if names_chunk(p, d, j) {
        lemma_at(p.lay@, j);
    }
    if d.segment_id == p.segment_id && is_laid(p.lay@, d.offset) {
        lemma_has(p.lay@, d.offset);
        assert(names_chunk(p, d, at(p.lay@, d.offset)));
    }
    if exists|k: int| names_chunk(p, d, k) {
        let k = choose|k: int| names_chunk(p, d, k);
        lemma_at(p.lay@, k);
    }
}

/// What a commit is refused for, in this order: the handle is of another occupant, it
/// is a patch, or the lease that it holds is not the one in the head; a chunk cannot
/// be staged; it builds on a version that is not the current one, or of another
/// schema; no slot is free; or it expects a version that is not the current one. A
/// refused commit leaves the head alone.
pub proof fn what_a_commit_is_refused_for(
    art: Artifact,
    h0: HeadView,
    p0: &ChunkPool,
    h1: HeadView,
    p1: &ChunkPool,
    expect: u64,
    owner: u32,
    commit: Commit,
    staged: Seq<ChunkDesc>,
    spans: Seq<u32>,
    schema_id: u32,
    lease_fence: Option<u32>,
    r: Result<u64, Error>,
)
    requires
        p0.wf(),
        commit_outcome(
            art,
            h0,
            p0,
            h1,
            p1,
            expect,
            owner,
            commit,
            staged,
            spans,
            schema_id,
            lease_fence,
            r,
        ),
    ensures
        ({
            let refused_as = |e: Error| r == Err::<u64, Error>(e);
            let stale = h0.incarnation != art.incarnation;
            let fenced = lease_fence is Some && h0.write_lease != owner * 0x1_0000_0000 + lease_fence->Some_0;
            let builds = expect != 0 && (commit is Append || (commit is Window && commit->keep_batches > 0));
            let early = stale || commit is Patch || fenced;
            &&& stale ==> refused_as(Error::Stale)
            &&& !stale && commit is Patch ==> refused_as(Error::Unsupported("Patch commit deferred to v0.2"))
            &&& !stale && !(commit is Patch) && fenced ==> refused_as(Error::Fenced)
            &&& !early && !all_loaned(p0, staged) ==> refused_as(
                stage_error(p0.lay@, p0.segment_id, p0@, staged),
            )
            &&& !early && all_loaned(p0, staged) && builds && h0.current != expect ==> refused_as(
                Error::Conflict { expected: expect, actual: h0.current },
            )
            &&& !early && all_loaned(p0, staged) && builds && h0.current == expect && current_table(
                h0,
                p0.lay@,
                p0@,
            ).last().schema_id != schema_id ==> r is Err && r->Err_0 is Unsupported
            &&& (forall|j: int| 0 <= j < h0.pins.len() ==> (#[trigger] h0.pins[j]).state != 0) ==> r is Err
            &&& h0.current != expect ==> r is Err
            &&& r is Err ==> h1 == h0
        }),
{
    lemma_all_loaned(p0, staged);
    assert(late_refusal(h0, p0, expect, commit, staged, spans, schema_id) is None ==> manifest_refusal(
        h0,
        p0,
        expect,
        commit,
        staged,
        spans,
        schema_id,
    ) is None);
}

/// A refused commit gives back what was staged for it, and only that: each chunk that
/// was loaned for it is free again, in the next generation; whatever else was in use
/// is untouched. But a patch leaves even what was staged as it is.
pub proof fn what_a_refused_commit_gives_back(
    art: Artifact,
    h0: HeadView,
    p0: &ChunkPool,
    h1: HeadView,
    p1: &ChunkPool,
    expect: u64,
    owner: u32,
    commit: Commit,
    staged: Seq<ChunkDesc>,
    spans: Seq<u32>,
    schema_id: u32,
    lease_fence: Option<u32>,
    e: Error,
    j: int,
)
    requires
        p0.wf(),
        commit_outcome(
            art,
            h0,
            p0,
            h1,
            p1,
            expect,
            owner,
            commit,
            staged,
            spans,
            schema_id,
            lease_fence,
            Err::<u64, Error>(e),
        ),
        0 <= j < p0@.len(),
    ensures
        ({
            let mine = p0@[j].state is Loaned && exists|i: int|
                0 <= i < staged.len() && names_chunk(p0, #[trigger] staged[i], j) && staged[i].generation
                    == p0@[j].generation;
            let kept = h0.incarnation == art.incarnation && commit is Patch;
            &&& kept ==> p1@ == p0@
            &&& !kept && mine ==> {
                &&& !p1@[j].allocated && p1@[j].state is Free
                &&& p1@[j].generation == (p0@[j].generation + 1) % 0x1_0000_0000
            }
            &&& !mine && p0@[j].allocated ==> p1@[j] == p0@[j]
            &&& !p0@[j].allocated ==> !p1@[j].allocated && p1@[j].len == p0@[j].len
        }),
{
    let mine = p0@[j].state is Loaned && exists|i: int|
        0 <= i < staged.len() && names_chunk(p0, #[trigger] staged[i], j) && staged[i].generation
            == p0@[j].generation;
    if mine {
        let i = choose|i: int|
            0 <= i < staged.len() && names_chunk(p0, #[trigger] staged[i], j) && staged[i].generation
                == p0@[j].generation;
        assert(picks(p0.lay@, p0.segment_id, p0@, staged[i], j));
        assert(picked(p0.lay@, p0.segment_id, p0@, staged, j));
    }
    if picked(p0.lay@, p0.segment_id, p0@, staged, j) {
        let t = choose|t: int|
            0 <= t < staged.len() && picks(p0.lay@, p0.segment_id, p0@, #[trigger] staged[t], j);
        assert(names_chunk(p0, staged[t], j));
        assert(mine);
    }
    assert(crate::artifact::pool::chunk_ok(p0@[j]));
}

/// What a commit makes of the head. The version after the expected one is current; it
/// is in a slot that was free, the first, without pins, and live. The version before
/// it keeps its slot if it is pinned, and else loses it. Every other slot stays, and
/// so do the lease and the occupant. The schema of the head is that of the first
/// version that was given one.
pub proof fn what_a_commit_makes_of_the_head(
    h0: HeadView,
    p0: &ChunkPool,
    h1: HeadView,
    p1: &ChunkPool,
    name_id: u32,
    expect: u64,
    commit: Commit,
    staged: Seq<ChunkDesc>,
    spans: Seq<u32>,
    schema_id: u32,
    j: int,
)
    requires
        committed(h0, p0, h1, p1, name_id, expect, commit, staged, spans, schema_id),
        expect < u64::MAX,
        0 <= j < h0.pins.len() <= 0xffff,
    ensures
        ({
            let s = h0.pins[j];
            let first = s.state == 0 && forall|i: int| 0 <= i < j ==> (#[trigger] h0.pins[i]).state != 0;
            let before = s.state == 1 && s.version == expect && s.manifest == h0.manifest_desc && expect != 0;
            &&& h1.current == expect + 1
            &&& h1.write_lease == h0.write_lease && h1.incarnation == h0.incarnation && h1.magic == h0.magic
            &&& h1.schema_id == if h0.schema_id != 0 {
                h0.schema_id
            } else {
                schema_id
            }
            &&& h1.pins.len() == h0.pins.len()
            &&& first ==> h1.pins[j] == (PinSlot {
                version: (expect + 1) as u64,
                manifest: h1.manifest_desc,
                pins: 0,
                state: 1,
            })
            &&& !first && !before ==> h1.pins[j] == s
            &&& before && s.pins > 0 ==> h1.pins[j] == s
            &&& before && s.pins == 0 && (forall|i: int|
                0 <= i < j ==> !((#[trigger] h0.pins[i]).state == 1 && h0.pins[i].version == expect
                    && h0.pins[i].manifest == h0.manifest_desc)) ==> h1.pins[j] == (PinSlot {
                version: 0,
                manifest: 0,
                pins: 0,
                state: 0,
            })
        }),
{
    let v = (expect + 1) as u64;
    let (i, bits) = choose|i: int, bits: u64| #[trigger]
        installs(h0, h1, i, v, bits, schema_id, expect) && tables_kept(h0, p0, h1, p1, i);
    assert(installs(h0, h1, i, v, bits, schema_id, expect));
    let g = crate::artifact::install::installed(h0, i, v, bits, schema_id);
    let s = h0.pins[j];
    let first = s.state == 0 && forall|a: int| 0 <= a < j ==> (#[trigger] h0.pins[a]).state != 0;
    assert(first <==> j == i) by {
        if first && i < j {
            assert(h0.pins[i].state != 0);
        }
    }
    assert(crate::artifact::install::predecessor_retired(h0, g, h1, expect));
    if expect != 0 {
        let bits0 = h0.manifest_desc;
        let k = choose|k: usize| first_endorsed(g.pins, expect, bits0, Some(k));
        assert(first_endorsed(g.pins, expect, bits0, Some(k)));
        assert forall|a: usize| first_endorsed(g.pins, expect, bits0, Some(a)) implies a == k by {
            if a < k {
                assert(!(g.pins[a as int].tracks(expect) && g.pins[a as int].manifest == bits0));
            } else if k < a {
                assert(!(g.pins[k as int].tracks(expect) && g.pins[k as int].manifest == bits0));
            }
        }
        assert(h1 == if g.pins[k as int].pins == 0 {
            crate::artifact::live::without_slot(g, k as int)
        } else {
            g
        });
        assert(k != i);
        assert(g.pins[k as int] == h0.pins[k as int]);
        if s.state == 1 && s.version == expect && s.manifest == h0.manifest_desc {
            assert(g.pins[j] == s);
            assert(k <= j) by {
                if j < k {
                    assert(!(g.pins[j].tracks(expect) && g.pins[j].manifest == h0.manifest_desc));
                }
            }
        }
    }
}

/// What committing a batch is refused for, before it comes to the chunks: a patch is; a batch
/// that cannot be packed is, for what it cannot be; and one that the pool has no chunks for
/// is. Then nothing changes but that the schema may be known. Any other batch is written
/// and loaned, as one batch of the schema's id, and then its chunks are committed; whatever
/// that is refused for is passed on.
pub proof fn what_committing_a_batch_is_refused_for(
    art: Artifact,
    h0: HeadView,
    p0: &ChunkPool,
    reg0: RegistryView,
    h1: HeadView,
    p1: &ChunkPool,
    reg1: RegistryView,
    expect: u64,
    owner: u32,
    commit: Commit,
    batch: &Batch,
    lease_fence: Option<u32>,
    r: Result<u64, CommitError>,
)
    requires
        batch_committed(art, h0, p0, reg0, h1, p1, reg1, expect, owner, commit, batch, lease_fence, r),
    ensures
        ({
            let refusal = batch_refusal(batch.cols(), batch.num_rows as int, p0.longest());
            let chunks = allot(p0@, batch_sizes(batch.cols(), p0.longest()));
            let patch = commit is Patch;
            &&& !patch && refusal is None && chunks is Some ==> !(r is Err && r->Err_0 is Batch)
            &&& !patch && refusal is Some ==> r == Err::<u64, CommitError>(CommitError::Batch(refusal->Some_0))
            &&& !patch && refusal is None && chunks is None ==> r == Err::<u64, CommitError>(
                CommitError::Batch(BatchError::Core(Error::Exhausted)),
            )
            &&& patch ==> r == Err::<u64, CommitError>(
                CommitError::Artifact(Error::Unsupported("Patch commit deferred to v0.2")),
            ) && reg1 == reg0
            &&& patch || refusal is Some || chunks is None ==> h1 == h0 && p1@ == p0@
            &&& !patch ==> reg1 == reg0.interned(batch.schema)
            &&& !patch && refusal is None && chunks is Some ==> exists|p2: ChunkPool, descs: Seq<ChunkDesc>|
                #[trigger] batch_staged(p0, &p2, descs, batch, reg0.id_of(*batch.schema), owner)
                    && commit_outcome(
                    art,
                    h0,
                    &p2,
                    h1,
                    p1,
                    expect,
                    owner,
                    commit,
                    descs,
                    seq![descs.len() as u32],
                    reg0.id_of(*batch.schema),
                    lease_fence,
                    match r {
                        Ok(v) => Ok::<u64, Error>(v),
                        Err(e) => Err(e->Artifact_0),
                    },
                )
        }),
{
    if !(commit is Patch) && batch_refusal(batch.cols(), batch.num_rows as int, p0.longest()) is None && allot(
        p0@,
        batch_sizes(batch.cols(), p0.longest()),
    ) is Some {
        let s = batch.id_in(reg0);
        let (p2, descs) = choose|p2: ChunkPool, descs: Seq<ChunkDesc>| #[trigger]
            batch_staged(p0, &p2, descs, batch, s, owner) && commit_outcome(
                art,
                h0,
                &p2,
                h1,
                p1,
                expect,
                owner,
                commit,
                descs,
                seq![descs.len() as u32],
                s,
                lease_fence,
                unwrapped(r),
            );
        assert(batch_staged(p0, &p2, descs, batch, s, owner));
    }
}

} // verus!
