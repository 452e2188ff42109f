//! Committing and reading batches.
use vstd::prelude::*;

use crate::artifact::commit::Commit;
use crate::artifact::error::Error;
use crate::artifact::handle::Artifact;
use crate::artifact::head::{ArtifactHead, HeadView};
use crate::artifact::lease::{commit_outcome, Committer};
use crate::artifact::live::{conserved, live, slot_ok, unaccounted};
use crate::artifact::manifest::span_sum;
use crate::artifact::pin::VersionPin;
use crate::artifact::policy::{depth_of, WindowPolicy};
use crate::artifact::pool::{
    at, chunk_ok, held, lemma_at, lemma_has, ChunkPool, ChunkState, ChunkView,
};
use crate::artifact::reading::exact_totals;
use crate::artifact::staging::{distinct, picks, stageable};
use crate::artifact::window::{batches, groups};
use crate::batch::error::Error as BatchError;
use crate::batch::laws::{lemma_longest, lemma_sizes};
use crate::batch::read::{batch_read, locate_batch_chunks, read_views, ReadBatch, ReadView};
use crate::batch::schema::{RegistryView, SchemaRegistry, RAW_SCHEMA_ID};
use crate::batch::write::{
    allot, batch_refusal, batch_sizes, batch_written, desc_of, handed_out, write_batch_chunks,
    Batch,
};
use crate::chunk::ChunkDesc;

verus! {

/// Why a batch could not be committed or read.
#[derive(Clone, Copy, Debug, PartialEq, Eq)]
pub enum CommitError {
    /// The batch could not be written or read.
    Batch(BatchError),
    /// The version could not be installed or pinned.
    Artifact(Error),
}

/// The chunks with those of `s` loaned to `owner`.
pub open spec fn loaned(p0: &ChunkPool, p1: &ChunkPool, s: Seq<ChunkDesc>, owner: u32) -> bool {
    &&& p1.wf()
    &&& p1.same_place(p0)
    &&& p1@.len() == p0@.len()
    &&& forall|j: int|
        0 <= j < p0@.len() ==> #[trigger] p1@[j] == if named(p0.lay@, s, j) {
            ChunkView { state: ChunkState::Loaned, owner, ..p0@[j] }
        } else {
            p0@[j]
        }
}

/// Whether some descriptor of `s` names chunk `j`.
pub open spec fn named(lay: Seq<u32>, s: Seq<ChunkDesc>, j: int) -> bool {
    exists|t: int| 0 <= t < s.len() && (#[trigger] s[t]).offset == lay[j]
}

/// Whether every descriptor of `s` names a chunk of its own that was handed
/// out and not loaned yet.
pub open spec fn loanable(pool: &ChunkPool, s: Seq<ChunkDesc>) -> bool {
    &&& distinct(s)
    &&& forall|t: int|
        0 <= t < s.len() ==> {
            &&& pool.names((#[trigger] s[t]).segment_id, s[t].offset)
            &&& pool@[pool.at(s[t].offset)].state == ChunkState::Free
            &&& pool@[pool.at(s[t].offset)].allocated
            &&& pool@[pool.at(s[t].offset)].generation == s[t].generation
        }
}

/// Loan every chunk of a freshly written batch.
pub fn loan_all(pool: &mut ChunkPool, s: &Vec<ChunkDesc>, owner: u32)
    requires
        old(pool).wf(),
        loanable(old(pool), s@),
    ensures
        final(pool).wf(),
        loaned(old(pool), final(pool), s@, owner),
        stageable(final(pool).lay@, final(pool).segment_id, final(pool)@, s@),
        forall|j: int| 0 <= j < old(pool)@.len() ==> #[trigger] final(pool).held(j) == old(pool).held(j),
{
    let ghost p = pool@;
    let ghost lay = pool.lay@;
    let n: usize = s.len();
    let mut i: usize = 0;
    while i < n
        invariant
            pool.wf(),
            old(pool).wf(),
            loanable(old(pool), s@),
            p == old(pool)@,
            lay == old(pool).lay@,
            n == s@.len(),
            i <= n,
            loaned(old(pool), pool, s@.take(i as int), owner),
            forall|j: int| 0 <= j < p.len() ==> #[trigger] pool.held(j) == old(pool).held(j),
        decreases n - i,
    {
        let ghost p1 = pool@;
        let ghost k = pool.at(s@[i as int].offset);
        proof {
            assert(old(pool).names(s@[i as int].segment_id, s@[i as int].offset));
            lemma_has(lay, s@[i as int].offset);
            assert(!named(lay, s@.take(i as int), k)) by {
                if named(lay, s@.take(i as int), k) {
                    let t = choose|t: int|
                        0 <= t < s@.take(i as int).len() && (#[trigger] s@.take(i as int)[t]).offset
                            == lay[k];
                    assert(s@[t].offset == s@[i as int].offset);
                }
            }
            assert(p1[k] == p[k]);
        }
        let r: Result<(), Error> = pool.loan(&s[i], owner);
        proof {
            assert(r is Ok);
            assert forall|j: int| 0 <= j < p.len() implies #[trigger] pool@[j] == (if named(
                lay,
                s@.take(i + 1),
                j,
            ) {
                ChunkView { state: ChunkState::Loaned, owner, ..p[j] }
            } else {
                p[j]
            }) by {
                assert(p1[j] == (if named(lay, s@.take(i as int), j) {
                    ChunkView { state: ChunkState::Loaned, owner, ..p[j] }
                } else {
                    p[j]
                }));
                if named(lay, s@.take(i as int), j) {
                    let t = choose|t: int|
                        0 <= t < s@.take(i as int).len() && (#[trigger] s@.take(i as int)[t]).offset
                            == lay[j];
                    assert(s@.take(i + 1)[t].offset == lay[j]);
                }
                if j == k {
                    assert(s@.take(i + 1)[i as int].offset == lay[j]);
                }
                if named(lay, s@.take(i + 1), j) && !named(lay, s@.take(i as int), j) {
                    let t = choose|t: int|
                        0 <= t < s@.take(i + 1).len() && (#[trigger] s@.take(i + 1)[t]).offset == lay[j];
                    if t < i {
                        assert(s@.take(i as int)[t].offset == lay[j]);
                    }
                    lemma_at(lay, j);
                }
            }
        }
        i = i + 1;
    }
    proof {
        assert(s@.take(n as int) =~= s@);
        assert forall|t: int| 0 <= t < s@.len() implies crate::artifact::pool::is_laid(
            lay,
            (#[trigger] s@[t]).offset,
        ) && picks(lay, pool.segment_id, pool@, s@[t], at(lay, s@[t].offset)) by {
            assert(old(pool).names(s@[t].segment_id, s@[t].offset));
            lemma_has(lay, s@[t].offset);
            let k = at(lay, s@[t].offset);
            assert(named(lay, s@, k));
            assert(pool@[k] == (ChunkView { state: ChunkState::Loaned, owner, ..p[k] }));
        }
    }
}

/// Work on chunks that nothing refers to unties nothing.
proof fn lemma_still_live(h: &ArtifactHead, p0: &ChunkPool, p1: &ChunkPool, name_id: u32)
    requires
        live(h, p0, name_id),
        p1.wf(),
        p1.same_place(p0),
        p1@.len() == p0@.len(),
        forall|j: int| 0 <= j < p0@.len() ==> #[trigger] p1.held(j) == p0.held(j),
        forall|j: int| 0 <= j < p0@.len() && p0@[j].story is Some ==> (#[trigger] p1@[j]).story
            == p0@[j].story,
    ensures
        live(h, p1, name_id),
        conserved(h@, p0, h@, p1),
{
    assert forall|i: int| 0 <= i < p0@.len() implies unaccounted(
        h@,
        p1.lay@,
        p1.segment_id,
        p1@,
        i,
    ) == #[trigger] unaccounted(h@, p0.lay@, p0.segment_id, p0@, i) by {
        assert(p1.held(i) == p0.held(i));
    }
    assert forall|i: int| 0 <= i < p1@.len() implies #[trigger] unaccounted(
        h@,
        p1.lay@,
        p1.segment_id,
        p1@,
        i,
    ) >= 0 by {
        assert(unaccounted(h@, p0.lay@, p0.segment_id, p0@, i) >= 0);
    }
    assert forall|j: int| 0 <= j < h@.pins.len() implies slot_ok(
        p1.lay@,
        p1.segment_id,
        p1@,
        name_id,
        #[trigger] h@.pins[j],
    ) by {
        let s = h@.pins[j];
        assert(slot_ok(p0.lay@, p0.segment_id, p0@, name_id, s));
        if s.state != crate::artifact::head::SLOT_FREE {
            lemma_has(p0.lay@, crate::chunk::PackedRef(s.manifest).spec_offset());
        }
    }
}

/// A batch that was written can be loaned, and nothing else changed.
proof fn lemma_written_loanable(
    p0: &ChunkPool,
    p1: &ChunkPool,
    descs: Seq<ChunkDesc>,
    cols: Seq<crate::batch::array::ArrayView>,
    rows: int,
    schema_id: u32,
)
    requires
        p0.wf(),
        p1.wf(),
        batch_written(p0, p1, descs, cols, rows, schema_id),
    ensures
        loanable(p1, descs),
        forall|j: int| 0 <= j < p0@.len() && p0@[j].story is Some ==> (#[trigger] p1@[j]).story
            == p0@[j].story,
{
    let (ks, q) = allot(p0@, batch_sizes(cols, p0.longest()))->Some_0;
    assert forall|t: int| 0 <= t < descs.len() implies {
        &&& p1.names((#[trigger] descs[t]).segment_id, descs[t].offset)
        &&& p1@[p1.at(descs[t].offset)].state == ChunkState::Free
        &&& p1@[p1.at(descs[t].offset)].allocated
        &&& p1@[p1.at(descs[t].offset)].generation == descs[t].generation
    } by {
        let k = ks[t];
        assert(descs[t] == desc_of(p0, k, schema_id));
        lemma_at(p0.lay@, k);
        assert(p1.lay@[k] == descs[t].offset);
        assert(chunk_ok(p0@[k]));
        assert(q[k] == handed_out(p0@[k]));
        assert(p1@[k] == (ChunkView { bytes: p1@[k].bytes, ..q[k] }));
    }
    assert forall|t: int, u: int| 0 <= t < u < descs.len() implies descs[t].offset != descs[u].offset by {
        assert(descs[t] == desc_of(p0, ks[t], schema_id));
        assert(descs[u] == desc_of(p0, ks[u], schema_id));
        assert(ks[t] != ks[u]);
        lemma_at(p0.lay@, ks[t]);
        lemma_at(p0.lay@, ks[u]);
    }
    assert forall|j: int| 0 <= j < p0@.len() && p0@[j].story is Some implies (#[trigger] p1@[j]).story
        == p0@[j].story by {
        assert(p1@[j] == (ChunkView { bytes: p1@[j].bytes, ..q[j] }));
        if ks.contains(j) {
            let c = choose|c: int| 0 <= c < ks.len() && ks[c] == j;
            assert(q[ks[c]] == handed_out(p0@[ks[c]]));
        }
    }
}

/// Whether `p2` is `p0` with the batch written and its chunks `descs` loaned.
pub open spec fn batch_staged(
    p0: &ChunkPool,
    p2: &ChunkPool,
    descs: Seq<ChunkDesc>,
    batch: &Batch,
    schema_id: u32,
    owner: u32,
) -> bool {
    exists|p1: ChunkPool|
        batch_written(p0, &p1, descs, batch.cols(), batch.num_rows as int, schema_id) && #[trigger] loaned(
            &p1,
            p2,
            descs,
            owner,
        )
}

/// What committing a batch does: it writes the batch, loans its chunks and
/// installs them as one batch of the next version.
pub open spec fn batch_committed(
    art: Artifact,
    h0: HeadView,
    p0: &ChunkPool,
    reg0: RegistryView,
    h1: HeadView,
    p1: &ChunkPool,
    reg1: RegistryView,
    expect: u64,
    owner: u32,
    commit: Commit,
    batch: &Batch,
    lease_fence: Option<u32>,
    r: Result<u64, CommitError>,
) -> bool {
    let schema_id = batch.id_in(reg0);
    &&& p1.same_place(p0)
    &&& if commit is Patch {
        &&& r == Err::<u64, CommitError>(
            CommitError::Artifact(Error::Unsupported("Patch commit deferred to v0.2")),
        )
        &&& h1 == h0 && p1@ == p0@ && reg1 == reg0
    } else {
        &&& reg1 == reg0.interned(batch.schema)
        &&& conserved(h0, p0, h1, p1)
        &&& match batch_refusal(batch.cols(), batch.num_rows as int, p0.longest()) {
            Some(e) => r == Err::<u64, CommitError>(CommitError::Batch(e)) && h1 == h0 && p1@ == p0@,
            None => if allot(p0@, batch_sizes(batch.cols(), p0.longest())) is None {
                &&& r == Err::<u64, CommitError>(CommitError::Batch(BatchError::Core(Error::Exhausted)))
                &&& h1 == h0 && p1@ == p0@
            } else {
                &&& !(r matches Err(CommitError::Batch(_)))
                &&& exists|p2: ChunkPool, descs: Seq<ChunkDesc>| #[trigger]
                    batch_staged(p0, &p2, descs, batch, schema_id, owner) && commit_outcome(
                        art,
                        h0,
                        &p2,
                        h1,
                        p1,
                        expect,
                        owner,
                        commit,
                        descs,
                        seq![descs.len() as u32],
                        schema_id,
                        lease_fence,
                        unwrapped(r),
                    )
            },
        }
    }
}

/// The outcome of the install.
pub open spec fn unwrapped(r: Result<u64, CommitError>) -> Result<u64, Error> {
    match r {
        Ok(v) => Ok(v),
        Err(CommitError::Artifact(e)) => Err(e),
        Err(CommitError::Batch(_)) => arbitrary(),
    }
}

/// Why a commit of a batch was refused by the install, or that it was not.
fn wrapped(r: Result<u64, Error>) -> (w: Result<u64, CommitError>)
    ensures
        unwrapped(w) == r,
        !(w matches Err(CommitError::Batch(_))),
{
    match r {
        Ok(v) => Ok(v),
        Err(e) => Err(CommitError::Artifact(e)),
    }
}

impl Artifact {
    /// Write a batch and loan its chunks.
    fn stage_batch(
        &self,
        head: &ArtifactHead,
        pool: &mut ChunkPool,
        registry: &mut SchemaRegistry,
        owner: u32,
        batch: &Batch,
    ) -> (r: Result<Vec<ChunkDesc>, BatchError>)
        requires
            live(head, old(pool), self.name_id),
            old(registry)@.wf(),
            old(registry)@.has_room(*batch.schema),
            batch.wf(),
        ensures
            live(head, final(pool), self.name_id),
            final(pool).same_place(old(pool)),
            conserved(head@, old(pool), head@, final(pool)),
            final(registry)@ == old(registry)@.interned(batch.schema),
            final(registry)@.wf(),
            match batch_refusal(batch.cols(), batch.num_rows as int, old(pool).longest()) {
                Some(e) => r is Err && r->Err_0 == e && final(pool)@ == old(pool)@,
                None => if allot(old(pool)@, batch_sizes(batch.cols(), old(pool).longest())) is None {
                    &&& r is Err
                    &&& r->Err_0 == BatchError::Core(Error::Exhausted)
                    &&& final(pool)@ == old(pool)@
                } else {
                    &&& r is Ok
                    &&& r->Ok_0@.len() <= u32::MAX
                    &&& batch_staged(
                        old(pool),
                        final(pool),
                        r->Ok_0@,
                        batch,
                        batch.id_in(old(registry)@),
                        owner,
                    )
                },
            },
    {
        let ghost p0 = *pool;
        let ghost schema_id = batch.id_in(registry@);
        let staged: Vec<ChunkDesc> = match write_batch_chunks(pool, registry, batch) {
            Ok(v) => v,
            Err(e) => {
                proof {
                    lemma_still_live(head, &p0, pool, self.name_id);
                }
                return Err(e);
            },
        };
        let ghost p1 = *pool;
        proof {
            lemma_written_loanable(
                &p0,
                &p1,
                staged@,
                batch.cols(),
                batch.num_rows as int,
                schema_id,
            );
            lemma_still_live(head, &p0, &p1, self.name_id);
            lemma_longest(p0@);
            lemma_sizes(batch.cols(), batch.num_rows as int, p0.longest());
        }
        loan_all(pool, &staged, owner);
        proof {
            assert(loaned(&p1, pool, staged@, owner));
            lemma_still_live(head, &p1, pool, self.name_id);
            assert(batch_staged(&p0, pool, staged@, batch, schema_id, owner));
            assert forall|i: int| 0 <= i < p0@.len() implies unaccounted(
                head@,
                pool.lay@,
                pool.segment_id,
                pool@,
                i,
            ) == #[trigger] unaccounted(head@, p0.lay@, p0.segment_id, p0@, i) by {
                assert(unaccounted(head@, p1.lay@, p1.segment_id, p1@, i) == unaccounted(
                    head@,
                    p0.lay@,
                    p0.segment_id,
                    p0@,
                    i,
                ));
            }
        }
        Ok(staged)
    }

    /// Install staged chunks as one batch of the next version.
    fn install_one(
        &self,
        head: &mut ArtifactHead,
        pool: &mut ChunkPool,
        expect: u64,
        owner: u32,
        commit: Commit,
        staged: &Vec<ChunkDesc>,
        schema_id: u32,
        lease_fence: Option<u32>,
    ) -> (r: Result<u64, Error>)
        requires
            live(old(head), old(pool), self.name_id),
            expect < u64::MAX,
            staged@.len() <= u32::MAX,
        ensures
            live(final(head), final(pool), self.name_id),
            conserved(old(head)@, old(pool), final(head)@, final(pool)),
            commit_outcome(
                *self,
                old(head)@,
                old(pool),
                final(head)@,
                final(pool),
                expect,
                owner,
                commit,
                staged@,
                seq![staged@.len() as u32],
                schema_id,
                lease_fence,
                r,
            ),
    {
        let mut spans: Vec<u32> = Vec::new();
        spans.push(staged.len() as u32);
        proof {
            assert(spans@ =~= seq![staged@.len() as u32]);
            assert(span_sum(spans@) == staged@.len()) by {
                assert(spans@.drop_last() =~= seq![]);
                assert(span_sum(spans@.drop_last()) == 0);
            }
        }
        self.commit_staged_inner(
            head,
            pool,
            expect,
            owner,
            commit,
            staged.as_slice(),
            spans.as_slice(),
            schema_id,
            lease_fence,
        )
    }

    /// Write a batch and install it as the next version.
    #[verifier::rlimit(60)]
    #[verifier::spinoff_prover]
    fn commit_inner(
        &self,
        head: &mut ArtifactHead,
        pool: &mut ChunkPool,
        registry: &mut SchemaRegistry,
        expect: u64,
        owner: u32,
        commit: Commit,
        batch: &Batch,
        lease_fence: Option<u32>,
    ) -> (r: Result<u64, CommitError>)
        requires
            live(old(head), old(pool), self.name_id),
            old(registry)@.wf(),
            old(registry)@.has_room(*batch.schema),
            batch.wf(),
            expect < u64::MAX,
        ensures
            live(final(head), final(pool), self.name_id),
            final(registry)@.wf(),
            batch_committed(
                *self,
                old(head)@,
                old(pool),
                old(registry)@,
                final(head)@,
                final(pool),
                final(registry)@,
                expect,
                owner,
                commit,
                batch,
                lease_fence,
                r,
            ),
    {
        if let Commit::Patch(_) = commit {
            return Err(CommitError::Artifact(Error::Unsupported("Patch commit deferred to v0.2")));
        }
        let ghost p0 = *pool;
        let ghost h0 = head@;
        let ghost schema = batch.id_in(registry@);
        let staged: Vec<ChunkDesc> = match self.stage_batch(head, pool, registry, owner, batch) {
            Ok(v) => v,
            Err(e) => {
                return Err(CommitError::Batch(e));
            },
        };
        let ghost p2 = *pool;
        let schema_id: u32 = match registry.id_for(&batch.schema) {
            Some(id) => id,
            None => RAW_SCHEMA_ID,
        };
        assert(schema_id == schema);
        let r: Result<u64, Error> = self.install_one(
            head,
            pool,
            expect,
            owner,
            commit,
            &staged,
            schema_id,
            lease_fence,
        );
        let w: Result<u64, CommitError> = wrapped(r);
        proof {
            assert(batch_staged(&p0, &p2, staged@, batch, schema, owner));
            assert(conserved(h0, &p0, head@, pool)) by {
                assert forall|i: int| 0 <= i < p0@.len() implies unaccounted(
                    head@,
                    pool.lay@,
                    pool.segment_id,
                    pool@,
                    i,
                ) == #[trigger] unaccounted(h0, p0.lay@, p0.segment_id, p0@, i) by {
                    assert(unaccounted(h0, p2.lay@, p2.segment_id, p2@, i) == unaccounted(
                        h0,
                        p0.lay@,
                        p0.segment_id,
                        p0@,
                        i,
                    ));
                }
            }
        }
        w
    }
}

impl Artifact {
    /// Write a batch and install it as the next version, expecting `current ==
    /// expect`, without a lease.
    pub fn commit_optimistic(
        &self,
        head: &mut ArtifactHead,
        pool: &mut ChunkPool,
        owner: u32,
        expect: u64,
        commit: Commit,
        batch: &Batch,
        registry: &mut SchemaRegistry,
    ) -> (r: Result<u64, CommitError>)
        requires
            live(old(head), old(pool), self.name_id),
            old(registry)@.wf(),
            old(registry)@.has_room(*batch.schema),
            batch.wf(),
            expect < u64::MAX,
        ensures
            live(final(head), final(pool), self.name_id),
            final(registry)@.wf(),
            batch_committed(
                *self,
                old(head)@,
                old(pool),
                old(registry)@,
                final(head)@,
                final(pool),
                final(registry)@,
                expect,
                owner,
                commit,
                batch,
                None,
                r,
            ),
    {
        self.commit_inner(head, pool, registry, expect, owner, commit, batch, None)
    }
}

impl Committer {
    /// Write a batch and install it as the next version, under the lease.
    pub fn commit(
        &self,
        head: &mut ArtifactHead,
        pool: &mut ChunkPool,
        commit: Commit,
        batch: &Batch,
        registry: &mut SchemaRegistry,
    ) -> (r: Result<u64, CommitError>)
        requires
            live(old(head), old(pool), self.artifact.name_id),
            old(registry)@.wf(),
            old(registry)@.has_room(*batch.schema),
            batch.wf(),
            old(head)@.current < u64::MAX,
        ensures
            live(final(head), final(pool), self.artifact.name_id),
            final(registry)@.wf(),
            batch_committed(
                self.artifact,
                old(head)@,
                old(pool),
                old(registry)@,
                final(head)@,
                final(pool),
                final(registry)@,
                old(head)@.current,
                self.owner,
                commit,
                batch,
                Some(self.token),
                r,
            ),
    {
        let expect: u64 = head.current;
        self.artifact.commit_inner(
            head,
            pool,
            registry,
            expect,
            self.owner,
            commit,
            batch,
            Some(self.token),
        )
    }

    /// Write a batch and install it as the next version, as `policy` says.
    pub fn commit_windowed(
        &self,
        head: &mut ArtifactHead,
        pool: &mut ChunkPool,
        policy: &WindowPolicy,
        batch: &Batch,
        registry: &mut SchemaRegistry,
    ) -> (r: Result<u64, CommitError>)
        requires
            live(old(head), old(pool), self.artifact.name_id),
            old(registry)@.wf(),
            old(registry)@.has_room(*batch.schema),
            batch.wf(),
            old(head)@.current < u64::MAX,
        ensures
            live(final(head), final(pool), self.artifact.name_id),
            final(registry)@.wf(),
            batch_committed(
                self.artifact,
                old(head)@,
                old(pool),
                old(registry)@,
                final(head)@,
                final(pool),
                final(registry)@,
                old(head)@.current,
                self.owner,
                policy.spec_commit(depth_of(old(head)@, old(pool))),
                batch,
                Some(self.token),
                r,
            ),
    {
        let depth: Option<u32> = self.artifact.current_depth(head, pool);
        self.commit(head, pool, policy.commit_for_depth(depth), batch, registry)
    }
}

/// What reading each group of chunks as a batch gives: the first refusal, or
/// every batch.
pub open spec fn all_read(
    pool: &ChunkPool,
    reg: RegistryView,
    g: Seq<Seq<ChunkDesc>>,
) -> Result<Seq<Seq<ReadView>>, BatchError>
    decreases g.len(),
{
    if g.len() == 0 {
        Ok(seq![])
    } else {
        match batch_read(pool, reg, g[0]) {
            Err(e) => Err(e),
            Ok((h, rs)) => match all_read(pool, reg, g.skip(1)) {
                Err(e) => Err(e),
                Ok(rest) => Ok(seq![rs] + rest),
            },
        }
    }
}

/// The columns of each batch.
pub open spec fn column_views(v: Seq<ReadBatch>) -> Seq<Seq<ReadView>> {
    Seq::new(v.len(), |i: int| read_views(v[i].columns@))
}

/// Whether `b` is the batch in the chunks `s`, with its schema and row count.
pub open spec fn is_located(
    pool: &ChunkPool,
    reg: RegistryView,
    s: Seq<ChunkDesc>,
    b: ReadBatch,
) -> bool {
    batch_read(pool, reg, s) matches Ok((h, rs)) && b.schema == reg.by_id[h.schema_id] && b.row_count
        == h.row_count && read_views(b.columns@) == rs
}

/// Read each group of chunks as a batch.
fn read_groups(pool: &ChunkPool, g: &Vec<Vec<ChunkDesc>>, registry: &SchemaRegistry) -> (r: Result<
    Vec<ReadBatch>,
    BatchError,
>)
    requires
        pool.wf(),
    ensures
        match all_read(pool, registry@, groups(g@)) {
            Err(e) => r is Err && r->Err_0 == e,
            Ok(v) => r is Ok && column_views(r->Ok_0@) == v,
        },
        r matches Ok(v) ==> v@.len() == g@.len() && forall|i: int|
            0 <= i < v@.len() ==> is_located(pool, registry@, groups(g@)[i], #[trigger] v@[i]),
{
    let ghost gv = groups(g@);
    let mut out: Vec<ReadBatch> = Vec::new();
    let n: usize = g.len();
    let mut i: usize = 0;
    proof {
        assert(gv.skip(0) =~= gv);
        assert(column_views(out@) =~= seq![]);
        if all_read(pool, registry@, gv) is Ok {
            assert(column_views(out@) + all_read(pool, registry@, gv)->Ok_0 =~= all_read(
                pool,
                registry@,
                gv,
            )->Ok_0);
        }
    }
    while i < n
        invariant
            pool.wf(),
            n == g@.len(),
            gv == groups(g@),
            i <= n,
            out@.len() == i,
            forall|k: int| 0 <= k < i ==> is_located(pool, registry@, gv[k], #[trigger] out@[k]),
            reads_on(
                all_read(pool, registry@, gv),
                column_views(out@),
                all_read(pool, registry@, gv.skip(i as int)),
            ),
        decreases n - i,
    {
        let ghost o0 = column_views(out@);
        let ghost before = all_read(pool, registry@, gv.skip(i as int));
        proof {
            assert(gv.skip(i as int)[0] == g@[i as int]@);
            assert(gv.skip(i as int).skip(1) =~= gv.skip(i + 1));
        }
        match locate_batch_chunks(pool, g[i].as_slice(), registry) {
            Err(e) => {
                return Err(e);
            },
            Ok(b) => {
                let ghost v = read_views(b.columns@);
                out.push(b);
                proof {
                    let after = all_read(pool, registry@, gv.skip(i + 1));
                    assert(column_views(out@) =~= o0.push(v));
                    if before is Ok {
                        assert(o0 + (seq![v] + after->Ok_0) =~= o0.push(v) + after->Ok_0);
                    }
                }
            },
        }
        i = i + 1;
    }
    proof {
        assert(column_views(out@) + Seq::<Seq<ReadView>>::empty() =~= column_views(out@));
    }
    Ok(out)
}

/// Whether reading as a whole gives what was read so far, followed by what
/// reading on gives.
spec fn reads_on(
    all: Result<Seq<Seq<ReadView>>, BatchError>,
    so_far: Seq<Seq<ReadView>>,
    on: Result<Seq<Seq<ReadView>>, BatchError>,
) -> bool {
    match on {
        Err(e) => all == Err::<Seq<Seq<ReadView>>, BatchError>(e),
        Ok(rs) => all == Ok::<Seq<Seq<ReadView>>, BatchError>(so_far + rs),
    }
}

impl VersionPin {
    /// Where the batches of the pinned version lie, in row order. Nothing is
    /// copied.
    pub fn located_batches(&self, pool: &ChunkPool, registry: &SchemaRegistry) -> (r: Result<
        Vec<ReadBatch>,
        CommitError,
    >)
        requires
            self.frozen(pool),
        ensures
            if !exact_totals(self.table(pool)) {
                r is Err && r->Err_0 == CommitError::Artifact(Error::VersionGone)
            } else {
                match all_read(pool, registry@, batches(self.table(pool))) {
                    Err(e) => r is Err && r->Err_0 == CommitError::Batch(e),
                    Ok(v) => r is Ok && column_views(r->Ok_0@) == v,
                }
            },
            r matches Ok(v) ==> v@.len() == batches(self.table(pool)).len() && forall|i: int|
                0 <= i < v@.len() ==> is_located(
                    pool,
                    registry@,
                    batches(self.table(pool))[i],
                    #[trigger] v@[i],
                ),
    {
        let g: Vec<Vec<ChunkDesc>> = match self.batches(pool) {
            Ok(g) => g,
            Err(e) => {
                return Err(CommitError::Artifact(e));
            },
        };
        match read_groups(pool, &g, registry) {
            Ok(v) => Ok(v),
            Err(e) => Err(CommitError::Batch(e)),
        }
    }
}

} // verus!
