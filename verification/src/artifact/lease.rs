//! The exclusive writer.
use vstd::prelude::*;

use crate::artifact::commit::Commit;
use crate::artifact::error::Error;
use crate::artifact::handle::Artifact;
use crate::artifact::head::{
    fence_of, lease_word, next_fence, owner_of, ArtifactHead, HeadView, NO_VERSION, OWNER_NONE,
};
use crate::artifact::install::{committed, early_refusal, gave_back, late_refusal};
use crate::artifact::journal::{BorrowJournal, JournalRecord};
use crate::artifact::live::{conserved, live};
use crate::artifact::manifest::span_sum;
use crate::artifact::pool::ChunkPool;
use crate::artifact::staging::{stage_error, stageable};
use crate::chunk::ChunkDesc;

verus! {

/// The holder of the exclusive write lease, bound to the fence it was taken
/// under.
#[derive(Debug)]
pub struct Committer {
    pub artifact: Artifact,
    pub owner: u32,
    pub token: u32,
    /// The journal slot that records the lease, if it is journaled.
    pub lease_slot: Option<usize>,
}

/// The head with the lease word `w`.
pub open spec fn with_lease(h: HeadView, w: u64) -> HeadView {
    HeadView { write_lease: w, ..h }
}

/// The head after a lease was taken and given back at once.
pub open spec fn lease_bounced(h: HeadView) -> HeadView {
    with_lease(h, lease_word(OWNER_NONE, next_fence(fence_of(h.write_lease))))
}

/// Why the lease is refused.
pub open spec fn open_refusal(art: Artifact, h: HeadView) -> Option<Error> {
    if owner_of(h.write_lease) != OWNER_NONE {
        Some(Error::WriteLocked)
    } else if h.incarnation != art.incarnation {
        Some(Error::Stale)
    } else {
        None
    }
}

/// Whether `c` is the holder that taking the lease on `h` for `owner` makes.
pub open spec fn opened(art: Artifact, h: HeadView, owner: u32, c: Committer) -> bool {
    &&& c.artifact == art
    &&& c.owner == owner
    &&& c.token == fence_of(h.write_lease)
}

impl Artifact {
    /// Take the exclusive write lease. It is taken before the occupant is
    /// checked, so that whoever recycles the head sees it.
    pub fn open_exclusive(&self, head: &mut ArtifactHead, owner: u32) -> (r: Result<Committer, Error>)
        ensures
            match open_refusal(*self, old(head)@) {
                Some(e) => r is Err && r->Err_0 == e && final(head)@ == if e == Error::Stale {
                    lease_bounced(old(head)@)
                } else {
                    old(head)@
                },
                None => {
                    &&& r is Ok
                    &&& opened(*self, old(head)@, owner, r->Ok_0)
                    &&& r->Ok_0.lease_slot is None
                    &&& final(head)@ == with_lease(
                        old(head)@,
                        lease_word(owner, fence_of(old(head)@.write_lease)),
                    )
                },
            },
    {
        match head.acquire_write_lease(owner) {
            None => Err(Error::WriteLocked),
            Some(token) => {
                if !head.revalidate_incarnation(self.incarnation) {
                    head.release_write_lease(owner, token);
                    return Err(Error::Stale);
                }
                Ok(Committer { artifact: *self, owner, token, lease_slot: None })
            },
        }
    }

    /// Take the exclusive write lease and record it in the journal, so that it
    /// can be given back if the writer dies. If the journal is full the lease
    /// is given back at once.
    pub fn open_exclusive_journaled(
        &self,
        head: &mut ArtifactHead,
        owner: u32,
        journal: &mut BorrowJournal,
    ) -> (r: Result<Committer, Error>)
        ensures
            r is Err ==> final(journal)@ == old(journal)@,
            match open_refusal(*self, old(head)@) {
                Some(e) => r is Err && r->Err_0 == e && final(head)@ == if e == Error::Stale {
                    lease_bounced(old(head)@)
                } else {
                    old(head)@
                },
                None => if forall|j: int|
                    0 <= j < old(journal)@.len() ==> (#[trigger] old(journal)@[j]) is Some {
                    &&& r is Err
                    &&& r->Err_0 == Error::JournalFull
                    &&& final(head)@ == lease_bounced(old(head)@)
                } else {
                    &&& r is Ok
                    &&& opened(*self, old(head)@, owner, r->Ok_0)
                    &&& final(head)@ == with_lease(
                        old(head)@,
                        lease_word(owner, fence_of(old(head)@.write_lease)),
                    )
                    &&& r->Ok_0.lease_slot is Some
                    &&& ({
                        let j = r->Ok_0.lease_slot->Some_0 as int;
                        &&& 0 <= j < old(journal)@.len()
                        &&& old(journal)@[j] is None
                        &&& final(journal)@ == old(journal)@.update(
                            j,
                            Some(
                                JournalRecord::WriteLease {
                                    artifact_id: self.name_id,
                                    incarnation: self.incarnation,
                                    fence: r->Ok_0.token,
                                },
                            ),
                        )
                    })
                },
            },
    {
        let mut c: Committer = match self.open_exclusive(head, owner) {
            Ok(c) => c,
            Err(e) => {
                return Err(e);
            },
        };
        let rec = JournalRecord::WriteLease {
            artifact_id: self.name_id,
            incarnation: self.incarnation,
            fence: c.token,
        };
        match journal.record(rec) {
            Ok(slot) => {
                c.lease_slot = Some(slot);
                Ok(c)
            },
            Err(e) => {
                head.release_write_lease(owner, c.token);
                Err(e)
            },
        }
    }

    /// Release a lease whose holder is gone and advance the fence, so that its
    /// late commits are refused; whether it was held.
    pub fn release_leaked_write_lease(&self, head: &mut ArtifactHead) -> (was_held: bool)
        ensures
            was_held == (owner_of(old(head)@.write_lease) != OWNER_NONE),
            final(head)@ == if was_held {
                lease_bounced(old(head)@)
            } else {
                old(head)@
            },
    {
        head.force_release_write_lease()
    }

    /// Who holds the lease; `0` if nobody.
    pub fn write_lease_owner(&self, head: &ArtifactHead) -> (owner: u32)
        ensures
            owner == owner_of(head@.write_lease),
    {
        head.write_lease_owner()
    }
}

/// What every commit promises, on success and on failure.
pub open spec fn commit_outcome(
    art: Artifact,
    h0: HeadView,
    p0: &ChunkPool,
    h1: HeadView,
    p1: &ChunkPool,
    expect: u64,
    owner: u32,
    commit: Commit,
    staged: Seq<ChunkDesc>,
    spans: Seq<u32>,
    schema_id: u32,
    lease_fence: Option<u32>,
    r: Result<u64, Error>,
) -> bool {
    let patch = h0.incarnation == art.incarnation && commit is Patch;
    &&& conserved(h0, p0, h1, p1)
    &&& match early_refusal(art, h0, owner, commit, lease_fence) {
        Some(e) => r == Err::<u64, Error>(e),
        None => if !stageable(p0.lay@, p0.segment_id, p0@, staged) {
            r == Err::<u64, Error>(stage_error(p0.lay@, p0.segment_id, p0@, staged))
        } else {
            match late_refusal(h0, p0, expect, commit, staged, spans, schema_id) {
                Some(e) => r == Err::<u64, Error>(e),
                None => r == Ok::<u64, Error>((expect + 1) as u64),
            }
        },
    }
    &&& r is Err ==> h1 == h0
    &&& r is Err && patch ==> p1@ == p0@
    &&& r is Err && !patch ==> gave_back(p0, p1, staged)
    &&& r is Ok ==> committed(h0, p0, h1, p1, art.name_id, expect, commit, staged, spans, schema_id)
}

impl Artifact {
    /// Install staged chunks as the next version, expecting `current ==
    /// expect`. No lease is taken: of several such writers the one that moves
    /// `current` first wins, the others are told `Conflict`.
    pub fn commit_staged_optimistic(
        &self,
        head: &mut ArtifactHead,
        pool: &mut ChunkPool,
        owner: u32,
        expect: u64,
        commit: Commit,
        staged: &[ChunkDesc],
        batch_spans: &[u32],
        schema_id: u32,
    ) -> (r: Result<u64, Error>)
        requires
            live(old(head), old(pool), self.name_id),
            span_sum(batch_spans@) == staged@.len(),
            expect < u64::MAX,
        ensures
            live(final(head), final(pool), self.name_id),
            commit_outcome(
                *self,
                old(head)@,
                old(pool),
                final(head)@,
                final(pool),
                expect,
                owner,
                commit,
                staged@,
                batch_spans@,
                schema_id,
                None,
                r,
            ),
    {
        self.commit_staged_inner(
            head,
            pool,
            expect,
            owner,
            commit,
            staged,
            batch_spans,
            schema_id,
            None,
        )
    }

    /// The same with the staged manifest on record in the journal until it is
    /// installed or undone.
    pub fn commit_staged_optimistic_journaled(
        &self,
        head: &mut ArtifactHead,
        pool: &mut ChunkPool,
        owner: u32,
        expect: u64,
        commit: Commit,
        staged: &[ChunkDesc],
        batch_spans: &[u32],
        schema_id: u32,
        journal: &mut BorrowJournal,
    ) -> (r: Result<u64, Error>)
        requires
            live(old(head), old(pool), self.name_id),
            span_sum(batch_spans@) == staged@.len(),
            expect < u64::MAX,
        ensures
            live(final(head), final(pool), self.name_id),
            final(journal)@ == old(journal)@,
            commit_outcome(
                *self,
                old(head)@,
                old(pool),
                final(head)@,
                final(pool),
                expect,
                owner,
                commit,
                staged@,
                batch_spans@,
                schema_id,
                None,
                r,
            ),
    {
        self.commit_staged_inner_j(
            head,
            pool,
            journal,
            expect,
            owner,
            commit,
            staged,
            batch_spans,
            schema_id,
            None,
        )
    }

    /// Replace the current version by an empty one, expecting `current ==
    /// expect`. The version sequence goes on.
    pub fn evict_current_optimistic(
        &self,
        head: &mut ArtifactHead,
        pool: &mut ChunkPool,
        owner: u32,
        expect: u64,
    ) -> (r: Result<u64, Error>)
        requires
            live(old(head), old(pool), self.name_id),
            expect < u64::MAX,
        ensures
            live(final(head), final(pool), self.name_id),
            expect == NO_VERSION ==> r == Err::<u64, Error>(Error::VersionGone) && final(head)@ == old(head)@ && final(pool)@ == old(pool)@,
            expect != NO_VERSION ==> commit_outcome(
                *self,
                old(head)@,
                old(pool),
                final(head)@,
                final(pool),
                expect,
                owner,
                Commit::Replace,
                seq![],
                seq![],
                old(head)@.schema_id,
                None,
                r,
            ),
    {
        self.evict_inner(head, pool, owner, expect, None)
    }

    fn evict_inner(
        &self,
        head: &mut ArtifactHead,
        pool: &mut ChunkPool,
        owner: u32,
        expect: u64,
        lease_fence: Option<u32>,
    ) -> (r: Result<u64, Error>)
        requires
            live(old(head), old(pool), self.name_id),
            expect < u64::MAX,
        ensures
            live(final(head), final(pool), self.name_id),
            expect == NO_VERSION ==> r == Err::<u64, Error>(Error::VersionGone) && final(head)@ == old(head)@ && final(pool)@ == old(pool)@,
            expect != NO_VERSION ==> commit_outcome(
                *self,
                old(head)@,
                old(pool),
                final(head)@,
                final(pool),
                expect,
                owner,
                Commit::Replace,
                seq![],
                seq![],
                old(head)@.schema_id,
                lease_fence,
                r,
            ),
    {
        if expect == NO_VERSION {
            return Err(Error::VersionGone);
        }
        let schema_id: u32 = head.schema_id;
        let none: Vec<ChunkDesc> = Vec::new();
        let no_spans: Vec<u32> = Vec::new();
        proof {
            assert(none@ =~= seq![]);
            assert(no_spans@ =~= seq![]);
        }
        self.commit_staged_inner(
            head,
            pool,
            expect,
            owner,
            Commit::Replace,
            none.as_slice(),
            no_spans.as_slice(),
            schema_id,
            lease_fence,
        )
    }
}

impl Committer {
    /// Install staged chunks as the next version, under the lease.
    pub fn commit_staged(
        &self,
        head: &mut ArtifactHead,
        pool: &mut ChunkPool,
        commit: Commit,
        staged: &[ChunkDesc],
        batch_spans: &[u32],
        schema_id: u32,
    ) -> (r: Result<u64, Error>)
        requires
            live(old(head), old(pool), self.artifact.name_id),
            span_sum(batch_spans@) == staged@.len(),
            old(head)@.current < u64::MAX,
        ensures
            live(final(head), final(pool), self.artifact.name_id),
            commit_outcome(
                self.artifact,
                old(head)@,
                old(pool),
                final(head)@,
                final(pool),
                old(head)@.current,
                self.owner,
                commit,
                staged@,
                batch_spans@,
                schema_id,
                Some(self.token),
                r,
            ),
    {
        let expect: u64 = head.current;
        self.artifact.commit_staged_inner(
            head,
            pool,
            expect,
            self.owner,
            commit,
            staged,
            batch_spans,
            schema_id,
            Some(self.token),
        )
    }

    /// The same for a holder with a journal: the staged manifest is on record
    /// until it is installed or undone.
    pub fn commit_staged_journaled(
        &self,
        head: &mut ArtifactHead,
        pool: &mut ChunkPool,
        commit: Commit,
        staged: &[ChunkDesc],
        batch_spans: &[u32],
        schema_id: u32,
        journal: &mut BorrowJournal,
    ) -> (r: Result<u64, Error>)
        requires
            live(old(head), old(pool), self.artifact.name_id),
            span_sum(batch_spans@) == staged@.len(),
            old(head)@.current < u64::MAX,
        ensures
            live(final(head), final(pool), self.artifact.name_id),
            final(journal)@ == old(journal)@,
            commit_outcome(
                self.artifact,
                old(head)@,
                old(pool),
                final(head)@,
                final(pool),
                old(head)@.current,
                self.owner,
                commit,
                staged@,
                batch_spans@,
                schema_id,
                Some(self.token),
                r,
            ),
    {
        let expect: u64 = head.current;
        self.artifact.commit_staged_inner_j(
            head,
            pool,
            journal,
            expect,
            self.owner,
            commit,
            staged,
            batch_spans,
            schema_id,
            Some(self.token),
        )
    }

    /// Replace the current version by an empty one, under the lease.
    pub fn evict_current(&self, head: &mut ArtifactHead, pool: &mut ChunkPool) -> (r: Result<u64, Error>)
        requires
            live(old(head), old(pool), self.artifact.name_id),
            old(head)@.current < u64::MAX,
        ensures
            live(final(head), final(pool), self.artifact.name_id),
            old(head)@.current == NO_VERSION ==> r == Err::<u64, Error>(Error::VersionGone)
                && final(head)@ == old(head)@ && final(pool)@ == old(pool)@,
            old(head)@.current != NO_VERSION ==> commit_outcome(
                self.artifact,
                old(head)@,
                old(pool),
                final(head)@,
                final(pool),
                old(head)@.current,
                self.owner,
                Commit::Replace,
                seq![],
                seq![],
                old(head)@.schema_id,
                Some(self.token),
                r,
            ),
    {
        let expect: u64 = head.current;
        self.artifact.evict_inner(head, pool, self.owner, expect, Some(self.token))
    }

    /// The actor that holds the lease.
    pub fn owner(&self) -> (o: u32)
        ensures
            o == self.owner,
    {
        self.owner
    }

    /// The fence the lease was taken under.
    pub fn fence_token(&self) -> (t: u32)
        ensures
            t == self.token,
    {
        self.token
    }

    /// Give the lease back, if it is still this holder's; whether it was.
    pub fn close(self, head: &mut ArtifactHead) -> (ok: bool)
        ensures
            ok == (old(head)@.write_lease == lease_word(self.owner, self.token)),
            final(head)@ == if ok {
                with_lease(old(head)@, lease_word(OWNER_NONE, next_fence(self.token)))
            } else {
                old(head)@
            },
    {
        head.release_write_lease(self.owner, self.token)
    }

    /// Give a journaled lease back: the journal slot first, and the lease only
    /// if the slot was still this holder's.
    pub fn close_journaled(self, head: &mut ArtifactHead, journal: &mut BorrowJournal) -> (ok: bool)
        requires
            self.lease_slot is Some,
        ensures
            ({
                let j = self.lease_slot->Some_0;
                let won = j < old(journal)@.len() && old(journal)@[j as int] is Some;
                &&& ok == (won && old(head)@.write_lease == lease_word(self.owner, self.token))
                &&& final(journal)@ == if won {
                    old(journal)@.update(j as int, None)
                } else {
                    old(journal)@
                }
                &&& final(head)@ == if ok {
                    with_lease(old(head)@, lease_word(OWNER_NONE, next_fence(self.token)))
                } else {
                    old(head)@
                }
            }),
    {
        if let Some(j) = self.lease_slot {
            if !journal.release(j) {
                return false;
            }
        }
        self.close(head)
    }
}

} // verus!
