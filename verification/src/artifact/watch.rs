//! Commits that give their notice: whoever watches an artifact is handed it.
use vstd::prelude::*;

use crate::artifact::batches::{batch_committed, CommitError};
use crate::artifact::commit::Commit;
use crate::artifact::error::Error;
use crate::artifact::event::VersionEvent;
use crate::artifact::handle::Artifact;
use crate::artifact::head::{ArtifactHead, NO_VERSION};
use crate::artifact::journal::BorrowJournal;
use crate::artifact::lease::{commit_outcome, Committer};
use crate::artifact::live::live;
use crate::artifact::manifest::span_sum;
use crate::artifact::policy::{depth_of, WindowPolicy};
use crate::artifact::pool::ChunkPool;
use crate::batch::schema::SchemaRegistry;
use crate::batch::write::Batch;
use crate::chunk::ChunkDesc;

verus! {

/// What a commit came to, without the notice.
pub open spec fn quiet<E>(r: Result<(u64, VersionEvent), E>) -> Result<u64, E> {
    match r {
        Ok((v, _)) => Ok(v),
        Err(e) => Err(e),
    }
}

/// The notice that version `v` of an artifact gives.
pub open spec fn notice(name_id: u32, v: u64, commit: Commit) -> VersionEvent {
    VersionEvent { version: v, name_id, kind: commit.spec_kind().spec_as_u32() }
}

/// Whether a commit that succeeds gives its notice.
pub open spec fn noticed<E>(
    r: Result<(u64, VersionEvent), E>,
    name_id: u32,
    commit: Commit,
) -> bool {
    r matches Ok((v, e)) ==> e == notice(name_id, v, commit)
}

/// What a commit came to, with the notice if it succeeded.
fn with_notice<E>(name_id: u32, commit: &Commit, r: Result<u64, E>) -> (n: Result<
    (u64, VersionEvent),
    E,
>)
    ensures
        quiet(n) == r,
        noticed(n, name_id, *commit),
{
    match r {
        Ok(v) => Ok((v, VersionEvent::new(name_id, v, commit.kind()))),
        Err(e) => Err(e),
    }
}

impl Artifact {
    /// Install staged chunks as the next version, with a journal, and give notice:
    /// one, of the version that was installed, if and only if one was.
    pub fn commit_staged_inner_noticed(
        &self,
        head: &mut ArtifactHead,
        pool: &mut ChunkPool,
        journal: &mut BorrowJournal,
        expect: u64,
        owner: u32,
        commit: Commit,
        staged: &[ChunkDesc],
        staged_spans: &[u32],
        schema_id: u32,
        lease_fence: Option<u32>,
    ) -> (r: Result<(u64, VersionEvent), Error>)
        requires
            live(old(head), old(pool), self.name_id),
            span_sum(staged_spans@) == staged@.len(),
            expect < u64::MAX,
        ensures
            live(final(head), final(pool), self.name_id),
            final(journal)@ == old(journal)@,
            commit_outcome(
                *self,
                old(head)@,
                old(pool),
                final(head)@,
                final(pool),
                expect,
                owner,
                commit,
                staged@,
                staged_spans@,
                schema_id,
                lease_fence,
                quiet(r),
            ),
            noticed(r, self.name_id, commit),
    {
        let r: Result<u64, Error> = self.commit_staged_inner_j(
            head,
            pool,
            journal,
            expect,
            owner,
            commit,
            staged,
            staged_spans,
            schema_id,
            lease_fence,
        );
        with_notice(self.name_id, &commit, r)
    }

    /// Commit a batch without a lease, and give notice.
    pub fn commit_optimistic_noticed(
        &self,
        head: &mut ArtifactHead,
        pool: &mut ChunkPool,
        owner: u32,
        expect: u64,
        commit: Commit,
        batch: &Batch,
        registry: &mut SchemaRegistry,
    ) -> (r: Result<(u64, VersionEvent), CommitError>)
        requires
            live(old(head), old(pool), self.name_id),
            old(registry)@.wf(),
            old(registry)@.has_room(*batch.schema),
            batch.wf(),
            expect < u64::MAX,
        ensures
            live(final(head), final(pool), self.name_id),
            final(registry)@.wf(),
            batch_committed(
                *self,
                old(head)@,
                old(pool),
                old(registry)@,
                final(head)@,
                final(pool),
                final(registry)@,
                expect,
                owner,
                commit,
                batch,
                None,
                quiet(r),
            ),
            noticed(r, self.name_id, commit),
    {
        let r: Result<u64, CommitError> = self.commit_optimistic(
            head,
            pool,
            owner,
            expect,
            commit,
            batch,
            registry,
        );
        with_notice(self.name_id, &commit, r)
    }

    /// Commit staged chunks without a lease, and give notice.
    pub fn commit_staged_optimistic_noticed(
        &self,
        head: &mut ArtifactHead,
        pool: &mut ChunkPool,
        owner: u32,
        expect: u64,
        commit: Commit,
        staged: &[ChunkDesc],
        batch_spans: &[u32],
        schema_id: u32,
    ) -> (r: Result<(u64, VersionEvent), Error>)
        requires
            live(old(head), old(pool), self.name_id),
            span_sum(batch_spans@) == staged@.len(),
            expect < u64::MAX,
        ensures
            live(final(head), final(pool), self.name_id),
            commit_outcome(
                *self,
                old(head)@,
                old(pool),
                final(head)@,
                final(pool),
                expect,
                owner,
                commit,
                staged@,
                batch_spans@,
                schema_id,
                None,
                quiet(r),
            ),
            noticed(r, self.name_id, commit),
    {
        let r: Result<u64, Error> = self.commit_staged_optimistic(
            head,
            pool,
            owner,
            expect,
            commit,
            staged,
            batch_spans,
            schema_id,
        );
        with_notice(self.name_id, &commit, r)
    }
}

impl Committer {
    /// Commit a batch under the lease, and give notice.
    pub fn commit_noticed(
        &self,
        head: &mut ArtifactHead,
        pool: &mut ChunkPool,
        commit: Commit,
        batch: &Batch,
        registry: &mut SchemaRegistry,
    ) -> (r: Result<(u64, VersionEvent), CommitError>)
        requires
            live(old(head), old(pool), self.artifact.name_id),
            old(registry)@.wf(),
            old(registry)@.has_room(*batch.schema),
            batch.wf(),
            old(head)@.current < u64::MAX,
        ensures
            live(final(head), final(pool), self.artifact.name_id),
            final(registry)@.wf(),
            batch_committed(
                self.artifact,
                old(head)@,
                old(pool),
                old(registry)@,
                final(head)@,
                final(pool),
                final(registry)@,
                old(head)@.current,
                self.owner,
                commit,
                batch,
                Some(self.token),
                quiet(r),
            ),
            noticed(r, self.artifact.name_id, commit),
    {
        let r: Result<u64, CommitError> = self.commit(head, pool, commit, batch, registry);
        with_notice(self.artifact.name_id, &commit, r)
    }

    /// Commit staged chunks under the lease, and give notice.
    pub fn commit_staged_noticed(
        &self,
        head: &mut ArtifactHead,
        pool: &mut ChunkPool,
        commit: Commit,
        staged: &[ChunkDesc],
        batch_spans: &[u32],
        schema_id: u32,
    ) -> (r: Result<(u64, VersionEvent), Error>)
        requires
            live(old(head), old(pool), self.artifact.name_id),
            span_sum(batch_spans@) == staged@.len(),
            old(head)@.current < u64::MAX,
        ensures
            live(final(head), final(pool), self.artifact.name_id),
            commit_outcome(
                self.artifact,
                old(head)@,
                old(pool),
                final(head)@,
                final(pool),
                old(head)@.current,
                self.owner,
                commit,
                staged@,
                batch_spans@,
                schema_id,
                Some(self.token),
                quiet(r),
            ),
            noticed(r, self.artifact.name_id, commit),
    {
        let r: Result<u64, Error> = self.commit_staged(
            head,
            pool,
            commit,
            staged,
            batch_spans,
            schema_id,
        );
        with_notice(self.artifact.name_id, &commit, r)
    }

    /// Commit a batch as `policy` says, and give notice.
    pub fn commit_windowed_noticed(
        &self,
        head: &mut ArtifactHead,
        pool: &mut ChunkPool,
        policy: &WindowPolicy,
        batch: &Batch,
        registry: &mut SchemaRegistry,
    ) -> (r: Result<(u64, VersionEvent), CommitError>)
        requires
            live(old(head), old(pool), self.artifact.name_id),
            old(registry)@.wf(),
            old(registry)@.has_room(*batch.schema),
            batch.wf(),
            old(head)@.current < u64::MAX,
        ensures
            live(final(head), final(pool), self.artifact.name_id),
            final(registry)@.wf(),
            batch_committed(
                self.artifact,
                old(head)@,
                old(pool),
                old(registry)@,
                final(head)@,
                final(pool),
                final(registry)@,
                old(head)@.current,
                self.owner,
                policy.spec_commit(depth_of(old(head)@, old(pool))),
                batch,
                Some(self.token),
                quiet(r),
            ),
            noticed(
                r,
                self.artifact.name_id,
                policy.spec_commit(depth_of(old(head)@, old(pool))),
            ),
    {
        let depth: Option<u32> = self.artifact.current_depth(head, pool);
        self.commit_noticed(head, pool, policy.commit_for_depth(depth), batch, registry)
    }

    /// Replace the current version by an empty one under the lease, and give
    /// notice.
    pub fn evict_current_noticed(&self, head: &mut ArtifactHead, pool: &mut ChunkPool) -> (r: Result<
        (u64, VersionEvent),
        Error,
    >)
        requires
            live(old(head), old(pool), self.artifact.name_id),
            old(head)@.current < u64::MAX,
        ensures
            live(final(head), final(pool), self.artifact.name_id),
            old(head)@.current == NO_VERSION ==> quiet(r) == Err::<u64, Error>(Error::VersionGone)
                && final(head)@ == old(head)@ && final(pool)@ == old(pool)@,
            old(head)@.current != NO_VERSION ==> commit_outcome(
                self.artifact,
                old(head)@,
                old(pool),
                final(head)@,
                final(pool),
                old(head)@.current,
                self.owner,
                Commit::Replace,
                seq![],
                seq![],
                old(head)@.schema_id,
                Some(self.token),
                quiet(r),
            ),
            noticed(r, self.artifact.name_id, Commit::Replace),
    {
        let r: Result<u64, Error> = self.evict_current(head, pool);
        with_notice(self.artifact.name_id, &Commit::Replace, r)
    }
}

} // verus!
