//! How often to re-root a stream.
use vstd::prelude::*;

use crate::artifact::commit::{base_for, version_manifest, version_story, Base, Commit};
use crate::artifact::error::Error;
use crate::artifact::head::{ArtifactHead, HeadView, NO_VERSION};
use crate::artifact::install::committed;
use crate::artifact::lease::{commit_outcome, Committer};
use crate::artifact::live::{current_table, live};
use crate::artifact::manifest::{span_sum, ManifestView};
use crate::artifact::pool::ChunkPool;
use crate::artifact::window::{batches, cut};
use crate::chunk::ChunkDesc;

verus! {

/// Append until the chain is `max_depth` manifests long, then re-root on the
/// newest `keep_batches` batches.
#[derive(Clone, Copy, Debug, PartialEq, Eq, Structural)]
pub struct WindowPolicy {
    pub keep_batches: u32,
    pub max_depth: u32,
}

impl WindowPolicy {
    /// Keep `keep_batches` batches and let the chain grow as long.
    pub fn new(keep_batches: u32) -> (p: WindowPolicy)
        ensures
            p == (WindowPolicy { keep_batches, max_depth: keep_batches }),
    {
        WindowPolicy { keep_batches, max_depth: keep_batches }
    }

    /// What to commit on top of a chain of depth `depth`, `None` if nothing is
    /// committed.
    pub open spec fn spec_commit(self, depth: Option<u32>) -> Commit {
        match depth {
            Some(d) => if d + 1 >= self.max_depth {
                Commit::Window { keep_batches: self.keep_batches }
            } else {
                Commit::Append
            },
            None => Commit::Window { keep_batches: self.keep_batches },
        }
    }

    /// What to commit on top of a chain of depth `depth`, `None` if nothing is
    /// committed.
    pub fn commit_for_depth(&self, depth: Option<u32>) -> (c: Commit)
        ensures
            c == self.spec_commit(depth),
    {
        match depth {
            Some(d) => if d as u64 + 1 >= self.max_depth as u64 {
                Commit::Window { keep_batches: self.keep_batches }
            } else {
                Commit::Append
            },
            None => Commit::Window { keep_batches: self.keep_batches },
        }
    }
}

/// The depth of the current version's chain.
pub open spec fn depth_of(h: HeadView, pool: &ChunkPool) -> Option<u32> {
    if h.current == NO_VERSION {
        None
    } else {
        Some(current_table(h, pool.lay@, pool@).last().depth)
    }
}

impl Committer {
    /// Install staged chunks as the next version, as `policy` says.
    pub fn commit_staged_windowed(
        &self,
        head: &mut ArtifactHead,
        pool: &mut ChunkPool,
        policy: &WindowPolicy,
        staged: &[ChunkDesc],
        batch_spans: &[u32],
        schema_id: u32,
    ) -> (r: Result<u64, Error>)
        requires
            live(old(head), old(pool), self.artifact.name_id),
            span_sum(batch_spans@) == staged@.len(),
            old(head)@.current < u64::MAX,
        ensures
            live(final(head), final(pool), self.artifact.name_id),
            commit_outcome(
                self.artifact,
                old(head)@,
                old(pool),
                final(head)@,
                final(pool),
                old(head)@.current,
                self.owner,
                policy.spec_commit(depth_of(old(head)@, old(pool))),
                staged@,
                batch_spans@,
                schema_id,
                Some(self.token),
                r,
            ),
    {
        let depth: Option<u32> = self.artifact.current_depth(head, pool);
        let commit: Commit = policy.commit_for_depth(depth);
        self.commit_staged(head, pool, commit, staged, batch_spans, schema_id)
    }
}

/// Whether the current table is within what the policy allows: the chain is
/// shorter than its limit, and besides the kept batches there is at most one
/// for each manifest of the chain.
pub open spec fn within(policy: WindowPolicy, t: Seq<ManifestView>) -> bool {
    &&& t.last().depth < policy.max_depth
    &&& batches(t).len() <= policy.keep_batches + 1 + t.last().depth
}

/// Under a policy, one batch at a time, the chain and the table stay bounded
/// for ever.
pub proof fn policy_bounds_the_table(
    policy: WindowPolicy,
    h0: HeadView,
    p0: &ChunkPool,
    h1: HeadView,
    p1: &ChunkPool,
    name_id: u32,
    staged: Seq<ChunkDesc>,
    spans: Seq<u32>,
    schema_id: u32,
)
    requires
        policy.max_depth > 0,
        spans.len() == 1,
        committed(
            h0,
            p0,
            h1,
            p1,
            name_id,
            h0.current,
            policy.spec_commit(depth_of(h0, p0)),
            staged,
            spans,
            schema_id,
        ),
        h0.current != NO_VERSION ==> within(policy, current_table(h0, p0.lay@, p0@)),
    ensures
        within(policy, current_table(h1, p1.lay@, p1@)),
        batches(current_table(h1, p1.lay@, p1@)).len() <= policy.keep_batches + policy.max_depth,
{
    let commit = policy.spec_commit(depth_of(h0, p0));
    let expect = h0.current;
    let t0 = current_table(h0, p0.lay@, p0@);
    let t1 = current_table(h1, p1.lay@, p1@);
    let v = (expect + 1) as u64;
    let b = choose|b: Base|
        base_for(b, h0, p0, expect, commit) && t1 == #[trigger] version_story(
            t0,
            b,
            version_manifest(name_id, v, schema_id, &b, staged, spans),
        );
    let m = version_manifest(name_id, v, schema_id, &b, staged, spans);
    assert(t1.last() == m);
    assert(cut(staged, spans).len() == 1);
}

} // verus!
