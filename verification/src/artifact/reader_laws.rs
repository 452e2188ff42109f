//! What a reader who was away is told after a commit.
use vstd::prelude::*;

use crate::artifact::commit::{
    base_for, current_chunk, lemma_current, version_manifest, version_story, Base, Commit,
};
use crate::artifact::commit_laws::at_most;
use crate::artifact::head::ArtifactHead;
use crate::artifact::install::committed;
use crate::artifact::live::{current_table, live};
use crate::artifact::manifest::span_sum;
use crate::artifact::pool::ChunkPool;
use crate::artifact::reading::lemma_story;
use crate::artifact::window::{
    all_labels, all_spans, append_adds_to_every_delta, batches, cut, delta_batches, dropped, expand,
    keeps, lemma_expand_len, lemma_table_lens, member_sane, truncated,
    window_is_transparent_from_its_base, window_keeps_the_newest, windowed, WindowPlan,
};
use crate::artifact::window_laws::{a_window_starts_as_early_as_it_can, who_starts_over};
use crate::chunk::ChunkDesc;

verus! {

proof fn lemma_window(
    h0: &ArtifactHead,
    p0: &ChunkPool,
    h1: &ArtifactHead,
    p1: &ChunkPool,
    name_id: u32,
    keep: u32,
    staged: Seq<ChunkDesc>,
    spans: Seq<u32>,
    schema_id: u32,
) -> (plan: WindowPlan)
    requires
        live(h0, p0, name_id),
        live(h1, p1, name_id),
        0 < h0@.current < u64::MAX,
        keep > 0,
        batches(current_table(h0@, p0.lay@, p0@)).len() > 0,
        committed(
            h0@,
            p0,
            h1@,
            p1,
            name_id,
            h0@.current,
            Commit::Window { keep_batches: keep },
            staged,
            spans,
            schema_id,
        ),
    ensures
        keeps(&plan, current_table(h0@, p0.lay@, p0@), keep as int),
        plan.root.kept@.len() > 0,
        current_table(h1@, p1.lay@, p1@) == seq![
            windowed(name_id, (h0@.current + 1) as u64, schema_id, &plan, staged, spans),
        ],
        plan.spans@.len() + spans.len() <= u32::MAX,
{
    let commit = Commit::Window { keep_batches: keep };
    let t0 = current_table(h0@, p0.lay@, p0@);
    let t1 = current_table(h1@, p1.lay@, p1@);
    let v = (h0@.current + 1) as u64;
    let b = choose|b: Base|
        base_for(b, h0@, p0, h0@.current, commit) && t1 == #[trigger] version_story(
            t0,
            b,
            version_manifest(name_id, v, schema_id, &b, staged, spans),
        );
    lemma_current(h0, p0, name_id);
    lemma_story(p0, current_chunk(h0@, p0));
    lemma_current(h1, p1, name_id);
    lemma_story(p1, current_chunk(h1@, p1));
    lemma_table_lens(t0);
    match b {
        Base::Window(plan) => {
            lemma_expand_len(plan.root.kept@);
            let drop = dropped(all_spans(t0).len() as int, keep as int);
            assert(all_labels(t0).skip(drop).len() > 0);
            if plan.root.kept@.len() == 0 {
                assert(expand(plan.root.kept@).len() == 0);
            }
            assert(member_sane(t1[0]));
            plan
        },
        _ => {
            assert(false);
            arbitrary()
        },
    }
}

/// What a reader lacks grows by just the new batches with every append, and with every
/// window that does not start after what the reader has. So does what it is told: it does
/// not have to start over unless it had to before.
pub proof fn a_reader_misses_nothing(
    h0: &ArtifactHead,
    p0: &ChunkPool,
    h1: &ArtifactHead,
    p1: &ChunkPool,
    name_id: u32,
    commit: Commit,
    staged: Seq<ChunkDesc>,
    spans: Seq<u32>,
    schema_id: u32,
    since: u64,
)
    requires
        live(h0, p0, name_id),
        live(h1, p1, name_id),
        0 < h0@.current < u64::MAX,
        since <= h0@.current,
        span_sum(spans) == staged.len(),
        committed(h0@, p0, h1@, p1, name_id, h0@.current, commit, staged, spans, schema_id),
    ensures
        ({
            let t0 = current_table(h0@, p0.lay@, p0@);
            let t1 = current_table(h1@, p1.lay@, p1@);
            &&& commit is Append ==> {
                &&& truncated(t1, since) == truncated(t0, since)
                &&& delta_batches(t1, since) == delta_batches(t0, since) + cut(staged, spans)
            }
            &&& commit is Window && commit->keep_batches > 0 && batches(t0).len() > 0 && t1[0].window_base <= since
                ==> {
                &&& !truncated(t0, since)
                &&& !truncated(t1, since)
                &&& delta_batches(t1, since) == delta_batches(t0, since) + cut(staged, spans)
            }
        }),
{
    let t0 = current_table(h0@, p0.lay@, p0@);
    let t1 = current_table(h1@, p1.lay@, p1@);
    let v = (h0@.current + 1) as u64;
    lemma_current(h0, p0, name_id);
    lemma_story(p0, current_chunk(h0@, p0));
    lemma_current(h1, p1, name_id);
    lemma_story(p1, current_chunk(h1@, p1));
    lemma_table_lens(t0);
    if commit is Append {
        let b = choose|b: Base|
            base_for(b, h0@, p0, h0@.current, commit) && t1 == #[trigger] version_story(
                t0,
                b,
                version_manifest(name_id, v, schema_id, &b, staged, spans),
            );
        let m = version_manifest(name_id, v, schema_id, &b, staged, spans);
        assert(t1 == t0.push(m));
        append_adds_to_every_delta(t0, m, since);
    }
    if let Commit::Window { keep_batches } = commit {
        if keep_batches > 0 && batches(t0).len() > 0 && t1[0].window_base <= since {
            let plan = lemma_window(h0, p0, h1, p1, name_id, keep_batches, staged, spans, schema_id);
            window_is_transparent_from_its_base(
                t0,
                keep_batches as int,
                &plan,
                name_id,
                v,
                schema_id,
                staged,
                spans,
                since,
            );
        }
    }
}

/// A window makes a reader start over only if it must: if the reader had to before, or if
/// it lacks a batch that is left out. And the root remembers which version every batch that
/// it keeps came with.
pub proof fn a_window_is_kind_to_readers(
    h0: &ArtifactHead,
    p0: &ChunkPool,
    h1: &ArtifactHead,
    p1: &ChunkPool,
    name_id: u32,
    keep: u32,
    staged: Seq<ChunkDesc>,
    spans: Seq<u32>,
    schema_id: u32,
    since: u64,
)
    requires
        live(h0, p0, name_id),
        live(h1, p1, name_id),
        0 < h0@.current < u64::MAX,
        keep > 0,
        batches(current_table(h0@, p0.lay@, p0@)).len() > 0,
        span_sum(spans) == staged.len(),
        committed(
            h0@,
            p0,
            h1@,
            p1,
            name_id,
            h0@.current,
            Commit::Window { keep_batches: keep },
            staged,
            spans,
            schema_id,
        ),
    ensures
        ({
            let t0 = current_table(h0@, p0.lay@, p0@);
            let t1 = current_table(h1@, p1.lay@, p1@);
            let old = all_labels(t0);
            let n = at_most(keep as int, old.len() as int);
            &&& truncated(t1, since) ==> truncated(t0, since) || exists|b: int|
                0 <= b < old.len() - keep && #[trigger] old[b] > since
            &&& all_labels(t1).take(n) == old.skip(old.len() - n)
            &&& all_labels(t1).len() == n + spans.len()
            &&& forall|b: int| n <= b < all_labels(t1).len() ==> #[trigger] all_labels(t1)[b] == h0@.current + 1
        }),
{
    let t0 = current_table(h0@, p0.lay@, p0@);
    let t1 = current_table(h1@, p1.lay@, p1@);
    let v = (h0@.current + 1) as u64;
    lemma_current(h0, p0, name_id);
    lemma_story(p0, current_chunk(h0@, p0));
    lemma_current(h1, p1, name_id);
    lemma_story(p1, current_chunk(h1@, p1));
    lemma_table_lens(t0);
    let plan = lemma_window(h0, p0, h1, p1, name_id, keep, staged, spans, schema_id);
    window_keeps_the_newest(t0, keep as int, &plan, name_id, v, schema_id, staged, spans);
    let old = all_labels(t0);
    let n = at_most(keep as int, old.len() as int);
    assert(all_labels(t1).take(n) =~= old.skip(old.len() - n));
    if truncated(t1, since) {
        who_starts_over(t1, since);
        a_window_starts_as_early_as_it_can(t0, keep as int, &plan, since);
    }
}

} // verus!
