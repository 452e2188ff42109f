//! What commits are for: what becomes of the table, what watchers are told, and
//! when a commit is owed.
use vstd::prelude::*;

use crate::artifact::commit::{
    base_for, base_refusal, current_chunk, lemma_current, lemma_table_data, stage_refusal,
    version_chunks, version_manifest, version_spans, version_story, version_window, window_chunks,
    Base, Commit,
};
use crate::artifact::error::Error;
use crate::artifact::event::VersionEvent;
use crate::artifact::handle::Artifact;
use crate::artifact::head::{ArtifactHead, HeadView, NO_VERSION, SLOT_FREE};
use crate::artifact::install::{committed, early_refusal, manifest_refusal, slot_refusal};
use crate::artifact::lease::commit_outcome;
use crate::artifact::live::{current_table, live};
use crate::artifact::manifest::{kept_of, kept_sum, record_len, span_sum, KeptMember};
use crate::artifact::policy::{depth_of, WindowPolicy};
use crate::artifact::pool::{at, fits, is_laid, lemma_at, lemma_has, ChunkPool, ChunkState};
use crate::artifact::reading::{exact_totals, lemma_story};
use crate::artifact::staging::{picks, stageable};
use crate::artifact::watch::{noticed, quiet};
use crate::artifact::window::{
    all_chunks, all_spans, batches, cut, dropped, lemma_expand_len, lemma_start_mono,
    lemma_table_lens, start, window_keeps_the_newest, windowed,
};
use crate::chunk::ChunkDesc;

verus! {

/// The batches of the current version's table; none if nothing is committed.
pub open spec fn current_batches(h: HeadView, pool: &ChunkPool) -> Seq<Seq<ChunkDesc>> {
    if h.current == NO_VERSION {
        seq![]
    } else {
        batches(current_table(h, pool.lay@, pool@))
    }
}

/// The smaller of two numbers.
pub open spec fn at_most(a: int, b: int) -> int {
    if a <= b {
        a
    } else {
        b
    }
}

// ---- groups ----

proof fn lemma_cut_flat(chunks: Seq<ChunkDesc>, spans: Seq<u32>)
    requires
        span_sum(spans) == chunks.len(),
    ensures
        cut(chunks, spans).flatten() == chunks,
    decreases spans.len(),
{
    let c = cut(chunks, spans);
    if spans.len() == 0 {
        assert(c =~= Seq::<Seq<ChunkDesc>>::empty());
        assert(c.flatten() =~= chunks);
    } else {
        let s = spans.drop_last();
        let n = s.len() as int;
        let front = chunks.take(span_sum(s) as int);
        assert(spans.take(n) =~= s);
        assert(spans.take(n + 1) =~= spans);
        lemma_cut_flat(front, s);
        assert forall|b: int| 0 <= b < n implies #[trigger] c[b] == cut(front, s)[b] by {
            assert(spans.take(b) =~= s.take(b));
            assert(spans.take(b + 1) =~= s.take(b + 1));
            lemma_start_mono(s, b, b + 1);
            assert(front.subrange(start(s, b), start(s, b + 1)) =~= chunks.subrange(
                start(s, b),
                start(s, b + 1),
            ));
        }
        assert(c.drop_last() =~= cut(front, s));
        c.lemma_flatten_and_flatten_alt_are_equivalent();
        c.drop_last().lemma_flatten_and_flatten_alt_are_equivalent();
        assert(c.last() == chunks.subrange(span_sum(s) as int, chunks.len() as int));
        assert(c.flatten() =~= front + c.last());
        assert(front + c.last() =~= chunks);
    }
}

/// Cutting loses nothing and moves nothing: there is a group for each span, of as
/// many chunks as the span says, and the groups one behind the other are the
/// chunks.
pub proof fn groups_are_the_chunks(chunks: Seq<ChunkDesc>, spans: Seq<u32>)
    requires
        span_sum(spans) == chunks.len(),
    ensures
        cut(chunks, spans).len() == spans.len(),
        forall|b: int| 0 <= b < spans.len() ==> (#[trigger] cut(chunks, spans)[b]).len() == spans[b],
        cut(chunks, spans).flatten() == chunks,
{
    lemma_cut_flat(chunks, spans);
    assert forall|b: int| 0 <= b < spans.len() implies (#[trigger] cut(chunks, spans)[b]).len()
        == spans[b] by {
        assert(spans.take(b + 1).drop_last() =~= spans.take(b));
        assert(spans.take(b + 1).last() == spans[b]);
        lemma_start_mono(spans, b, b + 1);
    }
}

// ---- the table ----

/// What a commit makes of the table. A replacement is the new batches alone, in
/// a root. An append is all that was there and the new batches behind it, in a
/// chain one longer. A window is a root with just the newest batches it is to
/// keep, all of them if there are fewer, in order, and the new batches behind
/// them. A patch never is one.
pub proof fn what_a_commit_makes_of_the_table(
    h0: HeadView,
    p0: &ChunkPool,
    h1: HeadView,
    p1: &ChunkPool,
    name_id: u32,
    expect: u64,
    commit: Commit,
    staged: Seq<ChunkDesc>,
    spans: Seq<u32>,
    schema_id: u32,
)
    requires
        committed(h0, p0, h1, p1, name_id, expect, commit, staged, spans, schema_id),
        !(commit is Patch),
    ensures
        ({
            let old = current_batches(h0, p0);
            let new = current_batches(h1, p1);
            let own = cut(staged, spans);
            let t0 = current_table(h0, p0.lay@, p0@);
            let t1 = current_table(h1, p1.lay@, p1@);
            &&& h0.current == expect
            &&& expect < u64::MAX ==> h1.current == expect + 1
            &&& commit is Replace ==> t1.len() == 1 && (expect < u64::MAX ==> new == own)
            &&& commit is Append && expect < u64::MAX ==> new == old + own
            &&& commit is Append && expect != NO_VERSION ==> t1.len() == t0.len() + 1
                && t1.drop_last() == t0
            &&& commit is Append && expect == NO_VERSION ==> t1.len() == 1
            &&& commit matches Commit::Window { keep_batches } ==> {
                let n = at_most(keep_batches as int, old.len() as int);
                &&& t1.len() == 1
                &&& expect < u64::MAX ==> new.len() == n + own.len()
                &&& expect < u64::MAX ==> new.take(n) == old.skip(old.len() - n)
                &&& expect < u64::MAX ==> new.skip(n) == own
            }
            &&& t1.last().version == (expect + 1) as u64
            &&& t1.last().artifact_id == name_id
            &&& t1.last().schema_id == schema_id
        }),
{
    let old = current_batches(h0, p0);
    let new = current_batches(h1, p1);
    let own = cut(staged, spans);
    let t0 = current_table(h0, p0.lay@, p0@);
    let t1 = current_table(h1, p1.lay@, p1@);
    let v = (expect + 1) as u64;
    let b = choose|b: Base|
        base_for(b, h0, p0, expect, commit) && t1 == #[trigger] version_story(
            t0,
            b,
            version_manifest(name_id, v, schema_id, &b, staged, spans),
        );
    let m = version_manifest(name_id, v, schema_id, &b, staged, spans);
    assert(t1.last() == m);
    if let Base::Link(_) = b {
        assert(t0.push(m).drop_last() =~= t0);
    }
    if expect < u64::MAX {
        assert(old + own =~= own || old.len() > 0);
        if let Commit::Window { keep_batches } = commit {
            let n = at_most(keep_batches as int, old.len() as int);
            if commit.extends(expect) {
                assert(new =~= old.skip(old.len() - n) + own);
            } else {
                assert(n == 0);
                assert(old.skip(old.len() as int) =~= Seq::<Seq<ChunkDesc>>::empty());
                assert(new =~= old.skip(old.len() - n) + own);
            }
            assert(new.take(n) =~= old.skip(old.len() - n));
            assert(new.skip(n) =~= own);
        }
    }
}

/// What a policy promises, one commit at a time. As long as the chain is shorter
/// than the policy allows, nothing is left out: the table is what it was and the
/// new batches. Else it is re-rooted on the newest `keep_batches` batches, all of
/// them if there are fewer, and the new ones. Either way every one of the newest
/// `keep_batches` is still there, in order, right before the new batches.
pub proof fn policy_keeps_the_newest(
    policy: WindowPolicy,
    h0: &ArtifactHead,
    p0: &ChunkPool,
    h1: HeadView,
    p1: &ChunkPool,
    name_id: u32,
    staged: Seq<ChunkDesc>,
    spans: Seq<u32>,
    schema_id: u32,
)
    requires
        live(h0, p0, name_id),
        h0@.current < u64::MAX,
        committed(
            h0@,
            p0,
            h1,
            p1,
            name_id,
            h0@.current,
            policy.spec_commit(depth_of(h0@, p0)),
            staged,
            spans,
            schema_id,
        ),
    ensures
        ({
            let old = current_batches(h0@, p0);
            let new = current_batches(h1, p1);
            let own = cut(staged, spans);
            let n = at_most(policy.keep_batches as int, old.len() as int);
            let k = new.len() - own.len();
            let t0 = current_table(h0@, p0.lay@, p0@);
            let t1 = current_table(h1, p1.lay@, p1@);
            let short = h0@.current != NO_VERSION && t0.len() < policy.max_depth;
            &&& k >= n
            &&& new.skip(k) == own
            &&& new.subrange(k - n, k) == old.skip(old.len() - n)
            &&& short ==> new == old + own && t1.len() == t0.len() + 1
            &&& !short ==> new == old.skip(old.len() - n) + own && t1.len() == 1
            &&& short <==> policy.spec_commit(depth_of(h0@, p0)) is Append
            &&& !short <==> policy.spec_commit(depth_of(h0@, p0)) is Window
        }),
{
    let commit = policy.spec_commit(depth_of(h0@, p0));
    let expect = h0@.current;
    what_a_commit_makes_of_the_table(h0@, p0, h1, p1, name_id, expect, commit, staged, spans, schema_id);
    let old = current_batches(h0@, p0);
    let new = current_batches(h1, p1);
    let own = cut(staged, spans);
    let n = at_most(policy.keep_batches as int, old.len() as int);
    let k = new.len() - own.len();
    if expect != NO_VERSION {
        lemma_current(h0, p0, name_id);
        lemma_story(p0, current_chunk(h0@, p0));
        let t0 = current_table(h0@, p0.lay@, p0@);
        assert(t0[t0.len() - 1].depth == t0.len() - 1);
    }
    if commit is Append {
        assert(new.skip(k) =~= own);
        assert(new.subrange(k - n, k) =~= old.skip(old.len() - n));
    } else {
        assert(new =~= new.take(n) + new.skip(n));
        assert(new.skip(k) =~= own);
        assert(new.subrange(k - n, k) =~= new.take(n));
    }
}

// ---- the notice ----

/// Which number stands for which commit on the wire.
pub proof fn commit_numbers_on_the_wire(commit: Commit)
    ensures
        commit is Replace <==> commit.spec_kind().spec_as_u32() == 0,
        commit is Append <==> commit.spec_kind().spec_as_u32() == 1,
        commit is Patch <==> commit.spec_kind().spec_as_u32() == 2,
        commit is Window <==> commit.spec_kind().spec_as_u32() == 3,
{
}

/// What watchers are told is what became of the table. The notice names the
/// artifact and the version that is current now. `0` says that the table is the
/// new batches alone; `1` that it is all that was there, and the new batches
/// behind it; `3` that it is a root with some of the newest batches that were
/// there, and the new ones behind them. `2` is never said.
pub proof fn the_notice_tells_what_became_of_the_table(
    art: Artifact,
    h0: HeadView,
    p0: &ChunkPool,
    h1: HeadView,
    p1: &ChunkPool,
    expect: u64,
    owner: u32,
    commit: Commit,
    staged: Seq<ChunkDesc>,
    spans: Seq<u32>,
    schema_id: u32,
    lease_fence: Option<u32>,
    r: Result<(u64, VersionEvent), Error>,
)
    requires
        expect < u64::MAX,
        noticed(r, art.name_id, commit),
        commit_outcome(
            art,
            h0,
            p0,
            h1,
            p1,
            expect,
            owner,
            commit,
            staged,
            spans,
            schema_id,
            lease_fence,
            quiet(r),
        ),
        r is Ok,
    ensures
        ({
            let e = r->Ok_0.1;
            let old = current_batches(h0, p0);
            let new = current_batches(h1, p1);
            let own = cut(staged, spans);
            let t1 = current_table(h1, p1.lay@, p1@);
            &&& r->Ok_0.0 == h1.current
            &&& e.version == h1.current == expect + 1
            &&& e.name_id == art.name_id == t1.last().artifact_id
            &&& e.kind == 0 ==> new == own
            &&& e.kind == 1 ==> new == old + own
            &&& e.kind == 3 ==> t1.len() == 1 && exists|n: int|
                0 <= n <= old.len() && new == #[trigger] old.skip(n) + own
            &&& e.kind == 0 || e.kind == 1 || e.kind == 3
            &&& commit is Replace <==> e.kind == 0
            &&& commit is Append <==> e.kind == 1
            &&& commit is Window <==> e.kind == 3
        }),
{
    commit_numbers_on_the_wire(commit);
    what_a_commit_makes_of_the_table(
        h0,
        p0,
        h1,
        p1,
        art.name_id,
        expect,
        commit,
        staged,
        spans,
        schema_id,
    );
    if let Commit::Window { keep_batches } = commit {
        let old = current_batches(h0, p0);
        let new = current_batches(h1, p1);
        let own = cut(staged, spans);
        let n = at_most(keep_batches as int, old.len() as int);
        assert(new =~= new.take(n) + new.skip(n));
        assert(new == old.skip(old.len() - n) + own);
    }
}

// ---- when a commit is owed ----

/// Whether the descriptor names chunk `j`, which is loaned in the generation that it
/// says.
pub open spec fn loaned_as(pool: &ChunkPool, d: ChunkDesc, j: int) -> bool {
    &&& 0 <= j < pool@.len()
    &&& d.segment_id == pool.segment_id
    &&& d.offset == pool.lay@[j]
    &&& d.generation == pool@[j].generation
    &&& pool@[j].state == ChunkState::Loaned
}

/// Whether the descriptor names a chunk that is loaned.
pub open spec fn has_loaned(pool: &ChunkPool, d: ChunkDesc) -> bool {
    exists|j: int| loaned_as(pool, d, j)
}

/// Whether each staged descriptor names a loaned chunk of the pool, and no two
/// the same.
pub open spec fn all_loaned(pool: &ChunkPool, staged: Seq<ChunkDesc>) -> bool {
    &&& forall|i: int, j: int| 0 <= i < j < staged.len() ==> staged[i].offset != staged[j].offset
    &&& forall|i: int| 0 <= i < staged.len() ==> has_loaned(pool, #[trigger] staged[i])
}

/// Whether the pool has a free chunk of `size` bytes.
pub open spec fn has_free(pool: &ChunkPool, size: int) -> bool {
    exists|j: int| 0 <= j < pool@.len() && !(#[trigger] pool@[j]).allocated && pool@[j].len >= size
}

proof fn lemma_kept_count(kept: Seq<KeptMember>)
    requires
        forall|i: int| 0 <= i < kept.len() ==> (#[trigger] kept[i]).batches > 0,
    ensures
        kept.len() <= kept_sum(kept),
    decreases kept.len(),
{
    if kept.len() > 0 {
        let p = kept.drop_last();
        assert forall|i: int| 0 <= i < p.len() implies (#[trigger] p[i]).batches > 0 by {
            assert(p[i] == kept[i]);
        }
        lemma_kept_count(p);
    }
}

/// Loaned chunks can be staged.
pub proof fn lemma_stageable(p0: &ChunkPool, staged: Seq<ChunkDesc>)
    requires
        p0.wf(),
        all_loaned(p0, staged),
    ensures
        stageable(p0.lay@, p0.segment_id, p0@, staged),
{
    let lay = p0.lay@;
    assert forall|i: int| 0 <= i < staged.len() implies is_laid(lay, (#[trigger] staged[i]).offset)
        && picks(lay, p0.segment_id, p0@, staged[i], at(lay, staged[i].offset)) by {
        assert(has_loaned(p0, staged[i]));
        let j = choose|j: int| loaned_as(p0, staged[i], j);
        lemma_at(lay, j);
    }
}

/// The chunks and the batches of the current version's table, counted.
pub open spec fn table_size(h: HeadView, pool: &ChunkPool) -> (int, int) {
    if h.current == NO_VERSION {
        (0, 0)
    } else {
        let t = current_table(h, pool.lay@, pool@);
        (all_chunks(t).len() as int, batches(t).len() as int)
    }
}

/// The bytes that are enough for a manifest over a table of `n` chunks and `m`
/// batches, and `staged` chunks and `spans` batches more.
pub open spec fn enough_for(n: int, m: int, staged: int, spans: int) -> int {
    64 + 24 * (n + staged) + 4 * (m + spans) + 8 + 16 * m
}

proof fn lemma_base_owed(h0: &ArtifactHead, p0: &ChunkPool, name_id: u32, commit: Commit, schema_id: u32)
    requires
        live(h0, p0, name_id),
        builds_on(h0@, p0, commit, schema_id),
    ensures
        base_refusal(h0@, p0, h0@.current, commit, schema_id) is None,
{
    let t0 = current_table(h0@, p0.lay@, p0@);
    if commit.extends(h0@.current) {
        if let Commit::Window { keep_batches } = commit {
            lemma_current(h0, p0, name_id);
            let i = current_chunk(h0@, p0);
            lemma_story(p0, i);
            lemma_table_lens(t0);
            let s = all_spans(t0);
            let drop = dropped(s.len() as int, keep_batches as int);
            lemma_start_mono(s, drop, drop);
            let w = window_chunks(t0, keep_batches as int);
            assert forall|x: int| 0 <= x < w.len() implies p0@[p0.at((#[trigger] w[x]).offset)].refcount
                + w.len() <= u32::MAX by {
                lemma_table_data(p0, i, start(s, drop) + x);
                assert(w[x] == all_chunks(t0)[start(s, drop) + x]);
                lemma_has(p0.lay@, w[x].offset);
                assert(p0@[p0.at(w[x].offset)].refcount + all_chunks(t0).len() <= u32::MAX);
            }
        }
    }
}

/// Whether the current version can be built on: nothing is asked of it by a
/// replacement; else it is of the schema, and its references can be counted.
pub open spec fn builds_on(h: HeadView, pool: &ChunkPool, commit: Commit, schema_id: u32) -> bool {
    let t = current_table(h, pool.lay@, pool@);
    h.current != NO_VERSION && !(commit is Replace) ==> {
        &&& t.last().schema_id == schema_id
        &&& commit is Append ==> t.len() <= u32::MAX && pool@[current_chunk(h, pool)].refcount < u32::MAX
        &&& commit is Window ==> exact_totals(t) && forall|j: int|
            0 <= j < pool@.len() ==> (#[trigger] pool@[j]).refcount + all_chunks(t).len() <= u32::MAX
    }
}

proof fn lemma_stage_owed(
    h0: &ArtifactHead,
    p0: &ChunkPool,
    name_id: u32,
    commit: Commit,
    staged: Seq<ChunkDesc>,
    spans: Seq<u32>,
    schema_id: u32,
    c: Base,
)
    requires
        live(h0, p0, name_id),
        h0@.current < u64::MAX,
        span_sum(spans) == staged.len(),
        base_for(c, h0@, p0, h0@.current, commit),
        builds_on(h0@, p0, commit, schema_id),
        ({
            let (n, m) = table_size(h0@, p0);
            let size = enough_for(n, m, staged.len() as int, spans.len() as int);
            n + staged.len() <= u32::MAX && m + spans.len() <= u32::MAX && size <= usize::MAX && has_free(
                p0,
                size,
            )
        }),
    ensures
        stage_refusal(p0, (h0@.current + 1) as u64, &c, staged, spans) is None,
{
    let expect = h0@.current;
    let t0 = current_table(h0@, p0.lay@, p0@);
    let (n, m) = table_size(h0@, p0);
    if expect != NO_VERSION {
        lemma_current(h0, p0, name_id);
        lemma_story(p0, current_chunk(h0@, p0));
        lemma_table_lens(t0);
    }
    match c {
        Base::Window(plan) => {
            lemma_owed_window(h0, p0, name_id, plan, commit, staged, spans, schema_id);
        },
        Base::Link(l) => {
            assert(t0[t0.len() - 1].depth == t0.len() - 1);
        },
        Base::Root => {},
    }
    let kept = kept_of(version_window(&c)).len() as int;
    let size = record_len(
        version_chunks(c, staged).len() as int,
        version_spans(c, spans).len() as int,
        kept,
    );
    let most = enough_for(n, m, staged.len() as int, spans.len() as int);
    assert(version_chunks(c, staged).len() <= n + staged.len());
    assert(version_spans(c, spans).len() <= m + spans.len());
    assert(kept <= m);
    assert(size <= most);
    let j = choose|j: int| 0 <= j < p0@.len() && !(#[trigger] p0@[j]).allocated && p0@[j].len >= most;
    assert(fits(p0@[j], size));
}

/// A commit is owed: a live handle, with the lease if one is asked for, that
/// expects the version that is current, stages loaned chunks of the schema of the
/// table it builds on, and finds a slot and a chunk for the manifest, installs
/// the next version. Nothing else about what is staged, kept or there matters.
/// (Counts are bounded by the words that hold them.)
pub proof fn a_commit_is_owed(
    art: Artifact,
    h0: &ArtifactHead,
    p0: &ChunkPool,
    h1: HeadView,
    p1: &ChunkPool,
    owner: u32,
    commit: Commit,
    staged: Seq<ChunkDesc>,
    spans: Seq<u32>,
    schema_id: u32,
    lease_fence: Option<u32>,
    r: Result<u64, Error>,
    b: Base,
)
    requires
        live(h0, p0, art.name_id),
        h0@.current < u64::MAX,
        commit_outcome(
            art,
            h0@,
            p0,
            h1,
            p1,
            h0@.current,
            owner,
            commit,
            staged,
            spans,
            schema_id,
            lease_fence,
            r,
        ),
        h0@.incarnation == art.incarnation,
        !(commit is Patch),
        lease_fence matches Some(f) ==> h0@.write_lease == owner * 0x1_0000_0000 + f,
        all_loaned(p0, staged),
        span_sum(spans) == staged.len(),
        exists|j: int| 0 <= j < h0@.pins.len() && (#[trigger] h0@.pins[j]).state == SLOT_FREE,
        base_for(b, h0@, p0, h0@.current, commit),
        builds_on(h0@, p0, commit, schema_id),
        ({
            let (n, m) = table_size(h0@, p0);
            let size = enough_for(n, m, staged.len() as int, spans.len() as int);
            n + staged.len() <= u32::MAX && m + spans.len() <= u32::MAX && size <= usize::MAX && has_free(
                p0,
                size,
            )
        }),
    ensures
        r == Ok::<u64, Error>((h0@.current + 1) as u64),
{
    lemma_stageable(p0, staged);
    lemma_base_owed(h0, p0, art.name_id, commit, schema_id);
    let c = choose|c: Base| base_for(c, h0@, p0, h0@.current, commit);
    lemma_stage_owed(h0, p0, art.name_id, commit, staged, spans, schema_id, c);
    assert(manifest_refusal(h0@, p0, h0@.current, commit, staged, spans, schema_id) is None);
    assert(slot_refusal(h0@, h0@.current) is None);
    assert(early_refusal(art, h0@, owner, commit, lease_fence) is None);
}

proof fn lemma_owed_window(
    h0: &ArtifactHead,
    p0: &ChunkPool,
    name_id: u32,
    plan: crate::artifact::window::WindowPlan,
    commit: Commit,
    staged: Seq<ChunkDesc>,
    spans: Seq<u32>,
    schema_id: u32,
)
    requires
        live(h0, p0, name_id),
        h0@.current != NO_VERSION,
        h0@.current < u64::MAX,
        base_for(Base::Window(plan), h0@, p0, h0@.current, commit),
        span_sum(spans) == staged.len(),
        batches(current_table(h0@, p0.lay@, p0@)).len() + spans.len() <= u32::MAX,
    ensures
        ({
            let t0 = current_table(h0@, p0.lay@, p0@);
            &&& plan.chunks@.len() <= all_chunks(t0).len()
            &&& plan.spans@.len() <= batches(t0).len()
            &&& plan.root.kept@.len() <= batches(t0).len()
            &&& crate::artifact::manifest::window_strict(
                crate::artifact::manifest::base_of(
                    crate::artifact::commit::version_window(&Base::Window(plan)),
                ),
                kept_of(crate::artifact::commit::version_window(&Base::Window(plan))),
                (h0@.current + 1) as u64,
                (plan.spans@ + spans).len() as int,
            )
        }),
{
    let t0 = current_table(h0@, p0.lay@, p0@);
    lemma_current(h0, p0, name_id);
    lemma_story(p0, current_chunk(h0@, p0));
    lemma_table_lens(t0);
    lemma_expand_len(plan.root.kept@);
    lemma_kept_count(plan.root.kept@);
    let keep = commit->keep_batches as int;
    let drop = crate::artifact::window::dropped(all_spans(t0).len() as int, keep);
    lemma_start_mono(all_spans(t0), drop, drop);
    if all_spans(t0).len() > 0 {
        window_keeps_the_newest(
            t0,
            keep,
            &plan,
            name_id,
            (h0@.current + 1) as u64,
            schema_id,
            staged,
            spans,
        );
        let w = windowed(name_id, (h0@.current + 1) as u64, schema_id, &plan, staged, spans);
        assert(crate::artifact::window::member_sane(seq![w][0]));
    }
}

} // verus!
