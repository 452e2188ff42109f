//! The newer part of a chain, which is all that a reader at some version walks.
use vstd::prelude::*;

use crate::artifact::chain::{
    answered_by, answers, hop_ok, may_answer, member_ok, must_answer, resolved_by, reversed, stops,
    views, walk_chain_newest_first, walk_result, walkable, walked,
};
use crate::artifact::error::Error;
use crate::artifact::manifest::{manifest_strict, Manifest, ManifestLink, ManifestView};
use crate::artifact::pool::ChunkPool;
use crate::artifact::reading::{
    exact_totals, follows, lemma_story, lemma_walk_is_story, linked_manifest, read_linked, reads_as,
    story_ok,
};
use crate::artifact::window::{
    all_labels, batches, batches_of, chain_sane, delta_at_head_is_empty, delta_batches, delta_from,
    delta_of, groups, lemma_labels_sorted, lemma_older_unique, lemma_table_lens, member_sane,
    truncated, Delta,
};
use crate::chunk::ChunkDesc;

verus! {

/// How many manifests at the front of a chain a reader at `since` need not look
/// at: those up to `since`, but never the newest.
pub open spec fn read_before(ch: Seq<ManifestView>, since: u64) -> nat
    decreases ch.len(),
{
    if ch.len() <= 1 || ch[0].version > since {
        0
    } else {
        1 + read_before(ch.skip(1), since)
    }
}

/// The manifests of a chain that a reader at `since` looks at.
pub open spec fn newer(ch: Seq<ManifestView>, since: u64) -> Seq<ManifestView> {
    ch.skip(read_before(ch, since) as int)
}

proof fn lemma_sane_skip(ch: Seq<ManifestView>, k: int)
    requires
        chain_sane(ch),
        0 <= k <= ch.len(),
    ensures
        chain_sane(ch.skip(k)),
{
    let r = ch.skip(k);
    assert forall|i: int| 0 <= i < r.len() implies member_sane(#[trigger] r[i]) by {
        assert(r[i] == ch[i + k]);
    }
    assert forall|i: int| 0 < i < r.len() implies (#[trigger] r[i]).kept.len() == 0 by {
        assert(r[i] == ch[i + k]);
    }
    assert forall|i: int, j: int| 0 <= i < j < r.len() implies r[i].version < r[j].version by {
        assert(ch[i + k].version < ch[j + k].version);
    }
}

/// Where the newer part starts.
proof fn lemma_read_before(ch: Seq<ManifestView>, since: u64)
    requires
        chain_sane(ch),
        ch.len() > 0,
    ensures
        read_before(ch, since) < ch.len(),
        forall|i: int| 0 <= i < read_before(ch, since) ==> (#[trigger] ch[i]).version <= since,
        forall|i: int| read_before(ch, since) <= i < ch.len() - 1 ==> (#[trigger] ch[i]).version > since,
        delta_from(ch, since) == ch[read_before(ch, since) as int].version,
    decreases ch.len(),
{
    let k = read_before(ch, since);
    if ch.len() > 1 && ch[0].version <= since {
        let r = ch.skip(1);
        lemma_sane_skip(ch, 1);
        lemma_read_before(r, since);
        assert forall|i: int| 0 <= i < k implies (#[trigger] ch[i]).version <= since by {
            if i > 0 {
                assert(r[i - 1] == ch[i]);
            }
        }
        assert forall|i: int| k <= i < ch.len() - 1 implies (#[trigger] ch[i]).version > since by {
            assert(r[i - 1] == ch[i]);
        }
    } else {
        assert forall|i: int| k <= i < ch.len() - 1 implies (#[trigger] ch[i]).version > since by {
            if i > 0 {
                assert(ch[0].version < ch[i].version);
            }
        }
    }
}

/// Whether a walk with the floor `since` stops at the `j`th manifest of a story.
proof fn lemma_stops(pool: &ChunkPool, ch: Seq<ManifestView>, since: u64, j: int)
    requires
        story_ok(pool, ch),
        chain_sane(ch),
        0 <= j < ch.len(),
    ensures
        member_ok(ch[j], ch.last()),
        j > 0 ==> hop_ok(ch[j], ch.len() - 1 - j, ch.last()),
        stops(ch[j], ch.len() - 1 - j, ch.last(), Some(since)) <==> j == 0 || ch[j - 1].version <= since,
{
    assert(manifest_strict(ch[j]));
    assert(ch[ch.len() - 1].depth == ch.len() - 1);
    assert(ch[j].depth == j);
}

/// The newer part of a story, if its totals are exact, is a consistent walk down
/// to the floor, newest first.
proof fn lemma_newer_walkable<F: Fn(&ManifestLink) -> Result<Manifest, Error>>(
    pool: &ChunkPool,
    ch: Seq<ManifestView>,
    since: u64,
    f: F,
)
    requires
        story_ok(pool, ch),
        chain_sane(ch),
        exact_totals(newer(ch, since)),
        follows(f, pool, ch.last().artifact_id),
    ensures
        walkable(ch.last(), Some(since), f),
{
    lemma_read_before(ch, since);
    let k = read_before(ch, since) as int;
    let p = newer(ch, since);
    let n = p.reverse();
    let head = ch.last();
    let len = ch.len() as int;
    assert forall|i: int| 0 <= i < n.len() implies #[trigger] n[i] == ch[len - 1 - i] && member_ok(
        n[i],
        head,
    ) by {
        lemma_stops(pool, ch, since, len - 1 - i);
    }
    assert forall|i: int| 0 <= i < n.len() - 1 implies hop_ok(#[trigger] n[i], i, head) && answers(
        n[i].prev->Some_0,
        n[i + 1],
    ) && !stops(n[i], i, head, Some(since)) && must_answer(f, n[i].prev->Some_0, n[i + 1]) by {
        let j = len - 1 - i;
        lemma_stops(pool, ch, since, j);
        assert(n[i] == ch[j] && n[i + 1] == ch[j - 1]);
        assert(p[j - k] == ch[j] && p[j - k - 1] == ch[j - 1]);
        assert(manifest_strict(ch[j]));
        assert(ch[j].prev is Some);
        assert(ch[j - 1].artifact_id == head.artifact_id);
        assert(ch[j - 1].version > since);
        assert(ch[j].depth == j && ch[j - 1].depth == j - 1);
    }
    lemma_stops(pool, ch, since, k);
    assert(n.last() == ch[k]);
    assert(n[0] == head);
    assert(walked(n, head));
    assert(walk_result(n, head, Some(since)));
    assert(answered_by(n, f));
    reveal(walkable);
}

/// What a walk over a story gives is part of the story, newest first.
proof fn lemma_walk_in_story<F: Fn(&ManifestLink) -> Result<Manifest, Error>>(
    pool: &ChunkPool,
    ch: Seq<ManifestView>,
    n: Seq<ManifestView>,
    f: F,
)
    requires
        story_ok(pool, ch),
        follows(f, pool, ch.last().artifact_id),
        walked(n, ch.last()),
        resolved_by(n, f),
    ensures
        n.len() <= ch.len(),
        forall|i: int| 0 <= i < n.len() ==> #[trigger] n[i] == ch[ch.len() - 1 - i],
{
    let head = ch.last();
    assert(ch[ch.len() - 1].depth == ch.len() - 1);
    if n.len() > 1 {
        assert(hop_ok(n[n.len() - 2], n.len() - 2, head));
    }
    assert forall|j: int| 0 <= j < n.len() - 1 implies linked_manifest(
        pool,
        head.artifact_id,
        (#[trigger] n[j]).prev->Some_0,
    ) == Ok::<ManifestView, Error>(n[j + 1]) by {
        assert(may_answer(f, n[j].prev->Some_0, n[j + 1]));
    }
    assert forall|i: int| 0 <= i < n.len() implies #[trigger] n[i] == ch[ch.len() - 1 - i] by {
        lemma_walk_is_story(pool, ch, n, i);
    }
}

/// A walk over a story down to the floor ends where the newer part starts.
proof fn lemma_walk_end(pool: &ChunkPool, ch: Seq<ManifestView>, since: u64, n: Seq<ManifestView>)
    requires
        story_ok(pool, ch),
        chain_sane(ch),
        0 < n.len() <= ch.len(),
        forall|i: int| 0 <= i < n.len() ==> #[trigger] n[i] == ch[ch.len() - 1 - i],
        stops(n.last(), n.len() - 1, ch.last(), Some(since)),
        forall|i: int| 0 <= i < n.len() - 1 ==> !stops(#[trigger] n[i], i, ch.last(), Some(since)),
    ensures
        ch.len() - n.len() == read_before(ch, since),
{
    lemma_read_before(ch, since);
    let k = read_before(ch, since) as int;
    let len = ch.len() as int;
    let j = len - n.len();
    assert(n.last() == ch[j]);
    lemma_stops(pool, ch, since, j);
    lemma_stops(pool, ch, since, k);
    if j < k {
        assert(n[len - 1 - k] == ch[k]);
    }
    if j > k {
        assert(ch[j - 1].version > since);
    }
}

/// What a walk over a story down to the floor gives is its newer part, and then
/// the totals there are exact.
proof fn lemma_newer_walked<F: Fn(&ManifestLink) -> Result<Manifest, Error>>(
    pool: &ChunkPool,
    ch: Seq<ManifestView>,
    since: u64,
    n: Seq<ManifestView>,
    f: F,
)
    requires
        story_ok(pool, ch),
        chain_sane(ch),
        follows(f, pool, ch.last().artifact_id),
        walk_result(n, ch.last(), Some(since)),
        resolved_by(n, f),
    ensures
        n == newer(ch, since).reverse(),
        exact_totals(newer(ch, since)),
{
    lemma_walk_in_story(pool, ch, n, f);
    lemma_walk_end(pool, ch, since, n);
    let p = newer(ch, since);
    assert(n =~= p.reverse());
    lemma_exact(n, p, ch.last());
}

proof fn lemma_exact(n: Seq<ManifestView>, p: Seq<ManifestView>, head: ManifestView)
    requires
        walked(n, head),
        n == p.reverse(),
    ensures
        exact_totals(p),
{
    assert forall|i: int| 0 < i < p.len() implies (#[trigger] p[i]).total_batches == p[i - 1].total_batches
        + p[i].batch_spans.len() by {
        let x = p.len() - 1 - i;
        assert(n[x] == p[i] && n[x + 1] == p[i - 1]);
        assert(hop_ok(n[x], x, head) && answers(n[x].prev->Some_0, n[x + 1]));
        assert(member_ok(n[x], head));
    }
}

/// The manifests that a reader at `since` looks at, of the chain that `head`, the
/// manifest in chunk `at_chunk`, ends: oldest first. No other is read.
pub(crate) fn read_newer(pool: &ChunkPool, head: &Manifest, since: u64, at_chunk: Ghost<int>) -> (r:
    Result<Vec<Manifest>, Error>)
    requires
        pool.wf(),
        0 <= at_chunk@ < pool@.len(),
        pool@[at_chunk@].story is Some,
        pool@[at_chunk@].story->Some_0.last() == head@,
    ensures
        r is Ok <==> exact_totals(newer(pool@[at_chunk@].story->Some_0, since)),
        r matches Ok(v) ==> views(v@) == newer(pool@[at_chunk@].story->Some_0, since),
{
    let ghost ch = pool@[at_chunk@].story->Some_0;
    let artifact_id: u32 = head.artifact_id;
    let read_prev = |l: &ManifestLink| -> (r: Result<Manifest, Error>)
        ensures
            reads_as(r, linked_manifest(pool, artifact_id, *l)),
        { read_linked(pool, artifact_id, l) };
    proof {
        lemma_story(pool, at_chunk@);
        assert(follows(read_prev, pool, artifact_id));
        if exact_totals(newer(ch, since)) {
            lemma_newer_walkable(pool, ch, since, read_prev);
        }
    }
    match walk_chain_newest_first(head, since, read_prev) {
        Err(e) => Err(e),
        Ok(n) => {
            let ghost nv = n@;
            proof {
                lemma_newer_walked(pool, ch, since, views(n@), read_prev);
            }
            let v: Vec<Manifest> = reversed(n);
            proof {
                assert(views(v@) =~= views(nv).reverse());
                assert(newer(ch, since).reverse().reverse() =~= newer(ch, since));
            }
            Ok(v)
        },
    }
}

// ---- the delta of the newer part ----

/// A table in two parts.
proof fn lemma_split(ch: Seq<ManifestView>, k: int)
    requires
        0 <= k <= ch.len(),
    ensures
        batches(ch) == batches(ch.take(k)) + batches(ch.skip(k)),
        all_labels(ch) == all_labels(ch.take(k)) + all_labels(ch.skip(k)),
    decreases ch.len(),
{
    if k == ch.len() {
        assert(ch.take(k) =~= ch);
        assert(ch.skip(k) =~= seq![]);
        assert(batches(ch) =~= batches(ch) + Seq::<Seq<ChunkDesc>>::empty());
        assert(all_labels(ch) =~= all_labels(ch) + Seq::<u64>::empty());
    } else {
        let p = ch.drop_last();
        lemma_split(p, k);
        assert(p.take(k) =~= ch.take(k));
        assert(ch.skip(k).drop_last() =~= p.skip(k));
        assert(ch.skip(k).last() == ch.last());
        assert(batches(ch) =~= batches(ch.take(k)) + batches(ch.skip(k)));
        assert(all_labels(ch) =~= all_labels(ch.take(k)) + all_labels(ch.skip(k)));
    }
}

/// The delta of a chain whose older part is not looked at.
proof fn lemma_delta_of_newer(ch: Seq<ManifestView>, since: u64)
    requires
        chain_sane(ch),
        ch.len() > 0,
        read_before(ch, since) > 0,
    ensures
        !truncated(ch, since),
        delta_from(ch, since) == newer(ch, since)[0].version,
        newer(ch, since)[0].version > since ==> delta_batches(ch, since) == batches(newer(ch, since)),
        newer(ch, since)[0].version <= since ==> delta_batches(ch, since) == Seq::<
            Seq<ChunkDesc>,
        >::empty(),
{
    lemma_read_before(ch, since);
    let k = read_before(ch, since) as int;
    let p = newer(ch, since);
    assert(ch[0].version <= since);
    assert(member_sane(ch[0]));
    if p[0].version > since {
        let old = ch.take(k);
        lemma_split(ch, k);
        lemma_sane_skip(ch, k);
        assert(chain_sane(old)) by {
            assert forall|i: int| 0 <= i < old.len() implies member_sane(#[trigger] old[i]) by {
                assert(old[i] == ch[i]);
            }
            assert forall|i: int| 0 < i < old.len() implies (#[trigger] old[i]).kept.len() == 0 by {
                assert(old[i] == ch[i]);
            }
        }
        lemma_table_lens(old);
        let l = all_labels(ch);
        let m = all_labels(old).len() as int;
        assert forall|i: int| 0 <= i < m implies #[trigger] l[i] <= since by {
            lemma_labels_sorted(old, i, i);
            assert(old.last() == ch[k - 1]);
            assert(l[i] == all_labels(old)[i]);
        }
        if m < l.len() {
            assert(l[m] == all_labels(p)[0]);
            lemma_labels_sorted(p, 0, 0);
            assert(p[0] == ch[k]);
            assert(member_sane(ch[k]));
            assert(ch[k].kept.len() == 0);
        }
        lemma_older_unique(l, since, m);
        assert(delta_batches(ch, since) =~= batches(p));
    } else {
        assert(p.len() == 1) by {
            if p.len() > 1 {
                assert(ch[k].version > since);
            }
        }
        delta_at_head_is_empty(ch, since);
    }
}

/// The delta for a reader at `since`, of the part of a chain that it looks at.
pub(crate) fn delta_of_newer(part: &Vec<Manifest>, since: u64, whole: Ghost<Seq<ManifestView>>) -> (d:
    Delta)
    requires
        whole@.len() > 0,
        chain_sane(whole@),
        views(part@) == newer(whole@, since),
        whole@[0].prev is None,
        forall|i: int| 0 < i < whole@.len() ==> (#[trigger] whole@[i]).prev is Some,
    ensures
        groups(d.batches@) == delta_batches(whole@, since),
        d.from_version == delta_from(whole@, since),
        d.truncated == truncated(whole@, since),
{
    proof {
        lemma_read_before(whole@, since);
        lemma_sane_skip(whole@, read_before(whole@, since) as int);
        assert(views(part@).len() == part@.len());
        assert(views(part@)[0] == part@[0]@);
    }
    let ghost k = read_before(whole@, since) as int;
    if part[0].prev.is_none() {
        proof {
            assert(newer(whole@, since)[0] == whole@[k]);
            assert(k == 0);
            assert(newer(whole@, since) =~= whole@);
        }
        return delta_of(part, since);
    }
    proof {
        assert(newer(whole@, since)[0] == whole@[k]);
        assert(k > 0);
        lemma_delta_of_newer(whole@, since);
    }
    let from_version: u64 = part[0].version;
    let found: Vec<Vec<ChunkDesc>> = if from_version > since {
        batches_of(part)
    } else {
        let none: Vec<Vec<ChunkDesc>> = Vec::new();
        assert(groups(none@) =~= seq![]);
        none
    };
    Delta { batches: found, from_version, truncated: false }
}

} // verus!
