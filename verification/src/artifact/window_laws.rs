//! What a reader is told who was away for some versions.
use vstd::prelude::*;

use crate::artifact::chain::{hop_ok, member_ok, root_ok, stops, walk_result, walked};
use crate::artifact::manifest::{KeptMember, ManifestView};
use crate::artifact::window::{
    all_labels, all_spans, batches, chain_sane, delta_batches, delta_from, dropped, expand, keeps,
    labels, lemma_labels_sorted, lemma_table_lens, member_sane, times, truncated, WindowPlan,
};
use crate::counting::{how_many, lemma_how_many_add};

verus! {

// ---- where batches came from ----

/// Every batch came with a version: those of a manifest with its own, but those that
/// a windowed root re-lists with the version it says, as many for each as it says.
pub proof fn where_batches_came_from(ch: Seq<ManifestView>, m: ManifestView)
    ensures
        all_labels(ch.push(m)) == all_labels(ch) + labels(m),
        m.kept.len() == 0 ==> labels(m).len() == m.batch_spans.len() && forall|b: int|
            0 <= b < labels(m).len() ==> #[trigger] labels(m)[b] == m.version,
        all_labels(Seq::<ManifestView>::empty()).len() == 0,
{
    assert(ch.push(m).drop_last() =~= ch);
    if m.kept.len() == 0 {
        assert(expand(m.kept) =~= Seq::<u64>::empty());
        assert(labels(m) =~= times(m.version, m.batch_spans.len()));
    }
}

proof fn lemma_times(v: u64, n: nat, x: u64)
    ensures
        how_many(times(v, n), |l: u64| l == x) == if v == x {
            n
        } else {
            0
        },
    decreases n,
{
    reveal(Seq::filter);
    if n > 0 {
        assert(times(v, n).drop_last() =~= times(v, (n - 1) as nat));
        lemma_times(v, (n - 1) as nat, x);
    }
}

proof fn lemma_expand(kept: Seq<KeptMember>, x: u64)
    ensures
        (forall|i: int| 0 <= i < kept.len() ==> (#[trigger] kept[i]).version != x) ==> how_many(
            expand(kept),
            |l: u64| l == x,
        ) == 0,
    decreases kept.len(),
{
    reveal(Seq::filter);
    if kept.len() > 0 && forall|i: int| 0 <= i < kept.len() ==> (#[trigger] kept[i]).version != x {
        let d = kept.drop_last();
        assert forall|i: int| 0 <= i < d.len() implies (#[trigger] d[i]).version != x by {
            assert(kept[i].version != x);
        }
        lemma_expand(d, x);
        lemma_times(kept.last().version, kept.last().batches as nat, x);
        lemma_how_many_add(expand(d), times(kept.last().version, kept.last().batches as nat), |l: u64| l == x);
    }
}

/// A windowed root has as many batches of each version it re-lists as it says, and
/// no others of older versions.
pub proof fn how_many_batches_are_kept(kept: Seq<KeptMember>, i: int)
    requires
        0 <= i < kept.len(),
        forall|a: int, b: int| 0 <= a < b < kept.len() ==> kept[a].version < kept[b].version,
    ensures
        how_many(expand(kept), |l: u64| l == kept[i].version) == kept[i].batches,
        forall|b: int|
            0 <= b < expand(kept).len() ==> exists|a: int|
                0 <= a < kept.len() && (#[trigger] kept[a]).version == #[trigger] expand(kept)[b],
    decreases kept.len(),
{
    let x = kept[i].version;
    let d = kept.drop_last();
    let t = times(kept.last().version, kept.last().batches as nat);
    assert forall|a: int, b: int| 0 <= a < b < d.len() implies d[a].version < d[b].version by {
        assert(kept[a].version < kept[b].version);
    }
    lemma_how_many_add(expand(d), t, |l: u64| l == x);
    lemma_times(kept.last().version, kept.last().batches as nat, x);
    if i < d.len() {
        how_many_batches_are_kept(d, i);
        assert(kept[i].version < kept[kept.len() - 1].version);
    } else {
        if d.len() > 0 {
            how_many_batches_are_kept(d, 0);
        }
        assert forall|a: int| 0 <= a < d.len() implies (#[trigger] d[a]).version != x by {
            assert(kept[a].version < kept[kept.len() - 1].version);
        }
        lemma_expand(d, x);
    }
    assert forall|b: int| 0 <= b < expand(kept).len() implies exists|a: int|
        0 <= a < kept.len() && (#[trigger] kept[a]).version == #[trigger] expand(kept)[b] by {
        if b < expand(d).len() {
            assert(expand(d)[b] == expand(kept)[b]);
            let a = choose|a: int| 0 <= a < d.len() && (#[trigger] d[a]).version == expand(d)[b];
            assert(kept[a].version == expand(kept)[b]);
        } else {
            assert(expand(kept)[b] == t[b - expand(d).len()]);
            assert(kept[kept.len() - 1].version == expand(kept)[b]);
        }
    }
}

// ---- what a reader is told ----

/// Who has to start over: only a reader of an older version than the oldest the table
/// can tell apart. That is the version of the root, or where its window starts. A
/// reader who has nothing yet does not start over, it starts. Both get all of the
/// table.
pub proof fn who_starts_over(ch: Seq<ManifestView>, since: u64)
    requires
        chain_sane(ch),
        ch.len() > 0,
    ensures
        truncated(ch, since) <==> 0 < since && since < if ch[0].kept.len() > 0 {
            ch[0].window_base
        } else {
            ch[0].version
        },
        since == 0 || truncated(ch, since) ==> delta_batches(ch, since) == batches(ch),
        !truncated(ch, 0),
{
    assert(member_sane(ch[0]));
    if ch[0].kept.len() > 0 {
        assert(ch[0].kept[0].version < ch[0].version);
    }
    assert(batches(ch).skip(0) =~= batches(ch));
}

/// A reader lacks what came later: of the batches of the table it is given those, and
/// all of those, whose version is later than the one it has.
pub proof fn who_lacks_what(ch: Seq<ManifestView>, since: u64, b: int)
    requires
        chain_sane(ch),
        ch.len() > 0,
        !truncated(ch, since),
        0 <= b < batches(ch).len(),
    ensures
        ({
            let d = delta_batches(ch, since);
            let k = batches(ch).len() - d.len();
            &&& 0 <= k
            &&& d == batches(ch).skip(k)
            &&& b >= k <==> all_labels(ch)[b] > since
        }),
{
    if since == 0 {
        lemma_table_lens(ch);
        lemma_labels_sorted(ch, b, b);
        assert(member_sane(ch[0]));
        assert(batches(ch).skip(0) =~= batches(ch));
    } else {
        crate::artifact::window::delta_is_exact(ch, since, b);
    }
}

/// From where a reader is told: the oldest version of the chain that it does not have,
/// and the newest version if it has all.
pub proof fn from_where_a_reader_is_told(ch: Seq<ManifestView>, since: u64, i: int)
    requires
        ch.len() > 0,
        forall|a: int, b: int| 0 <= a < b < ch.len() ==> ch[a].version < ch[b].version,
        0 <= i < ch.len(),
    ensures
        exists|k: int| 0 <= k < ch.len() && (#[trigger] ch[k]).version == delta_from(ch, since),
        ch[i].version > since ==> since < delta_from(ch, since) <= ch[i].version,
        ch.last().version <= since ==> delta_from(ch, since) == ch.last().version,
    decreases ch.len(),
{
    if ch.len() > 1 && ch[0].version <= since {
        let r = ch.skip(1);
        assert forall|a: int, b: int| 0 <= a < b < r.len() implies r[a].version < r[b].version by {
            assert(ch[a + 1].version < ch[b + 1].version);
        }
        from_where_a_reader_is_told(r, since, if i > 0 { i - 1 } else { 0 });
        let k = choose|k: int| 0 <= k < r.len() && (#[trigger] r[k]).version == delta_from(r, since);
        assert(ch[k + 1].version == delta_from(ch, since));
        assert(r.last() == ch.last());
    } else {
        assert(ch[0].version == delta_from(ch, since));
        if i > 0 {
            assert(ch[0].version < ch[i].version);
        }
        if ch.len() > 1 {
            assert(ch[0].version < ch[ch.len() - 1].version);
        }
    }
}

/// A window makes nobody start over without need: a reader from before its base had
/// to start over before, or lacks a batch that the window leaves out.
pub proof fn a_window_starts_as_early_as_it_can(
    ch: Seq<ManifestView>,
    keep: int,
    plan: &WindowPlan,
    since: u64,
)
    requires
        ch.len() > 0,
        chain_sane(ch),
        0 < keep,
        all_spans(ch).len() > 0,
        keeps(plan, ch, keep),
        0 < since < plan.root.base,
    ensures
        truncated(ch, since) || exists|b: int|
            0 <= b < batches(ch).len() - keep && #[trigger] all_labels(ch)[b] > since,
{
    lemma_table_lens(ch);
    let drop = dropped(all_spans(ch).len() as int, keep);
    if drop > 0 {
        assert(all_labels(ch)[drop - 1] > since);
    } else {
        assert(member_sane(ch[0]));
        if ch[0].kept.len() > 0 {
            assert(ch[0].kept[0].version < ch[0].version);
        }
    }
}

// ---- walks ----

/// Which chains can be walked: those whose manifests, newest first, each name the next
/// one, of an older version, one less deep, with as many batches less in the chain as
/// it has itself, of the same artifact and schema, down to a root.
pub proof fn which_chains_can_be_walked(w: Seq<ManifestView>)
    requires
        w.len() > 0,
        forall|i: int|
            0 <= i < w.len() ==> {
                &&& (#[trigger] w[i]).artifact_id == w[0].artifact_id
                &&& w[i].schema_id == w[0].schema_id
                &&& w[i].depth == w.len() - 1 - i
                &&& w[i].batch_spans.len() <= w[i].total_batches
                &&& i < w.len() - 1 <==> w[i].prev is Some
            },
        forall|i: int, j: int|
            0 <= i && j == i + 1 && j < w.len() ==> {
                let l = (#[trigger] w[i]).prev->Some_0;
                let next = #[trigger] w[j];
                &&& next.version < w[i].version
                &&& l.version == next.version && l.depth == next.depth
                &&& l.total_batches == next.total_batches
                &&& next.total_batches == w[i].total_batches - w[i].batch_spans.len()
            },
        w.last().total_batches == w.last().batch_spans.len(),
    ensures
        walk_result(w, w[0], None),
{
    let head = w[0];
    assert forall|i: int| 0 <= i < w.len() - 1 implies hop_ok(#[trigger] w[i], i, head)
        && crate::artifact::chain::answers(w[i].prev->Some_0, w[i + 1]) by {
        let j = i + 1;
        assert(w[j].version < w[i].version);
    }
    assert forall|i: int| 0 <= i < w.len() implies member_ok(#[trigger] w[i], head) by {}
    assert(root_ok(w.last(), w.len() - 1, head)) by {
        assert(w[w.len() - 1].prev is None);
    }
    assert forall|i: int| 0 <= i < w.len() - 1 implies !stops(#[trigger] w[i], i, head, None) by {}
}

/// What a walk to a version meets: the head, and behind it just the manifests after
/// that version, all of the artifact and schema of the head, and each the one that the
/// manifest before it names. It ends at a root or where the next one is not after
/// that version.
pub proof fn what_a_walk_meets(n: Seq<ManifestView>, head: ManifestView, since: u64, i: int)
    requires
        walk_result(n, head, Some(since)),
        0 <= i < n.len(),
    ensures
        n[0] == head,
        n[i].artifact_id == head.artifact_id && n[i].schema_id == head.schema_id,
        i > 0 ==> n[i].version > since,
        i > 0 ==> n[i - 1].prev is Some && n[i - 1].prev->Some_0.version == n[i].version && n[i].version
            < n[i - 1].version && n[i].depth == n[i - 1].depth - 1 && n[i].total_batches == n[i - 1].total_batches
            - n[i - 1].batch_spans.len(),
        match n.last().prev {
            None => n.last().depth == 0 && n.len() == head.depth + 1 && n.last().total_batches
                == n.last().batch_spans.len(),
            Some(l) => l.version <= since && n.len() <= head.depth,
        },
{
    assert(member_ok(n[i], head));
    if i > 0 {
        let k = i - 1;
        assert(hop_ok(n[k], k, head) && crate::artifact::chain::answers(n[k].prev->Some_0, n[k + 1]));
        assert(!stops(n[k], k, head, Some(since)));
    }
}

/// A walk to a version is the start of the walk to the root.
pub proof fn a_walk_stops_short(w: Seq<ManifestView>, head: ManifestView, since: u64, k: int)
    requires
        walk_result(w, head, None),
        0 < k <= w.len(),
        forall|i: int| 0 < i < k ==> (#[trigger] w[i]).version > since,
        k < w.len() ==> w[k].version <= since,
    ensures
        walk_result(w.take(k), head, Some(since)),
{
    let n = w.take(k);
    assert(n[0] == head);
    assert forall|i: int| 0 <= i < n.len() implies member_ok(#[trigger] n[i], head) by {
        assert(n[i] == w[i]);
    }
    assert forall|i: int| 0 <= i < n.len() - 1 implies hop_ok(#[trigger] n[i], i, head)
        && crate::artifact::chain::answers(n[i].prev->Some_0, n[i + 1]) by {
        assert(n[i] == w[i] && n[i + 1] == w[i + 1]);
        assert(hop_ok(w[i], i, head) && crate::artifact::chain::answers(w[i].prev->Some_0, w[i + 1]));
    }
    assert(walked(n, head));
    assert forall|i: int| 0 <= i < n.len() - 1 implies !stops(#[trigger] n[i], i, head, Some(since)) by {
        assert(n[i] == w[i]);
        assert(!stops(w[i], i, head, None));
        assert(hop_ok(w[i], i, head) && crate::artifact::chain::answers(w[i].prev->Some_0, w[i + 1]));
        assert(w[i + 1].version > since);
    }
    assert(n.last() == w[k - 1]);
    if k < w.len() {
        assert(hop_ok(w[k - 1], k - 1, head) && crate::artifact::chain::answers(
            w[k - 1].prev->Some_0,
            w[k - 1 + 1],
        ));
    } else {
        assert(n =~= w);
    }
}

} // verus!
