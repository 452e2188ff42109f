//! Tables, windows and deltas.
//!
//! The table of a version is a sequence of batches. Each batch is a group of
//! chunks and carries the version that added it. A window keeps the newest
//! batches of a table; a delta is what a reader at an older version lacks.
use vstd::prelude::*;

use crate::artifact::chain::views;
use crate::artifact::manifest::{
    kept_sum, new_manifest, span_sum, window_strict, KeptMember, Manifest, ManifestView, WindowRoot,
};
use crate::chunk::ChunkDesc;

verus! {

// ---- groups of chunks ----

/// Where batch `b` starts in the flat chunk list.
pub open spec fn start(spans: Seq<u32>, b: int) -> int {
    span_sum(spans.take(b)) as int
}

/// The chunk list cut into batches.
pub open spec fn cut(chunks: Seq<ChunkDesc>, spans: Seq<u32>) -> Seq<Seq<ChunkDesc>> {
    Seq::new(spans.len(), |b: int| chunks.subrange(start(spans, b), start(spans, b + 1)))
}

/// The spans cover the chunk list exactly.
pub open spec fn partitioned(m: ManifestView) -> bool {
    span_sum(m.batch_spans) == m.chunks.len()
}

proof fn lemma_span_sum_add(a: Seq<u32>, b: Seq<u32>)
    ensures
        span_sum(a + b) == span_sum(a) + span_sum(b),
    decreases b.len(),
{
    if b.len() == 0 {
        assert(a + b =~= a);
    } else {
        assert((a + b).drop_last() =~= a + b.drop_last());
        lemma_span_sum_add(a, b.drop_last());
    }
}

pub proof fn lemma_start_mono(spans: Seq<u32>, a: int, b: int)
    requires
        0 <= a <= b <= spans.len(),
    ensures
        0 <= start(spans, a) <= start(spans, b) <= span_sum(spans),
{
    assert(spans.take(b) =~= spans.take(a) + spans.subrange(a, b));
    lemma_span_sum_add(spans.take(a), spans.subrange(a, b));
    assert(spans =~= spans.take(b) + spans.skip(b));
    lemma_span_sum_add(spans.take(b), spans.skip(b));
}

/// Cutting a concatenation is concatenating the cuts.
pub proof fn lemma_cut_add(c1: Seq<ChunkDesc>, s1: Seq<u32>, c2: Seq<ChunkDesc>, s2: Seq<u32>)
    requires
        span_sum(s1) == c1.len(),
        span_sum(s2) == c2.len(),
    ensures
        cut(c1 + c2, s1 + s2) == cut(c1, s1) + cut(c2, s2),
        span_sum(s1 + s2) == (c1 + c2).len(),
{
    let s = s1 + s2;
    lemma_span_sum_add(s1, s2);
    assert forall|b: int| 0 <= b < s.len() implies #[trigger] cut(c1 + c2, s)[b] == (cut(c1, s1) + cut(
        c2,
        s2,
    ))[b] by {
        if b < s1.len() {
            assert(s.take(b) =~= s1.take(b));
            assert(s.take(b + 1) =~= s1.take(b + 1));
            lemma_start_mono(s1, b, b + 1);
            assert((c1 + c2).subrange(start(s, b), start(s, b + 1)) =~= c1.subrange(
                start(s1, b),
                start(s1, b + 1),
            ));
        } else {
            let k = b - s1.len();
            assert(s.take(b) =~= s1 + s2.take(k));
            assert(s.take(b + 1) =~= s1 + s2.take(k + 1));
            lemma_span_sum_add(s1, s2.take(k));
            lemma_span_sum_add(s1, s2.take(k + 1));
            lemma_start_mono(s2, k, k + 1);
            assert((c1 + c2).subrange(start(s, b), start(s, b + 1)) =~= c2.subrange(
                start(s2, k),
                start(s2, k + 1),
            ));
        }
    }
    assert(cut(c1 + c2, s) =~= cut(c1, s1) + cut(c2, s2));
}

/// Leaving out the first batches leaves out their chunks.
pub proof fn lemma_cut_skip(c: Seq<ChunkDesc>, s: Seq<u32>, k: int)
    requires
        span_sum(s) == c.len(),
        0 <= k <= s.len(),
    ensures
        0 <= start(s, k) <= c.len(),
        cut(c.skip(start(s, k)), s.skip(k)) == cut(c, s).skip(k),
        span_sum(s.skip(k)) == c.skip(start(s, k)).len(),
{
    let a = c.take(start(s, k));
    let b = c.skip(start(s, k));
    lemma_start_mono(s, k, s.len() as int);
    assert(s =~= s.take(k) + s.skip(k));
    lemma_span_sum_add(s.take(k), s.skip(k));
    lemma_cut_add(a, s.take(k), b, s.skip(k));
    assert(a + b =~= c);
    assert(cut(c, s).skip(k) =~= cut(b, s.skip(k)));
}

// ---- which version a batch came from ----

/// `n` times `v`.
pub open spec fn times(v: u64, n: nat) -> Seq<u64> {
    Seq::new(n, |i: int| v)
}

/// The members written out: one label for each batch.
pub open spec fn expand(kept: Seq<KeptMember>) -> Seq<u64>
    decreases kept.len(),
{
    if kept.len() == 0 {
        seq![]
    } else {
        expand(kept.drop_last()) + times(kept.last().version, kept.last().batches as nat)
    }
}

/// The version each batch of a manifest came from.
pub open spec fn labels(m: ManifestView) -> Seq<u64> {
    expand(m.kept) + times(m.version, (m.batch_spans.len() - kept_sum(m.kept)) as nat)
}

pub proof fn lemma_expand_len(kept: Seq<KeptMember>)
    ensures
        expand(kept).len() == kept_sum(kept),
    decreases kept.len(),
{
    if kept.len() > 0 {
        lemma_expand_len(kept.drop_last());
    }
}

// ---- tables ----

/// The chunks of the whole table, in row order.
pub open spec fn all_chunks(ch: Seq<ManifestView>) -> Seq<ChunkDesc>
    decreases ch.len(),
{
    if ch.len() == 0 {
        seq![]
    } else {
        all_chunks(ch.drop_last()) + ch.last().chunks
    }
}

/// The spans of the whole table.
pub open spec fn all_spans(ch: Seq<ManifestView>) -> Seq<u32>
    decreases ch.len(),
{
    if ch.len() == 0 {
        seq![]
    } else {
        all_spans(ch.drop_last()) + ch.last().batch_spans
    }
}

/// The labels of the whole table.
pub open spec fn all_labels(ch: Seq<ManifestView>) -> Seq<u64>
    decreases ch.len(),
{
    if ch.len() == 0 {
        seq![]
    } else {
        all_labels(ch.drop_last()) + labels(ch.last())
    }
}

/// The batches of the table that the chain `ch` (oldest first) spells out.
pub open spec fn batches(ch: Seq<ManifestView>) -> Seq<Seq<ChunkDesc>>
    decreases ch.len(),
{
    if ch.len() == 0 {
        seq![]
    } else {
        batches(ch.drop_last()) + cut(ch.last().chunks, ch.last().batch_spans)
    }
}

/// What holds of each manifest of a chain.
pub open spec fn member_sane(m: ManifestView) -> bool {
    &&& partitioned(m)
    &&& m.version > 0
    &&& m.batch_spans.len() <= u32::MAX
    &&& window_strict(m.window_base, m.kept, m.version, m.batch_spans.len() as int)
}

/// A chain, oldest first: ascending versions, and only the first may be windowed.
pub open spec fn chain_sane(ch: Seq<ManifestView>) -> bool {
    &&& forall|i: int| 0 <= i < ch.len() ==> member_sane(#[trigger] ch[i])
    &&& forall|i: int, j: int| 0 <= i < j < ch.len() ==> ch[i].version < ch[j].version
    &&& forall|i: int| 0 < i < ch.len() ==> (#[trigger] ch[i]).kept.len() == 0
}

/// The version from which on a reader of the table loses nothing.
pub open spec fn base_of_root(m: ManifestView) -> u64 {
    if m.window_base != 0 {
        m.window_base
    } else {
        m.version
    }
}

pub proof fn lemma_table_lens(ch: Seq<ManifestView>)
    requires
        chain_sane(ch),
    ensures
        all_labels(ch).len() == all_spans(ch).len(),
        batches(ch).len() == all_spans(ch).len(),
        batches(ch) == cut(all_chunks(ch), all_spans(ch)),
        span_sum(all_spans(ch)) == all_chunks(ch).len(),
    decreases ch.len(),
{
    if ch.len() == 0 {
        assert(batches(ch) =~= cut(all_chunks(ch), all_spans(ch)));
    } else {
        let p = ch.drop_last();
        let m = ch.last();
        assert(member_sane(m));
        lemma_sane_prefix(ch);
        lemma_table_lens(p);
        lemma_expand_len(m.kept);
        lemma_cut_add(all_chunks(p), all_spans(p), m.chunks, m.batch_spans);
    }
}

pub proof fn lemma_sane_prefix(ch: Seq<ManifestView>)
    requires
        chain_sane(ch),
        ch.len() > 0,
    ensures
        chain_sane(ch.drop_last()),
{
    let p = ch.drop_last();
    assert forall|i: int| 0 <= i < p.len() implies member_sane(#[trigger] p[i]) by {
        assert(p[i] == ch[i]);
    }
    assert forall|i: int| 0 < i < p.len() implies (#[trigger] p[i]).kept.len() == 0 by {
        assert(p[i] == ch[i]);
    }
}

proof fn lemma_expand_bounds(kept: Seq<KeptMember>, i: int)
    requires
        forall|a: int, b: int| 0 <= a < b < kept.len() ==> kept[a].version < kept[b].version,
        0 <= i < expand(kept).len(),
    ensures
        exists|a: int| 0 <= a < kept.len() && expand(kept)[i] == (#[trigger] kept[a]).version,
        forall|j: int| 0 <= j <= i ==> #[trigger] expand(kept)[j] <= expand(kept)[i],
    decreases kept.len(),
{
    if kept.len() > 0 {
        let p = kept.drop_last();
        let e = expand(p);
        let last = kept.len() - 1;
        if i < e.len() {
            lemma_expand_bounds(p, i);
            let a = choose|a: int| 0 <= a < p.len() && e[i] == (#[trigger] p[a]).version;
            assert(kept[a] == p[a]);
            assert forall|j: int| 0 <= j <= i implies #[trigger] expand(kept)[j] <= expand(kept)[i] by {
                assert(expand(kept)[j] == e[j]);
            }
        } else {
            assert(expand(kept)[i] == kept[last].version);
            assert forall|j: int| 0 <= j <= i implies #[trigger] expand(kept)[j] <= expand(kept)[i] by {
                if j < e.len() {
                    lemma_expand_bounds(p, j);
                    let a = choose|a: int| 0 <= a < p.len() && e[j] == (#[trigger] p[a]).version;
                    assert(kept[a] == p[a]);
                    assert(kept[a].version < kept[last].version);
                }
            }
        }
    }
}

/// The labels of a manifest ascend, reach no further than its own version, and
/// start no earlier than the window's base.
proof fn lemma_label_bounds(m: ManifestView, i: int)
    requires
        member_sane(m),
        0 <= i < labels(m).len(),
    ensures
        labels(m)[i] <= m.version,
        base_of_root(m) <= labels(m)[i],
        m.kept.len() == 0 ==> labels(m)[i] == m.version,
        forall|j: int| 0 <= j <= i ==> #[trigger] labels(m)[j] <= labels(m)[i],
{
    lemma_expand_len(m.kept);
    let e = expand(m.kept);
    if i < e.len() {
        lemma_expand_bounds(m.kept, i);
        let a = choose|a: int| 0 <= a < m.kept.len() && e[i] == (#[trigger] m.kept[a]).version;
        if a > 0 {
            assert(m.kept[0].version < m.kept[a].version);
        }
        assert forall|j: int| 0 <= j <= i implies #[trigger] labels(m)[j] <= labels(m)[i] by {
            assert(labels(m)[j] == e[j]);
        }
    } else {
        assert forall|j: int| 0 <= j <= i implies #[trigger] labels(m)[j] <= labels(m)[i] by {
            if j < e.len() {
                lemma_expand_bounds(m.kept, j);
                let a = choose|a: int| 0 <= a < m.kept.len() && e[j] == (#[trigger] m.kept[a]).version;
            }
        }
        if m.kept.len() > 0 {
            assert(m.kept[0].version < m.version);
        }
    }
}

/// The labels of a table ascend; the newest is at most the head's version.
pub proof fn lemma_labels_sorted(ch: Seq<ManifestView>, i: int, j: int)
    requires
        chain_sane(ch),
        0 <= i <= j < all_labels(ch).len(),
    ensures
        all_labels(ch)[i] <= all_labels(ch)[j] <= ch.last().version,
        base_of_root(ch[0]) <= all_labels(ch)[i],
    decreases ch.len(),
{
    let p = ch.drop_last();
    let m = ch.last();
    let l = all_labels(p);
    lemma_sane_prefix(ch);
    assert(member_sane(m));
    if j < l.len() {
        lemma_labels_sorted(p, i, j);
        assert(p.last().version < m.version);
        assert(p[0] == ch[0]);
    } else {
        lemma_label_bounds(m, j - l.len());
        if i < l.len() {
            lemma_labels_sorted(p, i, i);
            assert(p.last().version < m.version);
            assert(p[0] == ch[0]);
            assert(m.kept.len() == 0);
        } else {
            lemma_label_bounds(m, i - l.len());
            assert(labels(m)[i - l.len()] <= labels(m)[j - l.len()]);
            if p.len() > 0 {
                assert(member_sane(ch[0]));
                assert(ch[0].version < m.version);
                assert(m.kept.len() == 0);
            }
        }
    }
}

// ---- windows ----

/// How many batches of a table of `total` are left out when `keep` are kept.
pub open spec fn dropped(total: int, keep: int) -> int {
    if keep >= total {
        0
    } else {
        total - keep
    }
}

/// The base of a window that leaves out the first `drop` batches of the table:
/// everything up to the last version left out is behind it.
pub open spec fn window_base_of(ch: Seq<ManifestView>, drop: int) -> u64 {
    if drop == 0 {
        base_of_root(ch[0])
    } else {
        all_labels(ch)[drop - 1]
    }
}

/// The part of a table a window re-lists.
#[derive(Debug)]
pub struct WindowPlan {
    pub chunks: Vec<ChunkDesc>,
    pub spans: Vec<u32>,
    pub root: WindowRoot,
}

/// Whether `plan` re-lists the newest `keep` batches of the table of `ch`.
pub open spec fn keeps(plan: &WindowPlan, ch: Seq<ManifestView>, keep: int) -> bool {
    let drop = dropped(all_spans(ch).len() as int, keep);
    &&& plan.spans@ == all_spans(ch).skip(drop)
    &&& plan.chunks@ == all_chunks(ch).skip(start(all_spans(ch), drop))
    &&& expand(plan.root.kept@) == all_labels(ch).skip(drop)
    &&& plan.root.base == window_base_of(ch, drop)
    &&& forall|i: int| 0 <= i < plan.root.kept@.len() ==> (#[trigger] plan.root.kept@[i]).batches > 0
    &&& forall|i: int, j: int|
        0 <= i < j < plan.root.kept@.len() ==> plan.root.kept@[i].version < plan.root.kept@[j].version
}


/// Append `v` to `out`.
pub fn extend<T: Copy>(out: &mut Vec<T>, v: &[T])
    ensures
        final(out)@ == old(out)@ + v@,
{
    let n: usize = v.len();
    let mut i: usize = 0;
    while i < n
        invariant
            n == v@.len(),
            i <= n,
            out@ == old(out)@ + v@.take(i as int),
        decreases n - i,
    {
        out.push(v[i]);
        proof {
            assert(out@ =~= old(out)@ + v@.take(i + 1));
        }
        i = i + 1;
    }
    proof {
        assert(v@.take(n as int) =~= v@);
    }
}

/// Append `n` times `v` to `out`.
fn extend_times(out: &mut Vec<u64>, v: u64, n: usize)
    ensures
        final(out)@ == old(out)@ + times(v, n as nat),
{
    let mut i: usize = 0;
    while i < n
        invariant
            i <= n,
            out@ == old(out)@ + times(v, i as nat),
        decreases n - i,
    {
        out.push(v);
        proof {
            assert(out@ =~= old(out)@ + times(v, (i + 1) as nat));
        }
        i = i + 1;
    }
}

/// Append the labels of `m` to `out`.
fn extend_labels(out: &mut Vec<u64>, m: &Manifest)
    requires
        member_sane(m@),
    ensures
        final(out)@ == old(out)@ + labels(m@),
{
    let n: usize = m.kept.len();
    let mut i: usize = 0;
    let mut sum: usize = 0;
    let own: usize = m.batch_spans.len();
    proof {
        assert(old(out)@ + expand(m.kept@.take(0)) =~= old(out)@);
    }
    while i < n
        invariant
            n == m.kept@.len(),
            own == m.batch_spans@.len(),
            kept_sum(m.kept@) <= own,
            i <= n,
            sum == kept_sum(m.kept@.take(i as int)),
            out@ == old(out)@ + expand(m.kept@.take(i as int)),
        decreases n - i,
    {
        let k: KeptMember = m.kept[i];
        proof {
            assert(m.kept@.take(i + 1).drop_last() =~= m.kept@.take(i as int));
            lemma_kept_take(m.kept@, i + 1);
        }
        extend_times(out, k.version, k.batches as usize);
        sum = sum + k.batches as usize;
        proof {
            assert(out@ =~= old(out)@ + expand(m.kept@.take(i + 1)));
        }
        i = i + 1;
    }
    proof {
        assert(m.kept@.take(n as int) =~= m.kept@);
    }
    extend_times(out, m.version, own - sum);
    proof {
        assert(out@ =~= old(out)@ + labels(m@));
    }
}

proof fn lemma_kept_take(kept: Seq<KeptMember>, n: int)
    requires
        0 <= n <= kept.len(),
    ensures
        kept_sum(kept.take(n)) <= kept_sum(kept),
    decreases kept.len(),
{
    if n == kept.len() {
        assert(kept.take(n) =~= kept);
    } else {
        lemma_kept_take(kept.drop_last(), n);
        assert(kept.drop_last().take(n) =~= kept.take(n));
    }
}

/// The labels run-length encoded.
fn encode_labels(l: &[u64], from: usize) -> (kept: Vec<KeptMember>)
    requires
        from <= l@.len(),
        l@.len() - from <= u32::MAX,
        forall|i: int, j: int| 0 <= i <= j < l@.len() ==> l@[i] <= l@[j],
    ensures
        expand(kept@) == l@.skip(from as int),
        forall|i: int| 0 <= i < kept@.len() ==> (#[trigger] kept@[i]).batches > 0,
        forall|i: int, j: int| 0 <= i < j < kept@.len() ==> kept@[i].version < kept@[j].version,
{
    let n: usize = l.len();
    let mut kept: Vec<KeptMember> = Vec::new();
    let mut i: usize = from;
    proof {
        assert(l@.subrange(from as int, from as int) =~= seq![]);
    }
    while i < n
        invariant
            n == l@.len(),
            from <= i <= n,
            n - from <= u32::MAX,
            forall|a: int, b: int| 0 <= a <= b < n ==> l@[a] <= l@[b],
            expand(kept@) == l@.subrange(from as int, i as int),
            forall|k: int| 0 <= k < kept@.len() ==> (#[trigger] kept@[k]).batches > 0,
            forall|a: int, b: int| 0 <= a < b < kept@.len() ==> kept@[a].version < kept@[b].version,
            kept@.len() > 0 ==> i > from && kept@.last().version == l@[i - 1],
            kept@.len() == 0 ==> i == from,
        decreases n - i,
    {
        let v: u64 = l[i];
        let m: usize = kept.len();
        let ghost k0 = kept@;
        proof {
            lemma_expand_len(k0);
            assert(l@.subrange(from as int, i + 1) =~= l@.subrange(from as int, i as int).push(v));
        }
        if m > 0 && kept[m - 1].version == v {
            let c: u32 = kept[m - 1].batches;
            proof {
                assert(kept_sum(k0) >= c);
            }
            kept.set(m - 1, KeptMember { version: v, batches: c + 1 });
            proof {
                assert(kept@.drop_last() =~= k0.drop_last());
                assert(times(v, (c + 1) as nat) =~= times(v, c as nat).push(v));
                assert(expand(kept@) =~= expand(k0).push(v));
            }
        } else {
            kept.push(KeptMember { version: v, batches: 1 });
            proof {
                assert(kept@.drop_last() =~= k0);
                assert(times(v, 1) =~= seq![v]);
                assert(expand(kept@) =~= expand(k0).push(v));
                if k0.len() > 0 {
                    assert(l@[i - 1] <= l@[i as int]);
                }
            }
        }
        i = i + 1;
    }
    proof {
        assert(l@.subrange(from as int, n as int) =~= l@.skip(from as int));
    }
    kept
}

/// A table written out: its chunks, its spans, and the version of each batch.
pub struct Table {
    pub chunks: Vec<ChunkDesc>,
    pub spans: Vec<u32>,
    pub labels: Vec<u64>,
}

/// Write out the table of `chain`.
pub fn gather(chain: &Vec<Manifest>) -> (t: Table)
    requires
        chain_sane(views(chain@)),
    ensures
        t.chunks@ == all_chunks(views(chain@)),
        t.spans@ == all_spans(views(chain@)),
        t.labels@ == all_labels(views(chain@)),
{
    let ghost ch = views(chain@);
    let n: usize = chain.len();
    let mut chunks: Vec<ChunkDesc> = Vec::new();
    let mut spans: Vec<u32> = Vec::new();
    let mut label: Vec<u64> = Vec::new();
    let mut i: usize = 0;
    while i < n
        invariant
            n == chain@.len(),
            i <= n,
            ch == views(chain@),
            chain_sane(ch),
            chunks@ == all_chunks(ch.take(i as int)),
            spans@ == all_spans(ch.take(i as int)),
            label@ == all_labels(ch.take(i as int)),
        decreases n - i,
    {
        proof {
            assert(ch.take(i + 1).drop_last() =~= ch.take(i as int));
            assert(ch.take(i + 1).last() == chain@[i as int]@);
            assert(member_sane(ch[i as int]));
        }
        extend(&mut chunks, chain[i].chunks.as_slice());
        extend(&mut spans, chain[i].batch_spans.as_slice());
        extend_labels(&mut label, &chain[i]);
        i = i + 1;
    }
    proof {
        assert(ch.take(n as int) =~= ch);
    }
    Table { chunks, spans, labels: label }
}

/// Where batch `b` starts in the flat chunk list.
fn start_of(spans: &Vec<u32>, b: usize, total: usize) -> (at: usize)
    requires
        b <= spans@.len(),
        span_sum(spans@) == total,
    ensures
        at == start(spans@, b as int),
        at <= total,
{
    let mut at: usize = 0;
    let mut k: usize = 0;
    proof {
        lemma_start_mono(spans@, 0, b as int);
    }
    while k < b
        invariant
            k <= b <= spans@.len(),
            total == span_sum(spans@),
            at == start(spans@, k as int),
            at <= total,
        decreases b - k,
    {
        proof {
            assert(spans@.take(k + 1).drop_last() =~= spans@.take(k as int));
            lemma_start_mono(spans@, k + 1, spans@.len() as int);
        }
        at = at + spans[k] as usize;
        k = k + 1;
    }
    at
}

/// Plan a window over the table of `chain`: the newest `keep` batches, the
/// versions they came from, and the version from which on a reader loses
/// nothing by the window.
pub fn plan_window(chain: &Vec<Manifest>, keep: u32) -> (plan: WindowPlan)
    requires
        chain@.len() > 0,
        chain_sane(views(chain@)),
    ensures
        keeps(&plan, views(chain@), keep as int),
{
    let ghost ch = views(chain@);
    let t: Table = gather(chain);
    proof {
        lemma_table_lens(ch);
    }
    let total: usize = t.spans.len();
    let drop: usize = if keep as u64 >= total as u64 {
        0
    } else {
        total - keep as usize
    };
    let at: usize = start_of(&t.spans, drop, t.chunks.len());
    let base: u64 = if drop == 0 {
        if chain[0].window_base != 0 {
            chain[0].window_base
        } else {
            chain[0].version
        }
    } else {
        t.labels[drop - 1]
    };
    proof {
        let label = t.labels@;
        assert forall|i: int, j: int| 0 <= i <= j < label.len() implies label[i] <= label[j] by {
            lemma_labels_sorted(ch, i, j);
        }
    }
    let kept: Vec<KeptMember> = encode_labels(t.labels.as_slice(), drop);
    WindowPlan {
        chunks: tail(&t.chunks, at),
        spans: tail(&t.spans, drop),
        root: WindowRoot { base, kept },
    }
}

/// The elements of `v` from `at` on.
fn tail<T: Copy>(v: &Vec<T>, at: usize) -> (r: Vec<T>)
    requires
        at <= v@.len(),
    ensures
        r@ == v@.skip(at as int),
{
    let n: usize = v.len();
    let mut r: Vec<T> = Vec::new();
    let mut i: usize = at;
    while i < n
        invariant
            n == v@.len(),
            at <= i <= n,
            r@ == v@.subrange(at as int, i as int),
        decreases n - i,
    {
        r.push(v[i]);
        proof {
            assert(v@.subrange(at as int, i + 1) =~= v@.subrange(at as int, i as int).push(v@[i as int]));
        }
        i = i + 1;
    }
    proof {
        assert(v@.subrange(at as int, n as int) =~= v@.skip(at as int));
    }
    r
}


// ---- deltas ----

/// How many labels at the front are at most `since`.
pub open spec fn older(l: Seq<u64>, since: u64) -> nat
    decreases l.len(),
{
    if l.len() == 0 || l[0] > since {
        0
    } else {
        1 + older(l.skip(1), since)
    }
}

/// Whether a reader at `since` is behind what the table can tell apart and has
/// to take all of it.
pub open spec fn truncated(ch: Seq<ManifestView>, since: u64) -> bool {
    since != 0 && ch[0].version > since && since < base_of_root(ch[0])
}

/// How many batches of the table a reader at `since` already has.
pub open spec fn delta_skip(ch: Seq<ManifestView>, since: u64) -> int {
    if since == 0 || truncated(ch, since) {
        0
    } else {
        older(all_labels(ch), since) as int
    }
}

/// The batches a reader at `since` lacks.
pub open spec fn delta_batches(ch: Seq<ManifestView>, since: u64) -> Seq<Seq<ChunkDesc>> {
    batches(ch).skip(delta_skip(ch, since))
}

/// The oldest version of the chain that is newer than `since`; the newest
/// version if there is none.
pub open spec fn delta_from(ch: Seq<ManifestView>, since: u64) -> u64
    decreases ch.len(),
{
    if ch.len() <= 1 || ch[0].version > since {
        ch[0].version
    } else {
        delta_from(ch.skip(1), since)
    }
}

pub proof fn lemma_older(l: Seq<u64>, since: u64)
    requires
        forall|i: int, j: int| 0 <= i <= j < l.len() ==> l[i] <= l[j],
    ensures
        older(l, since) <= l.len(),
        forall|i: int| 0 <= i < older(l, since) ==> #[trigger] l[i] <= since,
        forall|i: int| older(l, since) <= i < l.len() ==> #[trigger] l[i] > since,
    decreases l.len(),
{
    if l.len() > 0 {
        let r = l.skip(1);
        if l[0] > since {
            assert forall|i: int| 0 <= i < l.len() implies #[trigger] l[i] > since by {
                assert(l[0] <= l[i]);
            }
        } else {
            assert forall|i: int, j: int| 0 <= i <= j < r.len() implies r[i] <= r[j] by {
                assert(l[i + 1] <= l[j + 1]);
            }
            lemma_older(r, since);
            assert forall|i: int| 0 <= i < older(l, since) implies #[trigger] l[i] <= since by {
                if i > 0 {
                    assert(r[i - 1] == l[i]);
                }
            }
            assert forall|i: int| older(l, since) <= i < l.len() implies #[trigger] l[i] > since by {
                assert(r[i - 1] == l[i]);
            }
        }
    }
}

/// The number of older labels is the only one that splits them.
pub proof fn lemma_older_unique(l: Seq<u64>, since: u64, k: int)
    requires
        0 <= k <= l.len(),
        forall|i: int| 0 <= i < k ==> #[trigger] l[i] <= since,
        k < l.len() ==> l[k] > since,
    ensures
        older(l, since) == k,
    decreases l.len(),
{
    if k > 0 {
        let r = l.skip(1);
        assert forall|i: int| 0 <= i < k - 1 implies #[trigger] r[i] <= since by {
            assert(l[i + 1] <= since);
        }
        assert(l[0] <= since);
        lemma_older_unique(r, since, k - 1);
    }
}

/// The delta of a reader is exactly the batches that came with later versions:
/// nothing it has, everything it lacks.
pub proof fn delta_is_exact(ch: Seq<ManifestView>, since: u64, b: int)
    requires
        chain_sane(ch),
        ch.len() > 0,
        since > 0,
        !truncated(ch, since),
        0 <= b < batches(ch).len(),
    ensures
        all_labels(ch).len() == batches(ch).len(),
        0 <= delta_skip(ch, since) <= batches(ch).len(),
        b >= delta_skip(ch, since) <==> all_labels(ch)[b] > since,
{
    lemma_table_lens(ch);
    assert forall|i: int, j: int| 0 <= i <= j < all_labels(ch).len() implies all_labels(ch)[i]
        <= all_labels(ch)[j] by {
        lemma_labels_sorted(ch, i, j);
    }
    lemma_older(all_labels(ch), since);
}

/// A reader at or past the head's version lacks nothing.
pub proof fn delta_at_head_is_empty(ch: Seq<ManifestView>, since: u64)
    requires
        chain_sane(ch),
        ch.len() > 0,
        since >= ch.last().version,
    ensures
        delta_batches(ch, since) == Seq::<Seq<ChunkDesc>>::empty(),
        !truncated(ch, since),
        delta_from(ch, since) == ch.last().version,
{
    lemma_table_lens(ch);
    let l = all_labels(ch);
    assert(member_sane(ch.last()));
    assert forall|i: int| 0 <= i < l.len() implies #[trigger] l[i] <= since by {
        lemma_labels_sorted(ch, i, i);
    }
    if ch.len() > 1 {
        assert(ch[0].version < ch.last().version);
    }
    lemma_older_unique(l, since, l.len() as int);
    assert(delta_batches(ch, since) =~= Seq::<Seq<ChunkDesc>>::empty());
    lemma_delta_from_head(ch, since);
}

proof fn lemma_delta_from_head(ch: Seq<ManifestView>, since: u64)
    requires
        chain_sane(ch),
        ch.len() > 0,
        since >= ch.last().version,
    ensures
        delta_from(ch, since) == ch.last().version,
    decreases ch.len(),
{
    if ch.len() > 1 {
        let r = ch.skip(1);
        assert(ch[0].version < ch.last().version);
        assert forall|i: int| 0 <= i < r.len() implies member_sane(#[trigger] r[i]) by {
            assert(r[i] == ch[i + 1]);
        }
        assert forall|i: int| 0 < i < r.len() implies (#[trigger] r[i]).kept.len() == 0 by {
            assert(r[i] == ch[i + 1]);
        }
        assert forall|i: int, j: int| 0 <= i < j < r.len() implies r[i].version < r[j].version by {
            assert(ch[i + 1].version < ch[j + 1].version);
        }
        lemma_delta_from_head(r, since);
    }
}

/// Groups of chunks, each by what it holds.
pub open spec fn groups(v: Seq<Vec<ChunkDesc>>) -> Seq<Seq<ChunkDesc>> {
    Seq::new(v.len(), |i: int| v[i]@)
}

/// What a reader at some version lacks of a newer one.
#[derive(Debug)]
pub struct Delta {
    /// The batches, each a group of chunks, oldest first.
    pub batches: Vec<Vec<ChunkDesc>>,
    /// The oldest version the delta was read from.
    pub from_version: u64,
    /// The reader was behind what the table can tell apart: `batches` is the
    /// whole table.
    pub truncated: bool,
}

/// The chunk list cut into batches, from batch `from` on.
fn cut_from(chunks: &Vec<ChunkDesc>, spans: &Vec<u32>, from: usize) -> (r: Vec<Vec<ChunkDesc>>)
    requires
        span_sum(spans@) == chunks@.len(),
        from <= spans@.len(),
    ensures
        groups(r@) == cut(chunks@, spans@).skip(from as int),
{
    let total: usize = chunks.len();
    let n: usize = spans.len();
    let mut at: usize = start_of(spans, from, total);
    let mut r: Vec<Vec<ChunkDesc>> = Vec::new();
    let mut b: usize = from;
    while b < n
        invariant
            n == spans@.len(),
            total == chunks@.len(),
            span_sum(spans@) == total,
            from <= b <= n,
            at == start(spans@, b as int),
            groups(r@) =~= cut(chunks@, spans@).subrange(from as int, b as int),
        decreases n - b,
    {
        proof {
            assert(spans@.take(b + 1).drop_last() =~= spans@.take(b as int));
            lemma_start_mono(spans@, b + 1, n as int);
        }
        let end: usize = at + spans[b] as usize;
        let mut g: Vec<ChunkDesc> = Vec::new();
        let mut i: usize = at;
        while i < end
            invariant
                at <= i <= end <= chunks@.len(),
                g@ == chunks@.subrange(at as int, i as int),
            decreases end - i,
        {
            g.push(chunks[i]);
            proof {
                assert(chunks@.subrange(at as int, i + 1) =~= chunks@.subrange(at as int, i as int).push(
                    chunks@[i as int],
                ));
            }
            i = i + 1;
        }
        let ghost r0 = r@;
        r.push(g);
        proof {
            let c = cut(chunks@, spans@);
            assert(c.subrange(from as int, b + 1) =~= c.subrange(from as int, b as int).push(c[b as int]));
            assert(groups(r@) =~= groups(r0).push(g@));
        }
        at = end;
        b = b + 1;
    }
    proof {
        let c = cut(chunks@, spans@);
        assert(c.subrange(from as int, n as int) =~= c.skip(from as int));
    }
    r
}

/// The batches of the table of `chain`, in row order.
pub fn batches_of(chain: &Vec<Manifest>) -> (r: Vec<Vec<ChunkDesc>>)
    requires
        chain_sane(views(chain@)),
    ensures
        groups(r@) == batches(views(chain@)),
{
    let t: Table = gather(chain);
    proof {
        lemma_table_lens(views(chain@));
        assert(batches(views(chain@)).skip(0) =~= batches(views(chain@)));
    }
    cut_from(&t.chunks, &t.spans, 0)
}

/// What a reader at `since` lacks of the table of `chain`; `0` stands for a
/// reader that has nothing.
pub fn delta_of(chain: &Vec<Manifest>, since: u64) -> (d: Delta)
    requires
        chain@.len() > 0,
        chain_sane(views(chain@)),
    ensures
        groups(d.batches@) == delta_batches(views(chain@), since),
        d.from_version == delta_from(views(chain@), since),
        d.truncated == truncated(views(chain@), since),
{
    let ghost ch = views(chain@);
    let t: Table = gather(chain);
    proof {
        lemma_table_lens(ch);
        assert forall|i: int, j: int| 0 <= i <= j < t.labels@.len() implies t.labels@[i]
            <= t.labels@[j] by {
            lemma_labels_sorted(ch, i, j);
        }
        lemma_older(t.labels@, since);
    }
    let base: u64 = if chain[0].window_base != 0 {
        chain[0].window_base
    } else {
        chain[0].version
    };
    let behind: bool = since != 0 && chain[0].version > since && since < base;
    let n: usize = t.labels.len();
    let mut from: usize = 0;
    if since != 0 && !behind {
        while from < n && t.labels[from] <= since
            invariant
                n == t.labels@.len(),
                from <= n,
                older(t.labels@, since) <= n,
                forall|i: int| 0 <= i < older(t.labels@, since) ==> #[trigger] t.labels@[i] <= since,
                forall|i: int| older(t.labels@, since) <= i < n ==> #[trigger] t.labels@[i] > since,
                from <= older(t.labels@, since),
            decreases n - from,
        {
            from = from + 1;
        }
    }
    let m: usize = chain.len();
    let mut k: usize = 0;
    proof {
        assert(ch.skip(0) =~= ch);
    }
    while k + 1 < m && chain[k].version <= since
        invariant
            m == chain@.len(),
            ch == views(chain@),
            k < m,
            delta_from(ch.skip(k as int), since) == delta_from(ch, since),
        decreases m - k,
    {
        proof {
            assert(ch.skip(k as int).skip(1) =~= ch.skip(k + 1));
            assert(ch.skip(k as int)[0] == chain@[k as int]@);
        }
        k = k + 1;
    }
    proof {
        assert(ch.skip(k as int)[0] == chain@[k as int]@);
    }
    Delta {
        batches: cut_from(&t.chunks, &t.spans, from),
        from_version: chain[k].version,
        truncated: behind,
    }
}

/// Appending a manifest adds its batches at the end of the table, and to the
/// delta of every reader that is not past it.
pub proof fn append_adds_to_every_delta(ch: Seq<ManifestView>, m: ManifestView, since: u64)
    requires
        ch.len() > 0,
        chain_sane(ch),
        chain_sane(ch.push(m)),
        since < m.version,
        since <= ch.last().version,
    ensures
        batches(ch.push(m)) == batches(ch) + cut(m.chunks, m.batch_spans),
        truncated(ch.push(m), since) == truncated(ch, since),
        delta_batches(ch.push(m), since) == delta_batches(ch, since) + cut(m.chunks, m.batch_spans),
{
    let d = ch.push(m);
    assert(d.drop_last() =~= ch);
    assert(d.last() == m && d[0] == ch[0]);
    lemma_table_lens(ch);
    lemma_table_lens(d);
    assert(d[ch.len() as int].kept.len() == 0);
    let l = all_labels(ch);
    assert forall|i: int, j: int| 0 <= i <= j < l.len() implies l[i] <= l[j] by {
        lemma_labels_sorted(ch, i, j);
    }
    lemma_older(l, since);
    let k = older(l, since) as int;
    assert(member_sane(d[ch.len() as int]));
    assert forall|i: int| 0 <= i < k implies #[trigger] all_labels(d)[i] <= since by {
        assert(all_labels(d)[i] == l[i]);
    }
    if k < all_labels(d).len() {
        if k < l.len() {
            assert(all_labels(d)[k] == l[k]);
        } else {
            lemma_label_bounds(m, k - l.len());
        }
    }
    lemma_older_unique(all_labels(d), since, k);
    assert(delta_batches(d, since) =~= delta_batches(ch, since) + cut(m.chunks, m.batch_spans));
}

/// The manifest of a windowed root over a planned window and new chunks.
pub open spec fn windowed(
    artifact_id: u32,
    version: u64,
    schema_id: u32,
    plan: &WindowPlan,
    chunks: Seq<ChunkDesc>,
    spans: Seq<u32>,
) -> ManifestView {
    new_manifest(
        artifact_id,
        version,
        schema_id,
        plan.chunks@ + chunks,
        plan.spans@ + spans,
        None,
        Some(&plan.root),
    )
}

/// A window's root lists the newest batches of the table it was taken from,
/// then the new ones, and remembers where each came from.
pub proof fn window_keeps_the_newest(
    ch: Seq<ManifestView>,
    keep: int,
    plan: &WindowPlan,
    artifact_id: u32,
    version: u64,
    schema_id: u32,
    chunks: Seq<ChunkDesc>,
    spans: Seq<u32>,
)
    requires
        ch.len() > 0,
        chain_sane(ch),
        0 < keep,
        all_spans(ch).len() > 0,
        keeps(plan, ch, keep),
        ch.last().version < version,
        span_sum(spans) == chunks.len(),
        plan.spans@.len() + spans.len() <= u32::MAX,
    ensures
        ({
            let w = windowed(artifact_id, version, schema_id, plan, chunks, spans);
            let drop = dropped(batches(ch).len() as int, keep);
            &&& chain_sane(seq![w])
            &&& batches(seq![w]) == batches(ch).skip(drop) + cut(chunks, spans)
            &&& all_labels(seq![w]) == all_labels(ch).skip(drop) + times(version, spans.len())
        }),
{
    let w = windowed(artifact_id, version, schema_id, plan, chunks, spans);
    let total = all_spans(ch).len() as int;
    let drop = dropped(total, keep);
    let kept = plan.root.kept@;
    lemma_table_lens(ch);
    lemma_cut_skip(all_chunks(ch), all_spans(ch), drop);
    lemma_cut_add(plan.chunks@, plan.spans@, chunks, spans);
    lemma_expand_len(kept);
    assert(kept_sum(kept) == total - drop);
    assert(seq![w].drop_last() =~= seq![]);
    assert(seq![w].last() == w);
    assert(batches(seq![]) =~= seq![]);
    assert(batches(seq![w]) =~= cut(w.chunks, w.batch_spans));
    assert(all_labels(Seq::<ManifestView>::empty()) =~= Seq::<u64>::empty());
    assert(seq![w].drop_last() =~= Seq::<ManifestView>::empty());
    assert(all_labels(seq![w]) =~= labels(w));
    assert(labels(w) =~= all_labels(ch).skip(drop) + times(version, spans.len()));
    // the window is consistent
    assert(kept.len() > 0) by {
        if kept.len() == 0 {
            assert(expand(kept) =~= seq![]);
        }
    }
    assert forall|i: int| 0 <= i < kept.len() implies (#[trigger] kept[i]).version < version by {
        lemma_member_occurs(kept, i);
        let k = choose|k: int| 0 <= k < expand(kept).len() && #[trigger] expand(kept)[k] == kept[i].version;
        lemma_labels_sorted(ch, drop + k, drop + k);
        assert(expand(kept)[k] == all_labels(ch)[drop + k]);
    }
    lemma_member_occurs(kept, 0);
    let k = choose|k: int| 0 <= k < expand(kept).len() && #[trigger] expand(kept)[k] == kept[0].version;
    assert(expand(kept)[k] == all_labels(ch)[drop + k]);
    if drop == 0 {
        lemma_labels_sorted(ch, k, k);
        assert(member_sane(ch[0]));
    } else {
        lemma_labels_sorted(ch, drop - 1, drop + k);
        lemma_labels_sorted(ch, drop - 1, drop - 1);
        assert(member_sane(ch[0]));
    }
    assert(member_sane(w));
}

proof fn lemma_member_occurs(kept: Seq<KeptMember>, i: int)
    requires
        0 <= i < kept.len(),
        forall|j: int| 0 <= j < kept.len() ==> (#[trigger] kept[j]).batches > 0,
    ensures
        exists|k: int| 0 <= k < expand(kept).len() && #[trigger] expand(kept)[k] == kept[i].version,
    decreases kept.len(),
{
    let p = kept.drop_last();
    if i < p.len() {
        assert forall|j: int| 0 <= j < p.len() implies (#[trigger] p[j]).batches > 0 by {
            assert(p[j] == kept[j]);
        }
        lemma_member_occurs(p, i);
        let k = choose|k: int| 0 <= k < expand(p).len() && #[trigger] expand(p)[k] == p[i].version;
        assert(expand(kept)[k] == kept[i].version);
    } else {
        assert(kept[i].batches > 0);
        let k = expand(p).len() as int;
        assert(expand(kept)[k] == kept[i].version);
    }
}

/// A window is transparent to every reader at or past its base: the delta over
/// the windowed root is the delta over the table it was taken from, plus the
/// new batches.
pub proof fn window_is_transparent_from_its_base(
    ch: Seq<ManifestView>,
    keep: int,
    plan: &WindowPlan,
    artifact_id: u32,
    version: u64,
    schema_id: u32,
    chunks: Seq<ChunkDesc>,
    spans: Seq<u32>,
    since: u64,
)
    requires
        ch.len() > 0,
        chain_sane(ch),
        0 < keep,
        all_spans(ch).len() > 0,
        keeps(plan, ch, keep),
        ch.last().version < version,
        span_sum(spans) == chunks.len(),
        plan.spans@.len() + spans.len() <= u32::MAX,
        plan.root.base <= since <= ch.last().version,
    ensures
        ({
            let w = seq![windowed(artifact_id, version, schema_id, plan, chunks, spans)];
            &&& !truncated(ch, since)
            &&& !truncated(w, since)
            &&& delta_batches(w, since) == delta_batches(ch, since) + cut(chunks, spans)
        }),
{
    let w = windowed(artifact_id, version, schema_id, plan, chunks, spans);
    let drop = dropped(batches(ch).len() as int, keep);
    window_keeps_the_newest(ch, keep, plan, artifact_id, version, schema_id, chunks, spans);
    lemma_table_lens(ch);
    let l = all_labels(ch);
    assert forall|i: int, j: int| 0 <= i <= j < l.len() implies l[i] <= l[j] by {
        lemma_labels_sorted(ch, i, j);
    }
    lemma_older(l, since);
    let k = older(l, since) as int;
    assert(member_sane(ch[0]));
    if drop > 0 {
        lemma_labels_sorted(ch, drop - 1, drop - 1);
        assert(l[drop - 1] <= since);
        assert(k >= drop);
    }
    assert(w.kept.len() > 0) by {
        if w.kept.len() == 0 {
            assert(expand(w.kept) =~= seq![]);
        }
    }
    assert(member_sane(seq![w][0]));
    let lw = all_labels(seq![w]);
    assert forall|i: int| 0 <= i < k - drop implies #[trigger] lw[i] <= since by {
        assert(lw[i] == l[drop + i]);
    }
    if k - drop < lw.len() && k < l.len() {
        assert(lw[k - drop] == l[k]);
    }
    lemma_older_unique(lw, since, k - drop);
    assert(since > 0);
    assert(delta_batches(seq![w], since) =~= delta_batches(ch, since) + cut(chunks, spans));
}

} // verus!
