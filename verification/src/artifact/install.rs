//! Installing a version: the one path every commit takes.
use vstd::prelude::*;

use crate::artifact::borrow::{has_room, more};
use crate::artifact::commit::{
    base_for, base_held, base_refs, base_refusal, became_manifest, current_chunk, holds_parts,
    lemma_current, lemma_table_data, release_parts, resolve_base, stage_refusal, stage_version,
    version_chunks, version_manifest, version_prev, version_spans, version_story, version_window,
    window_chunks, Base, Commit,
};
use crate::artifact::error::Error;
use crate::artifact::handle::Artifact;
use crate::artifact::head::{
    first_endorsed, first_free, free_slot, lease_word, ArtifactHead, HeadView, PinSlot, NO_VERSION,
    OWNER_NONE, SLOT_FREE, SLOT_LIVE,
};
use crate::artifact::journal::{BorrowJournal, JournalRecord};
use crate::artifact::live::{
    candidate, conserved, current_table, lemma_slot_refs_update, live, only_returns, retirable,
    slot_chunk, slot_ok, slot_refs, table_of, tied, try_retire_version_at, unaccounted,
    without_slot,
};
use crate::artifact::manifest::{span_sum, KeptMember, ManifestView};
use crate::artifact::pool::{
    at, backed, chunk_ok, count_off, data_ok, fits, held, kept_or_returned, lemma_at,
    lemma_count_pos, lemma_has, lemma_owned_le, less, link_off, link_ok, listings, sound, uses,
    ChunkPool, ChunkState, ChunkView,
};
use crate::artifact::reading::lemma_story;
use crate::artifact::service::{conserved_but, endorsed, orphaned, still_staged};
use crate::artifact::staging::{as_published, picked, picks, stage_error, stageable};
use crate::artifact::window::{
    all_chunks, all_spans, batches, chain_sane, cut, dropped, expand, extend, keeps, lemma_cut_add,
    lemma_cut_skip, lemma_expand_len, lemma_table_lens, start,
};
use crate::chunk::{packed_ref_round_trip, ChunkDesc, PackedRef};

verus! {

// ---- counting ----

pub proof fn lemma_count_add(a: Seq<ChunkDesc>, b: Seq<ChunkDesc>, off: u32)
    ensures
        count_off(a + b, off) == count_off(a, off) + count_off(b, off),
    decreases a.len(),
{
    if a.len() == 0 {
        assert(a + b =~= b);
    } else {
        assert((a + b).skip(1) =~= a.skip(1) + b);
        lemma_count_add(a.skip(1), b, off);
    }
}

/// Members that spell out the same labels are the same.
pub proof fn lemma_members_unique(a: Seq<KeptMember>, b: Seq<KeptMember>)
    requires
        expand(a) == expand(b),
        forall|i: int| 0 <= i < a.len() ==> (#[trigger] a[i]).batches > 0,
        forall|i: int| 0 <= i < b.len() ==> (#[trigger] b[i]).batches > 0,
        forall|i: int, j: int| 0 <= i < j < a.len() ==> a[i].version < a[j].version,
        forall|i: int, j: int| 0 <= i < j < b.len() ==> b[i].version < b[j].version,
    ensures
        a == b,
    decreases a.len(),
{
    lemma_expand_len(a);
    lemma_expand_len(b);
    if a.len() == 0 {
        if b.len() > 0 {
            assert(b.last().batches > 0);
        }
        assert(a =~= b);
    } else if b.len() == 0 {
        assert(a.last().batches > 0);
    } else {
        let (x, y) = (a.drop_last(), b.drop_last());
        let e = expand(a);
        let n = e.len() as int;
        let (p, q) = (a.last(), b.last());
        assert(p.batches > 0 && q.batches > 0);
        assert(e[n - 1] == p.version);
        assert(expand(b)[n - 1] == q.version);
        lemma_expand_len(x);
        lemma_expand_len(y);
        if p.batches < q.batches {
            let k = n - 1 - p.batches;
            assert(expand(b)[k] == q.version);
            lemma_earlier_labels(a, k);
        }
        if q.batches < p.batches {
            let k = n - 1 - q.batches;
            assert(expand(a)[k] == p.version);
            lemma_earlier_labels(b, k);
        }
        assert forall|i: int| 0 <= i < x.len() implies (#[trigger] x[i]).batches > 0 by {
            assert(x[i] == a[i]);
        }
        assert forall|i: int| 0 <= i < y.len() implies (#[trigger] y[i]).batches > 0 by {
            assert(y[i] == b[i]);
        }
        assert(expand(x) =~= e.take(n - p.batches));
        assert(expand(y) =~= expand(b).take(n - q.batches));
        lemma_members_unique(x, y);
        assert(a =~= x.push(p));
        assert(b =~= y.push(q));
    }
}

proof fn lemma_earlier_labels(a: Seq<KeptMember>, k: int)
    requires
        a.len() > 0,
        forall|i: int, j: int| 0 <= i < j < a.len() ==> a[i].version < a[j].version,
        0 <= k < expand(a.drop_last()).len(),
    ensures
        expand(a)[k] < a.last().version,
    decreases a.len(),
{
    let x = a.drop_last();
    assert(expand(a)[k] == expand(x)[k]);
    if x.len() > 0 {
        assert(x.last() == a[a.len() - 2]);
        if k < expand(x.drop_last()).len() {
            lemma_earlier_labels(x, k);
        }
    }
}

/// The base a commit builds on is the same whoever resolves it, as far as the
/// manifest is concerned.
proof fn lemma_base_unique(
    a: Base,
    b: Base,
    h: HeadView,
    pool: &ChunkPool,
    expect: u64,
    commit: Commit,
    staged: Seq<ChunkDesc>,
    spans: Seq<u32>,
)
    requires
        base_for(a, h, pool, expect, commit),
        base_for(b, h, pool, expect, commit),
    ensures
        version_chunks(a, staged) == version_chunks(b, staged),
        version_spans(a, spans) == version_spans(b, spans),
        version_prev(a) == version_prev(b),
        crate::artifact::manifest::kept_of(version_window(&a))
            == crate::artifact::manifest::kept_of(version_window(&b)),
        crate::artifact::manifest::base_of(version_window(&a))
            == crate::artifact::manifest::base_of(version_window(&b)),
{
    match a {
        Base::Window(p) => {
            match b {
                Base::Window(q) => {
                    lemma_members_unique(p.root.kept@, q.root.kept@);
                },
                _ => {},
            }
        },
        _ => {},
    }
}

// ---- giving up a staged manifest ----

/// Discard a staged manifest that nothing refers to yet, with everything it
/// lists.
fn unstage(pool: &mut ChunkPool, d: &ChunkDesc, b: &Base, chunks: &[ChunkDesc], story: Ghost<Seq<ManifestView>>)
    requires
        old(pool).wf(),
        old(pool).names(d.segment_id, d.offset),
        ({
            let k = old(pool).at(d.offset);
            &&& old(pool)@[k].story == Some(story@)
            &&& old(pool)@[k].refcount == 1
            &&& old(pool).held(k) == 1
        }),
        story@.last().chunks == chunks@,
        story@.last().prev is Some <==> version_prev(*b) is Some,
        b matches Base::Link(l) ==> {
            &&& story@.last().prev->Some_0.mref == l.mref
            &&& old(pool)@[old(pool).at(l.mref.spec_offset())].refcount > 1
        },
    ensures
        final(pool).wf(),
        final(pool).same_place(old(pool)),
        final(pool)@.len() == old(pool)@.len(),
        forall|j: int|
            0 <= j < old(pool)@.len() ==> {
                &&& #[trigger] final(pool)@[j] == if j == old(pool).at(d.offset) {
                    old(pool)@[j].returned()
                } else {
                    less(
                        old(pool)@[j],
                        (count_off(chunks@, old(pool).lay@[j]) + link_off(
                            version_prev(*b),
                            old(pool).lay@[j],
                        )) as int,
                    )
                }
                &&& final(pool).held(j) == old(pool).held(j) - if j == old(pool).at(d.offset) {
                    1int
                } else {
                    0
                }
            },
{
    let ghost p = pool@;
    let ghost lay = pool.lay@;
    let ghost seg = pool.segment_id;
    let ghost k = pool.at(d.offset);
    let ghost m = story@.last();
    proof {
        lemma_has(lay, d.offset);
        assert(chunk_ok(p[k]));
        assert(backed(lay, seg, p, story@));
    }
    let i: usize = match pool.find(d.segment_id, d.offset) {
        Some(i) => i,
        None => {
            return ;
        },
    };
    let freed: bool = pool.release_at(i);
    let ghost q = pool@;
    proof {
        assert(freed);
        assert(q[k] == p[k].returned());
        assert forall|j: int| 0 <= j < p.len() implies link_off(m.prev, #[trigger] lay[j]) == link_off(
            version_prev(*b),
            lay[j],
        ) by {}
        assert forall|t: int| 0 <= t < chunks@.len() implies data_ok(lay, seg, q, #[trigger] chunks@[t]) by {
            assert(data_ok(lay, seg, p, m.chunks[t]));
            lemma_has(lay, chunks@[t].offset);
        }
        assert forall|j: int| 0 <= j < q.len() implies #[trigger] pool.held(j) >= count_off(
            chunks@,
            lay[j],
        ) + link_off(version_prev(*b), lay[j]) by {
            assert(old(pool).held(j) >= 0);
            assert(pool.held(j) == old(pool).held(j) - (if j == k {
                1int
            } else {
                0
            }) + uses(m, lay[j]));
        }
        if let Base::Link(l) = *b {
            assert(link_ok(lay, seg, p, story@, m.prev->Some_0));
            let x = at(lay, l.mref.spec_offset());
            lemma_has(lay, l.mref.spec_offset());
            assert(p[x].story == Some(story@.drop_last()));
            assert(story@.drop_last().len() != story@.len());
            assert(x != k);
        }
        assert(holds_parts(pool, *b, chunks@));
    }
    release_parts(pool, b, chunks);
    proof {
        assert(uses(m, lay[k]) == 0) by {
            assert(held(lay, p, k) == 1);
            crate::artifact::pool::lemma_owned_le(p, k, lay[k]);
        }
        assert forall|j: int| 0 <= j < p.len() implies {
            &&& #[trigger] pool@[j] == if j == k {
                p[j].returned()
            } else {
                less(
                    p[j],
                    (count_off(chunks@, lay[j]) + link_off(version_prev(*b), lay[j])) as int,
                )
            }
            &&& pool.held(j) == old(pool).held(j) - if j == k {
                1int
            } else {
                0
            }
        } by {
            assert(link_off(m.prev, lay[j]) == link_off(version_prev(*b), lay[j]));
            if j == k {
                assert(less(q[k], 0) == q[k]);
            }
        }
    }
}


// ---- what a commit does ----

/// Why a commit is refused before any staged chunk is looked at.
pub open spec fn early_refusal(
    art: Artifact,
    h: HeadView,
    owner: u32,
    commit: Commit,
    lease_fence: Option<u32>,
) -> Option<Error> {
    if h.incarnation != art.incarnation {
        Some(Error::Stale)
    } else if commit is Patch {
        Some(Error::Unsupported("Patch commit deferred to v0.2"))
    } else if lease_fence is Some && h.write_lease != lease_word(owner, lease_fence->Some_0) {
        Some(Error::Fenced)
    } else {
        None
    }
}

/// Why the manifest of a commit of stageable chunks cannot be staged: what it
/// builds on has moved or does not match, or it cannot be written.
pub open spec fn manifest_refusal(
    h: HeadView,
    pool: &ChunkPool,
    expect: u64,
    commit: Commit,
    staged: Seq<ChunkDesc>,
    spans: Seq<u32>,
    schema_id: u32,
) -> Option<Error> {
    match base_refusal(h, pool, expect, commit, schema_id) {
        Some(e) => Some(e),
        None => {
            let b = choose|b: Base| base_for(b, h, pool, expect, commit);
            stage_refusal(pool, (expect + 1) as u64, &b, staged, spans)
        },
    }
}

/// Why a version whose manifest is staged cannot be installed: no slot is free,
/// or the current version is not the expected one.
pub open spec fn slot_refusal(h: HeadView, expect: u64) -> Option<Error> {
    if forall|j: int| 0 <= j < h.pins.len() ==> (#[trigger] h.pins[j]).state != SLOT_FREE {
        Some(Error::Unsupported("live-version table full"))
    } else if h.current != expect {
        Some(Error::Conflict { expected: expect, actual: h.current })
    } else {
        None
    }
}

/// Why a commit of stageable chunks is refused: its manifest cannot be staged,
/// or the version not installed.
pub open spec fn late_refusal(
    h: HeadView,
    pool: &ChunkPool,
    expect: u64,
    commit: Commit,
    staged: Seq<ChunkDesc>,
    spans: Seq<u32>,
    schema_id: u32,
) -> Option<Error> {
    match manifest_refusal(h, pool, expect, commit, staged, spans, schema_id) {
        Some(e) => Some(e),
        None => slot_refusal(h, expect),
    }
}

/// A refused commit gives every staged chunk back and leaves all others alone.
pub open spec fn gave_back(p0: &ChunkPool, p1: &ChunkPool, staged: Seq<ChunkDesc>) -> bool {
    &&& p1.wf()
    &&& p1.same_place(p0)
    &&& p1@.len() == p0@.len()
    &&& forall|j: int|
        0 <= j < p0@.len() ==> {
            &&& if picked(p0.lay@, p0.segment_id, p0@, staged, j) {
                #[trigger] p1@[j] == p0@[j].returned()
            } else if p0@[j].allocated {
                p1@[j] == p0@[j]
            } else {
                p1@[j].state == ChunkState::Free && !p1@[j].allocated && p1@[j].len == p0@[j].len
            }
            &&& p1.held(j) == p0.held(j)
        }
}

/// The batches of the table after a commit over the batches `old`.
pub open spec fn committed_batches(
    old: Seq<Seq<ChunkDesc>>,
    commit: Commit,
    expect: u64,
    staged: Seq<ChunkDesc>,
    spans: Seq<u32>,
) -> Seq<Seq<ChunkDesc>> {
    if !commit.extends(expect) {
        cut(staged, spans)
    } else {
        match commit {
            Commit::Window { keep_batches } => old.skip(
                dropped(old.len() as int, keep_batches as int),
            ) + cut(staged, spans),
            _ => old + cut(staged, spans),
        }
    }
}

/// The head after installing `v` in slot `i`, before its predecessor retires.
pub open spec fn installed(h: HeadView, i: int, v: u64, bits: u64, schema_id: u32) -> HeadView {
    HeadView {
        current: v,
        manifest_desc: bits,
        schema_id: if h.schema_id == 0 {
            schema_id
        } else {
            h.schema_id
        },
        pins: h.pins.update(i, PinSlot { version: v, manifest: bits, pins: 0, state: SLOT_LIVE }),
        ..h
    }
}

/// Publishing the staged chunks changes nothing that is published already.
proof fn lemma_publish_frame(
    h: &ArtifactHead,
    p0: &ChunkPool,
    p1: &ChunkPool,
    name_id: u32,
    staged: Seq<ChunkDesc>,
)
    requires
        live(h, p0, name_id),
        p1.wf(),
        p1.same_place(p0),
        p1@.len() == p0@.len(),
        stageable(p0.lay@, p0.segment_id, p0@, staged),
        forall|j: int|
            0 <= j < p0@.len() ==> {
                &&& #[trigger] p1@[j] == if picked(p0.lay@, p0.segment_id, p0@, staged, j) {
                    as_published(p0@[j])
                } else {
                    p0@[j]
                }
                &&& p1.held(j) == p0.held(j) + count_off(staged, p0.lay@[j])
            },
    ensures
        live(h, p1, name_id),
        forall|j: int|
            0 <= j < p0@.len() && p0@[j].state == ChunkState::Published ==> #[trigger] p1@[j] == p0@[j],
        forall|t: int|
            0 <= t < staged.len() ==> data_ok(p1.lay@, p1.segment_id, p1@, #[trigger] staged[t]),
        h@.current != NO_VERSION ==> {
            let t = current_table(h@, p0.lay@, p0@);
            let i = current_chunk(h@, p0);
            &&& 0 <= i < p0@.len()
            &&& current_table(h@, p1.lay@, p1@) == t
            &&& p1@[i] == p0@[i]
            &&& forall|keep: int|
                0 <= keep ==> #[trigger] has_room(p1, window_chunks(t, keep)) == has_room(
                    p0,
                    window_chunks(t, keep),
                )
        },
{
    let lay = p0.lay@;
    let seg = p0.segment_id;
    assert forall|j: int| 0 <= j < p0@.len() && p0@[j].state == ChunkState::Published implies #[trigger] p1@[j]
        == p0@[j] by {}
    assert forall|t: int| 0 <= t < staged.len() implies data_ok(lay, seg, p1@, #[trigger] staged[t]) by {
        let j = at(lay, staged[t].offset);
        assert(picks(lay, seg, p0@, staged[t], j));
        assert(picked(lay, seg, p0@, staged, j));
        assert(chunk_ok(p0@[j]));
        assert(p1@[j] == as_published(p0@[j]));
    }
    assert forall|j: int| 0 <= j < h@.pins.len() implies slot_ok(
        lay,
        seg,
        p1@,
        name_id,
        #[trigger] h@.pins[j],
    ) by {
        let s = h@.pins[j];
        assert(slot_ok(lay, seg, p0@, name_id, s));
        if s.state != SLOT_FREE {
            lemma_has(lay, PackedRef(s.manifest).spec_offset());
            let i = slot_chunk(lay, s);
            assert(chunk_ok(p0@[i]));
            assert(p1@[i] == p0@[i]);
        }
    }
    assert forall|i: int| 0 <= i < p1@.len() implies #[trigger] unaccounted(h@, lay, seg, p1@, i) >= 0 by {
        assert(unaccounted(h@, lay, seg, p0@, i) >= 0);
        assert(p1@[i] == p1@[i]);
        assert(p1.held(i) == p0.held(i) + count_off(staged, lay[i]));
    }
    if h@.current != NO_VERSION {
        lemma_current(h, p0, name_id);
        let i = current_chunk(h@, p0);
        let t = current_table(h@, lay, p0@);
        assert(p1@[i] == p0@[i]);
        lemma_story(p0, i);
        lemma_table_lens(t);
        assert forall|keep: int| 0 <= keep implies #[trigger] has_room(p1, window_chunks(t, keep)) == has_room(
            p0,
            window_chunks(t, keep),
        ) by {
            let w = window_chunks(t, keep);
            let d = dropped(all_spans(t).len() as int, keep);
            lemma_cut_skip(all_chunks(t), all_spans(t), d);
            assert forall|k: int| 0 <= k < w.len() implies p1@[at(lay, (#[trigger] w[k]).offset)] == p0@[at(
                lay,
                w[k].offset,
            )] by {
                lemma_table_data(p0, i, k + start(all_spans(t), d));
                lemma_has(lay, w[k].offset);
            }
        }
    }
}

/// With the staged chunks published and the base's references taken, the parts
/// of the new manifest are held.
proof fn lemma_parts_held(
    h: &ArtifactHead,
    p1: &ChunkPool,
    p2: &ChunkPool,
    name_id: u32,
    b: Base,
    expect: u64,
    commit: Commit,
    staged: Seq<ChunkDesc>,
    h0: spec_fn(int) -> int,
)
    requires
        live(h, p1, name_id),
        base_for(b, h@, p1, expect, commit),
        commit.extends(expect) ==> h@.current == expect,
        base_held(b, p1, p2),
        forall|t: int|
            0 <= t < staged.len() ==> data_ok(p1.lay@, p1.segment_id, p1@, #[trigger] staged[t]),
        forall|j: int|
            0 <= j < p1@.len() ==> #[trigger] p1.held(j) == h0(j) + count_off(staged, p1.lay@[j]) && h0(j)
                >= 0,
    ensures
        holds_parts(p2, b, version_chunks(b, staged)),
        forall|j: int|
            0 <= j < p1@.len() ==> count_off(version_chunks(b, staged), #[trigger] p1.lay@[j]) + link_off(
                version_prev(b),
                p1.lay@[j],
            ) == count_off(staged, p1.lay@[j]) + base_refs(b, p1.lay@[j]),
{
    let lay = p1.lay@;
    let seg = p1.segment_id;
    let chunks = version_chunks(b, staged);
    if commit.extends(expect) {
        lemma_current(h, p1, name_id);
    }
    assert forall|j: int| 0 <= j < p1@.len() implies count_off(chunks, #[trigger] lay[j]) + link_off(
        version_prev(b),
        lay[j],
    ) == count_off(staged, lay[j]) + base_refs(b, lay[j]) by {
        if let Base::Window(plan) = b {
            lemma_count_add(plan.chunks@, staged, lay[j]);
        }
    }
    assert forall|t: int| 0 <= t < chunks.len() implies data_ok(lay, seg, p2@, #[trigger] chunks[t]) by {
        let d = chunks[t];
        if let Base::Window(plan) = b {
            if t < plan.chunks@.len() {
                let i = current_chunk(h@, p1);
                let tt = current_table(h@, lay, p1@);
                lemma_story(p1, i);
                lemma_table_lens(tt);
                let k = commit->Window_keep_batches as int;
                let x = dropped(all_spans(tt).len() as int, k);
                lemma_cut_skip(all_chunks(tt), all_spans(tt), x);
                lemma_table_data(p1, i, t + start(all_spans(tt), x));
                assert(d == all_chunks(tt)[t + start(all_spans(tt), x)]);
            } else {
                assert(d == staged[t - plan.chunks@.len()]);
            }
        } else {
            assert(d == staged[t]);
        }
        assert(data_ok(lay, seg, p1@, d));
        lemma_has(lay, d.offset);
        let j = at(lay, d.offset);
        assert(p2@[j] == more(p1@[j], base_refs(b, lay[j]) as int));
    }
    assert forall|j: int| 0 <= j < p2@.len() implies #[trigger] p2.held(j) >= count_off(chunks, lay[j])
        + link_off(version_prev(b), lay[j]) by {
        assert(p2@[j] == more(p1@[j], base_refs(b, lay[j]) as int));
        assert(p1.held(j) == h0(j) + count_off(staged, lay[j]));
        assert(count_off(chunks, lay[j]) + link_off(version_prev(b), lay[j]) == count_off(
            staged,
            lay[j],
        ) + base_refs(b, lay[j]));
    }
    if let Base::Link(l) = b {
        let i = current_chunk(h@, p1);
        lemma_has(lay, l.mref.spec_offset());
        assert(p2@[i] == more(p1@[i], base_refs(b, lay[i]) as int));
    }
}

/// Taking references and giving them back again, together with the one a
/// staged chunk was published under, leaves a chunk as it was or returns it.
proof fn lemma_there_and_back(
    p0: &ChunkPool,
    p1: &ChunkPool,
    staged: Seq<ChunkDesc>,
    j: int,
    n: nat,
)
    requires
        p1.wf(),
        p1.same_place(p0),
        p0.wf(),
        p1@.len() == p0@.len(),
        0 <= j < p0@.len(),
        stageable(p0.lay@, p0.segment_id, p0@, staged),
        p1@[j] == if picked(p0.lay@, p0.segment_id, p0@, staged, j) {
            as_published(p0@[j])
        } else {
            p0@[j]
        },
        p1@[j].refcount + n <= u32::MAX,
    ensures
        less(more(p1@[j], n as int), (count_off(staged, p0.lay@[j]) + n) as int) == if picked(
            p0.lay@,
            p0.segment_id,
            p0@,
            staged,
            j,
        ) {
            p0@[j].returned()
        } else {
            p0@[j]
        },
{
    let lay = p0.lay@;
    let seg = p0.segment_id;
    crate::artifact::staging::lemma_count_distinct(staged, lay[j]);
    assert(chunk_ok(p1@[j]));
    assert(chunk_ok(p0@[j]));
    if picked(lay, seg, p0@, staged, j) {
        let t = choose|t: int| 0 <= t < staged.len() && picks(lay, seg, p0@, #[trigger] staged[t], j);
        assert(staged[t].offset == lay[j]);
        assert(count_off(staged, lay[j]) == 1);
    } else {
        if count_off(staged, lay[j]) == 1 {
            let t = choose|t: int| 0 <= t < staged.len() && (#[trigger] staged[t]).offset == lay[j];
            lemma_at(lay, j);
            assert(picks(lay, seg, p0@, staged[t], j));
        }
    }
}


/// The head after a version's slot is claimed and the version installed still
/// belongs together with the pool.
proof fn lemma_installed(
    h0: HeadView,
    lay: Seq<u32>,
    seg: u32,
    p0: Seq<ChunkView>,
    p3: Seq<ChunkView>,
    name_id: u32,
    i: int,
    k: int,
    v: u64,
    bits: u64,
    schema_id: u32,
    story: Seq<ManifestView>,
)
    requires
        sound(lay, seg, p0),
        sound(lay, seg, p3),
        tied(h0, lay, seg, p0, name_id),
        0 <= i < h0.pins.len(),
        h0.pins[i].state == SLOT_FREE,
        0 <= k < p3.len(),
        p3[k].story == Some(story),
        story.last().version == v,
        story.last().artifact_id == name_id,
        v > 0,
        bits == PackedRef::spec_pack(seg, lay[k]).0,
        forall|j: int|
            0 <= j < p0.len() ==> #[trigger] held(lay, p3, j) == held(lay, p0, j) + if j == k {
                1int
            } else {
                0
            },
        forall|j: int| 0 <= j < p0.len() && p0[j].story is Some ==> (#[trigger] p3[j]).story == p0[j].story,
    ensures
        ({
            let h1 = installed(h0, i, v, bits, schema_id);
            &&& tied(h1, lay, seg, p3, name_id)
            &&& forall|j: int|
                0 <= j < p0.len() ==> unaccounted(h1, lay, seg, p3, j) == #[trigger] unaccounted(
                    h0,
                    lay,
                    seg,
                    p0,
                    j,
                )
            &&& forall|j: int|
                0 <= j < h0.pins.len() && j != i && (#[trigger] h0.pins[j]).holds() ==> table_of(
                    lay,
                    p3,
                    h0.pins[j],
                ) == table_of(lay, p0, h0.pins[j])
            &&& current_table(h1, lay, p3) == story
        }),
{
    let h1 = installed(h0, i, v, bits, schema_id);
    let s1 = h1.pins[i];
    packed_ref_round_trip(PackedRef(bits), seg, lay[k]);
    lemma_at(lay, k);
    assert(slot_ok(lay, seg, p0, name_id, h0.pins[i]));
    assert forall|j: int| 0 <= j < p0.len() implies unaccounted(h1, lay, seg, p3, j) == #[trigger] unaccounted(
        h0,
        lay,
        seg,
        p0,
        j,
    ) by {
        lemma_slot_refs_update(h0.pins, i, s1, seg, lay[j]);
        assert(held(lay, p3, j) == held(lay, p0, j) + if j == k {
            1int
        } else {
            0
        });
        packed_ref_round_trip(PackedRef(bits), seg, lay[j]);
        if lay[j] == lay[k] {
            lemma_at(lay, j);
        }
    }
    assert forall|j: int| 0 <= j < p3.len() implies #[trigger] unaccounted(h1, lay, seg, p3, j) >= 0 by {
        assert(unaccounted(h0, lay, seg, p0, j) >= 0);
    }
    assert forall|j: int| 0 <= j < h1.pins.len() implies slot_ok(
        lay,
        seg,
        p3,
        name_id,
        #[trigger] h1.pins[j],
    ) by {
        if j != i {
            assert(h1.pins[j] == h0.pins[j]);
            assert(slot_ok(lay, seg, p0, name_id, h0.pins[j]));
            if h0.pins[j].state != SLOT_FREE {
                lemma_has(lay, PackedRef(h0.pins[j].manifest).spec_offset());
                let x = slot_chunk(lay, h0.pins[j]);
                assert(p3[x].story == p0[x].story);
            }
        }
    }
    assert forall|j: int|
        0 <= j < h0.pins.len() && j != i && (#[trigger] h0.pins[j]).holds() implies table_of(
        lay,
        p3,
        h0.pins[j],
    ) == table_of(lay, p0, h0.pins[j]) by {
        assert(slot_ok(lay, seg, p0, name_id, h0.pins[j]));
        lemma_has(lay, PackedRef(h0.pins[j].manifest).spec_offset());
        let x = slot_chunk(lay, h0.pins[j]);
        assert(p3[x].story == p0[x].story);
    }
    assert(h1.pins[i].tracks(h1.current) && h1.pins[i].manifest == h1.manifest_desc);
}

/// The batches the new chain spells out.
proof fn lemma_committed_batches(
    t: Seq<ManifestView>,
    b: Base,
    commit: Commit,
    expect: u64,
    name_id: u32,
    version: u64,
    schema_id: u32,
    staged: Seq<ChunkDesc>,
    spans: Seq<u32>,
)
    requires
        span_sum(spans) == staged.len(),
        commit.extends(expect) ==> chain_sane(t),
        match b {
            Base::Root => !commit.extends(expect),
            Base::Link(_) => commit is Append && commit.extends(expect),
            Base::Window(plan) => commit.extends(expect) && (commit matches Commit::Window {
                keep_batches,
            } && keeps(&plan, t, keep_batches as int)),
        },
    ensures
        span_sum(version_spans(b, spans)) == version_chunks(b, staged).len(),
        batches(
            version_story(t, b, version_manifest(name_id, version, schema_id, &b, staged, spans)),
        ) == committed_batches(batches(t), commit, expect, staged, spans),
{
    let m = version_manifest(name_id, version, schema_id, &b, staged, spans);
    let s = version_story(t, b, m);
    match b {
        Base::Root => {
            assert(s.drop_last() =~= Seq::<ManifestView>::empty());
            assert(batches(Seq::<ManifestView>::empty()) =~= Seq::<Seq<ChunkDesc>>::empty());
            assert(batches(s) =~= cut(staged, spans));
        },
        Base::Link(_) => {
            assert(s.drop_last() =~= t);
            assert(batches(s) =~= batches(t) + cut(staged, spans));
        },
        Base::Window(plan) => {
            let keep = commit->Window_keep_batches as int;
            let d = dropped(all_spans(t).len() as int, keep);
            lemma_table_lens(t);
            lemma_cut_skip(all_chunks(t), all_spans(t), d);
            lemma_cut_add(plan.chunks@, plan.spans@, staged, spans);
            assert(s.drop_last() =~= Seq::<ManifestView>::empty());
            assert(batches(Seq::<ManifestView>::empty()) =~= Seq::<Seq<ChunkDesc>>::empty());
            assert(batches(s) =~= cut(m.chunks, m.batch_spans));
        },
    }
}

/// The state of a predecessor after `v` was installed: retired if nobody pins
/// it.
pub open spec fn predecessor_retired(h0: HeadView, h1: HeadView, h2: HeadView, expect: u64) -> bool {
    if expect == NO_VERSION {
        h2 == h1
    } else {
        exists|k: usize|
            first_endorsed(h1.pins, expect, h0.manifest_desc, Some(k)) && h2 == (
            if h1.pins[k as int].pins == 0 {
                #[trigger] without_slot(h1, k as int)
            } else {
                h1
            })
    }
}

/// Whether `h2` is `h0` with `v` installed in its first free slot `i` and the
/// predecessor retired unless it is pinned.
pub open spec fn installs(
    h0: HeadView,
    h2: HeadView,
    i: int,
    v: u64,
    bits: u64,
    schema_id: u32,
    expect: u64,
) -> bool {
    &&& 0 <= i < h0.pins.len()
    &&& first_free(h0.pins, Some(i as usize))
    &&& predecessor_retired(h0, installed(h0, i, v, bits, schema_id), h2, expect)
}

/// Every slot but `i` that is still in use is as it was, and so is its table.
pub open spec fn tables_kept(h0: HeadView, p0: &ChunkPool, h1: HeadView, p1: &ChunkPool, i: int) -> bool {
    forall|j: int|
        0 <= j < h1.pins.len() && j != i && (#[trigger] h1.pins[j]).holds() ==> h1.pins[j] == h0.pins[j]
            && table_of(p1.lay@, p1@, h1.pins[j]) == table_of(p0.lay@, p0@, h1.pins[j])
}

/// A pool that only gave staged chunks back still belongs with the head.
proof fn lemma_gave_back_live(
    h: &ArtifactHead,
    p0: &ChunkPool,
    p1: &ChunkPool,
    name_id: u32,
    staged: Seq<ChunkDesc>,
)
    requires
        live(h, p0, name_id),
        gave_back(p0, p1, staged),
    ensures
        live(h, p1, name_id),
        conserved(h@, p0, h@, p1),
{
    let lay = p0.lay@;
    let seg = p0.segment_id;
    assert forall|i: int| 0 <= i < p0@.len() implies unaccounted(h@, lay, seg, p1@, i) == #[trigger] unaccounted(
        h@,
        lay,
        seg,
        p0@,
        i,
    ) by {
        assert(p1@[i] == p1@[i]);
        assert(p1.held(i) == p0.held(i));
    }
    assert forall|i: int| 0 <= i < p1@.len() implies #[trigger] unaccounted(h@, lay, seg, p1@, i) >= 0 by {
        assert(unaccounted(h@, lay, seg, p0@, i) >= 0);
    }
    assert forall|j: int| 0 <= j < h@.pins.len() implies slot_ok(
        lay,
        seg,
        p1@,
        name_id,
        #[trigger] h@.pins[j],
    ) by {
        let s = h@.pins[j];
        assert(slot_ok(lay, seg, p0@, name_id, s));
        if s.state != SLOT_FREE {
            lemma_has(lay, PackedRef(s.manifest).spec_offset());
            let i = slot_chunk(lay, s);
            assert(chunk_ok(p0@[i]));
            assert(p1@[i] == p1@[i]);
            assert(p1@[i] == p0@[i]);
        }
    }
}

proof fn lemma_given_back(
    h: &ArtifactHead,
    p0: &ChunkPool,
    p1: &ChunkPool,
    name_id: u32,
    staged: Seq<ChunkDesc>,
)
    requires
        live(h, p0, name_id),
        p1.wf(),
        p1.same_place(p0),
        p1@.len() == p0@.len(),
        forall|j: int|
            0 <= j < p0@.len() ==> #[trigger] p1@[j] == if picked(
                p0.lay@,
                p0.segment_id,
                p0@,
                staged,
                j,
            ) {
                p0@[j].returned()
            } else {
                p0@[j]
            },
        forall|j: int| 0 <= j < p0@.len() ==> #[trigger] p1.held(j) == p0.held(j),
    ensures
        gave_back(p0, p1, staged),
        live(h, p1, name_id),
        conserved(h@, p0, h@, p1),
{
    assert forall|j: int| 0 <= j < p0@.len() implies {
        &&& if picked(p0.lay@, p0.segment_id, p0@, staged, j) {
            #[trigger] p1@[j] == p0@[j].returned()
        } else if p0@[j].allocated {
            p1@[j] == p0@[j]
        } else {
            p1@[j].state == ChunkState::Free && !p1@[j].allocated && p1@[j].len == p0@[j].len
        }
        &&& p1.held(j) == p0.held(j)
    } by {
        assert(chunk_ok(p0@[j]));
    }
    lemma_gave_back_live(h, p0, p1, name_id, staged);
}

/// The staged chunks being published does not change why a commit is refused.
proof fn lemma_publish_refusal(
    h: HeadView,
    p0: &ChunkPool,
    p1: &ChunkPool,
    expect: u64,
    commit: Commit,
    schema_id: u32,
)
    requires
        p1.same_place(p0),
        h.current != NO_VERSION ==> {
            let t = current_table(h, p0.lay@, p0@);
            let i = current_chunk(h, p0);
            &&& current_table(h, p1.lay@, p1@) == t
            &&& p1@[i] == p0@[i]
            &&& forall|keep: int|
                0 <= keep ==> #[trigger] has_room(p1, window_chunks(t, keep)) == has_room(
                    p0,
                    window_chunks(t, keep),
                )
        },
    ensures
        base_refusal(h, p1, expect, commit, schema_id) == base_refusal(h, p0, expect, commit, schema_id),
{
    if commit.extends(expect) && h.current == expect {
        if let Commit::Window { keep_batches } = commit {
            let t = current_table(h, p0.lay@, p0@);
            assert(has_room(p1, window_chunks(t, keep_batches as int)) == has_room(
                p0,
                window_chunks(t, keep_batches as int),
            ));
        }
    }
}

/// Nor does it change what the commit builds on.
proof fn lemma_publish_base(h: HeadView, p0: &ChunkPool, p1: &ChunkPool, b: Base, expect: u64, commit: Commit)
    requires
        p1.same_place(p0),
        base_for(b, h, p1, expect, commit),
        commit.extends(expect) ==> h.current == expect,
        h.current != NO_VERSION ==> {
            &&& current_table(h, p1.lay@, p1@) == current_table(h, p0.lay@, p0@)
            &&& p1@[current_chunk(h, p0)] == p0@[current_chunk(h, p0)]
        },
    ensures
        base_for(b, h, p0, expect, commit),
{
}

/// Nor why its manifest cannot be staged.
proof fn lemma_stage_refusal(
    h: HeadView,
    p0: &ChunkPool,
    p1: &ChunkPool,
    p2: &ChunkPool,
    b: Base,
    expect: u64,
    commit: Commit,
    staged: Seq<ChunkDesc>,
    spans: Seq<u32>,
    schema_id: u32,
)
    requires
        base_for(b, h, p0, expect, commit),
        base_refusal(h, p0, expect, commit, schema_id) is None,
        p1@.len() == p0@.len(),
        forall|j: int|
            0 <= j < p0@.len() ==> #[trigger] p1@[j] == if picked(
                p0.lay@,
                p0.segment_id,
                p0@,
                staged,
                j,
            ) {
                as_published(p0@[j])
            } else {
                p0@[j]
            },
        base_held(b, p1, p2),
    ensures
        late_refusal(h, p0, expect, commit, staged, spans, schema_id) == (match stage_refusal(
            p2,
            (expect + 1) as u64,
            &b,
            staged,
            spans,
        ) {
            Some(e) => Some(e),
            None => if forall|j: int|
                0 <= j < h.pins.len() ==> (#[trigger] h.pins[j]).state != SLOT_FREE {
                Some(Error::Unsupported("live-version table full"))
            } else if h.current != expect {
                Some(Error::Conflict { expected: expect, actual: h.current })
            } else {
                None
            },
        }),
{
    let c = choose|c: Base| base_for(c, h, p0, expect, commit);
    lemma_base_unique(c, b, h, p0, expect, commit, staged, spans);
    assert forall|j: int, n: int| 0 <= j < p0@.len() implies fits(#[trigger] p2@[j], n) == #[trigger] fits(
        p0@[j],
        n,
    ) by {
        assert(p2@[j] == more(p1@[j], base_refs(b, p1.lay@[j]) as int));
        assert(p1@[j] == p1@[j]);
    }
    let v = (expect + 1) as u64;
    let chunks = version_chunks(b, staged);
    let all = version_spans(b, spans);
    let n = crate::artifact::manifest::record_len(
        chunks.len() as int,
        all.len() as int,
        crate::artifact::manifest::kept_of(version_window(&b)).len() as int,
    );
    assert((forall|j: int| 0 <= j < p0@.len() ==> !fits(#[trigger] p0@[j], n)) <==> (forall|j: int|
        0 <= j < p2@.len() ==> !fits(#[trigger] p2@[j], n))) by {
        if forall|j: int| 0 <= j < p0@.len() ==> !fits(#[trigger] p0@[j], n) {
            assert forall|j: int| 0 <= j < p2@.len() implies !fits(#[trigger] p2@[j], n) by {
                assert(fits(p2@[j], n) == fits(p0@[j], n));
            }
        }
        if forall|j: int| 0 <= j < p2@.len() ==> !fits(#[trigger] p2@[j], n) {
            assert forall|j: int| 0 <= j < p0@.len() implies !fits(#[trigger] p0@[j], n) by {
                assert(fits(p2@[j], n) == fits(p0@[j], n));
            }
        }
    }
}

/// After everything a failed commit took is given back, it has given back its
/// staged chunks and nothing else; a manifest staged in chunk `k` is gone.
proof fn lemma_all_released(
    h: &ArtifactHead,
    p0: &ChunkPool,
    p1: &ChunkPool,
    p2: &ChunkPool,
    pf: &ChunkPool,
    name_id: u32,
    b: Base,
    staged: Seq<ChunkDesc>,
    k: Option<int>,
)
    requires
        live(h, p0, name_id),
        p1.wf(),
        p1.same_place(p0),
        p1@.len() == p0@.len(),
        stageable(p0.lay@, p0.segment_id, p0@, staged),
        forall|j: int|
            0 <= j < p0@.len() ==> {
                &&& #[trigger] p1@[j] == if picked(p0.lay@, p0.segment_id, p0@, staged, j) {
                    as_published(p0@[j])
                } else {
                    p0@[j]
                }
                &&& p1.held(j) == p0.held(j) + count_off(staged, p0.lay@[j])
            },
        base_held(b, p1, p2),
        pf.wf(),
        pf.same_place(p0),
        pf@.len() == p0@.len(),
        forall|j: int|
            0 <= j < p1@.len() ==> count_off(version_chunks(b, staged), #[trigger] p1.lay@[j]) + link_off(
                version_prev(b),
                p1.lay@[j],
            ) == count_off(staged, p1.lay@[j]) + base_refs(b, p1.lay@[j]),
        k matches Some(x) ==> 0 <= x < p0@.len() && !p2@[x].allocated && pf@[x].state == ChunkState::Free
            && !pf@[x].allocated && pf@[x].len == p2@[x].len,
        forall|j: int|
            0 <= j < p0@.len() ==> {
                &&& k != Some(j) ==> #[trigger] pf@[j] == less(
                    p2@[j],
                    (count_off(version_chunks(b, staged), p0.lay@[j]) + link_off(
                        version_prev(b),
                        p0.lay@[j],
                    )) as int,
                )
                &&& pf.held(j) == p2.held(j) - count_off(version_chunks(b, staged), p0.lay@[j]) - link_off(
                    version_prev(b),
                    p0.lay@[j],
                )
            },
    ensures
        gave_back(p0, pf, staged),
        live(h, pf, name_id),
        conserved(h@, p0, h@, pf),
{
    let lay = p0.lay@;
    assert forall|j: int| 0 <= j < p0@.len() implies {
        &&& if picked(p0.lay@, p0.segment_id, p0@, staged, j) {
            #[trigger] pf@[j] == p0@[j].returned()
        } else if p0@[j].allocated {
            pf@[j] == p0@[j]
        } else {
            pf@[j].state == ChunkState::Free && !pf@[j].allocated && pf@[j].len == p0@[j].len
        }
        &&& pf.held(j) == p0.held(j)
    } by {
        assert(chunk_ok(p0@[j]));
        let n = base_refs(b, lay[j]);
        assert(p2@[j] == more(p1@[j], n as int));
        assert(p1@[j] == p1@[j]);
        assert(count_off(version_chunks(b, staged), p1.lay@[j]) + link_off(version_prev(b), p1.lay@[j])
            == count_off(staged, p1.lay@[j]) + base_refs(b, p1.lay@[j]));
        lemma_there_and_back(p0, p1, staged, j, n);
        if k == Some(j) {
            assert(!p1@[j].allocated);
            assert(!p0@[j].allocated);
            if picked(p0.lay@, p0.segment_id, p0@, staged, j) {
                let t = choose|t: int|
                    0 <= t < staged.len() && picks(lay, p0.segment_id, p0@, #[trigger] staged[t], j);
                assert(p0@[j].state == ChunkState::Loaned);
            }
        }
    }
    lemma_gave_back_live(h, p0, pf, name_id, staged);
}

/// Staging the manifest leaves every reference where it was, but for the one on
/// the manifest itself.
proof fn lemma_staged_frame(
    p0: &ChunkPool,
    p1: &ChunkPool,
    p2: &ChunkPool,
    p3: &ChunkPool,
    b: Base,
    staged: Seq<ChunkDesc>,
    k: int,
    story: Seq<ManifestView>,
)
    requires
        p0.wf(),
        p2.wf(),
        p3.wf(),
        p1.same_place(p0),
        p3.same_place(p2),
        p1@.len() == p0@.len(),
        forall|j: int|
            0 <= j < p0@.len() ==> {
                &&& #[trigger] p1@[j] == if picked(p0.lay@, p0.segment_id, p0@, staged, j) {
                    as_published(p0@[j])
                } else {
                    p0@[j]
                }
                &&& p1.held(j) == p0.held(j) + count_off(staged, p0.lay@[j])
            },
        base_held(b, p1, p2),
        holds_parts(p2, b, version_chunks(b, staged)),
        forall|j: int|
            0 <= j < p1@.len() ==> count_off(version_chunks(b, staged), #[trigger] p1.lay@[j]) + link_off(
                version_prev(b),
                p1.lay@[j],
            ) == count_off(staged, p1.lay@[j]) + base_refs(b, p1.lay@[j]),
        0 <= k < p2@.len(),
        !p2@[k].allocated,
        became_manifest(p2@[k], p3@[k], story),
        p3@ == p2@.update(k, p3@[k]),
        forall|j: int|
            0 <= j < p2@.len() ==> #[trigger] p3.held(j) == p2.held(j) - count_off(
                version_chunks(b, staged),
                p2.lay@[j],
            ) - link_off(version_prev(b), p2.lay@[j]) + if j == k {
                1int
            } else {
                0
            },
    ensures
        p3@[k].story == Some(story),
        p3@[k].refcount == 1,
        p3.held(k) == 1,
        forall|j: int|
            0 <= j < p0@.len() ==> #[trigger] held(p0.lay@, p3@, j) == held(p0.lay@, p0@, j) + if j == k {
                1int
            } else {
                0
            },
        forall|j: int|
            0 <= j < p0@.len() && p0@[j].story is Some ==> (#[trigger] p3@[j]).story == p0@[j].story,
        forall|j: int|
            0 <= j < p0@.len() && p0@[j].allocated ==> (#[trigger] p3@[j]).bytes == p0@[j].bytes,
        b matches Base::Link(l) ==> p3@[p3.at(l.mref.spec_offset())].refcount > 1,
{
    let lay = p0.lay@;
    assert(chunk_ok(p2@[k]));
    crate::artifact::pool::lemma_unreferenced(lay, p2.segment_id, p2@, k);
    assert forall|j: int| 0 <= j < p0@.len() implies #[trigger] held(lay, p3@, j) == held(lay, p0@, j) + if j
        == k {
        1int
    } else {
        0
    } by {
        assert(p3.held(j) == held(lay, p3@, j));
        assert(p2@[j] == more(p1@[j], base_refs(b, lay[j]) as int));
        assert(p1@[j] == p1@[j]);
        assert(count_off(version_chunks(b, staged), p1.lay@[j]) + link_off(version_prev(b), p1.lay@[j])
            == count_off(staged, p1.lay@[j]) + base_refs(b, p1.lay@[j]));
    }
    assert(p3.held(k) == held(lay, p3@, k));
    assert(p2.held(k) >= count_off(version_chunks(b, staged), lay[k]) + link_off(version_prev(b), lay[k]));
    assert forall|j: int| 0 <= j < p0@.len() implies {
        &&& p0@[j].story is Some ==> (#[trigger] p3@[j]).story == p0@[j].story
        &&& p0@[j].allocated ==> p3@[j].bytes == p0@[j].bytes
    } by {
        assert(p2@[j] == more(p1@[j], base_refs(b, lay[j]) as int));
        assert(p1@[j] == p1@[j]);
        assert(chunk_ok(p0@[j]));
        if picked(p0.lay@, p0.segment_id, p0@, staged, j) {
            let t = choose|t: int|
                0 <= t < staged.len() && picks(lay, p0.segment_id, p0@, #[trigger] staged[t], j);
            assert(p0@[j].state == ChunkState::Loaned);
        }
    }
    if let Base::Link(l) = b {
        lemma_has(lay, l.mref.spec_offset());
        let x = at(lay, l.mref.spec_offset());
        assert(chunk_ok(p2@[x]));
        assert(x != k);
    }
}

pub proof fn lemma_first_endorsed(pins: Seq<PinSlot>, v: u64, bits: u64, j: int)
    requires
        0 <= j < pins.len(),
        pins.len() <= usize::MAX,
        pins[j].tracks(v) && pins[j].manifest == bits,
    ensures
        exists|k: usize| #[trigger] first_endorsed(pins, v, bits, Some(k)),
    decreases j,
{
    if exists|i: int| 0 <= i < j && (#[trigger] pins[i]).tracks(v) && pins[i].manifest == bits {
        let i = choose|i: int| 0 <= i < j && (#[trigger] pins[i]).tracks(v) && pins[i].manifest == bits;
        lemma_first_endorsed(pins, v, bits, i);
    } else {
        assert(first_endorsed(pins, v, bits, Some(j as usize)));
    }
}

/// What became of the predecessor's slot.
proof fn lemma_predecessor(
    h0: HeadView,
    h1: HeadView,
    h2: HeadView,
    retired: Option<usize>,
    i: int,
    v: u64,
    bits: u64,
    schema_id: u32,
    expect: u64,
)
    requires
        expect != NO_VERSION,
        v != expect,
        h0.current == expect,
        h0.pins.len() <= usize::MAX,
        0 <= i < h0.pins.len(),
        h0.pins[i].state == SLOT_FREE,
        h1 == installed(h0, i, v, bits, schema_id),
        exists|j: int|
            0 <= j < h0.pins.len() && (#[trigger] h0.pins[j]).tracks(h0.current) && h0.pins[j].manifest
                == h0.manifest_desc,
        match retired {
            None => h2 == h1 && forall|k: usize| #[trigger]
                candidate(h1, expect, Some(h0.manifest_desc), k) ==> !retirable(h1, k as int, expect),
            Some(k) => candidate(h1, expect, Some(h0.manifest_desc), k) && retirable(
                h1,
                k as int,
                expect,
            ) && h2 == without_slot(h1, k as int),
        },
    ensures
        predecessor_retired(h0, h1, h2, expect),
        retired matches Some(k) ==> k != i && k < h1.pins.len(),
{
    let j = choose|j: int|
        0 <= j < h0.pins.len() && (#[trigger] h0.pins[j]).tracks(h0.current) && h0.pins[j].manifest
            == h0.manifest_desc;
    assert(h1.pins[j] == h0.pins[j]);
    match retired {
        Some(k) => {
            assert(first_endorsed(h1.pins, expect, h0.manifest_desc, Some(k)));
            assert(h2 == without_slot(h1, k as int));
        },
        None => {
            lemma_first_endorsed(h1.pins, expect, h0.manifest_desc, j);
            let k = choose|k: usize| #[trigger]
                first_endorsed(h1.pins, expect, h0.manifest_desc, Some(k));
            assert(candidate(h1, expect, Some(h0.manifest_desc), k));
            let w = without_slot(h1, k as int);
        },
    }
}

/// The install as a whole: no reference moved, no other table changed.
proof fn lemma_install_done(
    h0: HeadView,
    h1: HeadView,
    h2: HeadView,
    p0: &ChunkPool,
    p3: &ChunkPool,
    pf: &ChunkPool,
    i: int,
    v: u64,
    bits: u64,
    schema_id: u32,
    retired: Option<usize>,
    story: Seq<ManifestView>,
)
    requires
        0 <= i < h0.pins.len(),
        h1 == installed(h0, i, v, bits, schema_id),
        p3.same_place(p0),
        pf.same_place(p3),
        p3@.len() == p0@.len(),
        pf@.len() == p3@.len(),
        forall|j: int|
            0 <= j < p0@.len() ==> unaccounted(h1, p0.lay@, p0.segment_id, p3@, j) == #[trigger] unaccounted(
                h0,
                p0.lay@,
                p0.segment_id,
                p0@,
                j,
            ),
        forall|j: int|
            0 <= j < h0.pins.len() && j != i && (#[trigger] h0.pins[j]).holds() ==> table_of(
                p0.lay@,
                p3@,
                h0.pins[j],
            ) == table_of(p0.lay@, p0@, h0.pins[j]),
        current_table(h1, p0.lay@, p3@) == story,
        forall|j: int|
            0 <= j < p0@.len() && p0@[j].allocated ==> (#[trigger] p3@[j]).bytes == p0@[j].bytes,
        conserved(h1, p3, h2, pf),
        match retired {
            None => h2 == h1 && pf@ == p3@,
            Some(k) => {
                &&& k < h1.pins.len()
                &&& k != i
                &&& h2 == without_slot(h1, k as int)
                &&& only_returns(p3, pf)
                &&& forall|j: int|
                    0 <= j < h2.pins.len() && (#[trigger] h2.pins[j]).holds() ==> table_of(
                        pf.lay@,
                        pf@,
                        h2.pins[j],
                    ) == table_of(p3.lay@, p3@, h2.pins[j])
            },
        },
    ensures
        conserved(h0, p0, h2, pf),
        tables_kept(h0, p0, h2, pf, i),
        current_table(h2, pf.lay@, pf@) == story,
        h2.current == v,
        forall|j: int|
            0 <= j < p0@.len() && p0@[j].allocated ==> (#[trigger] pf@[j]).bytes == p0@[j].bytes,
{
    assert forall|j: int| 0 <= j < p0@.len() implies unaccounted(h2, pf.lay@, pf.segment_id, pf@, j)
        == #[trigger] unaccounted(h0, p0.lay@, p0.segment_id, p0@, j) by {
        assert(unaccounted(h1, p3.lay@, p3.segment_id, p3@, j) == unaccounted(
            h2,
            pf.lay@,
            pf.segment_id,
            pf@,
            j,
        ));
    }
    assert(h2.pins[i] == h1.pins[i]);
    assert(h2.pins[i].holds());
    assert(table_of(pf.lay@, pf@, h2.pins[i]) == table_of(p3.lay@, p3@, h2.pins[i]));
    assert forall|j: int|
        0 <= j < h2.pins.len() && j != i && (#[trigger] h2.pins[j]).holds() implies h2.pins[j] == h0.pins[j]
        && table_of(pf.lay@, pf@, h2.pins[j]) == table_of(p0.lay@, p0@, h2.pins[j]) by {
        assert(h2.pins[j] == h1.pins[j]);
        assert(h1.pins[j] == h0.pins[j]);
        assert(h0.pins[j].holds());
    }
    assert forall|j: int| 0 <= j < p0@.len() && p0@[j].allocated implies (#[trigger] pf@[j]).bytes
        == p0@[j].bytes by {
        assert(p3@[j].bytes == p0@[j].bytes);
    }
}

/// The staged chunks are published, each under one reference.
#[verifier::opaque]
pub open spec fn published(p0: &ChunkPool, p1: &ChunkPool, staged: Seq<ChunkDesc>) -> bool {
    &&& p1.wf()
    &&& p1.same_place(p0)
    &&& p1@.len() == p0@.len()
    &&& stageable(p0.lay@, p0.segment_id, p0@, staged)
    &&& forall|j: int|
        0 <= j < p0@.len() ==> {
            &&& #[trigger] p1@[j] == if picked(p0.lay@, p0.segment_id, p0@, staged, j) {
                as_published(p0@[j])
            } else {
                p0@[j]
            }
            &&& p1.held(j) == p0.held(j) + count_off(staged, p0.lay@[j])
        }
}

/// What a refused commit leaves behind.
#[verifier::opaque]
pub open spec fn undone(
    h0: HeadView,
    p0: &ChunkPool,
    h1: &ArtifactHead,
    p1: &ChunkPool,
    name_id: u32,
    staged: Seq<ChunkDesc>,
) -> bool {
    &&& h1@ == h0
    &&& gave_back(p0, p1, staged)
    &&& live(h1, p1, name_id)
    &&& conserved(h0, p0, h1@, p1)
}

/// A version whose manifest is staged but not installed.
pub struct Prepared {
    pub base: Base,
    pub chunks: Vec<ChunkDesc>,
    pub desc: ChunkDesc,
    /// The pool before anything was staged.
    pub pool0: Ghost<ChunkPool>,
    /// ... after the staged chunks were published,
    pub pool1: Ghost<ChunkPool>,
    /// ... and after the base's references were taken.
    pub pool2: Ghost<ChunkPool>,
    pub story: Ghost<Seq<ManifestView>>,
}

/// What holds between staging the manifest and installing the version.
#[verifier::opaque]
pub open spec fn prepared(
    pr: Prepared,
    h: &ArtifactHead,
    pool: &ChunkPool,
    name_id: u32,
    expect: u64,
    commit: Commit,
    staged: Seq<ChunkDesc>,
    spans: Seq<u32>,
    schema_id: u32,
) -> bool {
    let t = current_table(h@, pr.pool0@.lay@, pr.pool0@@);
    let m = version_manifest(name_id, (expect + 1) as u64, schema_id, &pr.base, staged, spans);
    let k = pr.pool0@.at(pr.desc.offset);
    &&& live(h, &pr.pool0@, name_id)
    &&& published(&pr.pool0@, &pr.pool1@, staged)
    &&& base_held(pr.base, &pr.pool1@, &pr.pool2@)
    &&& base_for(pr.base, h@, &pr.pool0@, expect, commit)
    &&& pr.chunks@ == version_chunks(pr.base, staged)
    &&& pr.story@ == version_story(t, pr.base, m)
    &&& batches(pr.story@) == committed_batches(batches(t), commit, expect, staged, spans)
    &&& forall|j: int|
        0 <= j < pr.pool1@@.len() ==> count_off(
            version_chunks(pr.base, staged),
            #[trigger] pr.pool1@.lay@[j],
        ) + link_off(version_prev(pr.base), pr.pool1@.lay@[j]) == count_off(
            staged,
            pr.pool1@.lay@[j],
        ) + base_refs(pr.base, pr.pool1@.lay@[j])
    &&& pool.wf()
    &&& pool.same_place(&pr.pool0@)
    &&& pool@.len() == pr.pool0@@.len()
    &&& pool.names(pr.desc.segment_id, pr.desc.offset)
    &&& 0 <= k < pool@.len()
    &&& !pr.pool2@@[k].allocated
    &&& pr.desc.generation == pr.pool2@@[k].generation
    &&& became_manifest(pr.pool2@@[k], pool@[k], pr.story@)
    &&& pool@ == pr.pool2@@.update(k, pool@[k])
    &&& forall|j: int|
        0 <= j < pool@.len() ==> #[trigger] pool.held(j) == pr.pool2@.held(j) - count_off(
            version_chunks(pr.base, staged),
            pool.lay@[j],
        ) - link_off(version_prev(pr.base), pool.lay@[j]) + if j == k {
            1int
        } else {
            0
        }
    &&& holds_parts(&pr.pool2@, pr.base, version_chunks(pr.base, staged))
    &&& manifest_refusal(h@, &pr.pool0@, expect, commit, staged, spans, schema_id) is None
}

impl Artifact {
    /// Check the handle and the lease, and publish the staged chunks.
    fn begin(
        &self,
        head: &ArtifactHead,
        pool: &mut ChunkPool,
        owner: u32,
        commit: &Commit,
        staged: &[ChunkDesc],
        lease_fence: Option<u32>,
    ) -> (r: Result<(), Error>)
        requires
            live(head, old(pool), self.name_id),
        ensures
            match early_refusal(*self, head@, owner, *commit, lease_fence) {
                Some(e) => r is Err && r->Err_0 == e,
                None => if !stageable(
                    old(pool).lay@,
                    old(pool).segment_id,
                    old(pool)@,
                    staged@,
                ) {
                    r is Err && r->Err_0 == stage_error(
                        old(pool).lay@,
                        old(pool).segment_id,
                        old(pool)@,
                        staged@,
                    )
                } else {
                    r is Ok
                },
            },
            r is Err && head@.incarnation == self.incarnation && *commit is Patch ==> final(pool)@
                == old(pool)@ && live(head, final(pool), self.name_id) && final(pool).same_place(
                old(pool),
            ),
            r is Err && !(head@.incarnation == self.incarnation && *commit is Patch) ==> undone(
                head@,
                old(pool),
                head,
                final(pool),
                self.name_id,
                staged@,
            ),
            r is Ok ==> published(old(pool), final(pool), staged@),
    {
        let ghost pool0 = *pool;
        proof {
            reveal(undone);
            reveal(published);
        }
        if !head.is_incarnation(self.incarnation) {
            pool.free_all_loaned(staged);
            proof {
                lemma_given_back(head, &pool0, pool, self.name_id, staged@);
            }
            return Err(Error::Stale);
        }
        if let Commit::Patch(_) = commit {
            return Err(Error::Unsupported("Patch commit deferred to v0.2"));
        }
        if let Some(token) = lease_fence {
            if !head.lease_held_by(owner, token) {
                pool.free_all_loaned(staged);
                proof {
                    lemma_given_back(head, &pool0, pool, self.name_id, staged@);
                }
                return Err(Error::Fenced);
            }
        }
        match pool.publish_all(staged) {
            Ok(()) => Ok(()),
            Err(e) => {
                proof {
                    assert forall|j: int| 0 <= j < pool0@.len() implies #[trigger] pool.held(j)
                        == pool0.held(j) by {
                        assert(pool@[j] == pool@[j]);
                    }
                    lemma_given_back(head, &pool0, pool, self.name_id, staged@);
                }
                Err(e)
            },
        }
    }

    /// Resolve what the version builds on and stage its manifest; give
    /// everything back if that fails.
    #[verifier::rlimit(60)]
    #[verifier::spinoff_prover]
    fn prepare(
        &self,
        head: &ArtifactHead,
        pool: &mut ChunkPool,
        expect: u64,
        owner: u32,
        commit: &Commit,
        staged: &[ChunkDesc],
        staged_spans: &[u32],
        schema_id: u32,
        before: Ghost<ChunkPool>,
    ) -> (r: Result<Prepared, Error>)
        requires
            live(head, &before@, self.name_id),
            published(&before@, old(pool), staged@),
            span_sum(staged_spans@) == staged@.len(),
            expect < u64::MAX,
        ensures
            r matches Err(e) ==> {
                &&& manifest_refusal(
                    head@,
                    &before@,
                    expect,
                    *commit,
                    staged@,
                    staged_spans@,
                    schema_id,
                ) == Some(e)
                &&& undone(head@, &before@, head, final(pool), self.name_id, staged@)
            },
            r matches Ok(pr) ==> pr.pool0@ == before@ && manifest_refusal(
                head@,
                &before@,
                expect,
                *commit,
                staged@,
                staged_spans@,
                schema_id,
            ) is None && prepared(
                pr,
                head,
                final(pool),
                self.name_id,
                expect,
                *commit,
                staged@,
                staged_spans@,
                schema_id,
            ),
    {
        let ghost pool0 = before@;
        let ghost pool1 = *pool;
        let ghost h0 = head@;
        let ghost lay = pool.lay@;
        proof {
            reveal(published);
            lemma_publish_frame(head, &pool0, &pool1, self.name_id, staged@);
            lemma_publish_refusal(h0, &pool0, &pool1, expect, *commit, schema_id);
        }
        let b: Base = match resolve_base(head, pool, self.name_id, expect, commit, schema_id) {
            Ok(b) => b,
            Err(e) => {
                proof {
                    lemma_count_held(&pool0, &pool1, staged@);
                }
                pool.release_all(staged);
                proof {
                    lemma_released_at_once(head, &pool0, &pool1, pool, self.name_id, staged@);
                }
                return Err(e);
            },
        };
        let ghost pool2 = *pool;
        let target: u64 = expect + 1;
        let ghost t = current_table(h0, lay, pool0@);
        let ghost fh = |j: int| pool0.held(j);
        proof {
            lemma_publish_base(h0, &pool0, &pool1, b, expect, *commit);
            lemma_count_held(&pool0, &pool1, staged@);
            lemma_parts_held(head, &pool1, &pool2, self.name_id, b, expect, *commit, staged@, fh);
            if commit.extends(expect) {
                lemma_current(head, &pool0, self.name_id);
                lemma_story(&pool0, current_chunk(h0, &pool0));
            }
            lemma_committed_batches(
                t,
                b,
                *commit,
                expect,
                self.name_id,
                target,
                schema_id,
                staged@,
                staged_spans@,
            );
            lemma_stage_refusal(
                h0,
                &pool0,
                &pool1,
                &pool2,
                b,
                expect,
                *commit,
                staged@,
                staged_spans@,
                schema_id,
            );
        }
        let (chunks, spans) = lists(&b, staged, staged_spans);
        proof {
            if let Base::Link(l) = b {
                let i = current_chunk(h0, &pool0);
                assert(pool2@[i] == more(pool1@[i], base_refs(b, lay[i]) as int));
            }
        }
        match stage_version(
            pool,
            self.name_id,
            target,
            schema_id,
            &b,
            chunks.as_slice(),
            spans.as_slice(),
            owner,
            Ghost(staged@),
            Ghost(staged_spans@),
            Ghost(t),
        ) {
            Ok(desc) => {
                let pr = Prepared {
                    base: b,
                    chunks,
                    desc,
                    pool0: Ghost(pool0),
                    pool1: Ghost(pool1),
                    pool2: Ghost(pool2),
                    story: Ghost(
                        version_story(
                            t,
                            b,
                            version_manifest(
                                self.name_id,
                                target,
                                schema_id,
                                &b,
                                staged@,
                                staged_spans@,
                            ),
                        ),
                    ),
                };
                proof {
                    reveal(prepared);
                }
                Ok(pr)
            },
            Err(e) => {
                release_parts(pool, &b, chunks.as_slice());
                proof {
                    reveal(undone);
                    lemma_all_released(
                        head,
                        &pool0,
                        &pool1,
                        &pool2,
                        pool,
                        self.name_id,
                        b,
                        staged@,
                        None,
                    );
                }
                Err(e)
            },
        }
    }
}

/// The chunks and spans the new version lists.
fn lists(b: &Base, staged: &[ChunkDesc], staged_spans: &[u32]) -> (r: (Vec<ChunkDesc>, Vec<u32>))
    ensures
        r.0@ == version_chunks(*b, staged@),
        r.1@ == version_spans(*b, staged_spans@),
{
    let mut chunks: Vec<ChunkDesc> = Vec::new();
    let mut spans: Vec<u32> = Vec::new();
    if let Base::Window(plan) = b {
        extend(&mut chunks, plan.chunks.as_slice());
        extend(&mut spans, plan.spans.as_slice());
    }
    extend(&mut chunks, staged);
    extend(&mut spans, staged_spans);
    proof {
        assert(chunks@ =~= version_chunks(*b, staged@));
        assert(spans@ =~= version_spans(*b, staged_spans@));
    }
    (chunks, spans)
}

proof fn lemma_count_held(p0: &ChunkPool, p1: &ChunkPool, staged: Seq<ChunkDesc>)
    requires
        p0.wf(),
        published(p0, p1, staged),
    ensures
        forall|j: int|
            0 <= j < p1@.len() ==> #[trigger] p1.held(j) == p0.held(j) + count_off(staged, p1.lay@[j])
                && p0.held(j) >= 0 && p1.held(j) >= count_off(staged, p1.lay@[j]),
{
    reveal(published);
    assert forall|j: int| 0 <= j < p1@.len() implies #[trigger] p1.held(j) == p0.held(j) + count_off(
        staged,
        p1.lay@[j],
    ) && p0.held(j) >= 0 && p1.held(j) >= count_off(staged, p1.lay@[j]) by {
        assert(p1@[j] == p1@[j]);
        assert(p0.held(j) >= 0);
    }
}

/// Publishing the staged chunks and releasing them again gives them back.
proof fn lemma_released_at_once(
    h: &ArtifactHead,
    p0: &ChunkPool,
    p1: &ChunkPool,
    pf: &ChunkPool,
    name_id: u32,
    staged: Seq<ChunkDesc>,
)
    requires
        live(h, p0, name_id),
        published(p0, p1, staged),
        pf.wf(),
        pf.same_place(p1),
        pf@.len() == p1@.len(),
        forall|j: int|
            0 <= j < p1@.len() ==> #[trigger] pf@[j] == less(
                p1@[j],
                count_off(staged, p1.lay@[j]) as int,
            ),
        forall|j: int|
            0 <= j < p1@.len() ==> #[trigger] pf.held(j) == p1.held(j) - count_off(staged, p1.lay@[j]),
    ensures
        undone(h@, p0, h, pf, name_id, staged),
{
    reveal(published);
    reveal(undone);
    assert forall|j: int| 0 <= j < p0@.len() implies #[trigger] pf@[j] == if picked(
        p0.lay@,
        p0.segment_id,
        p0@,
        staged,
        j,
    ) {
        p0@[j].returned()
    } else {
        p0@[j]
    } by {
        assert(p1@[j] == p1@[j]);
        lemma_there_and_back(p0, p1, staged, j, 0);
        assert(more(p1@[j], 0) == p1@[j]);
    }
    assert forall|j: int| 0 <= j < p0@.len() implies #[trigger] pf.held(j) == p0.held(j) by {
        assert(p1@[j] == p1@[j]);
    }
    lemma_given_back(h, p0, pf, name_id, staged);
}

/// What a successful commit makes of chunk `j`, where `k` is the chunk of the
/// new version's manifest: that one was free and now holds the manifest, a
/// staged chunk is published under as many references as manifests list it, a
/// published chunk is kept or returned, and any other is left alone.
pub open spec fn chunk_after(
    p0: &ChunkPool,
    p1: &ChunkPool,
    staged: Seq<ChunkDesc>,
    story: Seq<ManifestView>,
    k: int,
    j: int,
) -> bool {
    let a = p0@[j];
    let b = p1@[j];
    if j == k {
        &&& !a.allocated
        &&& b == (ChunkView {
            state: ChunkState::Published,
            refcount: b.refcount,
            owner: OWNER_NONE,
            allocated: true,
            bytes: b.bytes,
            story: Some(story),
            ..a
        })
    } else if picked(p0.lay@, p0.segment_id, p0@, staged, j) {
        &&& b == (ChunkView { refcount: b.refcount, ..as_published(a) })
        &&& b.refcount == listings(p1@, p1.lay@[j])
    } else if a.state == ChunkState::Published {
        kept_or_returned(a, b)
    } else {
        b == a
    }
}

/// What a successful commit makes of the chunks of the pool.
pub open spec fn chunks_after(
    p0: &ChunkPool,
    h1: HeadView,
    p1: &ChunkPool,
    staged: Seq<ChunkDesc>,
) -> bool {
    let k = p1.at(PackedRef(h1.manifest_desc).spec_offset());
    &&& 0 <= k < p0@.len()
    &&& forall|j: int|
        #![trigger p1@[j]]
        0 <= j < p0@.len() ==> chunk_after(
            p0,
            p1,
            staged,
            current_table(h1, p1.lay@, p1@),
            k,
            j,
        )
}

/// What a successful commit does.
///
/// The new version is current, in the first free slot. Its predecessor is
/// retired unless it is pinned. Its table is the one the commit's kind says.
/// No other version's table changed, no chunk in use changed its bytes, and no
/// reference was lost or gained. One chunk is taken for the manifest, and no
/// other that was free.
pub open spec fn committed(
    h0: HeadView,
    p0: &ChunkPool,
    h1: HeadView,
    p1: &ChunkPool,
    name_id: u32,
    expect: u64,
    commit: Commit,
    staged: Seq<ChunkDesc>,
    spans: Seq<u32>,
    schema_id: u32,
) -> bool {
    let v = (expect + 1) as u64;
    let t0 = current_table(h0, p0.lay@, p0@);
    let t1 = current_table(h1, p1.lay@, p1@);
    &&& h0.current == expect
    &&& h1.current == v
    &&& exists|i: int, bits: u64| #[trigger]
        installs(h0, h1, i, v, bits, schema_id, expect) && tables_kept(h0, p0, h1, p1, i)
    &&& batches(t1) == committed_batches(batches(t0), commit, expect, staged, spans)
    &&& exists|b: Base|
        base_for(b, h0, p0, expect, commit) && t1 == #[trigger] version_story(
            t0,
            b,
            version_manifest(name_id, v, schema_id, &b, staged, spans),
        )
    &&& p1.same_place(p0)
    &&& p1@.len() == p0@.len()
    &&& forall|j: int|
        0 <= j < p0@.len() && p0@[j].allocated ==> (#[trigger] p1@[j]).bytes == p0@[j].bytes
    &&& chunks_after(p0, h1, p1, staged)
}

proof fn lemma_slot_of(pins: Seq<PinSlot>, seg: u32, off: u32) -> (j: int)
    requires
        slot_refs(pins, seg, off) > 0,
    ensures
        0 <= j < pins.len(),
        pins[j].holds(),
        pins[j].manifest == PackedRef::spec_pack(seg, off).0,
    decreases pins.len(),
{
    if slot_refs(pins.drop_last(), seg, off) > 0 {
        let j = lemma_slot_of(pins.drop_last(), seg, off);
        assert(pins.drop_last()[j] == pins[j]);
        j
    } else {
        pins.len() - 1
    }
}

/// A chunk without a manifest is in no slot.
pub proof fn lemma_no_slot(h: &ArtifactHead, pool: &ChunkPool, name_id: u32, j: int)
    requires
        live(h, pool, name_id),
        0 <= j < pool@.len(),
        pool@[j].story is None,
    ensures
        slot_refs(h@.pins, pool.segment_id, pool.lay@[j]) == 0,
{
    let (lay, seg) = (pool.lay@, pool.segment_id);
    if slot_refs(h@.pins, seg, lay[j]) > 0 {
        let x = lemma_slot_of(h@.pins, seg, lay[j]);
        let s = h@.pins[x];
        assert(slot_ok(lay, seg, pool@, name_id, s));
        packed_ref_round_trip(PackedRef(s.manifest), seg, lay[j]);
        lemma_at(lay, j);
    }
}

/// The chunks after the install.
proof fn lemma_chunks_after(
    pr: Prepared,
    h0: &ArtifactHead,
    p3: &ChunkPool,
    h2: &ArtifactHead,
    pf: &ChunkPool,
    name_id: u32,
    expect: u64,
    commit: Commit,
    staged: Seq<ChunkDesc>,
    spans: Seq<u32>,
    schema_id: u32,
)
    requires
        prepared(pr, h0, p3, name_id, expect, commit, staged, spans, schema_id),
        expect < u64::MAX,
        live(h2, pf, name_id),
        conserved(h0@, &pr.pool0@, h2@, pf),
        only_returns(p3, pf),
        h2@.manifest_desc == PackedRef::spec_pack(pr.desc.segment_id, pr.desc.offset).0,
        current_table(h2@, pf.lay@, pf@) == pr.story@,
        pf@[pf.at(pr.desc.offset)].story is Some,
    ensures
        chunks_after(&pr.pool0@, h2@, pf, staged),
{
    reveal(prepared);
    reveal(published);
    let p0 = pr.pool0@;
    let p1 = pr.pool1@;
    let p2 = pr.pool2@;
    let b = pr.base;
    let lay = p0.lay@;
    let seg = p0.segment_id;
    let bits = h2@.manifest_desc;
    packed_ref_round_trip(PackedRef(bits), pr.desc.segment_id, pr.desc.offset);
    let k = pf.at(PackedRef(bits).spec_offset());
    lemma_has(lay, pr.desc.offset);
    assert(k == p0.at(pr.desc.offset));
    assert forall|j: int|
        #![trigger pf@[j]]
        0 <= j < p0@.len() implies chunk_after(&p0, pf, staged, pr.story@, k, j) by {
        assert(kept_or_returned(p3@[j], pf@[j]));
        assert(p2@[j] == more(p1@[j], base_refs(b, lay[j]) as int));
        assert(p1@[j] == p1@[j]);
        assert(chunk_ok(p0@[j]) && chunk_ok(p1@[j]) && chunk_ok(p3@[j]) && chunk_ok(pf@[j]));
        if j == k {
            assert(chunk_ok(p2@[k]));
            assert(p0@[k].state == ChunkState::Free);
            if picked(lay, seg, p0@, staged, j) {
                let t = choose|t: int| 0 <= t < staged.len() && picks(lay, seg, p0@, #[trigger] staged[t], j);
                assert(p0@[j].state == ChunkState::Loaned);
            }
            assert(p1@[k] == p0@[k]);
        } else if picked(lay, seg, p0@, staged, j) {
            let t = choose|t: int| 0 <= t < staged.len() && picks(lay, seg, p0@, #[trigger] staged[t], j);
            assert(p0@[j].state == ChunkState::Loaned);
            assert(p3@[j].story is None);
            lemma_no_slot(h2, pf, name_id, j);
            lemma_no_slot(h0, &p0, name_id, j);
            assert(p0.held(j) >= 0);
            assert(unaccounted(h0@, lay, seg, p0@, j) == 0);
            assert(unaccounted(h2@, lay, seg, pf@, j) == 0);
            assert(pf@[j].refcount == listings(pf@, lay[j]));
            lemma_count_pos(staged, t);
            match b {
                Base::Window(w) => {
                    lemma_count_add(w.chunks@, staged, lay[j]);
                },
                _ => {
                    assert(version_chunks(b, staged) =~= staged);
                },
            }
            lemma_owned_le(pf@, k, lay[j]);
            assert(pf@[j].refcount > 0);
        } else if p0@[j].state != ChunkState::Published {
            assert(pf@[j].refcount == 0);
            if base_refs(b, lay[j]) > 0 {
                assert(p2@[j].refcount > 0);
            }
            assert(p2@[j] == p0@[j]);
        }
    }
}

impl Artifact {
    /// Undo a staged version.
    fn abandon(
        &self,
        head: &ArtifactHead,
        pool: &mut ChunkPool,
        pr: &Prepared,
        expect: u64,
        commit: Ghost<Commit>,
        staged: Ghost<Seq<ChunkDesc>>,
        spans: Ghost<Seq<u32>>,
        schema_id: Ghost<u32>,
    )
        requires
            prepared(
                *pr,
                head,
                old(pool),
                self.name_id,
                expect,
                commit@,
                staged@,
                spans@,
                schema_id@,
            ),
        ensures
            undone(head@, &pr.pool0@, head, final(pool), self.name_id, staged@),
    {
        let ghost k = pr.pool0@.at(pr.desc.offset);
        let ghost pool3 = *pool;
        proof {
            reveal(prepared);
            reveal(published);
            lemma_staged_frame(
                &pr.pool0@,
                &pr.pool1@,
                &pr.pool2@,
                &pool3,
                pr.base,
                staged@,
                k,
                pr.story@,
            );
            assert(pr.story@.last().chunks == pr.chunks@);
        }
        unstage(pool, &pr.desc, &pr.base, pr.chunks.as_slice(), Ghost(pr.story@));
        proof {
            reveal(undone);
            assert(pool3@[k].len == pr.pool2@@[k].len);
            assert forall|j: int| 0 <= j < pr.pool0@@.len() implies {
                &&& Some(k) != Some(j) ==> #[trigger] pool@[j] == less(
                    pr.pool2@@[j],
                    (count_off(version_chunks(pr.base, staged@), pr.pool0@.lay@[j]) + link_off(
                        version_prev(pr.base),
                        pr.pool0@.lay@[j],
                    )) as int,
                )
                &&& pool.held(j) == pr.pool2@.held(j) - count_off(
                    version_chunks(pr.base, staged@),
                    pr.pool0@.lay@[j],
                ) - link_off(version_prev(pr.base), pr.pool0@.lay@[j])
            } by {
                assert(pool3.held(j) == pool3.held(j));
            }
            lemma_all_released(
                head,
                &pr.pool0@,
                &pr.pool1@,
                &pr.pool2@,
                pool,
                self.name_id,
                pr.base,
                staged@,
                Some(k),
            );
        }
    }

    /// Claim a slot for the staged version and make it current; abandon it if
    /// no slot is free or another commit came first.
    fn finish(
        &self,
        head: &mut ArtifactHead,
        pool: &mut ChunkPool,
        pr: Prepared,
        expect: u64,
        schema_id: u32,
        commit: Ghost<Commit>,
        staged: Ghost<Seq<ChunkDesc>>,
        spans: Ghost<Seq<u32>>,
    ) -> (r: Result<u64, Error>)
        requires
            prepared(
                pr,
                old(head),
                old(pool),
                self.name_id,
                expect,
                commit@,
                staged@,
                spans@,
                schema_id,
            ),
            expect < u64::MAX,
        ensures
            match late_refusal(
                old(head)@,
                &pr.pool0@,
                expect,
                commit@,
                staged@,
                spans@,
                schema_id,
            ) {
                Some(e) => r == Err::<u64, Error>(e) && undone(
                    old(head)@,
                    &pr.pool0@,
                    final(head),
                    final(pool),
                    self.name_id,
                    staged@,
                ),
                None => {
                    &&& r == Ok::<u64, Error>((expect + 1) as u64)
                    &&& live(final(head), final(pool), self.name_id)
                    &&& conserved(old(head)@, &pr.pool0@, final(head)@, final(pool))
                    &&& committed(
                        old(head)@,
                        &pr.pool0@,
                        final(head)@,
                        final(pool),
                        self.name_id,
                        expect,
                        commit@,
                        staged@,
                        spans@,
                        schema_id,
                    )
                },
            },
    {
        let ghost h0 = head@;
        let ghost head0 = *head;
        let ghost pool0 = pr.pool0@;
        let ghost pool3 = *pool;
        let ghost lay = pool.lay@;
        let ghost seg = pool.segment_id;
        let ghost k = pool0.at(pr.desc.offset);
        let ghost story = pr.story@;
        let target: u64 = expect + 1;
        let bits: u64 = PackedRef::from_desc(&pr.desc).to_bits();
        proof {
            reveal(prepared);
        }
        let slot: usize = match head.claim_slot(target, bits) {
            Some(i) => i,
            None => {
                proof {
                    lemma_prepared_head(pr, &head0, head, pool, self.name_id, expect, commit@, staged@, spans@, schema_id);
                }
                self.abandon(head, pool, &pr, expect, commit, staged, spans, Ghost(schema_id));
                return Err(Error::Unsupported("live-version table full"));
            },
        };
        proof {
            assert(slot_ok(lay, seg, pool0@, self.name_id, h0.pins[slot as int]));
            assert(h0.pins[slot as int] == free_slot());
        }
        if head.current != expect {
            let mut s: PinSlot = head.pins[slot];
            s.store_free();
            head.pins.set(slot, s);
            proof {
                assert(head@.pins =~= h0.pins);
                lemma_prepared_head(pr, &head0, head, pool, self.name_id, expect, commit@, staged@, spans@, schema_id);
            }
            self.abandon(head, pool, &pr, expect, commit, staged, spans, Ghost(schema_id));
            return Err(Error::Conflict { expected: expect, actual: head.current });
        }
        let prior_bits: u64 = head.manifest_desc;
        head.current = target;
        head.manifest_desc = bits;
        if head.schema_id == 0 {
            head.schema_id = schema_id;
        }
        let ghost h1 = head@;
        proof {
            assert(h1 =~= installed(h0, slot as int, target, bits, schema_id));
            lemma_ready(pr, &head0, pool, self.name_id, expect, commit@, staged@, spans@, schema_id);
            lemma_installed(
                h0,
                lay,
                seg,
                pool0@,
                pool3@,
                self.name_id,
                slot as int,
                k,
                target,
                bits,
                schema_id,
                story,
            );
        }
        let mut retired: Option<usize> = None;
        if expect != NO_VERSION {
            retired = try_retire_version_at(head, pool, expect, Some(prior_bits), self.name_id);
            proof {
                lemma_predecessor(
                    h0,
                    h1,
                    head@,
                    retired,
                    slot as int,
                    target,
                    bits,
                    schema_id,
                    expect,
                );
            }
        }
        proof {
            lemma_install_done(
                h0,
                h1,
                head@,
                &pool0,
                &pool3,
                pool,
                slot as int,
                target,
                bits,
                schema_id,
                retired,
                story,
            );
            assert(installs(h0, head@, slot as int, target, bits, schema_id, expect));
            if retired is None {
                assert forall|j: int| 0 <= j < pool3@.len() implies kept_or_returned(
                    pool3@[j],
                    #[trigger] pool@[j],
                ) by {}
            }
            lemma_chunks_after(
                pr,
                &head0,
                &pool3,
                head,
                pool,
                self.name_id,
                expect,
                commit@,
                staged@,
                spans@,
                schema_id,
            );
        }
        Ok(target)
    }
}

/// The same head in another place is as good.
proof fn lemma_prepared_head(
    pr: Prepared,
    h0: &ArtifactHead,
    h1: &ArtifactHead,
    pool: &ChunkPool,
    name_id: u32,
    expect: u64,
    commit: Commit,
    staged: Seq<ChunkDesc>,
    spans: Seq<u32>,
    schema_id: u32,
)
    requires
        h0@ == h1@,
        prepared(pr, h0, pool, name_id, expect, commit, staged, spans, schema_id),
    ensures
        prepared(pr, h1, pool, name_id, expect, commit, staged, spans, schema_id),
{
    reveal(prepared);
}

/// A prepared version is ready to be installed.
proof fn lemma_ready(
    pr: Prepared,
    h: &ArtifactHead,
    pool: &ChunkPool,
    name_id: u32,
    expect: u64,
    commit: Commit,
    staged: Seq<ChunkDesc>,
    spans: Seq<u32>,
    schema_id: u32,
)
    requires
        prepared(pr, h, pool, name_id, expect, commit, staged, spans, schema_id),
        expect < u64::MAX,
    ensures
        ({
            let p0 = pr.pool0@;
            let k = p0.at(pr.desc.offset);
            &&& p0.wf()
            &&& pool.wf()
            &&& 0 <= k < pool@.len()
            &&& p0.lay@[k] == pr.desc.offset
            &&& pool@[k].story == Some(pr.story@)
            &&& pr.story@.last().version == (expect + 1) as u64
            &&& pr.story@.last().artifact_id == name_id
            &&& forall|j: int|
                0 <= j < p0@.len() ==> #[trigger] held(p0.lay@, pool@, j) == held(p0.lay@, p0@, j)
                    + if j == k {
                    1int
                } else {
                    0
                }
            &&& forall|j: int|
                0 <= j < p0@.len() && p0@[j].story is Some ==> (#[trigger] pool@[j]).story
                    == p0@[j].story
            &&& forall|j: int|
                0 <= j < p0@.len() && p0@[j].allocated ==> (#[trigger] pool@[j]).bytes == p0@[j].bytes
        }),
{
    reveal(prepared);
    reveal(published);
    let k = pr.pool0@.at(pr.desc.offset);
    lemma_has(pool.lay@, pr.desc.offset);
    lemma_staged_frame(
        &pr.pool0@,
        &pr.pool1@,
        &pr.pool2@,
        pool,
        pr.base,
        staged,
        k,
        pr.story@,
    );
}

/// Between staging and installing, the record of the staged manifest is true:
/// the manifest is there, no version names it, and its writer's reference is on
/// it. If the writer dies there, the manifest can be given back.
pub proof fn staged_manifest_can_be_reclaimed(
    pr: Prepared,
    h: &ArtifactHead,
    pool: &ChunkPool,
    name_id: u32,
    expect: u64,
    commit: Commit,
    staged: Seq<ChunkDesc>,
    spans: Seq<u32>,
    schema_id: u32,
)
    requires
        prepared(pr, h, pool, name_id, expect, commit, staged, spans, schema_id),
        expect < u64::MAX,
    ensures
        live(h, pool, name_id),
        still_staged(pool, staged_bits(pr.desc), pr.desc.generation),
        !endorsed(h@, staged_bits(pr.desc)),
        orphaned(h@, pool, staged_bits(pr.desc), pr.desc.generation),
        conserved_but(h@, pool, h@, &pr.pool0@, pool.at(PackedRef(staged_bits(pr.desc)).spec_offset())),
{
    lemma_ready(pr, h, pool, name_id, expect, commit, staged, spans, schema_id);
    reveal(prepared);
    let p0 = pr.pool0@;
    let lay = p0.lay@;
    let seg = p0.segment_id;
    let k = p0.at(pr.desc.offset);
    let bits = staged_bits(pr.desc);
    packed_ref_round_trip(PackedRef(bits), pr.desc.segment_id, pr.desc.offset);
    reveal(published);
    assert(pr.pool2@@.len() == p0@.len());
    assert(chunk_ok(pr.pool2@@[k]));
    assert(chunk_ok(p0@[k]));
    assert(pr.pool2@@[k] == more(pr.pool1@@[k], base_refs(pr.base, lay[k]) as int));
    assert(pr.pool1@@[k] == pr.pool1@@[k]);
    assert(p0@[k].story is None) by {
        if p0@[k].story is Some {
            assert(p0@[k].allocated);
            assert(!picked(lay, seg, p0@, staged, k)) by {
                if picked(lay, seg, p0@, staged, k) {
                    let t = choose|t: int| 0 <= t < staged.len() && picks(lay, seg, p0@, #[trigger] staged[t], k);
                }
            }
        }
    }
    assert forall|i: int| 0 <= i < pool@.len() implies unaccounted(h@, lay, seg, pool@, i) == #[trigger] unaccounted(
        h@,
        lay,
        seg,
        p0@,
        i,
    ) + if i == k {
        1int
    } else {
        0
    } by {
        assert(held(lay, pool@, i) == held(lay, p0@, i) + if i == k {
            1int
        } else {
            0
        });
    }
    assert forall|i: int| 0 <= i < pool@.len() implies #[trigger] unaccounted(h@, lay, seg, pool@, i) >= 0 by {
        assert(unaccounted(h@, lay, seg, p0@, i) >= 0);
    }
    assert forall|j: int| 0 <= j < h@.pins.len() implies slot_ok(
        lay,
        seg,
        pool@,
        name_id,
        #[trigger] h@.pins[j],
    ) && h@.pins[j].manifest != bits by {
        let s = h@.pins[j];
        assert(slot_ok(lay, seg, p0@, name_id, s));
        if s.state != SLOT_FREE {
            lemma_has(lay, PackedRef(s.manifest).spec_offset());
            assert(pool@[slot_chunk(lay, s)].story == p0@[slot_chunk(lay, s)].story);
        } else {
            assert(lay[k] > 0);
        }
    }
    if h@.manifest_desc == bits {
        if h@.current != NO_VERSION {
            let j = choose|j: int|
                0 <= j < h@.pins.len() && (#[trigger] h@.pins[j]).tracks(h@.current) && h@.pins[j].manifest
                    == h@.manifest_desc;
            assert(h@.pins[j].manifest != bits);
        } else {
            assert(lay[k] > 0);
        }
    }
    assert forall|i: int| 0 <= i < pool@.len() implies unaccounted(h@, lay, seg, p0@, i) == #[trigger] unaccounted(
        h@,
        pool.lay@,
        pool.segment_id,
        pool@,
        i,
    ) - if i == pool.at(PackedRef(bits).spec_offset()) {
        1int
    } else {
        0
    } by {
        assert(held(lay, pool@, i) == held(lay, p0@, i) + if i == k {
            1int
        } else {
            0
        });
    }
}

/// How the manifest staged under `d` is named.
pub open spec fn staged_bits(d: ChunkDesc) -> u64 {
    PackedRef::spec_pack(d.segment_id, d.offset).0
}

/// The record of a staged manifest.
pub open spec fn staged_record(art: Artifact, d: ChunkDesc) -> JournalRecord {
    JournalRecord::StagedManifest {
        artifact_id: art.name_id,
        incarnation: art.incarnation,
        manifest: staged_bits(d),
        generation: d.generation,
    }
}

/// A commit between its two steps: the manifest is staged and, if there was
/// room, on record.
pub struct StagedCommit {
    pub version: Prepared,
    pub expect: u64,
    pub schema_id: u32,
    /// The slot of the record in the journal.
    pub slot: Option<usize>,
    pub commit: Ghost<Commit>,
    pub staged: Ghost<Seq<ChunkDesc>>,
    pub spans: Ghost<Seq<u32>>,
}

impl StagedCommit {
    /// Whether this is the commit that is staged in the pool for the head.
    pub open spec fn stands(&self, h: &ArtifactHead, pool: &ChunkPool, name_id: u32) -> bool {
        &&& self.expect < u64::MAX
        &&& prepared(
            self.version,
            h,
            pool,
            name_id,
            self.expect,
            self.commit@,
            self.staged@,
            self.spans@,
            self.schema_id,
        )
    }

    /// The descriptor of the staged manifest.
    pub fn manifest(&self) -> (d: ChunkDesc)
        ensures
            d == self.version.desc,
    {
        self.version.desc
    }
}

/// The first empty slot of a journal.
pub open spec fn first_empty(s: Seq<Option<JournalRecord>>, r: Option<usize>) -> bool {
    match r {
        Some(i) => {
            &&& i < s.len()
            &&& s[i as int] is None
            &&& forall|j: int| 0 <= j < i ==> (#[trigger] s[j]) is Some
        },
        None => forall|j: int| 0 <= j < s.len() ==> (#[trigger] s[j]) is Some,
    }
}

impl Artifact {
    /// The first step of a journaled commit: publish the staged chunks, stage
    /// the manifest of the next version, and put it on record. A full journal
    /// does not stop the commit; the manifest is then not on record.
    ///
    /// If the writer dies before the second step, whoever finds the record gives
    /// the manifest back with `reclaim_staged_manifest`.
    pub fn stage(
        &self,
        head: &ArtifactHead,
        pool: &mut ChunkPool,
        journal: &mut BorrowJournal,
        expect: u64,
        owner: u32,
        commit: Commit,
        staged: &[ChunkDesc],
        staged_spans: &[u32],
        schema_id: u32,
        lease_fence: Option<u32>,
    ) -> (r: Result<StagedCommit, Error>)
        requires
            live(head, old(pool), self.name_id),
            span_sum(staged_spans@) == staged@.len(),
            expect < u64::MAX,
        ensures
            live(head, final(pool), self.name_id),
            match early_refusal(*self, head@, owner, commit, lease_fence) {
                Some(e) => r is Err && r->Err_0 == e,
                None => if !stageable(
                    old(pool).lay@,
                    old(pool).segment_id,
                    old(pool)@,
                    staged@,
                ) {
                    r is Err && r->Err_0 == stage_error(
                        old(pool).lay@,
                        old(pool).segment_id,
                        old(pool)@,
                        staged@,
                    )
                } else {
                    match manifest_refusal(
                        head@,
                        old(pool),
                        expect,
                        commit,
                        staged@,
                        staged_spans@,
                        schema_id,
                    ) {
                        Some(e) => r is Err && r->Err_0 == e,
                        None => r is Ok,
                    }
                },
            },
            r is Err ==> final(journal)@ == old(journal)@ && conserved(head@, old(pool), head@, final(pool)),
            r is Err && head@.incarnation == self.incarnation && commit is Patch ==> final(pool)@
                == old(pool)@,
            r is Err && !(head@.incarnation == self.incarnation && commit is Patch) ==> gave_back(
                old(pool),
                final(pool),
                staged@,
            ),
            r matches Ok(st) ==> {
                let d = st.version.desc;
                &&& st.stands(head, final(pool), self.name_id)
                &&& st.version.pool0@ == *old(pool)
                &&& st.expect == expect
                &&& st.schema_id == schema_id
                &&& st.commit@ == commit
                &&& st.staged@ == staged@
                &&& st.spans@ == staged_spans@
                &&& first_empty(old(journal)@, st.slot)
                &&& final(journal)@ == match st.slot {
                    Some(i) => old(journal)@.update(i as int, Some(staged_record(*self, d))),
                    None => old(journal)@,
                }
                &&& still_staged(final(pool), staged_bits(d), d.generation)
                &&& !endorsed(head@, staged_bits(d))
                &&& orphaned(head@, final(pool), staged_bits(d), d.generation)
            },
    {
        let ghost pool0 = *pool;
        proof {
            reveal(undone);
        }
        match self.begin(head, pool, owner, &commit, staged, lease_fence) {
            Ok(()) => {},
            Err(e) => {
                proof {
                    if head@.incarnation == self.incarnation && commit is Patch {
                        assert forall|i: int| 0 <= i < pool0@.len() implies unaccounted(
                            head@,
                            pool.lay@,
                            pool.segment_id,
                            pool@,
                            i,
                        ) == #[trigger] unaccounted(
                            head@,
                            pool0.lay@,
                            pool0.segment_id,
                            pool0@,
                            i,
                        ) by {}
                    }
                }
                return Err(e);
            },
        }
        proof {
            assert(stageable(pool0.lay@, pool0.segment_id, pool0@, staged@));
        }
        let pr: Prepared = match self.prepare(
            head,
            pool,
            expect,
            owner,
            &commit,
            staged,
            staged_spans,
            schema_id,
            Ghost(pool0),
        ) {
            Ok(pr) => pr,
            Err(e) => {
                return Err(e);
            },
        };
        proof {
            staged_manifest_can_be_reclaimed(
                pr,
                head,
                pool,
                self.name_id,
                expect,
                commit,
                staged@,
                staged_spans@,
                schema_id,
            );
        }
        let rec = JournalRecord::StagedManifest {
            artifact_id: self.name_id,
            incarnation: self.incarnation,
            manifest: PackedRef::from_desc(&pr.desc).to_bits(),
            generation: pr.desc.generation,
        };
        let slot: Option<usize> = match journal.record(rec) {
            Ok(i) => Some(i),
            Err(_) => None,
        };
        Ok(
            StagedCommit {
                version: pr,
                expect,
                schema_id,
                slot,
                commit: Ghost(commit),
                staged: Ghost(staged@),
                spans: Ghost(staged_spans@),
            },
        )
    }

    /// The second step of a journaled commit: install the staged version, or
    /// undo it if no slot is free or another commit came first, and take it off
    /// the record.
    pub fn install(
        &self,
        head: &mut ArtifactHead,
        pool: &mut ChunkPool,
        journal: &mut BorrowJournal,
        st: StagedCommit,
    ) -> (r: Result<u64, Error>)
        requires
            st.stands(old(head), old(pool), self.name_id),
        ensures
            live(final(head), final(pool), self.name_id),
            conserved(old(head)@, &st.version.pool0@, final(head)@, final(pool)),
            match slot_refusal(old(head)@, st.expect) {
                Some(e) => {
                    &&& r == Err::<u64, Error>(e)
                    &&& final(head)@ == old(head)@
                    &&& gave_back(&st.version.pool0@, final(pool), st.staged@)
                },
                None => {
                    &&& r == Ok::<u64, Error>((st.expect + 1) as u64)
                    &&& committed(
                        old(head)@,
                        &st.version.pool0@,
                        final(head)@,
                        final(pool),
                        self.name_id,
                        st.expect,
                        st.commit@,
                        st.staged@,
                        st.spans@,
                        st.schema_id,
                    )
                },
            },
            final(journal)@ == match st.slot {
                Some(i) => if i < old(journal)@.len() && old(journal)@[i as int] is Some {
                    old(journal)@.update(i as int, None)
                } else {
                    old(journal)@
                },
                None => old(journal)@,
            },
    {
        proof {
            reveal(prepared);
            reveal(undone);
        }
        let StagedCommit { version, expect, schema_id, slot, commit, staged, spans } = st;
        let r: Result<u64, Error> = self.finish(
            head,
            pool,
            version,
            expect,
            schema_id,
            commit,
            staged,
            spans,
        );
        if let Some(i) = slot {
            journal.release(i);
        }
        r
    }
}

impl Artifact {
    /// The one install path, shared by every commit.
    ///
    /// `staged` names chunks already written and loaned; `staged_spans`
    /// partitions them into batches. On success they belong to the new version,
    /// which is current, and the predecessor is retired unless it is pinned. On
    /// failure every staged chunk is back in the pool, except that a `Patch` is
    /// refused before they are looked at.
    pub fn commit_staged_inner(
        &self,
        head: &mut ArtifactHead,
        pool: &mut ChunkPool,
        expect: u64,
        owner: u32,
        commit: Commit,
        staged: &[ChunkDesc],
        staged_spans: &[u32],
        schema_id: u32,
        lease_fence: Option<u32>,
    ) -> (r: Result<u64, Error>)
        requires
            live(old(head), old(pool), self.name_id),
            span_sum(staged_spans@) == staged@.len(),
            expect < u64::MAX,
        ensures
            live(final(head), final(pool), self.name_id),
            conserved(old(head)@, old(pool), final(head)@, final(pool)),
            match early_refusal(*self, old(head)@, owner, commit, lease_fence) {
                Some(e) => r == Err::<u64, Error>(e),
                None => if !stageable(
                    old(pool).lay@,
                    old(pool).segment_id,
                    old(pool)@,
                    staged@,
                ) {
                    r == Err::<u64, Error>(
                        stage_error(
                            old(pool).lay@,
                            old(pool).segment_id,
                            old(pool)@,
                            staged@,
                        ),
                    )
                } else {
                    match late_refusal(
                        old(head)@,
                        old(pool),
                        expect,
                        commit,
                        staged@,
                        staged_spans@,
                        schema_id,
                    ) {
                        Some(e) => r == Err::<u64, Error>(e),
                        None => r == Ok::<u64, Error>((expect + 1) as u64),
                    }
                },
            },
            r is Err ==> final(head)@ == old(head)@,
            r is Err && old(head)@.incarnation == self.incarnation && commit is Patch ==> final(pool)@
                == old(pool)@,
            r is Err && !(old(head)@.incarnation == self.incarnation && commit is Patch) ==> gave_back(
                old(pool),
                final(pool),
                staged@,
            ),
            r is Ok ==> committed(
                old(head)@,
                old(pool),
                final(head)@,
                final(pool),
                self.name_id,
                expect,
                commit,
                staged@,
                staged_spans@,
                schema_id,
            ),
    {
        let ghost pool0 = *pool;
        proof {
            reveal(undone);
        }
        match self.begin(head, pool, owner, &commit, staged, lease_fence) {
            Ok(()) => {},
            Err(e) => {
                return Err(e);
            },
        }
        proof {
            assert(stageable(pool0.lay@, pool0.segment_id, pool0@, staged@));
        }
        let pr: Prepared = match self.prepare(
            head,
            pool,
            expect,
            owner,
            &commit,
            staged,
            staged_spans,
            schema_id,
            Ghost(pool0),
        ) {
            Ok(pr) => pr,
            Err(e) => {
                return Err(e);
            },
        };
        self.finish(
            head,
            pool,
            pr,
            expect,
            schema_id,
            Ghost(commit),
            Ghost(staged@),
            Ghost(staged_spans@),
        )
    }

    /// The install path with a journal: the staged manifest is on record from
    /// when it is staged until it is installed or undone, so that it can be
    /// given back if the writer dies in between. A full journal does not stop
    /// the commit; the manifest is then not on record.
    pub fn commit_staged_inner_j(
        &self,
        head: &mut ArtifactHead,
        pool: &mut ChunkPool,
        journal: &mut BorrowJournal,
        expect: u64,
        owner: u32,
        commit: Commit,
        staged: &[ChunkDesc],
        staged_spans: &[u32],
        schema_id: u32,
        lease_fence: Option<u32>,
    ) -> (r: Result<u64, Error>)
        requires
            live(old(head), old(pool), self.name_id),
            span_sum(staged_spans@) == staged@.len(),
            expect < u64::MAX,
        ensures
            live(final(head), final(pool), self.name_id),
            conserved(old(head)@, old(pool), final(head)@, final(pool)),
            match early_refusal(*self, old(head)@, owner, commit, lease_fence) {
                Some(e) => r == Err::<u64, Error>(e),
                None => if !stageable(
                    old(pool).lay@,
                    old(pool).segment_id,
                    old(pool)@,
                    staged@,
                ) {
                    r == Err::<u64, Error>(
                        stage_error(
                            old(pool).lay@,
                            old(pool).segment_id,
                            old(pool)@,
                            staged@,
                        ),
                    )
                } else {
                    match late_refusal(
                        old(head)@,
                        old(pool),
                        expect,
                        commit,
                        staged@,
                        staged_spans@,
                        schema_id,
                    ) {
                        Some(e) => r == Err::<u64, Error>(e),
                        None => r == Ok::<u64, Error>((expect + 1) as u64),
                    }
                },
            },
            final(journal)@ == old(journal)@,
            r is Err ==> final(head)@ == old(head)@,
            r is Err && old(head)@.incarnation == self.incarnation && commit is Patch ==> final(pool)@
                == old(pool)@,
            r is Err && !(old(head)@.incarnation == self.incarnation && commit is Patch) ==> gave_back(
                old(pool),
                final(pool),
                staged@,
            ),
            r is Ok ==> committed(
                old(head)@,
                old(pool),
                final(head)@,
                final(pool),
                self.name_id,
                expect,
                commit,
                staged@,
                staged_spans@,
                schema_id,
            ),
    {
        let ghost j0 = journal@;
        match self.stage(
            head,
            pool,
            journal,
            expect,
            owner,
            commit,
            staged,
            staged_spans,
            schema_id,
            lease_fence,
        ) {
            Err(e) => Err(e),
            Ok(st) => {
                let ghost slot = st.slot;
                let r: Result<u64, Error> = self.install(head, pool, journal, st);
                proof {
                    assert(journal@ =~= j0);
                }
                r
            },
        }
    }
}

} // verus!
