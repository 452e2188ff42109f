//! The census: which chunks are taken, and how many.
use vstd::prelude::*;
use vstd::set_lib::*;

use crate::artifact::batches::{
    batch_committed, batch_staged, loaned, named, unwrapped, CommitError,
};
use crate::artifact::borrow::more;
use crate::artifact::commit::{
    base_for, base_refs, current_chunk, lemma_current, lemma_table_data, version_manifest,
    version_story, Base, Commit,
};
use crate::artifact::config::free_chunks;
use crate::artifact::handle::Artifact;
use crate::artifact::head::{
    ArtifactHead, HeadView, PinSlot, MAX_LIVE_VERSIONS, NO_VERSION, OWNER_NONE, SLOT_FREE,
};
use crate::artifact::install::{
    chunk_after, committed, gave_back, installed, installs, lemma_no_slot, prepared, published,
    staged_bits, staged_manifest_can_be_reclaimed, tables_kept, StagedCommit,
};
use crate::artifact::lease::commit_outcome;
use crate::artifact::live::{
    conserved, current_table, lemma_slot_holds, live, only_returns, slot_chunk, slot_ok, slot_refs,
    table_of, unaccounted, without_slot,
};
use crate::artifact::manifest::{span_sum, ManifestView};
use crate::artifact::policy::{depth_of, policy_bounds_the_table, within, WindowPolicy};
use crate::artifact::pool::{
    at, backed, chunk_ok, count_off, data_ok, kept_or_returned, lemma_at, lemma_has, link_off,
    link_ok, listings, owned_on, ChunkPool, ChunkState, ChunkView,
};
use crate::artifact::reading::lemma_story;
use crate::artifact::service::conserved_but;
use crate::artifact::staging::{distinct, picked, picks};
use crate::artifact::window::{
    all_chunks, all_spans, dropped, lemma_start_mono, lemma_table_lens, start,
};
use crate::batch::schema::RegistryView;
use crate::batch::write::{allot, batch_sizes, batch_written, desc_of, handed_out, Batch};
use crate::chunk::{packed_ref_round_trip, ChunkDesc, PackedRef};

verus! {

/// Nobody but manifests and slots refers to anything in the pool.
pub open spec fn all_accounted(h: HeadView, pool: &ChunkPool) -> bool {
    &&& forall|i: int|
        0 <= i < pool@.len() ==> #[trigger] unaccounted(h, pool.lay@, pool.segment_id, pool@, i) == 0
    &&& forall|i: int|
        0 <= i < pool@.len() && (#[trigger] pool@[i]).state == ChunkState::Published ==> pool@[i].owner
            == OWNER_NONE
}

/// Whether a chunk is out with a writer: handed out, and not published yet.
pub open spec fn with_writer(c: ChunkView) -> bool {
    c.allocated && c.state != ChunkState::Published
}

/// An artifact at rest, alone in its pool: no chunk is out with a writer, and
/// nobody but manifests and slots refers to anything.
pub open spec fn at_rest(h: HeadView, pool: &ChunkPool) -> bool {
    &&& all_accounted(h, pool)
    &&& forall|i: int| 0 <= i < pool@.len() ==> !with_writer(#[trigger] pool@[i])
}

/// How many chunks are taken.
pub open spec fn taken_chunks(p: Seq<ChunkView>) -> int {
    p.len() - free_chunks(p)
}

// ---- who names a chunk ----

proof fn lemma_listed_by(p: Seq<ChunkView>, off: u32) -> (k: int)
    requires
        listings(p, off) > 0,
    ensures
        0 <= k < p.len(),
        owned_on(p[k], off) > 0,
    decreases p.len(),
{
    let q = p.drop_last();
    if listings(q, off) > 0 {
        let k = lemma_listed_by(q, off);
        assert(q[k] == p[k]);
        k
    } else {
        p.len() - 1
    }
}

/// At rest, just those chunks are taken that a slot or a manifest names.
pub proof fn taken_chunks_are_named(h: &ArtifactHead, pool: &ChunkPool, i: int)
    requires
        pool.wf(),
        at_rest(h@, pool),
        0 <= i < pool@.len(),
    ensures
        pool@[i].allocated <==> slot_refs(h@.pins, pool.segment_id, pool.lay@[i]) + listings(
            pool@,
            pool.lay@[i],
        ) > 0,
        pool@[i].allocated <==> pool@[i].state == ChunkState::Published,
{
    assert(chunk_ok(pool@[i]));
    assert(!with_writer(pool@[i]));
    assert(unaccounted(h@, pool.lay@, pool.segment_id, pool@, i) == 0);
}

/// The chunk that the manifest in chunk `i` links to.
pub open spec fn linked_chunk(pool: &ChunkPool, i: int) -> int {
    pool.at(pool@[i].story->Some_0.last().prev->Some_0.mref.spec_offset())
}

/// A manifest that no slot holds is linked from a newer one.
proof fn lemma_newer(h: &ArtifactHead, pool: &ChunkPool, i: int) -> (k: int)
    requires
        pool.wf(),
        all_accounted(h@, pool),
        0 <= i < pool@.len(),
        pool@[i].story is Some,
        slot_refs(h@.pins, pool.segment_id, pool.lay@[i]) == 0,
    ensures
        0 <= k < pool@.len(),
        pool@[k].story is Some,
        pool@[k].story->Some_0.len() == pool@[i].story->Some_0.len() + 1,
        pool@[k].story->Some_0.last().prev is Some,
        linked_chunk(pool, k) == i,
{
    let lay = pool.lay@;
    let off = lay[i];
    assert(chunk_ok(pool@[i]));
    assert(unaccounted(h@, lay, pool.segment_id, pool@, i) == 0);
    assert(listings(pool@, off) > 0);
    let k = lemma_listed_by(pool@, off);
    let ch = pool@[k].story->Some_0;
    assert(backed(lay, pool.segment_id, pool@, ch));
    lemma_at(lay, i);
    if count_off(ch.last().chunks, off) > 0 {
        crate::artifact::borrow::lemma_count_some(ch.last().chunks, off);
        let t = choose|t: int|
            0 <= t < ch.last().chunks.len() && (#[trigger] ch.last().chunks[t]).offset == off;
        assert(data_ok(lay, pool.segment_id, pool@, ch.last().chunks[t]));
    }
    assert(link_off(ch.last().prev, off) > 0);
    let l = ch.last().prev->Some_0;
    assert(link_ok(lay, pool.segment_id, pool@, ch, l));
    k
}

proof fn lemma_quiet_slots(pins: Seq<PinSlot>, seg: u32, off: u32)
    requires
        forall|j: int| 0 <= j < pins.len() ==> (#[trigger] pins[j]).state == SLOT_FREE,
    ensures
        slot_refs(pins, seg, off) == 0,
    decreases pins.len(),
{
    if pins.len() > 0 {
        lemma_quiet_slots(pins.drop_last(), seg, off);
    }
}

/// The length of the longest chain in the pool.
spec fn longest(p: Seq<ChunkView>) -> nat
    decreases p.len(),
{
    if p.len() == 0 {
        0
    } else {
        let r = longest(p.drop_last());
        let c = p.last();
        if c.story is Some && c.story->Some_0.len() > r {
            c.story->Some_0.len()
        } else {
            r
        }
    }
}

proof fn lemma_longest(p: Seq<ChunkView>, i: int)
    requires
        0 <= i < p.len(),
        p[i].story is Some,
    ensures
        p[i].story->Some_0.len() <= longest(p),
    decreases p.len(),
{
    if i < p.len() - 1 {
        lemma_longest(p.drop_last(), i);
        assert(p.drop_last()[i] == p[i]);
    }
}

proof fn lemma_no_manifest(h: &ArtifactHead, pool: &ChunkPool, i: int)
    requires
        pool.wf(),
        h@.quiescent(),
        all_accounted(h@, pool),
        0 <= i < pool@.len(),
    ensures
        pool@[i].story is None,
    decreases
            if pool@[i].story is Some {
                longest(pool@) - pool@[i].story->Some_0.len()
            } else {
                0
            },
{
    if pool@[i].story is Some {
        lemma_longest(pool@, i);
        lemma_quiet_slots(h@.pins, pool.segment_id, pool.lay@[i]);
        let k = lemma_newer(h, pool, i);
        lemma_longest(pool@, k);
        lemma_no_manifest(h, pool, k);
    }
}

/// A quiescent artifact, alone in its pool, holds no chunk: everything ever
/// committed is back, and what is taken is out with a writer.
pub proof fn quiescent_holds_nothing(h: &ArtifactHead, pool: &ChunkPool, i: int)
    requires
        pool.wf(),
        h@.quiescent(),
        all_accounted(h@, pool),
        0 <= i < pool@.len(),
    ensures
        pool@[i].allocated ==> with_writer(pool@[i]),
        at_rest(h@, pool) ==> !pool@[i].allocated && pool@[i].state == ChunkState::Free,
{
    assert(chunk_ok(pool@[i]));
    if pool@[i].state == ChunkState::Published {
        lemma_quiet_slots(h@.pins, pool.segment_id, pool.lay@[i]);
        assert(unaccounted(h@, pool.lay@, pool.segment_id, pool@, i) == 0);
        assert(listings(pool@, pool.lay@[i]) > 0);
        let k = lemma_listed_by(pool@, pool.lay@[i]);
        lemma_no_manifest(h, pool, k);
    }
    if at_rest(h@, pool) {
        assert(!with_writer(pool@[i]));
    }
}

proof fn lemma_all_free(p: Seq<ChunkView>)
    requires
        forall|i: int| 0 <= i < p.len() ==> !(#[trigger] p[i]).allocated,
    ensures
        free_chunks(p) == p.len(),
    decreases p.len(),
{
    if p.len() > 0 {
        assert(!p[p.len() - 1].allocated);
        assert forall|i: int| 0 <= i < p.drop_last().len() implies !(#[trigger] p.drop_last()[i]).allocated by {
            assert(p.drop_last()[i] == p[i]);
        }
        lemma_all_free(p.drop_last());
    }
}

/// A quiescent artifact at rest has given the whole pool back.
pub proof fn quiescent_pool_is_free(h: &ArtifactHead, pool: &ChunkPool)
    requires
        pool.wf(),
        h@.quiescent(),
        at_rest(h@, pool),
    ensures
        free_chunks(pool@) == pool@.len(),
        taken_chunks(pool@) == 0,
{
    assert forall|i: int| 0 <= i < pool@.len() implies !(#[trigger] pool@[i]).allocated by {
        quiescent_holds_nothing(h, pool, i);
    }
    lemma_all_free(pool@);
}

// ---- what keeps an artifact at rest ----

/// Whatever only returns chunks and loses no reference keeps an artifact at
/// rest: retiring, unpinning, evicting.
pub proof fn returning_keeps_rest(h0: HeadView, p0: &ChunkPool, h1: HeadView, p1: &ChunkPool)
    requires
        at_rest(h0, p0),
        only_returns(p0, p1),
        conserved(h0, p0, h1, p1),
    ensures
        at_rest(h1, p1),
{
    assert forall|i: int| 0 <= i < p1@.len() implies #[trigger] unaccounted(
        h1,
        p1.lay@,
        p1.segment_id,
        p1@,
        i,
    ) == 0 by {
        assert(unaccounted(h0, p0.lay@, p0.segment_id, p0@, i) == 0);
    }
    assert forall|i: int| 0 <= i < p1@.len() implies !with_writer(#[trigger] p1@[i]) && (p1@[i].state
        == ChunkState::Published ==> p1@[i].owner == OWNER_NONE) by {
        assert(kept_or_returned(p0@[i], p1@[i]));
        assert(!with_writer(p0@[i]));
    }
}

/// Whether the chunks out with a writer are just the staged ones.
pub open spec fn only_staged_out(p: &ChunkPool, staged: Seq<ChunkDesc>) -> bool {
    forall|j: int|
        0 <= j < p@.len() && with_writer(#[trigger] p@[j]) ==> picked(
            p.lay@,
            p.segment_id,
            p@,
            staged,
            j,
        )
}

/// A commit of all that is out with a writer leaves the artifact at rest,
/// whether it succeeds or is refused. A patch is refused before the staged
/// chunks are looked at.
pub proof fn commit_keeps_rest(
    art: Artifact,
    h0: HeadView,
    p0: &ChunkPool,
    h1: HeadView,
    p1: &ChunkPool,
    expect: u64,
    owner: u32,
    commit: Commit,
    staged: Seq<ChunkDesc>,
    spans: Seq<u32>,
    schema_id: u32,
    lease_fence: Option<u32>,
    r: Result<u64, crate::artifact::error::Error>,
)
    requires
        p0.wf(),
        all_accounted(h0, p0),
        only_staged_out(p0, staged),
        !(commit is Patch),
        commit_outcome(
            art,
            h0,
            p0,
            h1,
            p1,
            expect,
            owner,
            commit,
            staged,
            spans,
            schema_id,
            lease_fence,
            r,
        ),
    ensures
        at_rest(h1, p1),
{
    assert forall|i: int| 0 <= i < p1@.len() implies #[trigger] unaccounted(
        h1,
        p1.lay@,
        p1.segment_id,
        p1@,
        i,
    ) == 0 by {
        assert(unaccounted(h0, p0.lay@, p0.segment_id, p0@, i) == 0);
    }
    assert forall|i: int| 0 <= i < p1@.len() implies !with_writer(#[trigger] p1@[i]) && (p1@[i].state
        == ChunkState::Published ==> p1@[i].owner == OWNER_NONE) by {
        assert(chunk_ok(p0@[i]));
        if r is Ok {
            let k = p1.at(PackedRef(h1.manifest_desc).spec_offset());
            assert(chunk_after(p0, p1, staged, current_table(h1, p1.lay@, p1@), k, i));
        } else {
            assert(gave_back(p0, p1, staged));
            assert(p1@[i] == p1@[i]);
        }
    }
}

/// A writer that dies between the two steps of a commit leaks nothing: once its
/// staged manifest is given back, as its record says, the artifact is at rest.
pub proof fn a_crash_between_the_steps_leaks_nothing(
    st: &StagedCommit,
    h: &ArtifactHead,
    pool: &ChunkPool,
    name_id: u32,
    p1: &ChunkPool,
)
    requires
        st.stands(h, pool, name_id),
        all_accounted(h@, &st.version.pool0@),
        only_staged_out(&st.version.pool0@, st.staged@),
        only_returns(pool, p1),
        conserved_but(
            h@,
            pool,
            h@,
            p1,
            pool.at(PackedRef(staged_bits(st.version.desc)).spec_offset()),
        ),
    ensures
        at_rest(h@, p1),
{
    let pr = st.version;
    let p0 = pr.pool0@;
    let lay = p0.lay@;
    let seg = p0.segment_id;
    staged_manifest_can_be_reclaimed(
        pr,
        h,
        pool,
        name_id,
        st.expect,
        st.commit@,
        st.staged@,
        st.spans@,
        st.schema_id,
    );
    reveal(prepared);
    reveal(published);
    assert forall|i: int| 0 <= i < p1@.len() implies #[trigger] unaccounted(
        h@,
        p1.lay@,
        p1.segment_id,
        p1@,
        i,
    ) == 0 by {
        assert(unaccounted(h@, lay, seg, p0@, i) == 0);
        let k = pool.at(PackedRef(staged_bits(pr.desc)).spec_offset());
        assert(unaccounted(h@, lay, seg, p0@, i) == unaccounted(
            h@,
            pool.lay@,
            pool.segment_id,
            pool@,
            i,
        ) - if i == k {
            1int
        } else {
            0
        });
        assert(unaccounted(h@, p1.lay@, p1.segment_id, p1@, i) == unaccounted(
            h@,
            pool.lay@,
            pool.segment_id,
            pool@,
            i,
        ) - if i == k {
            1int
        } else {
            0
        });
    }
    assert forall|i: int| 0 <= i < p1@.len() implies !with_writer(#[trigger] p1@[i]) && (p1@[i].state
        == ChunkState::Published ==> p1@[i].owner == OWNER_NONE) by {
        assert(kept_or_returned(pool@[i], p1@[i]));
        assert(pr.pool2@@[i] == more(pr.pool1@@[i], base_refs(pr.base, lay[i]) as int));
        assert(pr.pool1@@[i] == pr.pool1@@[i]);
        assert(p0@[i] == p0@[i]);
    }
}

// ---- one version ----

/// The chunk of the manifest that is the `n`th of the chain that ends in chunk
/// `i`.
pub open spec fn chain_chunk(pool: &ChunkPool, i: int, n: int) -> int
    decreases pool@[i].story->Some_0.len(),
{
    let j = linked_chunk(pool, i);
    if pool@[i].story->Some_0.len() <= n + 1 || pool@[j].story->Some_0.len()
        >= pool@[i].story->Some_0.len() {
        i
    } else {
        chain_chunk(pool, j, n)
    }
}

proof fn lemma_link(pool: &ChunkPool, i: int)
    requires
        pool.wf(),
        0 <= i < pool@.len(),
        pool@[i].story is Some,
        pool@[i].story->Some_0.len() > 1,
    ensures
        0 <= linked_chunk(pool, i) < pool@.len(),
        pool@[linked_chunk(pool, i)].story == Some(pool@[i].story->Some_0.drop_last()),
{
    let ch = pool@[i].story->Some_0;
    assert(backed(pool.lay@, pool.segment_id, pool@, ch));
    if ch.last().prev is Some {
        let l = ch.last().prev->Some_0;
        assert(link_ok(pool.lay@, pool.segment_id, pool@, ch, l));
        lemma_has(pool.lay@, l.mref.spec_offset());
    }
}

proof fn lemma_chain_chunk(pool: &ChunkPool, i: int, n: int)
    requires
        pool.wf(),
        0 <= i < pool@.len(),
        pool@[i].story is Some,
        0 <= n < pool@[i].story->Some_0.len(),
    ensures
        0 <= chain_chunk(pool, i, n) < pool@.len(),
        pool@[chain_chunk(pool, i, n)].story == Some(pool@[i].story->Some_0.take(n + 1)),
        n > 0 ==> chain_chunk(pool, i, n - 1) == linked_chunk(pool, chain_chunk(pool, i, n)),
    decreases pool@[i].story->Some_0.len(),
{
    let ch = pool@[i].story->Some_0;
    if ch.len() == n + 1 {
        assert(ch.take(n + 1) =~= ch);
        if n > 0 {
            lemma_link(pool, i);
            let j = linked_chunk(pool, i);
            assert(pool@[j].story->Some_0.len() == n);
            assert(chain_chunk(pool, j, n - 1) == j);
        }
    } else {
        lemma_link(pool, i);
        let j = linked_chunk(pool, i);
        lemma_chain_chunk(pool, j, n);
        assert(ch.drop_last().take(n + 1) =~= ch.take(n + 1));
    }
}

/// Whether slot `s` is the only one in use.
pub open spec fn only_slot(h: HeadView, s: int) -> bool {
    &&& 0 <= s < h.pins.len()
    &&& h.pins[s].holds()
    &&& forall|j: int| 0 <= j < h.pins.len() && j != s ==> (#[trigger] h.pins[j]).state == SLOT_FREE
}

proof fn lemma_only_slot_refs(pins: Seq<PinSlot>, s: int, seg: u32, off: u32)
    requires
        0 <= s < pins.len(),
        forall|j: int| 0 <= j < pins.len() && j != s ==> (#[trigger] pins[j]).state == SLOT_FREE,
        slot_refs(pins, seg, off) > 0,
    ensures
        pins[s].manifest == PackedRef::spec_pack(seg, off).0,
    decreases pins.len(),
{
    if s == pins.len() - 1 {
        lemma_quiet_slots(pins.drop_last(), seg, off);
    } else {
        assert(pins[pins.len() - 1].state == SLOT_FREE);
        lemma_only_slot_refs(pins.drop_last(), s, seg, off);
    }
}

/// With one version, every manifest in the pool is on its chain.
proof fn lemma_on_chain(h: &ArtifactHead, pool: &ChunkPool, name_id: u32, s: int, i: int)
    requires
        live(h, pool, name_id),
        all_accounted(h@, pool),
        only_slot(h@, s),
        0 <= i < pool@.len(),
        pool@[i].story is Some,
    ensures
        pool@[i].story->Some_0.len() <= table_of(pool.lay@, pool@, h@.pins[s]).len(),
        i == chain_chunk(
            pool,
            slot_chunk(pool.lay@, h@.pins[s]),
            pool@[i].story->Some_0.len() - 1,
        ),
    decreases longest(pool@) - pool@[i].story->Some_0.len(),
{
    let lay = pool.lay@;
    let seg = pool.segment_id;
    let i0 = slot_chunk(lay, h@.pins[s]);
    lemma_longest(pool@, i);
    lemma_slot_holds(h@, lay, seg, pool@, name_id, s);
    assert(slot_ok(lay, seg, pool@, name_id, h@.pins[s]));
    assert(chunk_ok(pool@[i]));
    if slot_refs(h@.pins, seg, lay[i]) > 0 {
        lemma_only_slot_refs(h@.pins, s, seg, lay[i]);
        packed_ref_round_trip(PackedRef(h@.pins[s].manifest), seg, lay[i]);
        lemma_at(lay, i);
    } else {
        let k = lemma_newer(h, pool, i);
        lemma_longest(pool@, k);
        lemma_on_chain(h, pool, name_id, s, k);
        lemma_chain_chunk(pool, i0, pool@[k].story->Some_0.len() - 1);
    }
}

/// Where among the chunks of a table one of its manifests' chunks is.
proof fn lemma_in_table(t: Seq<ManifestView>, n: int, x: int) -> (y: int)
    requires
        0 <= n < t.len(),
        0 <= x < t[n].chunks.len(),
    ensures
        0 <= y < all_chunks(t).len(),
        all_chunks(t)[y] == t[n].chunks[x],
    decreases t.len(),
{
    if n == t.len() - 1 {
        all_chunks(t.drop_last()).len() + x
    } else {
        assert(t.drop_last()[n] == t[n]);
        lemma_in_table(t.drop_last(), n, x)
    }
}

/// With one version, every data chunk that is taken is one of its table's.
proof fn lemma_in_one_table(h: &ArtifactHead, pool: &ChunkPool, name_id: u32, s: int, i: int) -> (y: int)
    requires
        live(h, pool, name_id),
        at_rest(h@, pool),
        only_slot(h@, s),
        0 <= i < pool@.len(),
        pool@[i].allocated,
        pool@[i].story is None,
    ensures
        ({
            let t = table_of(pool.lay@, pool@, h@.pins[s]);
            0 <= y < all_chunks(t).len() && all_chunks(t)[y].offset == pool.lay@[i]
        }),
{
    let lay = pool.lay@;
    let seg = pool.segment_id;
    let i0 = slot_chunk(lay, h@.pins[s]);
    let t = table_of(lay, pool@, h@.pins[s]);
    taken_chunks_are_named(h, pool, i);
    lemma_no_slot(h, pool, name_id, i);
    let k = lemma_listed_by(pool@, lay[i]);
    let ch = pool@[k].story->Some_0;
    assert(backed(lay, seg, pool@, ch));
    lemma_at(lay, i);
    if link_off(ch.last().prev, lay[i]) > 0 {
        assert(link_ok(lay, seg, pool@, ch, ch.last().prev->Some_0));
    }
    crate::artifact::borrow::lemma_count_some(ch.last().chunks, lay[i]);
    let x = choose|x: int|
        0 <= x < ch.last().chunks.len() && (#[trigger] ch.last().chunks[x]).offset == lay[i];
    lemma_on_chain(h, pool, name_id, s, k);
    assert(chunk_ok(pool@[k]));
    lemma_slot_holds(h@, lay, seg, pool@, name_id, s);
    assert(slot_ok(lay, seg, pool@, name_id, h@.pins[s]));
    lemma_chain_chunk(pool, i0, ch.len() - 1);
    assert(ch == t.take(ch.len() as int));
    assert(t[ch.len() - 1] == ch.last());
    lemma_in_table(t, ch.len() - 1, x)
}

/// The chunks that are taken.
pub open spec fn taken_set(p: Seq<ChunkView>) -> Set<int> {
    Set::new(|i: int| 0 <= i < p.len() && p[i].allocated)
}

proof fn lemma_taken_set(p: Seq<ChunkView>)
    ensures
        taken_set(p).finite(),
        taken_set(p).len() == taken_chunks(p),
    decreases p.len(),
{
    if p.len() == 0 {
        assert(taken_set(p) =~= Set::empty());
    } else {
        let q = p.drop_last();
        let n = p.len() - 1;
        lemma_taken_set(q);
        if p.last().allocated {
            assert(taken_set(p) =~= taken_set(q).insert(n));
        } else {
            assert(taken_set(p) =~= taken_set(q));
        }
    }
}

/// The chunks of a version in slot `s`: first those of its manifests, oldest
/// first, then those of its table.
pub open spec fn version_chunk(h: HeadView, pool: &ChunkPool, s: int, n: int) -> int {
    let t = table_of(pool.lay@, pool@, h.pins[s]);
    if n < t.len() {
        chain_chunk(pool, slot_chunk(pool.lay@, h.pins[s]), n)
    } else {
        pool.at(all_chunks(t)[n - t.len()].offset)
    }
}

/// The exact census of one version: at rest, with one slot in use, a chunk is
/// taken for each manifest of the version's chain and for each chunk of its
/// table, and no other. (A table lists no chunk twice if none was staged twice:
/// see `tables_stay_distinct`.)
pub proof fn one_version_census(h: &ArtifactHead, pool: &ChunkPool, name_id: u32, s: int)
    requires
        live(h, pool, name_id),
        at_rest(h@, pool),
        only_slot(h@, s),
        distinct(all_chunks(table_of(pool.lay@, pool@, h@.pins[s]))),
    ensures
        taken_chunks(pool@) == table_of(pool.lay@, pool@, h@.pins[s]).len() + all_chunks(
            table_of(pool.lay@, pool@, h@.pins[s]),
        ).len(),
{
    let lay = pool.lay@;
    let seg = pool.segment_id;
    let i0 = slot_chunk(lay, h@.pins[s]);
    let t = table_of(lay, pool@, h@.pins[s]);
    let d = all_chunks(t);
    let x = set_int_range(0, (t.len() + d.len()) as int);
    let f = |n: int| version_chunk(h@, pool, s, n);
    lemma_slot_holds(h@, lay, seg, pool@, name_id, s);
    assert(slot_ok(lay, seg, pool@, name_id, h@.pins[s]));
    assert forall|n: int| 0 <= n < t.len() + d.len() implies {
        let j = #[trigger] f(n);
        &&& 0 <= j < pool@.len()
        &&& pool@[j].allocated
        &&& n < t.len() ==> pool@[j].story is Some && pool@[j].story->Some_0.len() == n + 1
        &&& n >= t.len() ==> pool@[j].story is None && lay[j] == d[n - t.len()].offset
    } by {
        let j = f(n);
        if n < t.len() {
            lemma_chain_chunk(pool, i0, n);
        } else {
            lemma_table_data(pool, i0, n - t.len());
            lemma_has(lay, d[n - t.len()].offset);
        }
        assert(chunk_ok(pool@[j]));
    }
    assert forall|a: int, b: int|
        x.contains(a) && x.contains(b) && #[trigger] f(a) == #[trigger] f(b) implies a == b by {
        if a >= t.len() && b >= t.len() && a != b {
            if a < b {
                assert(d[a - t.len()].offset != d[b - t.len()].offset);
            } else {
                assert(d[b - t.len()].offset != d[a - t.len()].offset);
            }
        }
    }
    assert forall|j: int| taken_set(pool@).contains(j) implies exists|n: int|
        x.contains(n) && #[trigger] f(n) == j by {
        if pool@[j].story is Some {
            lemma_on_chain(h, pool, name_id, s, j);
            assert(chunk_ok(pool@[j]));
            let n = pool@[j].story->Some_0.len() - 1;
            assert(f(n) == j);
            assert(x.contains(n));
        } else {
            let y = lemma_in_one_table(h, pool, name_id, s, j);
            let n = t.len() + y;
            lemma_at(lay, j);
            assert(f(n) == j);
            assert(x.contains(n));
        }
    }
    assert(x.map(f) =~= taken_set(pool@)) by {
        assert forall|j: int| x.map(f).contains(j) implies taken_set(pool@).contains(j) by {
            let n = choose|n: int| x.contains(n) && f(n) == j;
            assert(pool@[f(n)].allocated);
        }
        assert forall|j: int| taken_set(pool@).contains(j) implies x.map(f).contains(j) by {
            let n = choose|n: int| x.contains(n) && #[trigger] f(n) == j;
        }
    }
    lemma_int_range(0, (t.len() + d.len()) as int);
    lemma_map_size(x, taken_set(pool@), f);
    lemma_taken_set(pool@);
}

/// The chunks of the table that a commit installs.
proof fn lemma_new_chunks(
    h0: HeadView,
    p0: &ChunkPool,
    h1: HeadView,
    p1: &ChunkPool,
    name_id: u32,
    expect: u64,
    commit: Commit,
    staged: Seq<ChunkDesc>,
    spans: Seq<u32>,
    schema_id: u32,
)
    requires
        committed(h0, p0, h1, p1, name_id, expect, commit, staged, spans, schema_id),
    ensures
        ({
            let t0 = current_table(h0, p0.lay@, p0@);
            let t1 = current_table(h1, p1.lay@, p1@);
            let n = match commit {
                Commit::Window { keep_batches } => dropped(
                    all_spans(t0).len() as int,
                    keep_batches as int,
                ),
                _ => 0,
            };
            &&& !commit.extends(expect) ==> all_chunks(t1) == staged && all_spans(t1) == spans
            &&& commit.extends(expect) && !(commit is Window) ==> all_chunks(t1) == all_chunks(t0) + staged
                && all_spans(t1) == all_spans(t0) + spans
            &&& commit.extends(expect) && commit is Window ==> all_chunks(t1) == all_chunks(t0).skip(
                start(all_spans(t0), n),
            ) + staged && all_spans(t1) == all_spans(t0).skip(n) + spans
        }),
{
    let t0 = current_table(h0, p0.lay@, p0@);
    let t1 = current_table(h1, p1.lay@, p1@);
    let v = (expect + 1) as u64;
    let b = choose|b: Base|
        base_for(b, h0, p0, expect, commit) && t1 == #[trigger] version_story(
            t0,
            b,
            version_manifest(name_id, v, schema_id, &b, staged, spans),
        );
    let m = version_manifest(name_id, v, schema_id, &b, staged, spans);
    match b {
        Base::Link(_) => {
            assert(t0.push(m).drop_last() =~= t0);
        },
        _ => {
            assert(seq![m].drop_last() =~= Seq::<ManifestView>::empty());
            assert(all_chunks(Seq::<ManifestView>::empty()) + m.chunks =~= m.chunks);
            assert(all_spans(Seq::<ManifestView>::empty()) + m.batch_spans =~= m.batch_spans);
        },
    }
}

/// A table lists no chunk twice, if the one before did not: the staged chunks of
/// a commit are none of those that are listed already.
pub proof fn tables_stay_distinct(
    art: Artifact,
    h0: &ArtifactHead,
    p0: &ChunkPool,
    h1: HeadView,
    p1: &ChunkPool,
    expect: u64,
    owner: u32,
    commit: Commit,
    staged: Seq<ChunkDesc>,
    spans: Seq<u32>,
    schema_id: u32,
    lease_fence: Option<u32>,
    v: u64,
)
    requires
        live(h0, p0, art.name_id),
        commit_outcome(
            art,
            h0@,
            p0,
            h1,
            p1,
            expect,
            owner,
            commit,
            staged,
            spans,
            schema_id,
            lease_fence,
            Ok(v),
        ),
        commit.extends(expect) ==> distinct(all_chunks(current_table(h0@, p0.lay@, p0@))),
    ensures
        distinct(all_chunks(current_table(h1, p1.lay@, p1@))),
{
    lemma_new_chunks(h0@, p0, h1, p1, art.name_id, expect, commit, staged, spans, schema_id);
    let lay = p0.lay@;
    let t0 = current_table(h0@, lay, p0@);
    let old = all_chunks(t0);
    if commit.extends(expect) {
        lemma_current(h0, p0, art.name_id);
        let i = current_chunk(h0@, p0);
        lemma_story(p0, i);
        assert forall|x: int, y: int| 0 <= x < old.len() && 0 <= y < staged.len() implies old[x].offset
            != staged[y].offset by {
            lemma_table_data(p0, i, x);
            lemma_has(lay, old[x].offset);
            let j = choose|j: int| picks(lay, p0.segment_id, p0@, staged[y], j);
            lemma_at(lay, j);
        }
        lemma_table_lens(t0);
        if let Commit::Window { keep_batches } = commit {
            let n = dropped(all_spans(t0).len() as int, keep_batches as int);
            lemma_start_mono(all_spans(t0), n, n);
        }
    }
}

/// A stream under a policy: one batch of one chunk at a time, nobody pins, and
/// nothing is out with a writer but what is about to be committed.
pub open spec fn streaming(policy: WindowPolicy, h: HeadView, pool: &ChunkPool) -> bool {
    let t = current_table(h, pool.lay@, pool@);
    if h.current == NO_VERSION {
        forall|j: int| 0 <= j < h.pins.len() ==> (#[trigger] h.pins[j]).state == SLOT_FREE
    } else {
        &&& exists|s: int|
            #[trigger] only_slot(h, s) && h.pins[s].tracks(h.current) && h.pins[s].manifest
                == h.manifest_desc && h.pins[s].pins == 0
        &&& within(policy, t)
        &&& distinct(all_chunks(t))
        &&& forall|i: int| 0 <= i < all_spans(t).len() ==> #[trigger] all_spans(t)[i] == 1
    }
}

proof fn lemma_ones(s: Seq<u32>)
    requires
        forall|i: int| 0 <= i < s.len() ==> #[trigger] s[i] == 1,
    ensures
        span_sum(s) == s.len(),
    decreases s.len(),
{
    if s.len() > 0 {
        assert forall|i: int| 0 <= i < s.drop_last().len() implies #[trigger] s.drop_last()[i] == 1 by {
            assert(s.drop_last()[i] == s[i]);
        }
        lemma_ones(s.drop_last());
        assert(s[s.len() - 1] == 1);
    }
}

/// Under a policy the pool stays bounded for ever: after every commit of a
/// stream, `keep_batches` and twice `max_depth` chunks are taken at most, and
/// the stream goes on.
pub proof fn policy_bounds_the_pool(
    policy: WindowPolicy,
    art: Artifact,
    h0: &ArtifactHead,
    p0: &ChunkPool,
    h1: &ArtifactHead,
    p1: &ChunkPool,
    owner: u32,
    staged: Seq<ChunkDesc>,
    schema_id: u32,
    lease_fence: Option<u32>,
    v: u64,
)
    requires
        policy.max_depth > 0,
        h0@.current < u64::MAX,
        live(h0, p0, art.name_id),
        live(h1, p1, art.name_id),
        all_accounted(h0@, p0),
        only_staged_out(p0, staged),
        streaming(policy, h0@, p0),
        staged.len() == 1,
        commit_outcome(
            art,
            h0@,
            p0,
            h1@,
            p1,
            h0@.current,
            owner,
            policy.spec_commit(depth_of(h0@, p0)),
            staged,
            seq![1u32],
            schema_id,
            lease_fence,
            Ok(v),
        ),
    ensures
        at_rest(h1@, p1),
        streaming(policy, h1@, p1),
        taken_chunks(p1@) <= policy.keep_batches + 2 * policy.max_depth,
{
    let expect = h0@.current;
    let commit = policy.spec_commit(depth_of(h0@, p0));
    let spans = seq![1u32];
    let t0 = current_table(h0@, p0.lay@, p0@);
    let t1 = current_table(h1@, p1.lay@, p1@);
    commit_keeps_rest(
        art,
        h0@,
        p0,
        h1@,
        p1,
        expect,
        owner,
        commit,
        staged,
        spans,
        schema_id,
        lease_fence,
        Ok(v),
    );
    policy_bounds_the_table(policy, h0@, p0, h1@, p1, art.name_id, staged, spans, schema_id);
    tables_stay_distinct(
        art,
        h0,
        p0,
        h1@,
        p1,
        expect,
        owner,
        commit,
        staged,
        spans,
        schema_id,
        lease_fence,
        v,
    );
    lemma_new_chunks(h0@, p0, h1@, p1, art.name_id, expect, commit, staged, spans, schema_id);
    let s1 = all_spans(t1);
    assert forall|i: int| 0 <= i < s1.len() implies #[trigger] s1[i] == 1 by {}
    let s = lemma_stream_slot(policy, h0@, h1@, p0, p1, art.name_id, expect, commit, staged, spans, schema_id);
    assert(only_slot(h1@, s));
    one_version_census(h1, p1, art.name_id, s);
    let i1 = slot_chunk(p1.lay@, h1@.pins[s]);
    lemma_slot_holds(h1@, p1.lay@, p1.segment_id, p1@, art.name_id, s);
    assert(slot_ok(p1.lay@, p1.segment_id, p1@, art.name_id, h1@.pins[s]));
    lemma_story(p1, i1);
    lemma_table_lens(t1);
    lemma_ones(s1);
    assert(t1.last().depth == t1.len() - 1);
}

/// After a commit of a stream the new version's slot is the only one in use.
proof fn lemma_stream_slot(
    policy: WindowPolicy,
    h0: HeadView,
    h1: HeadView,
    p0: &ChunkPool,
    p1: &ChunkPool,
    name_id: u32,
    expect: u64,
    commit: Commit,
    staged: Seq<ChunkDesc>,
    spans: Seq<u32>,
    schema_id: u32,
) -> (i: int)
    requires
        expect < u64::MAX,
        h0.pins.len() == MAX_LIVE_VERSIONS,
        h0.current == expect,
        streaming(policy, h0, p0),
        committed(h0, p0, h1, p1, name_id, expect, commit, staged, spans, schema_id),
    ensures
        only_slot(h1, i),
        h1.pins[i].tracks(h1.current),
        h1.pins[i].manifest == h1.manifest_desc,
        h1.pins[i].pins == 0,
{
    let v = (expect + 1) as u64;
    let (i, bits) = choose|i: int, bits: u64| #[trigger]
        installs(h0, h1, i, v, bits, schema_id, expect) && tables_kept(h0, p0, h1, p1, i);
    let hi = installed(h0, i, v, bits, schema_id);
    if expect != NO_VERSION {
        let s = choose|s: int|
            #[trigger] only_slot(h0, s) && h0.pins[s].tracks(h0.current) && h0.pins[s].manifest
                == h0.manifest_desc && h0.pins[s].pins == 0;
        let k = choose|k: usize|
            crate::artifact::head::first_endorsed(hi.pins, expect, h0.manifest_desc, Some(k)) && h1 == (
            if hi.pins[k as int].pins == 0 {
                #[trigger] without_slot(hi, k as int)
            } else {
                hi
            });
        assert(i != s);
        assert(hi.pins[s] == h0.pins[s]);
        assert(k != i);
        assert(hi.pins[k as int] == h0.pins[k as int]);
        assert(k == s);
        assert forall|j: int| 0 <= j < h1.pins.len() && j != i implies (#[trigger] h1.pins[j]).state
            == SLOT_FREE by {
            if j != s {
                assert(h1.pins[j] == h0.pins[j]);
            }
        }
    } else {
        assert forall|j: int| 0 <= j < h1.pins.len() && j != i implies (#[trigger] h1.pins[j]).state
            == SLOT_FREE by {
            assert(h1.pins[j] == h0.pins[j]);
        }
    }
    assert(h1.pins[i] == hi.pins[i]);
    i
}

// ---- batches ----

proof fn lemma_listings_frame(p: Seq<ChunkView>, q: Seq<ChunkView>, off: u32)
    requires
        p.len() == q.len(),
        forall|j: int| 0 <= j < p.len() ==> (#[trigger] q[j]).story == p[j].story,
    ensures
        listings(p, off) == listings(q, off),
    decreases p.len(),
{
    if p.len() > 0 {
        assert(q[q.len() - 1].story == p[p.len() - 1].story);
        assert forall|j: int| 0 <= j < p.drop_last().len() implies (#[trigger] q.drop_last()[j]).story
            == p.drop_last()[j].story by {
            assert(q[j].story == p[j].story);
        }
        lemma_listings_frame(p.drop_last(), q.drop_last(), off);
    }
}

/// A batch that was written and loaned is all that is out with a writer.
proof fn lemma_staged_out(
    h: HeadView,
    p0: &ChunkPool,
    p2: &ChunkPool,
    descs: Seq<ChunkDesc>,
    batch: &Batch,
    schema_id: u32,
    owner: u32,
)
    requires
        p0.wf(),
        at_rest(h, p0),
        batch_staged(p0, p2, descs, batch, schema_id, owner),
    ensures
        p2.wf(),
        all_accounted(h, p2),
        only_staged_out(p2, descs),
{
    let lay = p0.lay@;
    let pw = choose|pw: ChunkPool|
        batch_written(p0, &pw, descs, batch.cols(), batch.num_rows as int, schema_id) && #[trigger] loaned(
            &pw,
            p2,
            descs,
            owner,
        );
    let sizes = batch_sizes(batch.cols(), p0.longest());
    let (ks, q) = allot(p0@, sizes)->Some_0;
    assert forall|j: int| 0 <= j < p0@.len() implies {
        &&& (#[trigger] p2@[j]).story == p0@[j].story
        &&& p2@[j].refcount == p0@[j].refcount
        &&& with_writer(p2@[j]) ==> picked(lay, p2.segment_id, p2@, descs, j)
        &&& p2@[j].state == ChunkState::Published ==> p2@[j] == p0@[j] || p2@[j].owner == OWNER_NONE
    } by {
        assert(chunk_ok(p0@[j]));
        assert(!with_writer(p0@[j]));
        assert(pw@[j] == (ChunkView { bytes: pw@[j].bytes, ..q[j] }));
        if ks.contains(j) {
            let c = choose|c: int| 0 <= c < ks.len() && ks[c] == j;
            assert(q[ks[c]] == handed_out(p0@[ks[c]]));
            assert(descs[c] == desc_of(p0, ks[c], schema_id));
            assert(named(lay, descs, j));
            assert(picks(lay, p2.segment_id, p2@, descs[c], j));
        } else {
            assert(q[j] == p0@[j]);
            if named(lay, descs, j) {
                let c = choose|c: int| 0 <= c < descs.len() && (#[trigger] descs[c]).offset == lay[j];
                assert(descs[c] == desc_of(p0, ks[c], schema_id));
                lemma_at(lay, j);
                lemma_at(lay, ks[c]);
                assert(ks.contains(ks[c]));
            }
            assert(pw@[j] == p0@[j]);
        }
    }
    assert forall|j: int| 0 <= j < p2@.len() implies #[trigger] unaccounted(
        h,
        lay,
        p2.segment_id,
        p2@,
        j,
    ) == 0 by {
        lemma_listings_frame(p0@, p2@, lay[j]);
        assert(p2@[j].refcount == p0@[j].refcount);
        assert(unaccounted(h, lay, p0.segment_id, p0@, j) == 0);
    }
    assert forall|i: int|
        0 <= i < p2@.len() && (#[trigger] p2@[i]).state == ChunkState::Published implies p2@[i].owner
        == OWNER_NONE by {
        assert(p2@[i].story == p0@[i].story);
    }
}

/// Committing a batch keeps an artifact at rest, whether it succeeds or is
/// refused: every chunk that is taken then belongs to a version.
pub proof fn batch_commit_keeps_rest(
    art: Artifact,
    h0: HeadView,
    p0: &ChunkPool,
    reg0: RegistryView,
    h1: HeadView,
    p1: &ChunkPool,
    reg1: RegistryView,
    expect: u64,
    owner: u32,
    commit: Commit,
    batch: &Batch,
    lease_fence: Option<u32>,
    r: Result<u64, CommitError>,
)
    requires
        p0.wf(),
        at_rest(h0, p0),
        batch_committed(
            art,
            h0,
            p0,
            reg0,
            h1,
            p1,
            reg1,
            expect,
            owner,
            commit,
            batch,
            lease_fence,
            r,
        ),
    ensures
        at_rest(h1, p1),
{
    if h1 == h0 && p1@ == p0@ {
        assert forall|i: int| 0 <= i < p1@.len() implies #[trigger] unaccounted(
            h1,
            p1.lay@,
            p1.segment_id,
            p1@,
            i,
        ) == 0 by {
            assert(unaccounted(h0, p0.lay@, p0.segment_id, p0@, i) == 0);
        }
    } else {
        let schema_id = batch.id_in(reg0);
        let (p2, descs) = choose|p2: ChunkPool, descs: Seq<ChunkDesc>| #[trigger]
            batch_staged(p0, &p2, descs, batch, schema_id, owner) && commit_outcome(
                art,
                h0,
                &p2,
                h1,
                p1,
                expect,
                owner,
                commit,
                descs,
                seq![descs.len() as u32],
                schema_id,
                lease_fence,
                unwrapped(r),
            );
        lemma_staged_out(h0, p0, &p2, descs, batch, schema_id, owner);
        commit_keeps_rest(
            art,
            h0,
            &p2,
            h1,
            p1,
            expect,
            owner,
            commit,
            descs,
            seq![descs.len() as u32],
            schema_id,
            lease_fence,
            unwrapped(r),
        );
    }
}

} // verus!
