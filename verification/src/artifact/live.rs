//! Live versions: how the head's slots and the pool's chunks belong together,
//! and how a version that nobody needs any more is retired.
//!
//! A version owns one reference, on its manifest. It gives it up when it is
//! neither current nor pinned.
use vstd::prelude::*;

use crate::artifact::head::{
    first_endorsed, first_tracking, free_slot, ArtifactHead, HeadView, PinSlot, MAX_LIVE_VERSIONS,
    NO_VERSION, SLOT_FREE, SLOT_LIVE,
};
use crate::artifact::manifest::ManifestView;
use crate::artifact::pool::{
    at, chunk_ok, held, is_laid, kept_or_returned, lemma_at, lemma_has, ChunkPool, ChunkView,
};
use crate::chunk::{packed_ref_round_trip, PackedRef};

verus! {

/// `1` if the slot holds a reference on the chunk at `off`.
pub open spec fn slot_ref(s: PinSlot, seg: u32, off: u32) -> nat {
    if s.holds() && s.manifest == PackedRef::spec_pack(seg, off).0 {
        1
    } else {
        0
    }
}

/// How many references the slots hold on the chunk at `off`.
pub open spec fn slot_refs(pins: Seq<PinSlot>, seg: u32, off: u32) -> nat
    decreases pins.len(),
{
    if pins.len() == 0 {
        0
    } else {
        slot_refs(pins.drop_last(), seg, off) + slot_ref(pins.last(), seg, off)
    }
}

/// The chunk that holds the slot's manifest.
pub open spec fn slot_chunk(lay: Seq<u32>, s: PinSlot) -> int {
    at(lay, PackedRef(s.manifest).spec_offset())
}

/// Whether the slot's manifest is there and is the manifest of that version of
/// this artifact.
pub open spec fn slot_ok(lay: Seq<u32>, seg: u32, p: Seq<ChunkView>, name_id: u32, s: PinSlot) -> bool {
    &&& s.state == SLOT_FREE ==> s == free_slot()
    &&& s.state != SLOT_FREE ==> {
        &&& s.holds()
        &&& s.version > 0
        &&& PackedRef(s.manifest).spec_segment_id() == seg
        &&& is_laid(lay, PackedRef(s.manifest).spec_offset())
        &&& p[slot_chunk(lay, s)].story is Some
        &&& p[slot_chunk(lay, s)].story->Some_0.last().version == s.version
        &&& p[slot_chunk(lay, s)].story->Some_0.last().artifact_id == name_id
    }
}

/// References on chunk `i` that neither a manifest nor a slot accounts for.
pub open spec fn unaccounted(h: HeadView, lay: Seq<u32>, seg: u32, p: Seq<ChunkView>, i: int) -> int {
    held(lay, p, i) - slot_refs(h.pins, seg, lay[i])
}

/// The head and the pool belong together: each slot's manifest is there, no
/// chunk has fewer references than manifests and slots own on it, and the
/// current version is a live one.
pub open spec fn tied(h: HeadView, lay: Seq<u32>, seg: u32, p: Seq<ChunkView>, name_id: u32) -> bool {
    &&& h.pins.len() == MAX_LIVE_VERSIONS
    &&& forall|j: int| 0 <= j < h.pins.len() ==> slot_ok(lay, seg, p, name_id, #[trigger] h.pins[j])
    &&& forall|i: int| 0 <= i < p.len() ==> #[trigger] unaccounted(h, lay, seg, p, i) >= 0
    &&& h.current == NO_VERSION ==> h.manifest_desc == 0
    &&& h.current != NO_VERSION ==> exists|j: int|
        0 <= j < h.pins.len() && (#[trigger] h.pins[j]).tracks(h.current) && h.pins[j].manifest
            == h.manifest_desc
}

/// The chain of manifests of the version in slot `s`, oldest first.
pub open spec fn table_of(lay: Seq<u32>, p: Seq<ChunkView>, s: PinSlot) -> Seq<ManifestView> {
    p[slot_chunk(lay, s)].story->Some_0
}

/// The chain of the current version.
pub open spec fn current_table(h: HeadView, lay: Seq<u32>, p: Seq<ChunkView>) -> Seq<ManifestView> {
    p[at(lay, PackedRef(h.manifest_desc).spec_offset())].story->Some_0
}

/// A pool and a head that belong together.
pub open spec fn live(h: &ArtifactHead, pool: &ChunkPool, name_id: u32) -> bool {
    &&& pool.wf()
    &&& tied(h@, pool.lay@, pool.segment_id, pool@, name_id)
}

/// Every reference that was unaccounted for still is, and no other became so.
pub open spec fn conserved(h0: HeadView, p0: &ChunkPool, h1: HeadView, p1: &ChunkPool) -> bool {
    forall|i: int|
        0 <= i < p0@.len() ==> unaccounted(h1, p1.lay@, p1.segment_id, p1@, i) == #[trigger] unaccounted(
            h0,
            p0.lay@,
            p0.segment_id,
            p0@,
            i,
        )
}

/// No chunk changed but for its reference count, or by going back to the pool.
pub open spec fn only_returns(p0: &ChunkPool, p1: &ChunkPool) -> bool {
    &&& p1.same_place(p0)
    &&& p1@.len() == p0@.len()
    &&& forall|i: int| 0 <= i < p0@.len() ==> kept_or_returned(p0@[i], #[trigger] p1@[i])
}

pub proof fn lemma_slot_refs_update(pins: Seq<PinSlot>, k: int, s: PinSlot, seg: u32, off: u32)
    requires
        0 <= k < pins.len(),
    ensures
        slot_refs(pins.update(k, s), seg, off) == slot_refs(pins, seg, off) - slot_ref(
            pins[k],
            seg,
            off,
        ) + slot_ref(s, seg, off),
    decreases pins.len(),
{
    let q = pins.update(k, s);
    if k == pins.len() - 1 {
        assert(q.drop_last() =~= pins.drop_last());
    } else {
        assert(q.drop_last() =~= pins.drop_last().update(k, s));
        lemma_slot_refs_update(pins.drop_last(), k, s, seg, off);
    }
}

pub proof fn lemma_slot_ref_le(pins: Seq<PinSlot>, k: int, seg: u32, off: u32)
    requires
        0 <= k < pins.len(),
    ensures
        slot_ref(pins[k], seg, off) <= slot_refs(pins, seg, off),
    decreases pins.len(),
{
    if k < pins.len() - 1 {
        lemma_slot_ref_le(pins.drop_last(), k, seg, off);
        assert(pins.drop_last()[k] == pins[k]);
    }
}

/// A slot that holds a manifest keeps that manifest's chunk referenced.
pub proof fn lemma_slot_holds(h: HeadView, lay: Seq<u32>, seg: u32, p: Seq<ChunkView>, name_id: u32, j: int)
    requires
        tied(h, lay, seg, p, name_id),
        lay.len() == p.len(),
        crate::artifact::pool::laid_out(lay),
        0 <= j < h.pins.len(),
        h.pins[j].holds(),
    ensures
        0 <= slot_chunk(lay, h.pins[j]) < p.len(),
        slot_ref(h.pins[j], seg, lay[slot_chunk(lay, h.pins[j])]) == 1,
        slot_refs(h.pins, seg, lay[slot_chunk(lay, h.pins[j])]) >= 1,
        held(lay, p, slot_chunk(lay, h.pins[j])) >= 1,
{
    let s = h.pins[j];
    assert(slot_ok(lay, seg, p, name_id, s));
    lemma_has(lay, PackedRef(s.manifest).spec_offset());
    packed_ref_round_trip(PackedRef(s.manifest), 0, 0);
    let i = slot_chunk(lay, s);
    lemma_slot_ref_le(h.pins, j, seg, lay[i]);
    assert(unaccounted(h, lay, seg, p, i) >= 0);
}

/// Returning chunks that nothing accounts for leaves every slot's version in
/// place.
pub proof fn lemma_slots_survive(
    h: HeadView,
    lay: Seq<u32>,
    seg: u32,
    p: Seq<ChunkView>,
    q: Seq<ChunkView>,
    name_id: u32,
)
    requires
        crate::artifact::pool::sound(lay, seg, p),
        crate::artifact::pool::sound(lay, seg, q),
        h.pins.len() == MAX_LIVE_VERSIONS,
        forall|j: int|
            0 <= j < h.pins.len() ==> slot_ok(lay, seg, p, name_id, #[trigger] h.pins[j]),
        forall|i: int| 0 <= i < q.len() ==> #[trigger] unaccounted(h, lay, seg, q, i) >= 0,
        forall|i: int| 0 <= i < p.len() ==> kept_or_returned(p[i], #[trigger] q[i]),
    ensures
        forall|j: int|
            0 <= j < h.pins.len() ==> slot_ok(lay, seg, q, name_id, #[trigger] h.pins[j]),
        forall|j: int|
            0 <= j < h.pins.len() && (#[trigger] h.pins[j]).holds() ==> table_of(lay, q, h.pins[j])
                == table_of(lay, p, h.pins[j]),
{
    assert forall|j: int| 0 <= j < h.pins.len() && (#[trigger] h.pins[j]).holds() implies slot_ok(
        lay,
        seg,
        q,
        name_id,
        h.pins[j],
    ) && table_of(lay, q, h.pins[j]) == table_of(lay, p, h.pins[j]) by {
        let s = h.pins[j];
        assert(slot_ok(lay, seg, p, name_id, s));
        lemma_has(lay, PackedRef(s.manifest).spec_offset());
        packed_ref_round_trip(PackedRef(s.manifest), 0, 0);
        let i = slot_chunk(lay, s);
        lemma_slot_ref_le(h.pins, j, seg, lay[i]);
        assert(unaccounted(h, lay, seg, q, i) >= 0);
        assert(held(lay, q, i) >= 1);
        assert(kept_or_returned(p[i], q[i]));
        assert(chunk_ok(q[i]));
    }
    assert forall|j: int| 0 <= j < h.pins.len() implies slot_ok(
        lay,
        seg,
        q,
        name_id,
        #[trigger] h.pins[j],
    ) by {
        assert(slot_ok(lay, seg, p, name_id, h.pins[j]));
    }
}

/// The head with slot `k` freed.
pub open spec fn without_slot(h: HeadView, k: int) -> HeadView {
    HeadView { pins: h.pins.update(k, free_slot()), ..h }
}

/// Retire the version in slot `k`: nobody pins it and it is not current.
pub fn retire_slot(head: &mut ArtifactHead, pool: &mut ChunkPool, k: usize, name_id: u32)
    requires
        live(old(head), old(pool), name_id),
        k < old(head)@.pins.len(),
        old(head)@.pins[k as int].state == SLOT_LIVE,
        old(head)@.pins[k as int].pins == 0,
        !(old(head)@.pins[k as int].version == old(head)@.current
            && old(head)@.pins[k as int].manifest == old(head)@.manifest_desc),
    ensures
        live(final(head), final(pool), name_id),
        final(head)@ == without_slot(old(head)@, k as int),
        only_returns(old(pool), final(pool)),
        conserved(old(head)@, old(pool), final(head)@, final(pool)),
        forall|j: int|
            0 <= j < final(head)@.pins.len() && (#[trigger] final(head)@.pins[j]).holds() ==> table_of(
                final(pool).lay@,
                final(pool)@,
                final(head)@.pins[j],
            ) == table_of(old(pool).lay@, old(pool)@, final(head)@.pins[j]),
{
    let ghost h0 = head@;
    let ghost p0 = pool@;
    let ghost lay = pool.lay@;
    let ghost seg = pool.segment_id;
    let mref: PackedRef = PackedRef(head.pins[k].manifest);
    proof {
        lemma_slot_holds(h0, lay, seg, p0, name_id, k as int);
        assert(slot_ok(lay, seg, p0, name_id, h0.pins[k as int]));
    }
    let ghost x = slot_chunk(lay, h0.pins[k as int]);
    pool.release_manifest_ref(mref);
    let mut s: PinSlot = head.pins[k];
    s.store_free();
    head.pins.set(k, s);
    proof {
        let h1 = without_slot(h0, k as int);
        assert(head@.pins =~= h1.pins);
        lemma_has(lay, mref.spec_offset());
        assert forall|i: int| 0 <= i < p0.len() implies unaccounted(h1, lay, seg, pool@, i)
            == #[trigger] unaccounted(h0, lay, seg, p0, i) by {
            lemma_slot_refs_update(h0.pins, k as int, free_slot(), seg, lay[i]);
            assert(pool.held(i) == held(lay, p0, i) - (if i == x {
                1int
            } else {
                0
            }));
            if slot_ref(h0.pins[k as int], seg, lay[i]) == 1 {
                packed_ref_round_trip(PackedRef(h0.pins[k as int].manifest), seg, lay[i]);
                lemma_at(lay, i);
            }
        }
        assert forall|i: int| 0 <= i < pool@.len() implies #[trigger] unaccounted(h1, lay, seg, pool@, i)
            >= 0 by {
            assert(unaccounted(h0, lay, seg, p0, i) >= 0);
        }
        assert forall|j: int| 0 <= j < h1.pins.len() implies slot_ok(
            lay,
            seg,
            p0,
            name_id,
            #[trigger] h1.pins[j],
        ) by {
            if j != k {
                assert(h1.pins[j] == h0.pins[j]);
                assert(slot_ok(lay, seg, p0, name_id, h0.pins[j]));
            }
        }
        lemma_slots_survive(h1, lay, seg, p0, pool@, name_id);
        if h1.current != NO_VERSION {
            let j = choose|j: int|
                0 <= j < h0.pins.len() && (#[trigger] h0.pins[j]).tracks(h0.current)
                    && h0.pins[j].manifest == h0.manifest_desc;
            assert(j != k);
            assert(h1.pins[j] == h0.pins[j]);
        }
    }
}

/// Whether the reclaimer finds slot `k` free to retire.
pub open spec fn retirable(h: HeadView, k: int, version: u64) -> bool {
    h.current != version && h.pins[k].pins == 0
}

/// Retire `version` if it is neither current nor pinned: the slot installed
/// with `manifest_bits` where the caller knows it, else the first live slot of
/// that version. The reclaimer marks the slot before it looks for pins, and
/// takes the mark back if there are any.
pub fn try_retire_version_at(
    head: &mut ArtifactHead,
    pool: &mut ChunkPool,
    version: u64,
    manifest_bits: Option<u64>,
    name_id: u32,
) -> (retired: Option<usize>)
    requires
        live(old(head), old(pool), name_id),
    ensures
        live(final(head), final(pool), name_id),
        match retired {
            None => {
                &&& final(head)@ == old(head)@
                &&& final(pool)@ == old(pool)@
                &&& final(pool).same_place(old(pool))
                &&& forall|k: usize| #[trigger]
                    candidate(old(head)@, version, manifest_bits, k) ==> !retirable(
                        old(head)@,
                        k as int,
                        version,
                    )
            },
            Some(k) => {
                &&& candidate(old(head)@, version, manifest_bits, k)
                &&& retirable(old(head)@, k as int, version)
                &&& final(head)@ == without_slot(old(head)@, k as int)
                &&& only_returns(old(pool), final(pool))
                &&& forall|j: int|
                    0 <= j < final(head)@.pins.len() && (#[trigger] final(head)@.pins[j]).holds()
                        ==> table_of(final(pool).lay@, final(pool)@, final(head)@.pins[j]) == table_of(
                        old(pool).lay@,
                        old(pool)@,
                        final(head)@.pins[j],
                    )
            },
        },
        conserved(old(head)@, old(pool), final(head)@, final(pool)),
{
    let found: Option<usize> = match manifest_bits {
        Some(bits) => head.find_slot_with_manifest(version, bits),
        None => head.find_slot(version),
    };
    let k: usize = match found {
        Some(k) => k,
        None => {
            return None;
        },
    };
    let ghost h0 = head@;
    proof {
        assert(candidate(h0, version, manifest_bits, k));
    }
    if head.current == version {
        return None;
    }
    let mut s: PinSlot = head.pins[k];
    let won: bool = s.elect_freeing();
    assert(won);
    if s.pin_scan() != 0 {
        s.revert_live();
        head.pins.set(k, s);
        assert(head@.pins =~= h0.pins);
        return None;
    }
    retire_slot(head, pool, k, name_id);
    Some(k)
}

/// Whether `k` is the slot a retire of `version` looks at.
pub open spec fn candidate(h: HeadView, version: u64, bits: Option<u64>, k: usize) -> bool {
    match bits {
        Some(b) => first_endorsed(h.pins, version, b, Some(k)),
        None => first_tracking(h.pins, version, Some(k)),
    }
}

} // verus!
