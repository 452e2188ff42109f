//! Reading a version: pins, tables and deltas.
use vstd::prelude::*;

use crate::artifact::commit::lemma_current;
use crate::artifact::error::Error;
use crate::artifact::handle::Artifact;
use crate::artifact::head::{
    first_endorsed, first_tracking, ArtifactHead, HeadView, PinSlot, NO_VERSION, SLOT_LIVE,
};
use crate::artifact::journal::{BorrowJournal, JournalRecord};
use crate::artifact::live::{
    conserved, current_table, live, only_returns, retire_slot, slot_ok, table_of, tied, unaccounted,
    without_slot,
};
use crate::artifact::manifest::{Manifest, ManifestView};
use crate::artifact::pool::{at, ChunkPool};
use crate::artifact::reading::read_manifest_checked;
use crate::chunk::PackedRef;

verus! {

/// A reader's hold on one version. Until it is given back, the version's
/// chunks stay where they are.
#[derive(Debug)]
pub struct VersionPin {
    pub version: u64,
    /// The slot that counts the pin.
    pub slot_idx: usize,
    /// Where the version's manifest lives.
    pub mref: PackedRef,
    /// The version's own manifest.
    pub manifest: Manifest,
    /// The journal slot that records the pin, if it is journaled.
    pub journal_slot: Option<usize>,
}

/// The slots with one more pin on slot `k`.
pub open spec fn pinned_once_more(h: HeadView, k: int) -> HeadView {
    HeadView {
        pins: h.pins.update(
            k,
            PinSlot { pins: (h.pins[k].pins + 1) as u32, ..h.pins[k] },
        ),
        ..h
    }
}

/// The slots with one pin less on slot `k`.
pub open spec fn pinned_once_less(h: HeadView, k: int) -> HeadView {
    HeadView {
        pins: h.pins.update(
            k,
            PinSlot { pins: (h.pins[k].pins - 1) as u32, ..h.pins[k] },
        ),
        ..h
    }
}

/// The slot of the current version.
pub open spec fn current_slot(h: HeadView, k: usize) -> bool {
    first_endorsed(h.pins, h.current, h.manifest_desc, Some(k))
}

/// Whether the pin is counted in the head, and the pool holds its version.
pub open spec fn holds_pin(h: HeadView, pin: &VersionPin) -> bool {
    &&& pin.slot_idx < h.pins.len()
    &&& h.pins[pin.slot_idx as int].tracks(pin.version)
    &&& h.pins[pin.slot_idx as int].manifest == pin.mref.0
    &&& h.pins[pin.slot_idx as int].pins > 0
}

impl VersionPin {
    /// Whether the pool holds the version this pin is on.
    pub open spec fn frozen(&self, pool: &ChunkPool) -> bool {
        &&& pool.wf()
        &&& pool.names(self.mref.spec_segment_id(), self.mref.spec_offset())
        &&& pool@[pool.at(self.mref.spec_offset())].story is Some
        &&& self.table(pool).last() == self.manifest@
    }

    /// The chain of manifests of the pinned version, oldest first.
    pub open spec fn table(&self, pool: &ChunkPool) -> Seq<ManifestView> {
        pool@[pool.at(self.mref.spec_offset())].story->Some_0
    }
}

/// Counting a pin changes nothing else about a slot.
proof fn lemma_pin_count(h: HeadView, k: int, n: u32, pool: &ChunkPool, name_id: u32)
    requires
        pool.wf(),
        tied(h, pool.lay@, pool.segment_id, pool@, name_id),
        0 <= k < h.pins.len(),
        h.pins[k].state == SLOT_LIVE,
    ensures
        ({
            let h1 = HeadView { pins: h.pins.update(k, PinSlot { pins: n, ..h.pins[k] }), ..h };
            &&& tied(h1, pool.lay@, pool.segment_id, pool@, name_id)
            &&& forall|i: int|
                0 <= i < pool@.len() ==> unaccounted(h1, pool.lay@, pool.segment_id, pool@, i)
                    == #[trigger] unaccounted(h, pool.lay@, pool.segment_id, pool@, i)
        }),
{
    let s = PinSlot { pins: n, ..h.pins[k] };
    let h1 = HeadView { pins: h.pins.update(k, s), ..h };
    let lay = pool.lay@;
    let seg = pool.segment_id;
    assert forall|i: int| 0 <= i < pool@.len() implies unaccounted(h1, lay, seg, pool@, i) == #[trigger] unaccounted(
        h,
        lay,
        seg,
        pool@,
        i,
    ) by {
        crate::artifact::live::lemma_slot_refs_update(h.pins, k, s, seg, lay[i]);
    }
    assert forall|i: int| 0 <= i < pool@.len() implies #[trigger] unaccounted(h1, lay, seg, pool@, i) >= 0 by {
        assert(unaccounted(h, lay, seg, pool@, i) >= 0);
    }
    assert forall|j: int| 0 <= j < h1.pins.len() implies slot_ok(
        lay,
        seg,
        pool@,
        name_id,
        #[trigger] h1.pins[j],
    ) by {
        assert(slot_ok(lay, seg, pool@, name_id, h.pins[j]));
    }
    if h.current != NO_VERSION {
        let j = choose|j: int|
            0 <= j < h.pins.len() && (#[trigger] h.pins[j]).tracks(h.current) && h.pins[j].manifest
                == h.manifest_desc;
        assert(h1.pins[j].tracks(h1.current) && h1.pins[j].manifest == h1.manifest_desc);
    }
}

/// Why a pin is refused.
pub open spec fn pin_refusal(art: Artifact, h: HeadView) -> Option<Error> {
    if h.current == NO_VERSION {
        Some(Error::VersionGone)
    } else if h.incarnation != art.incarnation {
        Some(Error::Stale)
    } else {
        None
    }
}

/// What a granted pin is.
pub open spec fn pinned(h0: HeadView, pool: &ChunkPool, h1: HeadView, pin: &VersionPin) -> bool {
    &&& current_slot(h0, pin.slot_idx)
    &&& h1 == pinned_once_more(h0, pin.slot_idx as int)
    &&& pin.version == h0.current
    &&& pin.mref.0 == h0.manifest_desc
    &&& holds_pin(h1, pin)
    &&& pin.frozen(pool)
    &&& pin.table(pool) == current_table(h0, pool.lay@, pool@)
    &&& pin.manifest@ == pin.table(pool).last()
}

impl Artifact {
    /// Pin the current version: publish the pin, check that the slot and the
    /// occupant are still the ones looked up, read the manifest.
    pub fn pin(&self, head: &mut ArtifactHead, pool: &ChunkPool) -> (r: Result<VersionPin, Error>)
        requires
            live(old(head), pool, self.name_id),
            forall|k: usize| current_slot(old(head)@, k) ==> (#[trigger] old(head)@.pins[k as int]).pins
                < u32::MAX,
        ensures
            live(final(head), pool, self.name_id),
            conserved(old(head)@, pool, final(head)@, pool),
            match pin_refusal(*self, old(head)@) {
                Some(e) => r is Err && r->Err_0 == e && final(head)@ == old(head)@,
                None => r is Ok && pinned(old(head)@, pool, final(head)@, &r->Ok_0)
                    && r->Ok_0.journal_slot is None,
            },
    {
        let ghost h0 = head@;
        let v: u64 = head.current;
        if v == NO_VERSION {
            return Err(Error::VersionGone);
        }
        proof {
            lemma_current(head, pool, self.name_id);
        }
        let bits: u64 = head.manifest_desc;
        let idx: usize = match head.find_slot_with_manifest(v, bits) {
            Some(i) => i,
            None => {
                return Err(Error::VersionGone);
            },
        };
        let mut s: PinSlot = head.pins[idx];
        proof {
            assert(current_slot(h0, idx));
            assert(h0.pins[idx as int].pins < u32::MAX);
            lemma_pin_count(h0, idx as int, (s.pins + 1) as u32, pool, self.name_id);
        }
        s.publish_pin();
        if !s.accept_pin(v) || !head.is_incarnation(self.incarnation) {
            s.unpin();
            head.pins.set(idx, s);
            assert(head@.pins =~= h0.pins);
            return Err(Error::Stale);
        }
        head.pins.set(idx, s);
        assert(head@ =~= pinned_once_more(h0, idx as int));
        let mref: PackedRef = PackedRef(bits);
        match read_manifest_checked(pool, mref, self.name_id, v) {
            Ok(manifest) => Ok(
                VersionPin { version: v, slot_idx: idx, mref, manifest, journal_slot: None },
            ),
            Err(e) => Err(e),
        }
    }

    /// Pin the current version and record the pin in the journal, so that it
    /// can be given back if its holder dies. If the journal is full the pin is
    /// taken back.
    pub fn pin_journaled(
        &self,
        head: &mut ArtifactHead,
        pool: &ChunkPool,
        journal: &mut BorrowJournal,
    ) -> (r: Result<VersionPin, Error>)
        requires
            live(old(head), pool, self.name_id),
            forall|k: usize| current_slot(old(head)@, k) ==> (#[trigger] old(head)@.pins[k as int]).pins
                < u32::MAX,
        ensures
            live(final(head), pool, self.name_id),
            conserved(old(head)@, pool, final(head)@, pool),
            r is Err ==> final(head)@ == old(head)@ && final(journal)@ == old(journal)@,
            match pin_refusal(*self, old(head)@) {
                Some(e) => r is Err && r->Err_0 == e,
                None => if forall|j: int|
                    0 <= j < old(journal)@.len() ==> (#[trigger] old(journal)@[j]) is Some {
                    r is Err && r->Err_0 == Error::JournalFull
                } else {
                    &&& r is Ok
                    &&& pinned(old(head)@, pool, final(head)@, &r->Ok_0)
                    &&& r->Ok_0.journal_slot is Some
                    &&& ({
                        let j = r->Ok_0.journal_slot->Some_0 as int;
                        &&& 0 <= j < old(journal)@.len()
                        &&& old(journal)@[j] is None
                        &&& final(journal)@ == old(journal)@.update(
                            j,
                            Some(
                                JournalRecord::ArtifactPin {
                                    artifact_id: self.name_id,
                                    incarnation: self.incarnation,
                                    version: old(head)@.current,
                                },
                            ),
                        )
                    })
                },
            },
    {
        let ghost h0 = head@;
        let mut pin: VersionPin = match self.pin(head, pool) {
            Ok(p) => p,
            Err(e) => {
                return Err(e);
            },
        };
        let rec = JournalRecord::ArtifactPin {
            artifact_id: self.name_id,
            incarnation: self.incarnation,
            version: pin.version,
        };
        match journal.record(rec) {
            Ok(slot) => {
                pin.journal_slot = Some(slot);
                Ok(pin)
            },
            Err(e) => {
                let mut s: PinSlot = head.pins[pin.slot_idx];
                s.unpin();
                proof {
                    lemma_pin_count(
                        head@,
                        pin.slot_idx as int,
                        h0.pins[pin.slot_idx as int].pins,
                        pool,
                        self.name_id,
                    );
                }
                head.pins.set(pin.slot_idx, s);
                assert(head@.pins =~= h0.pins);
                Err(e)
            },
        }
    }

    /// Take a pin that no guard holds: the count stays up until it is given
    /// back through [`release_leaked_pin`](Artifact::release_leaked_pin).
    pub fn retain_pin(&self, head: &mut ArtifactHead, pool: &ChunkPool) -> (r: Result<u64, Error>)
        requires
            live(old(head), pool, self.name_id),
            forall|k: usize| current_slot(old(head)@, k) ==> (#[trigger] old(head)@.pins[k as int]).pins
                < u32::MAX,
        ensures
            live(final(head), pool, self.name_id),
            conserved(old(head)@, pool, final(head)@, pool),
            match pin_refusal(*self, old(head)@) {
                Some(e) => r == Err::<u64, Error>(e) && final(head)@ == old(head)@,
                None => r == Ok::<u64, Error>(old(head)@.current) && exists|k: usize|
                    #[trigger] current_slot(old(head)@, k) && final(head)@ == pinned_once_more(
                        old(head)@,
                        k as int,
                    ),
            },
    {
        match self.pin(head, pool) {
            Ok(pin) => {
                assert(current_slot(old(head)@, pin.slot_idx));
                Ok(pin.version)
            },
            Err(e) => Err(e),
        }
    }

    /// How many pins the live slot of `version` counts.
    pub fn version_pin_count(&self, head: &ArtifactHead, version: u64) -> (r: Option<u32>)
        ensures
            match r {
                Some(n) => exists|k: usize|
                    #[trigger] first_tracking(head@.pins, version, Some(k)) && n
                        == head@.pins[k as int].pins,
                None => first_tracking(head@.pins, version, None),
            },
    {
        match head.find_slot(version) {
            Some(k) => {
                assert(first_tracking(head@.pins, version, Some(k)));
                Some(head.pins[k].pin_scan())
            },
            None => None,
        }
    }
}

/// Whether one pin on slot `k` is all that keeps its version.
pub open spec fn last_pin(h: HeadView, k: int) -> bool {
    h.pins[k].pins == 1 && h.pins[k].version != h.current
}

/// The head after one pin on slot `k` was given back.
pub open spec fn unpinned(h: HeadView, k: int) -> HeadView {
    let h1 = pinned_once_less(h, k);
    if last_pin(h, k) {
        without_slot(h1, k)
    } else {
        h1
    }
}

/// Every slot but `k` that is in use keeps its table.
pub open spec fn others_kept(h: HeadView, p0: &ChunkPool, p1: &ChunkPool) -> bool {
    forall|j: int|
        0 <= j < h.pins.len() && (#[trigger] h.pins[j]).holds() ==> table_of(p1.lay@, p1@, h.pins[j])
            == table_of(p0.lay@, p0@, h.pins[j])
}

impl Artifact {
    /// Give one pin on slot `k` back; the version is retired if that was the
    /// last and it is not current.
    fn drop_pin_at(&self, head: &mut ArtifactHead, pool: &mut ChunkPool, k: usize)
        requires
            live(old(head), old(pool), self.name_id),
            k < old(head)@.pins.len(),
            old(head)@.pins[k as int].state == SLOT_LIVE,
            old(head)@.pins[k as int].pins > 0,
        ensures
            live(final(head), final(pool), self.name_id),
            final(head)@ == unpinned(old(head)@, k as int),
            !last_pin(old(head)@, k as int) ==> final(pool)@ == old(pool)@,
            only_returns(old(pool), final(pool)),
            conserved(old(head)@, old(pool), final(head)@, final(pool)),
            others_kept(final(head)@, old(pool), final(pool)),
    {
        let ghost h0 = head@;
        let mut s: PinSlot = head.pins[k];
        let prev: u32 = s.unpin();
        proof {
            lemma_pin_count(h0, k as int, (prev - 1) as u32, pool, self.name_id);
        }
        head.pins.set(k, s);
        let ghost h1 = head@;
        assert(h1 =~= pinned_once_less(h0, k as int));
        if prev == 1 && s.version != head.current {
            retire_slot(head, pool, k, self.name_id);
            proof {
                assert forall|i: int| 0 <= i < old(pool)@.len() implies unaccounted(
                    head@,
                    pool.lay@,
                    pool.segment_id,
                    pool@,
                    i,
                ) == #[trigger] unaccounted(h0, old(pool).lay@, old(pool).segment_id, old(pool)@, i) by {
                    assert(unaccounted(h1, old(pool).lay@, old(pool).segment_id, old(pool)@, i)
                        == unaccounted(h0, old(pool).lay@, old(pool).segment_id, old(pool)@, i));
                }
            }
        }
    }

    /// Give back a pin that is in no journal; the version is retired if that was
    /// its last pin and it is not current.
    pub fn unpin(
        &self,
        head: &mut ArtifactHead,
        pool: &mut ChunkPool,
        pin: VersionPin,
    )
        requires
            live(old(head), old(pool), self.name_id),
            holds_pin(old(head)@, &pin),
        ensures
            live(final(head), final(pool), self.name_id),
            final(head)@ == unpinned(old(head)@, pin.slot_idx as int),
            !last_pin(old(head)@, pin.slot_idx as int) ==> final(pool)@ == old(pool)@,
            only_returns(old(pool), final(pool)),
            conserved(old(head)@, old(pool), final(head)@, final(pool)),
            others_kept(final(head)@, old(pool), final(pool)),
    {
        self.drop_pin_at(head, pool, pin.slot_idx)
    }

    /// Give a journaled pin back. Whoever clears the journal slot does that: if
    /// someone else already did, nothing happens.
    pub fn unpin_journaled(
        &self,
        head: &mut ArtifactHead,
        pool: &mut ChunkPool,
        journal: &mut BorrowJournal,
        pin: VersionPin,
    )
        requires
            live(old(head), old(pool), self.name_id),
            pin.journal_slot matches Some(j) && (j < old(journal)@.len() && old(journal)@[j as int] is Some
                ==> holds_pin(old(head)@, &pin)),
        ensures
            live(final(head), final(pool), self.name_id),
            conserved(old(head)@, old(pool), final(head)@, final(pool)),
            ({
                let j = pin.journal_slot->Some_0;
                let won = j < old(journal)@.len() && old(journal)@[j as int] is Some;
                &&& final(journal)@ == if won {
                    old(journal)@.update(j as int, None)
                } else {
                    old(journal)@
                }
                &&& won ==> final(head)@ == unpinned(old(head)@, pin.slot_idx as int) && only_returns(
                    old(pool),
                    final(pool),
                ) && others_kept(final(head)@, old(pool), final(pool))
                &&& !won ==> final(head)@ == old(head)@ && final(pool)@ == old(pool)@
            }),
    {
        if let Some(j) = pin.journal_slot {
            if journal.release(j) {
                self.drop_pin_at(head, pool, pin.slot_idx);
            }
        }
    }

    /// Give back a pin whose holder is gone, as the holder would have: `true`
    /// if a live slot of `version` counted one.
    pub fn release_leaked_pin(
        &self,
        head: &mut ArtifactHead,
        pool: &mut ChunkPool,
        version: u64,
    ) -> (released: bool)
        requires
            live(old(head), old(pool), self.name_id),
        ensures
            live(final(head), final(pool), self.name_id),
            conserved(old(head)@, old(pool), final(head)@, final(pool)),
            !released ==> {
                &&& final(head)@ == old(head)@
                &&& final(pool)@ == old(pool)@
                &&& forall|k: usize|
                    #[trigger] first_tracking(old(head)@.pins, version, Some(k)) ==> old(head)@.pins[k as int].pins == 0
            },
            released ==> {
                &&& only_returns(old(pool), final(pool))
                &&& others_kept(final(head)@, old(pool), final(pool))
                &&& exists|k: usize|
                    #[trigger] first_tracking(old(head)@.pins, version, Some(k)) && old(head)@.pins[k as int].pins > 0 && final(head)@ == unpinned(old(head)@, k as int)
            },
    {
        match head.find_slot(version) {
            None => false,
            Some(k) => {
                assert(first_tracking(old(head)@.pins, version, Some(k)));
                if head.pins[k].pins == 0 {
                    return false;
                }
                self.drop_pin_at(head, pool, k);
                true
            },
        }
    }
}

} // verus!
