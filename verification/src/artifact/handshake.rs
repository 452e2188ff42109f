//! Why the steps of two parties may be mixed in any order.
//!
//! Each section is a small machine. A state is the shared words and, for each
//! party, how far it got; a step is one access to the shared words. The laws
//! say that a predicate holds at the start and is kept by every step, and what
//! follows from it. The words change as the operations of the control block
//! say.
use vstd::prelude::*;

use crate::artifact::head::{
    lease_word, owner_of, HeadView, PinSlot, NO_INCARNATION, NO_VERSION, OWNER_NONE, SLOT_FREE,
    SLOT_FREEING, SLOT_LIVE,
};
use crate::artifact::pool::{ChunkState, ChunkView};

verus! {

// ---- a reader's pin against the reclaimer of its version ----

/// How far a reader got.
pub enum Reader {
    /// It has published nothing.
    Out,
    /// Its pin is counted, but it has not looked yet.
    Published,
    /// It looked and went in.
    Accepted,
    /// It looked and has to take its pin back.
    Refused,
    /// It took its pin back.
    Gone,
}

/// How far a reclaimer got.
pub enum Reclaimer {
    Out,
    /// It marked the slot, but has not counted the pins yet.
    Elected,
    /// It counted none, and frees what the version holds.
    Freeing,
    /// It gave the slot away.
    Freed,
    /// It saw a pin, and is about to take the mark back.
    Reverting,
    /// It took the mark back.
    Reverted,
}

/// One version slot, one reader, one reclaimer.
pub struct PinRace {
    pub slot: PinSlot,
    pub version: u64,
    pub reader: Reader,
    pub reclaimer: Reclaimer,
}

/// The reader takes its next step.
pub open spec fn reader_step(a: PinRace, b: PinRace) -> bool {
    &&& b.version == a.version && b.reclaimer == a.reclaimer
    &&& match a.reader {
        Reader::Out => {
            &&& a.slot.pins < u32::MAX
            &&& b.slot == a.slot.pinned()
            &&& b.reader is Published
        },
        Reader::Published => {
            &&& b.slot == a.slot
            &&& if a.slot.tracks(a.version) {
                b.reader is Accepted
            } else {
                b.reader is Refused
            }
        },
        Reader::Refused => {
            &&& b.slot == a.slot.unpinned()
            &&& b.reader is Gone
        },
        _ => false,
    }
}

/// The reclaimer takes its next step.
pub open spec fn reclaimer_step(a: PinRace, b: PinRace) -> bool {
    &&& b.version == a.version && b.reader == a.reader
    &&& match a.reclaimer {
        Reclaimer::Out => {
            &&& a.slot.state == SLOT_LIVE
            &&& b.slot == a.slot.marked()
            &&& b.reclaimer is Elected
        },
        Reclaimer::Elected => {
            &&& b.slot == a.slot
            &&& if a.slot.pins == 0 {
                b.reclaimer is Freeing
            } else {
                b.reclaimer is Reverting
            }
        },
        Reclaimer::Freeing => {
            &&& b.slot == a.slot.vacated()
            &&& b.reclaimer is Freed
        },
        Reclaimer::Reverting => {
            &&& b.slot == a.slot.revived()
            &&& b.reclaimer is Reverted
        },
        _ => false,
    }
}

/// What holds throughout.
pub open spec fn pin_race_ok(s: PinRace) -> bool {
    &&& s.reader is Published || s.reader is Accepted || s.reader is Refused ==> s.slot.pins > 0
    &&& s.reclaimer is Elected || s.reclaimer is Freeing || s.reclaimer is Reverting
        ==> s.slot.state == SLOT_FREEING
    &&& s.reclaimer is Freeing || s.reclaimer is Freed ==> !(s.reader is Accepted)
    &&& s.reclaimer is Freed ==> s.slot.state == SLOT_FREE
}

/// A reader that goes in and a reclaimer that frees exclude each other,
/// however their steps are mixed.
pub proof fn pin_and_reclaim_exclude(a: PinRace, b: PinRace)
    requires
        pin_race_ok(a),
        reader_step(a, b) || reclaimer_step(a, b),
    ensures
        pin_race_ok(b),
        !(b.reader is Accepted && (b.reclaimer is Freeing || b.reclaimer is Freed)),
{
}

/// The race starts well.
pub proof fn pin_race_starts(slot: PinSlot, version: u64)
    ensures
        pin_race_ok(PinRace { slot, version, reader: Reader::Out, reclaimer: Reclaimer::Out }),
{
}

// ---- a registration against the recycling of the head ----

/// The words that a sweep looks at, numbered in the order in which it does:
/// the current version, the write lease, then the version slots.
pub open spec fn busy(h: HeadView, word: int) -> bool {
    if word == 0 {
        h.current != NO_VERSION
    } else if word == 1 {
        owner_of(h.write_lease) != OWNER_NONE
    } else {
        0 <= word - 2 < h.pins.len() && !(h.pins[word - 2].state == SLOT_FREE && h.pins[word - 2].pins
            == 0)
    }
}

/// How far someone who registers with the head got.
pub enum Registrant {
    Out,
    /// What it registered is in the head, but it has not looked yet.
    Registered,
    /// It found its occupant in service.
    In,
    /// It found another, and takes its registration back.
    Refused,
}

/// How far a sweep got.
pub enum Sweep {
    Out,
    /// It took the head out of service; the words before `at` were not busy
    /// when it looked.
    Scanning { at: int },
    /// It found nothing and owns the head.
    Reclaimed,
    /// It found something, and is about to put the occupant back.
    Aborting,
    /// It put the occupant back.
    PutBack,
}

/// One head, one registrant that uses the word `word`, one sweep.
pub struct SweepRace {
    pub head: HeadView,
    pub incarnation: u32,
    pub word: int,
    pub registrant: Registrant,
    pub sweep: Sweep,
}

/// The registrant takes its next step. What it registers may be a pin, a
/// version slot or the write lease.
pub open spec fn registrant_step(a: SweepRace, b: SweepRace) -> bool {
    &&& b.incarnation == a.incarnation && b.word == a.word && b.sweep == a.sweep
    &&& b.head.incarnation == a.head.incarnation && b.head.pins.len() == a.head.pins.len()
    &&& match a.registrant {
        Registrant::Out => busy(b.head, a.word) && b.registrant is Registered,
        Registrant::Registered => {
            &&& b.head == a.head
            &&& if a.head.incarnation == a.incarnation {
                b.registrant is In
            } else {
                b.registrant is Refused
            }
        },
        // its word, and no matter what else, changes
        Registrant::Refused => b.registrant is Refused,
        Registrant::In => false,
    }
}

/// The sweep takes its next step.
pub open spec fn sweep_step(a: SweepRace, b: SweepRace) -> bool {
    &&& b.incarnation == a.incarnation && b.word == a.word && b.registrant == a.registrant
    &&& match a.sweep {
        Sweep::Out => {
            &&& b.head == (HeadView { incarnation: NO_INCARNATION, ..a.head })
            &&& b.sweep == (Sweep::Scanning { at: 0 })
        },
        Sweep::Scanning { at } => {
            &&& b.head == a.head
            &&& if at == a.head.pins.len() + 2 {
                b.sweep is Reclaimed
            } else if busy(a.head, at) {
                b.sweep is Aborting
            } else {
                b.sweep == (Sweep::Scanning { at: at + 1 })
            }
        },
        Sweep::Aborting => {
            &&& b.head == (HeadView { incarnation: a.incarnation, ..a.head })
            &&& b.sweep is PutBack
        },
        _ => false,
    }
}

/// What holds throughout.
pub open spec fn sweep_race_ok(s: SweepRace) -> bool {
    &&& s.incarnation != NO_INCARNATION
    &&& 0 <= s.word < s.head.pins.len() + 2
    &&& s.registrant is Registered || s.registrant is In ==> busy(s.head, s.word)
    &&& s.sweep is Scanning || s.sweep is Reclaimed || s.sweep is Aborting ==> s.head.incarnation
        == NO_INCARNATION
    // who got in was there before the head was retired, so the scan meets it
    &&& s.sweep matches Sweep::Scanning { at } ==> at >= 0 && (s.registrant is In ==> at <= s.word)
    &&& s.sweep is Reclaimed ==> !(s.registrant is In)
}

/// A registration that finds its occupant in service and a sweep that recycles
/// the head exclude each other, however their steps are mixed.
pub proof fn registration_and_sweep_exclude(a: SweepRace, b: SweepRace)
    requires
        sweep_race_ok(a),
        registrant_step(a, b) || sweep_step(a, b),
    ensures
        sweep_race_ok(b),
        !(b.registrant is In && b.sweep is Reclaimed),
{
}

/// The race starts well on a head in service.
pub proof fn sweep_race_starts(head: HeadView, word: int)
    requires
        head.incarnation != NO_INCARNATION,
        0 <= word < head.pins.len() + 2,
    ensures
        sweep_race_ok(
            SweepRace {
                head,
                incarnation: head.incarnation,
                word,
                registrant: Registrant::Out,
                sweep: Sweep::Out,
            },
        ),
{
}

/// A head is quiescent exactly if none of its words is busy.
pub proof fn quiescent_means_no_busy_word(h: HeadView)
    ensures
        h.quiescent() <==> forall|w: int| 0 <= w < h.pins.len() + 2 ==> !#[trigger] busy(h, w),
{
    if h.quiescent() {
        assert forall|w: int| 0 <= w < h.pins.len() + 2 implies !#[trigger] busy(h, w) by {
            if w >= 2 {
                assert(h.pins[w - 2].state == SLOT_FREE);
            }
        }
    }
    if forall|w: int| 0 <= w < h.pins.len() + 2 ==> !#[trigger] busy(h, w) {
        assert(!busy(h, 0) && !busy(h, 1));
        assert forall|j: int| 0 <= j < h.pins.len() implies (#[trigger] h.pins[j]).state == SLOT_FREE
            && h.pins[j].pins == 0 by {
            assert(!busy(h, j + 2));
        }
    }
}

/// A pin, a claimed slot and a held lease are each seen by a sweep.
pub proof fn registrations_are_seen(h: HeadView, k: int, owner: u32, fence: u32)
    requires
        0 <= k < h.pins.len(),
    ensures
        h.pins[k].pins > 0 ==> !h.quiescent(),
        h.pins[k].state != SLOT_FREE ==> !h.quiescent(),
        h.write_lease == lease_word(owner, fence) && owner != OWNER_NONE ==> !h.quiescent(),
{
    crate::artifact::head::released_token_is_stale(owner, owner, fence);
}

// ---- an install against a reader of the current version ----

/// How far a writer got that installs `version` with `manifest`.
pub enum Installer {
    Out,
    /// Its slot is claimed.
    Claimed,
    /// The version is current, but the manifest word is still the old one.
    Moved,
    Done,
}

/// What a reader has seen.
pub enum Seen {
    Nothing,
    /// It read the version from the head.
    Version { v: u64 },
    /// It holds an accepted pin on slot `k` of that version.
    Slot { v: u64, k: int },
    /// It read the manifest word and found it in its slot.
    Pair { v: u64, manifest: u64 },
    /// The two did not match, or the slot was gone: it starts over.
    Again,
}

pub struct InstallRace {
    pub head: HeadView,
    pub version: u64,
    pub manifest: u64,
    pub installer: Installer,
    pub seen: Seen,
}

/// The writer takes its next step.
pub open spec fn installer_step(a: InstallRace, b: InstallRace) -> bool {
    &&& b.version == a.version && b.manifest == a.manifest && b.seen == a.seen
    &&& match a.installer {
        Installer::Out => exists|i: int|
            0 <= i < a.head.pins.len() && a.head.pins[i].state == SLOT_FREE && b.head == (HeadView {
                pins: #[trigger] a.head.pins.update(
                    i,
                    PinSlot {
                        version: a.version,
                        manifest: a.manifest,
                        state: SLOT_LIVE,
                        pins: a.head.pins[i].pins,
                    },
                ),
                ..a.head
            }) && b.installer is Claimed,
        Installer::Claimed => b.head == (HeadView { current: a.version, ..a.head })
            && b.installer is Moved,
        Installer::Moved => b.head == (HeadView { manifest_desc: a.manifest, ..a.head })
            && b.installer is Done,
        Installer::Done => false,
    }
}

/// The reader takes its next step.
pub open spec fn seeing_step(a: InstallRace, b: InstallRace) -> bool {
    &&& b.version == a.version && b.manifest == a.manifest && b.installer == a.installer
    &&& b.head == a.head
    &&& match a.seen {
        Seen::Nothing => b.seen == (Seen::Version { v: a.head.current }),
        Seen::Version { v } => b.seen is Again || exists|k: int|
            0 <= k < a.head.pins.len() && (#[trigger] a.head.pins[k]).tracks(v) && b.seen == (
            Seen::Slot { v, k }),
        Seen::Slot { v, k } => if a.head.pins[k].manifest == a.head.manifest_desc {
            b.seen == (Seen::Pair { v, manifest: a.head.manifest_desc })
        } else {
            b.seen is Again
        },
        _ => false,
    }
}

/// Each slot's manifest is that of the slot's version, as `of` says.
pub open spec fn slots_match(pins: Seq<PinSlot>, of: spec_fn(u64) -> u64) -> bool {
    forall|k: int|
        0 <= k < pins.len() && (#[trigger] pins[k]).state == SLOT_LIVE ==> pins[k].manifest == of(
            pins[k].version,
        )
}

/// What holds throughout.
pub open spec fn install_race_ok(s: InstallRace, of: spec_fn(u64) -> u64) -> bool {
    &&& s.manifest == of(s.version)
    &&& slots_match(s.head.pins, of)
    &&& s.seen matches Seen::Slot { v, k } ==> 0 <= k < s.head.pins.len() && s.head.pins[k].tracks(v)
    &&& s.seen matches Seen::Pair { v, manifest } ==> manifest == of(v)
}

/// A reader never sees a version with another version's manifest, though the
/// two are installed one after the other.
pub proof fn install_is_never_seen_torn(a: InstallRace, b: InstallRace, of: spec_fn(u64) -> u64)
    requires
        install_race_ok(a, of),
        installer_step(a, b) || seeing_step(a, b),
    ensures
        install_race_ok(b, of),
        b.seen matches Seen::Pair { v, manifest } ==> manifest == of(v),
{
    if installer_step(a, b) && a.installer is Out {
        let i = choose|i: int|
            0 <= i < a.head.pins.len() && a.head.pins[i].state == SLOT_FREE && b.head == (HeadView {
                pins: #[trigger] a.head.pins.update(
                    i,
                    PinSlot {
                        version: a.version,
                        manifest: a.manifest,
                        state: SLOT_LIVE,
                        pins: a.head.pins[i].pins,
                    },
                ),
                ..a.head
            }) && b.installer is Claimed;
        assert forall|k: int|
            0 <= k < b.head.pins.len() && (#[trigger] b.head.pins[k]).state == SLOT_LIVE implies b.head.pins[k].manifest
            == of(b.head.pins[k].version) by {
            if k != i {
                assert(b.head.pins[k] == a.head.pins[k]);
            }
        }
    }
}

/// The race starts well where each slot has its own version's manifest.
pub proof fn install_race_starts(head: HeadView, version: u64, of: spec_fn(u64) -> u64)
    requires
        slots_match(head.pins, of),
    ensures
        install_race_ok(
            InstallRace {
                head,
                version,
                manifest: of(version),
                installer: Installer::Out,
                seen: Seen::Nothing,
            },
            of,
        ),
{
}

// ---- a borrower against a reclaimer of one chunk ----

/// Of a borrower and a reclaimer of a chunk that nothing holds, the one that
/// comes first has its way and the other is turned away: there is never a
/// reference on a freed chunk, and the chunk is never lost.
pub proof fn borrow_and_reclaim_exclude(c: ChunkView)
    requires
        c.unheld(),
    ensures
        c.recycled().state != ChunkState::Published,
        !(ChunkView { refcount: 1, ..c }).unheld(),
        (ChunkView { refcount: 1, ..c }).less_one() == c,
        c.recycled().generation != c.generation,
{
}

// ---- two releasers of one chunk ----

/// How far a releaser got.
pub enum Releaser {
    /// It still holds what it is about to give up: a reference, or ownership.
    Holding,
    /// It gave that up, but has not looked at the owner yet.
    Gone,
    /// It saw no owner, and tries to free the chunk next.
    Trying,
    /// It is done; whether it freed the chunk.
    Done { freed: bool },
}

/// One published chunk, two releasers. Each gives up a reference, or, if
/// `owner_is_second`, the second gives up ownership.
pub struct ReleaseRace {
    pub chunk: ChunkView,
    /// How often the chunk was freed.
    pub frees: int,
    pub first: Releaser,
    pub second: Releaser,
    pub owner_is_second: bool,
}

/// What one releaser's next step makes of the chunk, how often it was freed
/// then, and how far the releaser got.
pub open spec fn release_moves(s: ReleaseRace, r: Releaser, owner: bool) -> (ChunkView, int, Releaser) {
    match r {
        Releaser::Holding => (
            if owner {
                ChunkView { owner: OWNER_NONE, ..s.chunk }
            } else {
                s.chunk.less_one()
            },
            s.frees,
            Releaser::Gone,
        ),
        Releaser::Gone => if s.chunk.owner != OWNER_NONE {
            (s.chunk, s.frees, Releaser::Done { freed: false })
        } else {
            (s.chunk, s.frees, Releaser::Trying)
        },
        Releaser::Trying => if s.chunk.state == ChunkState::Published && s.chunk.refcount == 0 {
            (s.chunk.recycled(), s.frees + 1, Releaser::Done { freed: true })
        } else {
            (s.chunk, s.frees, Releaser::Done { freed: false })
        },
        Releaser::Done { .. } => (s.chunk, s.frees, r),
    }
}

pub open spec fn release_step(a: ReleaseRace, b: ReleaseRace) -> bool {
    &&& b.owner_is_second == a.owner_is_second
    &&& {
        ||| (b.chunk, b.frees, b.first) == release_moves(a, a.first, false) && b.second == a.second
        ||| (b.chunk, b.frees, b.second) == release_moves(a, a.second, a.owner_is_second) && b.first
            == a.first
    }
}

pub open spec fn holds_ref(r: Releaser) -> int {
    if r is Holding {
        1
    } else {
        0
    }
}

pub open spec fn has_freed(r: Releaser) -> int {
    if r == (Releaser::Done { freed: true }) {
        1
    } else {
        0
    }
}

/// What holds throughout.
pub open spec fn release_race_ok(s: ReleaseRace) -> bool {
    &&& s.chunk.refcount == holds_ref(s.first) + if s.owner_is_second {
        0
    } else {
        holds_ref(s.second)
    }
    &&& (s.chunk.owner != OWNER_NONE) == (s.owner_is_second && s.second is Holding)
    &&& s.frees == has_freed(s.first) + has_freed(s.second)
    &&& s.chunk.state == if s.frees == 0 {
        ChunkState::Published
    } else {
        ChunkState::Free
    }
    &&& s.frees <= 1
    // an owner is seen before the last step
    &&& s.first is Trying || s.second is Trying ==> s.chunk.owner == OWNER_NONE
    // freed only when nothing holds it
    &&& s.frees == 1 ==> s.chunk.refcount == 0 && s.chunk.owner == OWNER_NONE
    // nobody gave up for good while the chunk was still there to be freed
    &&& s.first is Done && s.second is Done ==> s.frees == 1
    &&& s.first == (Releaser::Done { freed: false }) && s.frees == 0 ==> s.second is Holding
        || s.second is Gone || s.second is Trying
    &&& s.second == (Releaser::Done { freed: false }) && s.frees == 0 ==> s.first is Holding
        || s.first is Gone || s.first is Trying
}

/// Of two releasers of one chunk exactly one frees it, once, however their
/// steps are mixed, and never while something holds it.
pub proof fn release_elects_exactly_one(a: ReleaseRace, b: ReleaseRace)
    requires
        release_race_ok(a),
        release_step(a, b),
    ensures
        release_race_ok(b),
        b.first is Done && b.second is Done ==> b.frees == 1 && b.chunk.state == ChunkState::Free
            && has_freed(b.first) + has_freed(b.second) == 1,
{
    let m = release_moves(a, a.first, false);
    let n = release_moves(a, a.second, a.owner_is_second);
    if b.second == a.second && (b.chunk, b.frees, b.first) == m {
        assert(b.chunk == m.0 && b.frees == m.1 && b.first == m.2);
        assert(release_race_ok(b));
    } else {
        assert(b.chunk == n.0 && b.frees == n.1 && b.second == n.2);
        assert(release_race_ok(b));
    }
}

/// The race starts well on a published chunk, with two references or with one
/// and an owner.
pub proof fn release_race_starts(chunk: ChunkView, owner_is_second: bool)
    requires
        chunk.state == ChunkState::Published,
        chunk.refcount == if owner_is_second {
            1int
        } else {
            2
        },
        (chunk.owner != OWNER_NONE) == owner_is_second,
    ensures
        release_race_ok(
            ReleaseRace {
                chunk,
                frees: 0,
                first: Releaser::Holding,
                second: Releaser::Holding,
                owner_is_second,
            },
        ),
{
}

} // verus!
