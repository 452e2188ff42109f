//! The control block of one artifact: the current version, the fenced write
//! lease, the occupant in service, and the table of live versions with their
//! pin counts. Each method is one step that other parties see as a whole.
use vstd::prelude::*;

verus! {

/// Head magic: the little-endian bytes of `b"SHMAHEA3"`.
pub const HEAD_MAGIC: u64 = 0x3341_4548_414d_4853;

/// The head region is not in service.
pub const NO_INCARNATION: u32 = 0;

/// The occupant of a region that is never recycled.
pub const FIRST_INCARNATION: u32 = 1;

/// Nothing has been committed yet.
pub const NO_VERSION: u64 = 0;

/// Nobody holds the write lease.
pub const OWNER_NONE: u32 = 0;

/// Nobody holds the write lease.
pub const NO_WRITER: u32 = OWNER_NONE;

/// How many versions can be live at a time.
pub const MAX_LIVE_VERSIONS: usize = 64;

/// The slot is unused and claimable.
pub const SLOT_FREE: u32 = 0;

/// The slot tracks a live version.
pub const SLOT_LIVE: u32 = 1;

/// One reclaimer was elected and is about to free the version.
pub const SLOT_FREEING: u32 = 2;

/// One reclaimer was elected and is about to free the version.
pub const SLOT_RETIRED: u32 = SLOT_FREEING;

/// The bytes one slot takes in the head region.
pub const SLOT_BYTES: usize = 24;

/// The bytes of the head region before the slot table.
pub const HEAD_FIXED_BYTES: usize = 40;

/// A lease `{owner, fence}` in one word: the owner in the high half.
pub open spec fn lease_word(owner: u32, fence: u32) -> u64 {
    (owner * 0x1_0000_0000 + fence) as u64
}

pub open spec fn owner_of(packed: u64) -> u32 {
    (packed / 0x1_0000_0000) as u32
}

pub open spec fn fence_of(packed: u64) -> u32 {
    (packed % 0x1_0000_0000) as u32
}

/// The fence after `f`.
pub open spec fn next_fence(f: u32) -> u32 {
    if f == u32::MAX {
        0
    } else {
        (f + 1) as u32
    }
}

/// Pack a fenced write lease into one word.
pub fn pack_lease(owner: u32, fence: u32) -> (w: u64)
    ensures
        w == lease_word(owner, fence),
        owner_of(w) == owner,
        fence_of(w) == fence,
{
    owner as u64 * 0x1_0000_0000 + fence as u64
}

/// The owner of a packed write lease.
pub fn lease_owner(packed: u64) -> (owner: u32)
    ensures
        owner == owner_of(packed),
{
    (packed / 0x1_0000_0000) as u32
}

/// The fence of a packed write lease.
pub fn lease_fence(packed: u64) -> (fence: u32)
    ensures
        fence == fence_of(packed),
{
    (packed % 0x1_0000_0000) as u32
}

/// One entry of the table of live versions.
#[derive(Clone, Copy, Debug, PartialEq, Eq, Structural)]
pub struct PinSlot {
    /// The version this slot tracks; `0` while it is free.
    pub version: u64,
    /// The packed reference to that version's manifest.
    pub manifest: u64,
    /// How many readers hold the version.
    pub pins: u32,
    /// `SLOT_FREE`, `SLOT_LIVE` or `SLOT_FREEING`.
    pub state: u32,
}

pub open spec fn free_slot() -> PinSlot {
    PinSlot { version: 0, manifest: 0, pins: 0, state: SLOT_FREE }
}

impl PinSlot {
    /// Whether the slot holds a reference on its manifest.
    pub open spec fn holds(self) -> bool {
        self.state == SLOT_LIVE || self.state == SLOT_FREEING
    }

    /// Whether the slot is the live slot of `v`.
    pub open spec fn tracks(self, v: u64) -> bool {
        self.state == SLOT_LIVE && self.version == v
    }

    /// With one pin more. The count wraps.
    pub open spec fn pinned(self) -> PinSlot {
        PinSlot {
            pins: if self.pins == u32::MAX {
                0
            } else {
                (self.pins + 1) as u32
            },
            ..self
        }
    }

    /// With one pin less. The count wraps.
    pub open spec fn unpinned(self) -> PinSlot {
        PinSlot {
            pins: if self.pins == 0 {
                u32::MAX
            } else {
                (self.pins - 1) as u32
            },
            ..self
        }
    }

    /// Marked by a reclaimer.
    pub open spec fn marked(self) -> PinSlot {
        PinSlot { state: SLOT_FREEING, ..self }
    }

    /// Live again.
    pub open spec fn revived(self) -> PinSlot {
        PinSlot { state: SLOT_LIVE, ..self }
    }

    /// Claimable, with its pins left alone.
    pub open spec fn vacated(self) -> PinSlot {
        PinSlot { version: 0, manifest: 0, state: SLOT_FREE, ..self }
    }

    /// Reader: publish a pin, before looking whether it is accepted.
    pub fn publish_pin(&mut self)
        ensures
            *final(self) == old(self).pinned(),
    {
        self.pins = if self.pins == u32::MAX {
            0
        } else {
            self.pins + 1
        };
    }

    /// Reader: whether the slot still is the live slot of `v`.
    pub fn accept_pin(&self, v: u64) -> (ok: bool)
        ensures
            ok == self.tracks(v),
    {
        self.state == SLOT_LIVE && self.version == v
    }

    /// Take a pin back; the count before.
    pub fn unpin(&mut self) -> (prev: u32)
        ensures
            prev == old(self).pins,
            *final(self) == old(self).unpinned(),
    {
        let prev: u32 = self.pins;
        self.pins = if prev == 0 {
            u32::MAX
        } else {
            prev - 1
        };
        prev
    }

    /// Take a pin back only if there is one; the count before.
    pub fn try_unpin(&mut self) -> (r: Option<u32>)
        ensures
            old(self).pins == 0 ==> r is None && *final(self) == *old(self),
            old(self).pins > 0 ==> r == Some(old(self).pins) && *final(self) == old(self).unpinned(),
    {
        if self.pins == 0 {
            return None;
        }
        let prev: u32 = self.pins;
        self.pins = prev - 1;
        Some(prev)
    }

    /// Reclaimer: win the election `SLOT_LIVE -> SLOT_FREEING`, before looking
    /// for pins.
    pub fn elect_freeing(&mut self) -> (won: bool)
        ensures
            won == (old(self).state == SLOT_LIVE),
            *final(self) == if won {
                old(self).marked()
            } else {
                *old(self)
            },
    {
        if self.state == SLOT_LIVE {
            self.state = SLOT_FREEING;
            true
        } else {
            false
        }
    }

    /// Reclaimer: how many pins there are.
    pub fn pin_scan(&self) -> (n: u32)
        ensures
            n == self.pins,
    {
        self.pins
    }

    /// Reclaimer: a pin was seen, back to live.
    pub fn revert_live(&mut self)
        ensures
            *final(self) == old(self).revived(),
    {
        self.state = SLOT_LIVE;
    }

    /// Reclaimer: the version is gone, the slot is claimable. The pin count is
    /// left alone: a reader that bumped it in passing still owes its decrement.
    pub fn store_free(&mut self)
        ensures
            *final(self) == old(self).vacated(),
    {
        self.version = 0;
        self.manifest = 0;
        self.state = SLOT_FREE;
    }
}

/// The control block.
#[derive(Clone, Debug)]
pub struct ArtifactHead {
    pub magic: u64,
    /// The current version; `NO_VERSION` until the first commit.
    pub current: u64,
    /// The packed reference to the current version's manifest.
    pub manifest_desc: u64,
    /// The fenced write lease, packed.
    pub write_lease: u64,
    /// The schema of the artifact's data, set on the first commit.
    pub schema_id: u32,
    /// Which occupant of this region is in service.
    pub incarnation: u32,
    /// The live versions.
    pub pins: Vec<PinSlot>,
}

/// What the control block says.
#[verifier::ext_equal]
pub struct HeadView {
    pub magic: u64,
    pub current: u64,
    pub manifest_desc: u64,
    pub write_lease: u64,
    pub schema_id: u32,
    pub incarnation: u32,
    pub pins: Seq<PinSlot>,
}

impl View for ArtifactHead {
    type V = HeadView;

    open spec fn view(&self) -> HeadView {
        HeadView {
            magic: self.magic,
            current: self.current,
            manifest_desc: self.manifest_desc,
            write_lease: self.write_lease,
            schema_id: self.schema_id,
            incarnation: self.incarnation,
            pins: self.pins@,
        }
    }
}

/// The first slot that is the live slot of `v` and names `bits`, if any.
pub open spec fn first_endorsed(s: Seq<PinSlot>, v: u64, bits: u64, r: Option<usize>) -> bool {
    match r {
        Some(i) => {
            &&& i < s.len()
            &&& s[i as int].tracks(v)
            &&& s[i as int].manifest == bits
            &&& forall|j: int|
                0 <= j < i ==> !((#[trigger] s[j]).tracks(v) && s[j].manifest == bits)
        },
        None => forall|j: int|
            0 <= j < s.len() ==> !((#[trigger] s[j]).tracks(v) && s[j].manifest == bits),
    }
}

/// The first slot that is the live slot of `v`, if any.
pub open spec fn first_tracking(s: Seq<PinSlot>, v: u64, r: Option<usize>) -> bool {
    match r {
        Some(i) => {
            &&& i < s.len()
            &&& s[i as int].tracks(v)
            &&& forall|j: int| 0 <= j < i ==> !(#[trigger] s[j]).tracks(v)
        },
        None => forall|j: int| 0 <= j < s.len() ==> !(#[trigger] s[j]).tracks(v),
    }
}

/// The first free slot, if any.
pub open spec fn first_free(s: Seq<PinSlot>, r: Option<usize>) -> bool {
    match r {
        Some(i) => {
            &&& i < s.len()
            &&& s[i as int].state == SLOT_FREE
            &&& forall|j: int| 0 <= j < i ==> (#[trigger] s[j]).state != SLOT_FREE
        },
        None => forall|j: int| 0 <= j < s.len() ==> (#[trigger] s[j]).state != SLOT_FREE,
    }
}

impl HeadView {
    /// Whether the head holds nothing a sweep would destroy.
    pub open spec fn quiescent(self) -> bool {
        &&& self.current == NO_VERSION
        &&& owner_of(self.write_lease) == OWNER_NONE
        &&& forall|j: int|
            0 <= j < self.pins.len() ==> (#[trigger] self.pins[j]).state == SLOT_FREE
                && self.pins[j].pins == 0
    }
}

impl ArtifactHead {
    /// The bytes a head occupies.
    pub fn region_bytes() -> (n: usize)
        ensures
            n == HEAD_FIXED_BYTES + MAX_LIVE_VERSIONS * SLOT_BYTES,
            n == 1576,
    {
        HEAD_FIXED_BYTES + MAX_LIVE_VERSIONS * SLOT_BYTES
    }

    /// A fresh head: no version, no writer, every slot free, out of service.
    pub fn fresh() -> (h: ArtifactHead)
        ensures
            h@ == (HeadView {
                magic: HEAD_MAGIC,
                current: NO_VERSION,
                manifest_desc: 0,
                write_lease: lease_word(OWNER_NONE, 0),
                schema_id: 0,
                incarnation: NO_INCARNATION,
                pins: Seq::new(MAX_LIVE_VERSIONS as nat, |i: int| free_slot()),
            }),
    {
        let mut pins: Vec<PinSlot> = Vec::new();
        let mut i: usize = 0;
        while i < MAX_LIVE_VERSIONS
            invariant
                i <= MAX_LIVE_VERSIONS,
                pins@.len() == i,
                forall|j: int| 0 <= j < i ==> pins@[j] == free_slot(),
            decreases MAX_LIVE_VERSIONS - i,
        {
            pins.push(PinSlot { version: 0, manifest: 0, pins: 0, state: SLOT_FREE });
            i = i + 1;
        }
        proof {
            assert(pins@ =~= Seq::new(MAX_LIVE_VERSIONS as nat, |i: int| free_slot()));
        }
        ArtifactHead {
            magic: HEAD_MAGIC,
            current: NO_VERSION,
            manifest_desc: 0,
            write_lease: pack_lease(OWNER_NONE, 0),
            schema_id: 0,
            incarnation: NO_INCARNATION,
            pins,
        }
    }

    /// Whether the region holds an initialised head.
    pub fn check_magic(&self) -> (ok: bool)
        ensures
            ok == (self@.magic == HEAD_MAGIC),
    {
        self.magic == HEAD_MAGIC
    }

    /// The occupant in service.
    pub fn incarnation(&self) -> (n: u32)
        ensures
            n == self@.incarnation,
    {
        self.incarnation
    }

    /// Whether `expected` is still the occupant in service.
    pub fn is_incarnation(&self, expected: u32) -> (ok: bool)
        ensures
            ok == (self@.incarnation == expected),
    {
        self.incarnation == expected
    }

    /// Whether `expected` is still in service, asked after registering.
    pub fn revalidate_incarnation(&self, expected: u32) -> (ok: bool)
        ensures
            ok == (self@.incarnation == expected),
    {
        self.is_incarnation(expected)
    }

    /// Take the region out of service; the occupant that was in it.
    pub fn retire(&mut self) -> (was: u32)
        ensures
            was == old(self)@.incarnation,
            final(self)@ == (HeadView { incarnation: NO_INCARNATION, ..old(self)@ }),
    {
        let was: u32 = self.incarnation;
        self.incarnation = NO_INCARNATION;
        was
    }

    /// Whether the head holds nothing a sweep would destroy.
    pub fn is_quiescent(&self) -> (ok: bool)
        ensures
            ok == self@.quiescent(),
    {
        if self.current != NO_VERSION || lease_owner(self.write_lease) != OWNER_NONE {
            return false;
        }
        let n: usize = self.pins.len();
        let mut i: usize = 0;
        while i < n
            invariant
                n == self.pins@.len(),
                i <= n,
                forall|j: int|
                    0 <= j < i ==> (#[trigger] self.pins@[j]).state == SLOT_FREE && self.pins@[j].pins
                        == 0,
            decreases n - i,
        {
            if self.pins[i].state != SLOT_FREE || self.pins[i].pin_scan() != 0 {
                assert(!(self@.pins[i as int].state == SLOT_FREE && self@.pins[i as int].pins == 0));
                return false;
            }
            i = i + 1;
        }
        true
    }

    /// Put the region into service as `incarnation`.
    pub fn commission(&mut self, incarnation: u32)
        ensures
            final(self)@ == (HeadView { incarnation, ..old(self)@ }),
    {
        self.incarnation = incarnation;
    }

    /// The live slot of `version` that was installed with `manifest_bits`.
    pub fn find_slot_with_manifest(&self, version: u64, manifest_bits: u64) -> (r: Option<usize>)
        ensures
            first_endorsed(self@.pins, version, manifest_bits, r),
    {
        let n: usize = self.pins.len();
        let mut i: usize = 0;
        while i < n
            invariant
                n == self.pins@.len(),
                i <= n,
                forall|j: int|
                    0 <= j < i ==> !((#[trigger] self.pins@[j]).tracks(version)
                        && self.pins@[j].manifest == manifest_bits),
            decreases n - i,
        {
            if self.pins[i].state == SLOT_LIVE && self.pins[i].version == version
                && self.pins[i].manifest == manifest_bits {
                return Some(i);
            }
            i = i + 1;
        }
        None
    }

    /// The live slot of `version`.
    pub fn find_slot(&self, version: u64) -> (r: Option<usize>)
        ensures
            first_tracking(self@.pins, version, r),
    {
        let n: usize = self.pins.len();
        let mut i: usize = 0;
        while i < n
            invariant
                n == self.pins@.len(),
                i <= n,
                forall|j: int| 0 <= j < i ==> !(#[trigger] self.pins@[j]).tracks(version),
            decreases n - i,
        {
            if self.pins[i].state == SLOT_LIVE && self.pins[i].version == version {
                return Some(i);
            }
            i = i + 1;
        }
        None
    }

    /// Claim the first free slot for `version`; `None` if the table is full.
    pub fn claim_slot(&mut self, version: u64, manifest: u64) -> (r: Option<usize>)
        ensures
            first_free(old(self)@.pins, r),
            r is None ==> final(self)@ == old(self)@,
            r matches Some(i) ==> final(self)@ == (HeadView {
                pins: old(self)@.pins.update(
                    i as int,
                    PinSlot { version, manifest, state: SLOT_LIVE, ..old(self)@.pins[i as int] },
                ),
                ..old(self)@
            }),
    {
        let n: usize = self.pins.len();
        let mut i: usize = 0;
        while i < n
            invariant
                n == self.pins@.len(),
                i <= n,
                *self == *old(self),
                forall|j: int| 0 <= j < i ==> (#[trigger] self.pins@[j]).state != SLOT_FREE,
            decreases n - i,
        {
            if self.pins[i].state == SLOT_FREE {
                let s: PinSlot = self.pins[i];
                self.pins.set(i, PinSlot { version, manifest, state: SLOT_LIVE, pins: s.pins });
                return Some(i);
            }
            i = i + 1;
        }
        None
    }

    /// Take the write lease for `owner`; the fence it was taken under, or
    /// `None` if someone holds it.
    pub fn acquire_write_lease(&mut self, owner: u32) -> (r: Option<u32>)
        ensures
            owner_of(old(self)@.write_lease) != OWNER_NONE ==> r is None && final(self)@ == old(self)@,
            owner_of(old(self)@.write_lease) == OWNER_NONE ==> r == Some(
                fence_of(old(self)@.write_lease),
            ) && final(self)@ == (HeadView {
                write_lease: lease_word(owner, fence_of(old(self)@.write_lease)),
                ..old(self)@
            }),
    {
        if lease_owner(self.write_lease) != OWNER_NONE {
            return None;
        }
        let fence: u32 = lease_fence(self.write_lease);
        self.write_lease = pack_lease(owner, fence);
        Some(fence)
    }

    /// Whether the lease is held exactly as `{owner, fence}`.
    pub fn lease_held_by(&self, owner: u32, fence: u32) -> (ok: bool)
        ensures
            ok == (self@.write_lease == lease_word(owner, fence)),
    {
        self.write_lease == pack_lease(owner, fence)
    }

    /// Release the lease held as `{owner, token}` and advance the fence;
    /// whether it was so held.
    pub fn release_write_lease(&mut self, owner: u32, token: u32) -> (ok: bool)
        ensures
            ok == (old(self)@.write_lease == lease_word(owner, token)),
            final(self)@ == if ok {
                HeadView { write_lease: lease_word(OWNER_NONE, next_fence(token)), ..old(self)@ }
            } else {
                old(self)@
            },
    {
        if self.write_lease == pack_lease(owner, token) {
            self.write_lease = pack_lease(
                OWNER_NONE,
                if token == u32::MAX {
                    0
                } else {
                    token + 1
                },
            );
            true
        } else {
            false
        }
    }

    /// Release the lease whoever holds it and advance the fence; whether it
    /// was held.
    pub fn force_release_write_lease(&mut self) -> (was_held: bool)
        ensures
            was_held == (owner_of(old(self)@.write_lease) != OWNER_NONE),
            final(self)@ == if was_held {
                HeadView {
                    write_lease: lease_word(
                        OWNER_NONE,
                        next_fence(fence_of(old(self)@.write_lease)),
                    ),
                    ..old(self)@
                }
            } else {
                old(self)@
            },
    {
        if lease_owner(self.write_lease) == OWNER_NONE {
            return false;
        }
        let fence: u32 = lease_fence(self.write_lease);
        self.write_lease = pack_lease(
            OWNER_NONE,
            if fence == u32::MAX {
                0
            } else {
                fence + 1
            },
        );
        true
    }

    /// Who holds the lease.
    pub fn write_lease_owner(&self) -> (owner: u32)
        ensures
            owner == owner_of(self@.write_lease),
    {
        lease_owner(self.write_lease)
    }
}

/// A fence token is good for one tenure: once the lease was released, cleanly
/// or by force, no lease held under the next fence is the one `{owner, token}`
/// names.
pub proof fn released_token_is_stale(owner: u32, next_owner: u32, token: u32)
    ensures
        lease_word(next_owner, next_fence(token)) != lease_word(owner, token),
        owner_of(lease_word(owner, token)) == owner,
        fence_of(lease_word(owner, token)) == token,
{
    assert(fence_of(lease_word(next_owner, next_fence(token))) == next_fence(token));
}

} // verus!
