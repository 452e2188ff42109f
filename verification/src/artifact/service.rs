//! Bringing an artifact into service, taking it down, and cleaning up after
//! writers that died.
use vstd::prelude::*;

use crate::artifact::commit::{lemma_current, Commit};
use crate::artifact::error::Error;
use crate::artifact::event::VersionEvent;
use crate::artifact::handle::Artifact;
use crate::artifact::head::{
    fence_of, free_slot, lease_fence, lease_word, next_fence, owner_of, pack_lease,
    released_token_is_stale, ArtifactHead, HeadView, PinSlot, FIRST_INCARNATION, HEAD_MAGIC,
    MAX_LIVE_VERSIONS, NO_INCARNATION, NO_VERSION, OWNER_NONE, SLOT_FREE, SLOT_LIVE,
};
use crate::artifact::lease::with_lease;
use crate::artifact::live::{
    conserved, current_table, lemma_slots_survive, live, only_returns, retire_slot, slot_refs,
    table_of, tied, unaccounted,
};
use crate::artifact::pin::others_kept;
use crate::artifact::pool::{chunk_ok, held, kept_or_returned, ChunkPool, ChunkState};
use crate::artifact::reading::read_manifest_checked;
use crate::chunk::PackedRef;

verus! {

/// The owner under which a teardown holds the write lease.
pub const EVICTOR_OWNER: u32 = u32::MAX;

/// A head in service that nothing was committed to.
pub open spec fn unused_head(incarnation: u32, fence: u32) -> HeadView {
    HeadView {
        magic: HEAD_MAGIC,
        current: NO_VERSION,
        manifest_desc: 0,
        write_lease: lease_word(OWNER_NONE, fence),
        schema_id: 0,
        incarnation,
        pins: Seq::new(MAX_LIVE_VERSIONS as nat, |i: int| free_slot()),
    }
}

proof fn lemma_no_refs(pins: Seq<PinSlot>, seg: u32, off: u32)
    requires
        forall|j: int| 0 <= j < pins.len() ==> (#[trigger] pins[j]).state == SLOT_FREE,
    ensures
        slot_refs(pins, seg, off) == 0,
    decreases pins.len(),
{
    if pins.len() > 0 {
        lemma_no_refs(pins.drop_last(), seg, off);
    }
}

/// An unused head belongs with every pool.
pub proof fn unused_is_live(h: &ArtifactHead, pool: &ChunkPool, name_id: u32, incarnation: u32, fence: u32)
    requires
        pool.wf(),
        h@ == unused_head(incarnation, fence),
    ensures
        live(h, pool, name_id),
{
    assert forall|i: int| 0 <= i < pool@.len() implies #[trigger] unaccounted(
        h@,
        pool.lay@,
        pool.segment_id,
        pool@,
        i,
    ) >= 0 by {
        lemma_no_refs(h@.pins, pool.segment_id, pool.lay@[i]);
        assert(held(pool.lay@, pool@, i) >= 0);
    }
}

impl Artifact {
    /// Bring a fresh artifact into service in a head region of `head_len`
    /// bytes.
    pub fn create(name_id: u32, head: &mut ArtifactHead, head_len: usize) -> (r: Result<Artifact, Error>)
        ensures
            if head_len < 1576 {
                r == Err::<Artifact, Error>(
                    Error::LayoutOverflow("head segment too small for ArtifactHead"),
                ) && final(head)@ == old(head)@
            } else {
                &&& r == Ok::<Artifact, Error>(
                    Artifact { name_id, incarnation: FIRST_INCARNATION },
                )
                &&& final(head)@ == unused_head(FIRST_INCARNATION, 0)
            },
    {
        if head_len < ArtifactHead::region_bytes() {
            return Err(Error::LayoutOverflow("head segment too small for ArtifactHead"));
        }
        *head = ArtifactHead::fresh();
        head.commission(FIRST_INCARNATION);
        Ok(Artifact { name_id, incarnation: FIRST_INCARNATION })
    }

    /// Bring an artifact into service in a head region that may have had
    /// another occupant, at byte `head_off` of a segment of `head_len` bytes.
    /// The fence of the write lease goes on from the previous occupant's, so
    /// that no token of theirs fits a lease of this one.
    pub fn create_at(
        name_id: u32,
        incarnation: u32,
        head: &mut ArtifactHead,
        head_off: usize,
        head_len: usize,
    ) -> (r: Result<Artifact, Error>)
        requires
            incarnation != NO_INCARNATION,
            head_off % 8 == 0,
        ensures
            if head_off + 1576 > usize::MAX {
                r == Err::<Artifact, Error>(Error::LayoutOverflow("head offset overflow"))
                    && final(head)@ == old(head)@
            } else if head_len < head_off + 1576 {
                r == Err::<Artifact, Error>(
                    Error::LayoutOverflow("head segment too small for ArtifactHead at offset"),
                ) && final(head)@ == old(head)@
            } else {
                &&& r == Ok::<Artifact, Error>(Artifact { name_id, incarnation })
                &&& final(head)@ == unused_head(
                    incarnation,
                    if old(head)@.magic == HEAD_MAGIC {
                        fence_of(old(head)@.write_lease)
                    } else {
                        0
                    },
                )
            },
    {
        let need: usize = match head_off.checked_add(ArtifactHead::region_bytes()) {
            Some(n) => n,
            None => {
                return Err(Error::LayoutOverflow("head offset overflow"));
            },
        };
        if head_len < need {
            return Err(Error::LayoutOverflow("head segment too small for ArtifactHead at offset"));
        }
        let carry: u32 = if head.check_magic() {
            lease_fence(head.write_lease)
        } else {
            0
        };
        *head = ArtifactHead::fresh();
        head.write_lease = pack_lease(OWNER_NONE, carry);
        head.commission(incarnation);
        Ok(Artifact { name_id, incarnation })
    }

    /// Attach to the occupant in service.
    pub fn attach(name_id: u32, head: &ArtifactHead, head_len: usize) -> (r: Result<Artifact, Error>)
        ensures
            r == attached(name_id, head@, 0, head_len as int),
    {
        Artifact::attach_at(name_id, head, 0, head_len)
    }

    /// Attach to the occupant in service of the head region at byte
    /// `head_off` of a segment of `head_len` bytes.
    pub fn attach_at(name_id: u32, head: &ArtifactHead, head_off: usize, head_len: usize) -> (r: Result<
        Artifact,
        Error,
    >)
        ensures
            r == attached(name_id, head@, head_off as int, head_len as int),
    {
        let need: usize = match head_off.checked_add(ArtifactHead::region_bytes()) {
            Some(n) => n,
            None => {
                return Err(Error::BadMagic);
            },
        };
        if head_len < need || !head.check_magic() {
            return Err(Error::BadMagic);
        }
        let incarnation: u32 = head.incarnation();
        if incarnation == NO_INCARNATION {
            return Err(Error::Stale);
        }
        Ok(Artifact { name_id, incarnation })
    }

    /// Attach only if `expected` is still the occupant in service.
    pub fn attach_at_incarnation(
        name_id: u32,
        expected: u32,
        head: &ArtifactHead,
        head_off: usize,
        head_len: usize,
    ) -> (r: Result<Artifact, Error>)
        ensures
            r == attached_to(name_id, expected, head@, head_off as int, head_len as int),
    {
        match Artifact::attach_at(name_id, head, head_off, head_len) {
            Err(e) => Err(e),
            Ok(a) => if a.incarnation != expected {
                Err(Error::Stale)
            } else {
                Ok(a)
            },
        }
    }

    /// The interned name.
    pub fn name_id(&self) -> (id: u32)
        ensures
            id == self.name_id,
    {
        self.name_id
    }

    /// The occupant this handle means.
    pub fn incarnation(&self) -> (n: u32)
        ensures
            n == self.incarnation,
    {
        self.incarnation
    }

    /// The current version; `0` if nothing is committed.
    pub fn current_version(&self, head: &ArtifactHead) -> (v: u64)
        ensures
            v == head@.current,
    {
        head.current
    }

    /// The packed reference to the current manifest.
    pub fn current_manifest_bits(&self, head: &ArtifactHead) -> (b: u64)
        ensures
            b == head@.manifest_desc,
    {
        head.manifest_desc
    }

    /// Whether this handle's occupant is still the one in service.
    pub fn check_live(&self, head: &ArtifactHead) -> (r: Result<(), Error>)
        ensures
            r == if head@.incarnation == self.incarnation {
                Ok::<(), Error>(())
            } else {
                Err(Error::Stale)
            },
    {
        if head.is_incarnation(self.incarnation) {
            Ok(())
        } else {
            Err(Error::Stale)
        }
    }

    /// Whether the head holds nothing that recycling it would destroy.
    pub fn is_quiescent(&self, head: &ArtifactHead) -> (ok: bool)
        ensures
            ok == head@.quiescent(),
    {
        head.is_quiescent()
    }

    /// Take the head out of service; the incarnation that was in it.
    pub fn retire_head(&self, head: &mut ArtifactHead) -> (was: u32)
        ensures
            was == old(head)@.incarnation,
            final(head)@ == (HeadView { incarnation: NO_INCARNATION, ..old(head)@ }),
    {
        head.retire()
    }

    /// Put an incarnation back into service.
    pub fn commission_head(&self, head: &mut ArtifactHead, incarnation: u32)
        ensures
            final(head)@ == (HeadView { incarnation, ..old(head)@ }),
    {
        head.commission(incarnation)
    }

    /// The notice of a commit of this artifact.
    pub fn version_event(&self, version: u64, commit: &Commit) -> (e: VersionEvent)
        ensures
            e == (VersionEvent {
                name_id: self.name_id,
                kind: commit.spec_kind().spec_as_u32(),
                version,
            }),
    {
        VersionEvent::new(self.name_id, version, commit.kind())
    }

    /// How many links the current version's chain has; `None` if nothing is
    /// committed.
    pub fn current_depth(&self, head: &ArtifactHead, pool: &ChunkPool) -> (d: Option<u32>)
        requires
            live(head, pool, self.name_id),
        ensures
            head@.current == NO_VERSION ==> d is None,
            head@.current != NO_VERSION ==> d == Some(
                current_table(head@, pool.lay@, pool@).last().depth,
            ),
    {
        if head.current == NO_VERSION {
            return None;
        }
        proof {
            lemma_current(head, pool, self.name_id);
        }
        match read_manifest_checked(pool, PackedRef(head.manifest_desc), self.name_id, head.current) {
            Ok(m) => Some(m.depth),
            Err(_) => None,
        }
    }
}

/// What attaching to the head region at `off` of a segment of `len` bytes gives.
pub open spec fn attached(name_id: u32, h: HeadView, off: int, len: int) -> Result<Artifact, Error> {
    if off + 1576 > len || h.magic != HEAD_MAGIC {
        Err(Error::BadMagic)
    } else if h.incarnation == NO_INCARNATION {
        Err(Error::Stale)
    } else {
        Ok(Artifact { name_id, incarnation: h.incarnation })
    }
}

/// What attaching gives if only one occupant will do.
pub open spec fn attached_to(name_id: u32, expected: u32, h: HeadView, off: int, len: int) -> Result<
    Artifact,
    Error,
> {
    match attached(name_id, h, off, len) {
        Err(e) => Err(e),
        Ok(a) => if a.incarnation != expected {
            Err(Error::Stale)
        } else {
            Ok(a)
        },
    }
}

/// The fence after a teardown: one step for the lease it broke, if there was
/// one, and one for its own.
pub open spec fn fence_after_eviction(w: u64) -> u32 {
    if owner_of(w) != OWNER_NONE {
        next_fence(next_fence(fence_of(w)))
    } else {
        next_fence(fence_of(w))
    }
}

/// The slots of the first `n` versions torn down: those without a pin are free.
pub open spec fn slots_evicted(pins: Seq<PinSlot>, n: int) -> Seq<PinSlot> {
    Seq::new(
        pins.len(),
        |j: int|
            if j < n && pins[j].state == SLOT_LIVE && pins[j].pins == 0 {
                free_slot()
            } else {
                pins[j]
            },
    )
}

/// A head after everything in it was torn down.
pub open spec fn evicted(h: HeadView) -> HeadView {
    HeadView {
        current: NO_VERSION,
        manifest_desc: 0,
        write_lease: lease_word(OWNER_NONE, fence_after_eviction(h.write_lease)),
        pins: slots_evicted(h.pins, h.pins.len() as int),
        ..h
    }
}

/// Clearing the current version and changing the lease unties nothing.
proof fn lemma_cleared(h: HeadView, w: u64, clear: bool, pool: &ChunkPool, name_id: u32)
    requires
        tied(h, pool.lay@, pool.segment_id, pool@, name_id),
    ensures
        ({
            let h1 = if clear {
                HeadView { current: NO_VERSION, manifest_desc: 0, write_lease: w, ..h }
            } else {
                with_lease(h, w)
            };
            &&& tied(h1, pool.lay@, pool.segment_id, pool@, name_id)
            &&& forall|i: int|
                0 <= i < pool@.len() ==> unaccounted(h1, pool.lay@, pool.segment_id, pool@, i)
                    == #[trigger] unaccounted(h, pool.lay@, pool.segment_id, pool@, i)
        }),
{
    let h1 = if clear {
        HeadView { current: NO_VERSION, manifest_desc: 0, write_lease: w, ..h }
    } else {
        with_lease(h, w)
    };
    assert forall|i: int| 0 <= i < pool@.len() implies #[trigger] unaccounted(
        h1,
        pool.lay@,
        pool.segment_id,
        pool@,
        i,
    ) >= 0 by {
        assert(unaccounted(h, pool.lay@, pool.segment_id, pool@, i) >= 0);
    }
    if h1.current != NO_VERSION {
        let j = choose|j: int|
            0 <= j < h.pins.len() && (#[trigger] h.pins[j]).tracks(h.current) && h.pins[j].manifest
                == h.manifest_desc;
        assert(h1.pins[j].tracks(h1.current));
    }
}

impl Artifact {
    /// Tear down every version: nothing is current any more, every unpinned
    /// version is retired, and the write lease is broken. A pinned version is
    /// retired when its last pin goes.
    pub fn evict_all(&self, head: &mut ArtifactHead, pool: &mut ChunkPool) -> (r: Result<(), Error>)
        requires
            live(old(head), old(pool), self.name_id),
        ensures
            live(final(head), final(pool), self.name_id),
            conserved(old(head)@, old(pool), final(head)@, final(pool)),
            only_returns(old(pool), final(pool)),
            others_kept(final(head)@, old(pool), final(pool)),
            if old(head)@.incarnation != self.incarnation {
                r == Err::<(), Error>(Error::Stale) && final(head)@ == old(head)@ && final(pool)@ == old(pool)@
            } else {
                r == Ok::<(), Error>(()) && final(head)@ == evicted(old(head)@)
            },
    {
        match self.check_live(head) {
            Ok(_) => {},
            Err(e) => {
                return Err(e);
            },
        }
        let ghost h0 = head@;
        let ghost p0 = *pool;
        proof {
            released_token_is_stale(OWNER_NONE, OWNER_NONE, next_fence(fence_of(h0.write_lease)));
            released_token_is_stale(EVICTOR_OWNER, OWNER_NONE, fence_of(h0.write_lease));
            released_token_is_stale(EVICTOR_OWNER, OWNER_NONE, next_fence(fence_of(h0.write_lease)));
        }
        head.force_release_write_lease();
        let token: u32 = match head.acquire_write_lease(EVICTOR_OWNER) {
            Some(t) => t,
            None => {
                return Err(Error::WriteLocked);
            },
        };
        head.current = NO_VERSION;
        head.manifest_desc = 0;
        let ghost w = head@.write_lease;
        proof {
            lemma_cleared(h0, w, true, pool, self.name_id);
            assert(slots_evicted(h0.pins, 0) =~= h0.pins);
        }
        let n: usize = head.pins.len();
        let mut i: usize = 0;
        while i < n
            invariant
                live(head, pool, self.name_id),
                n == h0.pins.len(),
                i <= n,
                head@ == (HeadView {
                    current: NO_VERSION,
                    manifest_desc: 0,
                    write_lease: w,
                    pins: slots_evicted(h0.pins, i as int),
                    ..h0
                }),
                forall|j: int| 0 <= j < n ==> (#[trigger] h0.pins[j]).state != SLOT_FREE ==> h0.pins[j].version > 0,
                conserved(h0, &p0, head@, pool),
                only_returns(&p0, pool),
                others_kept(head@, &p0, pool),
            decreases n - i,
        {
            let s: PinSlot = head.pins[i];
            let ghost h1 = head@;
            let ghost p1 = *pool;
            if s.state == SLOT_LIVE && s.version != NO_VERSION && s.pins == 0 {
                retire_slot(head, pool, i, self.name_id);
                proof {
                    assert(head@.pins =~= slots_evicted(h0.pins, i + 1));
                    assert forall|k: int| 0 <= k < p0@.len() implies unaccounted(
                        head@,
                        pool.lay@,
                        pool.segment_id,
                        pool@,
                        k,
                    ) == #[trigger] unaccounted(h0, p0.lay@, p0.segment_id, p0@, k) by {
                        assert(unaccounted(h1, p1.lay@, p1.segment_id, p1@, k) == unaccounted(
                            h0,
                            p0.lay@,
                            p0.segment_id,
                            p0@,
                            k,
                        ));
                    }
                    assert forall|k: int| 0 <= k < p0@.len() implies kept_or_returned(
                        p0@[k],
                        #[trigger] pool@[k],
                    ) by {
                        assert(kept_or_returned(p0@[k], p1@[k]));
                        assert(kept_or_returned(p1@[k], pool@[k]));
                        assert(chunk_ok(pool@[k]));
                    }
                    assert forall|j: int|
                        0 <= j < head@.pins.len() && (#[trigger] head@.pins[j]).holds() implies table_of(
                        pool.lay@,
                        pool@,
                        head@.pins[j],
                    ) == table_of(p0.lay@, p0@, head@.pins[j]) by {
                        assert(h1.pins[j] == head@.pins[j]);
                        assert(h1.pins[j].holds());
                    }
                }
            } else {
                proof {
                    assert(slots_evicted(h0.pins, i + 1) =~= slots_evicted(h0.pins, i as int)) by {
                        assert(slots_evicted(h0.pins, i as int)[i as int] == h0.pins[i as int]);
                    }
                }
            }
            i = i + 1;
        }
        let ghost h2 = head@;
        let released: bool = head.release_write_lease(EVICTOR_OWNER, token);
        proof {
            assert(released);
            lemma_cleared(h2, head@.write_lease, false, pool, self.name_id);
            assert forall|k: int| 0 <= k < p0@.len() implies unaccounted(
                head@,
                pool.lay@,
                pool.segment_id,
                pool@,
                k,
            ) == #[trigger] unaccounted(h0, p0.lay@, p0.segment_id, p0@, k) by {
                assert(unaccounted(h2, pool.lay@, pool.segment_id, pool@, k) == unaccounted(
                    h0,
                    p0.lay@,
                    p0.segment_id,
                    p0@,
                    k,
                ));
            }
        }
        Ok(())
    }
}

// ---- staged manifests of dead writers ----

/// Whether an installed version names the manifest `bits`.
pub open spec fn endorsed(h: HeadView, bits: u64) -> bool {
    h.manifest_desc == bits || exists|j: int|
        0 <= j < h.pins.len() && (#[trigger] h.pins[j]).state == SLOT_LIVE && h.pins[j].manifest == bits
}

/// Whether the manifest `bits` is still the one staged at `generation`.
pub open spec fn still_staged(pool: &ChunkPool, bits: u64, generation: u32) -> bool {
    let m = PackedRef(bits);
    &&& pool.names(m.spec_segment_id(), m.spec_offset())
    &&& pool@[pool.at(m.spec_offset())].generation == generation
    &&& pool@[pool.at(m.spec_offset())].state == ChunkState::Published
}

/// Whether a record of a staged manifest is true: if the manifest is still
/// there and no version names it, its writer's reference is still on it.
pub open spec fn orphaned(h: HeadView, pool: &ChunkPool, bits: u64, generation: u32) -> bool {
    still_staged(pool, bits, generation) && !endorsed(h, bits) ==> {
        let i = pool.at(PackedRef(bits).spec_offset());
        &&& pool@[i].story is Some
        &&& unaccounted(h, pool.lay@, pool.segment_id, pool@, i) >= 1
    }
}

/// Every reference on chunk `i` that was unaccounted for still is, but one on
/// `x`.
pub open spec fn conserved_but(h0: HeadView, p0: &ChunkPool, h1: HeadView, p1: &ChunkPool, x: int) -> bool {
    forall|i: int|
        0 <= i < p0@.len() ==> unaccounted(h1, p1.lay@, p1.segment_id, p1@, i) == #[trigger] unaccounted(
            h0,
            p0.lay@,
            p0.segment_id,
            p0@,
            i,
        ) - if i == x {
            1int
        } else {
            0
        }
}

impl Artifact {
    /// Give back a manifest whose writer died between staging and installing
    /// it; whether there was anything to give back. Nothing is if a version
    /// names it: then it was installed.
    pub fn reclaim_staged_manifest(
        &self,
        head: &ArtifactHead,
        pool: &mut ChunkPool,
        manifest: u64,
        generation: u32,
    ) -> (released: bool)
        requires
            live(head, old(pool), self.name_id),
            orphaned(head@, old(pool), manifest, generation),
        ensures
            live(head, final(pool), self.name_id),
            released == (!endorsed(head@, manifest) && still_staged(old(pool), manifest, generation)),
            !released ==> final(pool)@ == old(pool)@,
            only_returns(old(pool), final(pool)),
            others_kept(head@, old(pool), final(pool)),
            released ==> conserved_but(
                head@,
                old(pool),
                head@,
                final(pool),
                old(pool).at(PackedRef(manifest).spec_offset()),
            ),
    {
        if head.manifest_desc == manifest {
            return false;
        }
        let n: usize = head.pins.len();
        let mut j: usize = 0;
        while j < n
            invariant
                n == head.pins@.len(),
                j <= n,
                head.manifest_desc != manifest,
                *pool == *old(pool),
                live(head, pool, self.name_id),
                forall|k: int|
                    0 <= k < j ==> !((#[trigger] head@.pins[k]).state == SLOT_LIVE && head@.pins[k].manifest
                        == manifest),
            decreases n - j,
        {
            let s: PinSlot = head.pins[j];
            if s.state == SLOT_LIVE && s.manifest == manifest {
                assert(head@.pins[j as int].manifest == manifest);
                return false;
            }
            j = j + 1;
        }
        let mref: PackedRef = PackedRef(manifest);
        let k: usize = match pool.find(mref.segment_id(), mref.offset()) {
            None => {
                return false;
            },
            Some(k) => k,
        };
        proof {
            assert(pool@[k as int] == pool.chunks@[k as int]@);
        }
        if pool.chunks[k].generation != generation || pool.chunks[k].state != ChunkState::Published {
            return false;
        }
        let ghost p0 = *pool;
        proof {
            assert(unaccounted(head@, p0.lay@, p0.segment_id, p0@, k as int) >= 1);
        }
        pool.release_manifest_ref(mref);
        proof {
            assert forall|i: int| 0 <= i < p0@.len() implies unaccounted(
                head@,
                pool.lay@,
                pool.segment_id,
                pool@,
                i,
            ) == #[trigger] unaccounted(head@, p0.lay@, p0.segment_id, p0@, i) - (if i == k {
                1int
            } else {
                0
            }) by {
                assert(pool.held(i) == p0.held(i) - (if i == k {
                    1int
                } else {
                    0
                }));
            }
            assert forall|i: int| 0 <= i < pool@.len() implies #[trigger] unaccounted(
                head@,
                pool.lay@,
                pool.segment_id,
                pool@,
                i,
            ) >= 0 by {
                assert(unaccounted(head@, p0.lay@, p0.segment_id, p0@, i) >= 0);
            }
            lemma_slots_survive(head@, p0.lay@, p0.segment_id, p0@, pool@, self.name_id);
        }
        true
    }
}

} // verus!
