//! Two parties, every order of their steps.
use holon::artifact::config::PoolConfig;
use holon::artifact::head::{
    lease_fence, lease_owner, pack_lease, ArtifactHead, PinSlot, FIRST_INCARNATION, NO_VERSION,
    SLOT_FREE, SLOT_FREEING, SLOT_LIVE,
};
use holon::artifact::pool::{Chunk, ChunkPool, ChunkState};

type Step<S> = fn(&mut S);

/// Run the steps of `a` and `b` in every order that keeps each party's own, and
/// hand the end of each run to `end`. Gives back how many orders there were.
fn every_order<S>(start: &dyn Fn() -> S, a: &[Step<S>], b: &[Step<S>], end: &dyn Fn(S)) -> usize {
    let n = a.len() + b.len();
    let mut runs = 0;
    for mask in 0..1u32 << n {
        if mask.count_ones() as usize != a.len() {
            continue;
        }
        let mut s = start();
        let (mut i, mut j) = (0, 0);
        for bit in 0..n {
            if mask >> bit & 1 == 1 {
                a[i](&mut s);
                i += 1;
            } else {
                b[j](&mut s);
                j += 1;
            }
        }
        end(s);
        runs += 1;
    }
    runs
}

fn published(refs: u32, owner: u32) -> Chunk {
    let mut p = ChunkPool::create(1, &PoolConfig::power_of_two(64, 64, 1), 1 << 12).unwrap();
    let mut c = p.chunks.remove(0);
    c.try_loan(7).unwrap();
    c.publish().unwrap();
    for _ in 0..refs {
        c.borrow_shared().unwrap();
    }
    c.owner = owner;
    c
}

struct Releases {
    c: Chunk,
    first: Option<bool>,
    second: Option<bool>,
}

#[test]
fn loom_ctrl_two_releasers_exactly_one_frees() {
    let runs = every_order::<Releases>(
        &|| Releases { c: published(2, 0), first: None, second: None },
        &[|s| s.first = Some(s.c.release_shared())],
        &[|s| s.second = Some(s.c.release_shared())],
        &|s| {
            assert!(s.first.unwrap() ^ s.second.unwrap(), "both or neither observed the free");
            assert_eq!(s.c.state, ChunkState::Free);
            assert_eq!(s.c.refcount, 0);
            assert_eq!(s.c.generation, 1);
        },
    );
    assert_eq!(runs, 2);
}

#[test]
fn loom_ctrl_borrow_vs_reclaim_never_both() {
    every_order::<Releases>(
        &|| Releases { c: published(0, 0), first: None, second: None },
        &[|s| s.first = Some(s.c.borrow_shared().is_ok())],
        &[|s| s.second = Some(s.c.try_reclaim())],
        &|s| {
            let (borrowed, reclaimed) = (s.first.unwrap(), s.second.unwrap());
            assert!(
                borrowed ^ reclaimed,
                "borrow={borrowed} reclaim={reclaimed}: a reference onto a freed chunk, or a leak"
            );
            if borrowed {
                assert_eq!(s.c.state, ChunkState::Published);
                assert_eq!(s.c.refcount, 1);
            } else {
                assert_eq!(s.c.state, ChunkState::Free);
                assert_eq!(s.c.generation, 1);
            }
        },
    );
}

#[test]
fn loom_ctrl_release_vs_owner_release_exactly_one_frees() {
    every_order::<Releases>(
        &|| Releases { c: published(1, 7), first: None, second: None },
        &[|s| s.first = Some(s.c.release_shared())],
        &[|s| s.second = Some(s.c.owner_release())],
        &|s| {
            assert!(s.first.unwrap() ^ s.second.unwrap(), "release election violated");
            assert_eq!(s.c.state, ChunkState::Free);
            assert_eq!(s.c.generation, 1);
        },
    );
}

#[test]
fn a_chunk_without_references_is_left_alone() {
    let mut c = published(0, 7);
    assert!(!c.release_shared());
    assert!(!c.try_reclaim(), "the owner still holds it");
    assert!(c.try_loan(8).is_err());
    assert!(c.publish().is_err());
    assert!(c.drop_loan().is_err());
    assert_eq!((c.state, c.generation), (ChunkState::Published, 0));
    assert!(c.owner_release());
    assert!(c.borrow_shared().is_err());
    c.try_loan(8).unwrap();
    c.drop_loan().unwrap();
    assert_eq!((c.state, c.owner, c.generation), (ChunkState::Free, 0, 2));
}

struct Hazard {
    slot: PinSlot,
    accepted: Option<bool>,
    elected: bool,
    seen: u32,
    freed: bool,
}

#[test]
fn loom_pin_hazard_handshake() {
    let runs = every_order::<Hazard>(
        &|| Hazard {
            slot: PinSlot { version: 1, manifest: 0, pins: 0, state: SLOT_LIVE },
            accepted: None,
            elected: false,
            seen: 0,
            freed: false,
        },
        &[
            |s| s.slot.publish_pin(),
            |s| s.accepted = Some(s.slot.accept_pin(1)),
            |s| {
                if s.accepted == Some(false) {
                    s.slot.unpin();
                }
            },
        ],
        &[
            |s| s.elected = s.slot.elect_freeing(),
            |s| s.seen = s.slot.pin_scan(),
            |s| {
                if s.elected && s.seen == 0 {
                    s.slot.store_free();
                    s.freed = true;
                } else if s.elected {
                    s.slot.revert_live();
                }
            },
        ],
        &|s| {
            assert!(
                !(s.accepted.unwrap() && s.freed),
                "hazard handshake violated: reader accepted a pin the reclaimer freed"
            );
            assert_ne!(s.slot.state, SLOT_FREEING);
            assert_eq!(s.slot.state == SLOT_FREE, s.freed);
            assert_eq!(s.slot.pins, s.accepted.unwrap() as u32);
        },
    );
    assert_eq!(runs, 20);
}

/// The manifest word that belongs to version `v`.
fn manifest_for(v: u64) -> u64 {
    0x1000 + v
}

struct Install {
    head: ArtifactHead,
    v: u64,
    idx: Option<usize>,
    accepted: bool,
    word: u64,
}

#[test]
fn loom_rcu_install_vs_read() {
    let runs = every_order::<Install>(
        &|| {
            let mut head = ArtifactHead::fresh();
            head.claim_slot(1, manifest_for(1)).expect("slot for v1");
            head.current = 1;
            head.manifest_desc = manifest_for(1);
            Install { head, v: 0, idx: None, accepted: false, word: 0 }
        },
        &[
            |s| {
                s.head.claim_slot(2, manifest_for(2)).expect("slot for v2");
            },
            |s| s.head.current = 2,
            |s| s.head.manifest_desc = manifest_for(2),
        ],
        &[
            |s| s.v = s.head.current,
            |s| s.idx = s.head.find_slot(s.v),
            |s| {
                if let Some(i) = s.idx {
                    s.head.pins[i].publish_pin();
                }
            },
            |s| {
                if let Some(i) = s.idx {
                    s.accepted = s.head.pins[i].accept_pin(s.v);
                }
            },
            |s| s.word = s.head.manifest_desc,
        ],
        &|s| {
            if let (Some(i), true) = (s.idx, s.accepted) {
                if s.head.pins[i].manifest == s.word {
                    assert_eq!(s.word, manifest_for(s.v), "torn read");
                }
            }
            assert_eq!((s.head.current, s.head.manifest_desc), (2, manifest_for(2)));
        },
    );
    assert_eq!(runs, 56);
}

struct Recycling {
    head: ArtifactHead,
    idx: Option<usize>,
    token: Option<u32>,
    ok: bool,
    held: u32,
    reclaimed: bool,
}

fn in_service() -> Recycling {
    let mut head = ArtifactHead::fresh();
    head.commission(FIRST_INCARNATION);
    Recycling { head, idx: None, token: None, ok: false, held: 0, reclaimed: false }
}

const SWEEP: [Step<Recycling>; 3] = [
    |s| s.held = s.head.retire(),
    |s| s.reclaimed = s.head.is_quiescent(),
    |s| {
        if !s.reclaimed {
            s.head.commission(s.held);
        }
    },
];

#[test]
fn loom_reclaim_vs_pin() {
    every_order::<Recycling>(
        &|| {
            let mut s = in_service();
            s.idx = s.head.claim_slot(1, 0x1001);
            assert_eq!(s.head.current, NO_VERSION);
            s
        },
        &[
            |s| s.head.pins[s.idx.unwrap()].publish_pin(),
            |s| s.ok = s.head.pins[s.idx.unwrap()].accept_pin(1),
            |s| s.ok = s.ok && s.head.is_incarnation(FIRST_INCARNATION),
            |s| {
                if !s.ok {
                    s.head.pins[s.idx.unwrap()].unpin();
                }
            },
        ],
        &SWEEP,
        &|s| {
            assert!(
                !(s.ok && s.reclaimed),
                "sweep reclaimed the region under an accepted, validated pin"
            );
        },
    );
}

#[test]
fn loom_reclaim_vs_claim() {
    every_order::<Recycling>(
        &in_service,
        &[
            |s| s.idx = s.head.claim_slot(1, 0x1001),
            |s| s.ok = s.idx.is_some() && s.head.revalidate_incarnation(FIRST_INCARNATION),
            |s| {
                if !s.ok {
                    s.head.pins[s.idx.unwrap()].store_free();
                }
            },
        ],
        &SWEEP,
        &|s| {
            assert!(
                !(s.ok && s.reclaimed),
                "sweep reclaimed the region under a validated slot claim"
            );
            assert!(s.ok || s.head.find_slot(1).is_none());
        },
    );
}

#[test]
fn loom_reclaim_vs_lease() {
    every_order::<Recycling>(
        &in_service,
        &[
            |s| s.token = s.head.acquire_write_lease(7),
            |s| s.ok = s.token.is_some() && s.head.revalidate_incarnation(FIRST_INCARNATION),
            |s| {
                if !s.ok {
                    s.head.release_write_lease(7, s.token.unwrap());
                }
            },
        ],
        &SWEEP,
        &|s| {
            assert!(
                !(s.ok && s.reclaimed),
                "sweep reclaimed the region under a validated write lease"
            );
        },
    );
}

#[test]
fn loom_reclaim_vs_fenced_lease() {
    every_order::<Recycling>(
        &in_service,
        &[
            |s| s.token = s.head.acquire_write_lease(7),
            |s| s.ok = s.token.is_some() && s.head.revalidate_incarnation(FIRST_INCARNATION),
            |s| s.ok = s.ok && s.head.lease_held_by(7, s.token.unwrap()),
            |s| {
                if s.ok {
                    s.idx = s.head.claim_slot(1, 0x1001);
                }
            },
            |s| {
                if s.ok && !s.head.revalidate_incarnation(FIRST_INCARNATION) {
                    s.head.pins[s.idx.unwrap()].store_free();
                    s.ok = false;
                }
            },
        ],
        &[
            |s| {
                s.head.force_release_write_lease();
            },
            SWEEP[0],
            SWEEP[1],
            SWEEP[2],
        ],
        &|s| {
            assert!(
                !(s.ok && s.reclaimed),
                "sweep reclaimed the region under a revoked-lease holder that would still install"
            );
        },
    );
}

#[test]
fn lease_words_hold_owner_and_fence() {
    let w = pack_lease(7, 9);
    assert_eq!((lease_owner(w), lease_fence(w)), (7, 9));
    let mut h = ArtifactHead::fresh();
    assert!(h.check_magic());
    assert_eq!(h.acquire_write_lease(7), Some(0));
    assert_eq!(h.acquire_write_lease(8), None);
    assert!(h.lease_held_by(7, 0));
    assert!(!h.release_write_lease(8, 0));
    assert!(h.release_write_lease(7, 0));
    assert!(!h.release_write_lease(7, 0), "a released token is stale");
    assert_eq!(h.acquire_write_lease(7), Some(1));
    assert!(!h.lease_held_by(7, 0));
    assert!(h.force_release_write_lease());
    assert!(!h.force_release_write_lease());
    assert_eq!(h.write_lease_owner(), 0);
}

#[test]
fn slots_are_claimed_until_the_table_is_full() {
    let mut h = ArtifactHead::fresh();
    assert_eq!(ArtifactHead::region_bytes(), 40 + 64 * 24);
    for v in 1..=64u64 {
        assert_eq!(h.claim_slot(v, v * 16), Some(v as usize - 1));
    }
    assert_eq!(h.claim_slot(65, 0), None);
    assert_eq!(h.find_slot(3), Some(2));
    assert_eq!(h.find_slot_with_manifest(3, 48), Some(2));
    assert_eq!(h.find_slot_with_manifest(3, 49), None);
    h.pins[2].store_free();
    assert_eq!(h.find_slot(3), None);
    assert_eq!(h.claim_slot(65, 1), Some(2));
    assert_eq!(h.pins[2].try_unpin(), None);
    h.pins[2].publish_pin();
    assert_eq!(h.pins[2].try_unpin(), Some(1));
}
