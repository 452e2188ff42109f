//! What holds of artifacts across operations.
use vstd::prelude::*;

use crate::artifact::commit::Commit;
use crate::artifact::error::Error;
use crate::artifact::handle::Artifact;
use crate::artifact::head::{
    lease_word, next_fence, released_token_is_stale, ArtifactHead, HeadView, MAX_LIVE_VERSIONS,
    NO_VERSION, OWNER_NONE, SLOT_FREE, SLOT_FREEING,
};
use crate::artifact::install::{
    committed, early_refusal, installed, installs, late_refusal, tables_kept,
};
use crate::artifact::lease::lease_bounced;
use crate::artifact::live::{live, slot_ok, table_of, without_slot};
use crate::artifact::pin::{pinned_once_more, unpinned};
use crate::artifact::pool::ChunkPool;
use crate::artifact::service::evicted;

verus! {

/// A pinned version keeps its slot and its table whatever is committed: its
/// reader goes on reading what it read before.
pub proof fn pinned_table_survives_commit(
    h0: HeadView,
    p0: &ChunkPool,
    h1: HeadView,
    p1: &ChunkPool,
    name_id: u32,
    expect: u64,
    commit: Commit,
    staged: Seq<crate::chunk::ChunkDesc>,
    spans: Seq<u32>,
    schema_id: u32,
    j: int,
)
    requires
        expect < u64::MAX,
        h0.pins.len() == MAX_LIVE_VERSIONS,
        committed(h0, p0, h1, p1, name_id, expect, commit, staged, spans, schema_id),
        0 <= j < h0.pins.len(),
        h0.pins[j].holds(),
        h0.pins[j].pins > 0,
    ensures
        h1.pins.len() == h0.pins.len(),
        h1.pins[j] == h0.pins[j],
        table_of(p1.lay@, p1@, h1.pins[j]) == table_of(p0.lay@, p0@, h0.pins[j]),
{
    let v = (expect + 1) as u64;
    let (i, bits) = choose|i: int, bits: u64| #[trigger]
        installs(h0, h1, i, v, bits, schema_id, expect) && tables_kept(h0, p0, h1, p1, i);
    let hi = installed(h0, i, v, bits, schema_id);
    assert(i != j);
    assert(hi.pins[j] == h0.pins[j]);
    if expect != NO_VERSION {
        let k = choose|k: usize|
            crate::artifact::head::first_endorsed(hi.pins, expect, h0.manifest_desc, Some(k)) && h1 == (
            if hi.pins[k as int].pins == 0 {
                #[trigger] without_slot(hi, k as int)
            } else {
                hi
            });
    }
    assert(h1.pins[j] == h0.pins[j]);
}

/// Of two commits that expect the same version, only the first is installed:
/// the second is refused.
pub proof fn one_of_two_wins(
    h0: HeadView,
    p0: &ChunkPool,
    h1: HeadView,
    p1: &ChunkPool,
    name_id: u32,
    expect: u64,
    commit: Commit,
    staged: Seq<crate::chunk::ChunkDesc>,
    spans: Seq<u32>,
    schema_id: u32,
    commit2: Commit,
    staged2: Seq<crate::chunk::ChunkDesc>,
    spans2: Seq<u32>,
    schema_id2: u32,
)
    requires
        expect < u64::MAX,
        committed(h0, p0, h1, p1, name_id, expect, commit, staged, spans, schema_id),
    ensures
        late_refusal(h1, p1, expect, commit2, staged2, spans2, schema_id2) is Some,
        commit2.extends(expect) ==> late_refusal(
            h1,
            p1,
            expect,
            commit2,
            staged2,
            spans2,
            schema_id2,
        ) == Some(Error::Conflict { expected: expect, actual: (expect + 1) as u64 }),
{
}

/// A writer whose lease was broken is out: its commits are refused, before
/// anyone takes the lease again and after.
pub proof fn a_broken_lease_is_out(
    art: Artifact,
    h: HeadView,
    owner: u32,
    token: u32,
    next_owner: u32,
    commit: Commit,
)
    requires
        owner != OWNER_NONE,
        h.write_lease == lease_word(owner, token),
        h.incarnation == art.incarnation,
        !(commit is Patch),
    ensures
        early_refusal(art, lease_bounced(h), owner, commit, Some(token)) == Some(Error::Fenced),
        early_refusal(
            art,
            HeadView { write_lease: lease_word(next_owner, next_fence(token)), ..h },
            owner,
            commit,
            Some(token),
        ) == Some(Error::Fenced),
{
    released_token_is_stale(owner, OWNER_NONE, token);
    released_token_is_stale(owner, next_owner, token);
}

/// A torn-down artifact without pins holds nothing that a sweep would miss.
pub proof fn evicted_without_pins_is_quiescent(h: &ArtifactHead, pool: &ChunkPool, name_id: u32)
    requires
        live(h, pool, name_id),
        forall|j: int| 0 <= j < h@.pins.len() ==> (#[trigger] h@.pins[j]).pins == 0,
        forall|j: int| 0 <= j < h@.pins.len() ==> (#[trigger] h@.pins[j]).state != SLOT_FREEING,
    ensures
        evicted(h@).quiescent(),
{
    let e = evicted(h@);
    released_token_is_stale(
        OWNER_NONE,
        OWNER_NONE,
        crate::artifact::service::fence_after_eviction(h@.write_lease),
    );
    assert forall|j: int| 0 <= j < e.pins.len() implies (#[trigger] e.pins[j]).state == SLOT_FREE
        && e.pins[j].pins == 0 by {
        assert(slot_ok(pool.lay@, pool.segment_id, pool@, name_id, h@.pins[j]));
        assert(h@.pins[j].pins == 0);
    }
}

/// Pinning and giving the pin back changes nothing.
pub proof fn pin_then_unpin_is_nothing(h: HeadView, k: int)
    requires
        0 <= k < h.pins.len(),
        h.pins[k].tracks(h.current),
        h.pins[k].pins < u32::MAX,
    ensures
        unpinned(pinned_once_more(h, k), k) == h,
{
    assert(unpinned(pinned_once_more(h, k), k).pins =~= h.pins);
}

} // verus!
