//! What leases, pins, notices and journals promise.
use vstd::prelude::*;

use crate::artifact::config::{doubled, free_chunks, new_pool, sizes, total_size, SizeClass};
use crate::artifact::error::Error;
use crate::artifact::event::VersionEvent;
use crate::artifact::handle::Artifact;
use crate::artifact::head::{fence_of, lease_word, next_fence, owner_of, HeadView, PinSlot};
use crate::artifact::journal::{records, taken, JournalRecord};
use crate::artifact::lease::{lease_bounced, open_refusal};
use crate::artifact::live::{candidate, retirable};
use crate::artifact::manifest::ManifestView;
use crate::artifact::newer::newer;
use crate::artifact::pin::{pin_refusal, unpinned};
use crate::artifact::pool::{next_gen, ChunkPool, ChunkView};
use crate::artifact::service::{endorsed, evicted};
use crate::chunk::ChunkDesc;

verus! {

// ---- leases ----

/// A lease is ordered by its owner, and with one owner by its fence; a word below
/// two to the power of thirty-two is owned by nobody. Every word is a lease.
pub proof fn a_lease_is_an_owner_and_a_fence(a: u32, b: u32, c: u32, d: u32, w: u64)
    ensures
        lease_word(a, b) < lease_word(c, d) <==> a < c || (a == c && b < d),
        lease_word(a, b) == lease_word(c, d) <==> a == c && b == d,
        owner_of(w) == 0 <==> w < 0x1_0000_0000,
        lease_word(owner_of(w), fence_of(w)) == w,
        w < 0x1_0000_0000 ==> fence_of(w) == w,
{
}

/// The fence `n` leases later.
pub open spec fn later_fence(f: u32, n: nat) -> u32
    decreases n,
{
    if n == 0 {
        f
    } else {
        next_fence(later_fence(f, (n - 1) as nat))
    }
}

proof fn lemma_later_fence(f: u32, n: nat)
    ensures
        later_fence(f, n) == (f + n) % 0x1_0000_0000,
    decreases n,
{
    if n > 0 {
        lemma_later_fence(f, (n - 1) as nat);
    }
}

/// No fence comes again before two to the power of thirty-two leases have gone by.
/// So it is with the generations of a chunk.
pub proof fn fences_do_not_come_again(f: u32, m: nat, n: nat)
    requires
        m < n,
        n - m < 0x1_0000_0000,
    ensures
        later_fence(f, m) != later_fence(f, n),
        next_gen(f) == next_fence(f),
{
    lemma_later_fence(f, m);
    lemma_later_fence(f, n);
    let (x, y, w) = (f + m, f + n, 0x1_0000_0000int);
    if x % w == y % w {
        assert(y - x == w * (y / w - x / w));
        let d = y / w - x / w;
        assert(d <= 0 || w * d >= w);
    }
}

/// When a lease is given: when nobody holds it, to whoever knows the head as it is
/// now. Who holds it locks out all others; one who knows another head is stale.
pub proof fn when_a_lease_is_given(art: Artifact, h: HeadView)
    ensures
        open_refusal(art, h) is None <==> h.write_lease < 0x1_0000_0000 && h.incarnation
            == art.incarnation,
        open_refusal(art, h) == Some(Error::WriteLocked) <==> h.write_lease >= 0x1_0000_0000,
        open_refusal(art, h) == Some(Error::Stale) <==> h.write_lease < 0x1_0000_0000 && h.incarnation
            != art.incarnation,
{
}

/// A lease that was given back is nobody's, and its fence is one later. Nothing else
/// in the head changes.
pub proof fn a_lease_given_back_is_free(h: HeadView)
    ensures
        lease_bounced(h).write_lease < 0x1_0000_0000,
        lease_bounced(h).write_lease == (h.write_lease + 1) % 0x1_0000_0000,
        lease_bounced(h) == (HeadView { write_lease: lease_bounced(h).write_lease, ..h }),
{
}

/// What a teardown leaves: no current version, no lease, and no version that nobody
/// pins. What is pinned, or being freed, is left as it was. The fence is one later,
/// and one more if it broke a lease.
pub proof fn what_a_teardown_leaves(h: HeadView, j: int)
    requires
        0 <= j < h.pins.len(),
    ensures
        ({
            let e = evicted(h);
            let s = h.pins[j];
            let broke = h.write_lease >= 0x1_0000_0000;
            &&& e.current == 0 && e.manifest_desc == 0
            &&& e.write_lease < 0x1_0000_0000
            &&& e.write_lease == (h.write_lease + if broke {
                2int
            } else {
                1
            }) % 0x1_0000_0000
            &&& e.incarnation == h.incarnation && e.schema_id == h.schema_id && e.magic == h.magic
            &&& e.pins.len() == h.pins.len()
            &&& s.state == 1 && s.pins == 0 ==> e.pins[j] == (PinSlot {
                version: 0,
                manifest: 0,
                pins: 0,
                state: 0,
            })
            &&& s.state != 1 || s.pins > 0 ==> e.pins[j] == s
        }),
{
}

// ---- slots ----

/// A slot is live or being freed as long as it holds its manifest, and tracks a
/// version only while it is live.
pub proof fn what_a_slot_is(s: PinSlot, v: u64)
    ensures
        s.holds() <==> s.state == 1 || s.state == 2,
        s.tracks(v) <==> s.state == 1 && s.version == v,
        s.marked().state == 2 && s.marked().revived().state == 1 && s.vacated().state == 0,
        s.state == 1 ==> s.marked().revived() == s,
        s.marked().pins == s.pins && s.vacated().pins == s.pins,
        s.vacated().version == 0 && s.vacated().manifest == 0,
        s.pinned().unpinned() == s && s.unpinned().pinned() == s,
        s.pinned().pins == (s.pins + 1) % 0x1_0000_0000,
        s.pinned().state == s.state && s.pinned().version == s.version && s.pinned().manifest
            == s.manifest,
{
}

/// When a version can be pinned: when there is one, by whoever knows the head as it
/// is now.
pub proof fn when_a_version_is_pinned(art: Artifact, h: HeadView)
    ensures
        pin_refusal(art, h) is None <==> h.current > 0 && h.incarnation == art.incarnation,
        pin_refusal(art, h) == Some(Error::VersionGone) <==> h.current == 0,
        pin_refusal(art, h) == Some(Error::Stale) <==> h.current > 0 && h.incarnation != art.incarnation,
{
}

/// What is left of a slot that a pin was given back to: one pin less. Only if that
/// was the last one, and the version is not the current one, is the slot free, so
/// that no older version outlives its pins. Other slots, and the rest of the head,
/// stay.
pub proof fn what_a_pin_leaves(h: HeadView, k: int, j: int)
    requires
        0 <= k < h.pins.len(),
        0 <= j < h.pins.len(),
        h.pins[k].pins > 0,
    ensures
        ({
            let u = unpinned(h, k);
            &&& u == (HeadView { pins: u.pins, ..h }) && u.pins.len() == h.pins.len()
            &&& j != k ==> u.pins[j] == h.pins[j]
            &&& h.pins[k].pins > 1 || h.pins[k].version == h.current ==> u.pins[k] == (PinSlot {
                pins: (h.pins[k].pins - 1) as u32,
                ..h.pins[k]
            })
            &&& h.pins[k].pins == 1 && h.pins[k].version != h.current ==> u.pins[k].state == 0
                && u.pins[k].pins == 0 && u.pins[k].version == 0 && u.pins[k].manifest == 0
        }),
{
}

/// When a version is retired: when nobody pins it and it is not the current one. It
/// is looked for in the first slot that tracks it, and if its manifest is told, in
/// the first that also names that.
pub proof fn when_a_version_is_retired(h: HeadView, version: u64, bits: Option<u64>, k: usize, j: int)
    requires
        k < h.pins.len(),
    ensures
        retirable(h, k as int, version) <==> !(h.current == version || h.pins[k as int].pins > 0),
        candidate(h, version, bits, k) ==> {
            &&& h.pins[k as int].state == 1 && h.pins[k as int].version == version
            &&& bits matches Some(b) ==> h.pins[k as int].manifest == b
            &&& 0 <= j < k && h.pins[j].state == 1 && h.pins[j].version == version ==> bits is Some
                && h.pins[j].manifest != bits->Some_0
        },
{
}

/// When a version names a manifest: when it is the current one, or a live slot does.
pub proof fn when_a_manifest_is_named(h: HeadView, bits: u64, j: int)
    ensures
        h.manifest_desc == bits ==> endorsed(h, bits),
        0 <= j < h.pins.len() && h.pins[j].state == 1 && h.pins[j].manifest == bits ==> endorsed(h, bits),
        endorsed(h, bits) && h.manifest_desc != bits ==> exists|i: int|
            0 <= i < h.pins.len() && (#[trigger] h.pins[i]).state == 1 && h.pins[i].manifest == bits,
{
}

/// A head is quiescent if it has no version, nobody holds its lease, and every slot
/// is free and without pins.
pub proof fn when_a_head_is_quiescent(h: HeadView, j: int)
    ensures
        h.quiescent() ==> h.current == 0 && h.write_lease < 0x1_0000_0000,
        h.quiescent() && 0 <= j < h.pins.len() ==> h.pins[j].state == 0 && h.pins[j].pins == 0,
        !h.quiescent() ==> h.current != 0 || h.write_lease >= 0x1_0000_0000 || exists|i: int|
            0 <= i < h.pins.len() && ((#[trigger] h.pins[i]).state != 0 || h.pins[i].pins != 0),
{
}

// ---- notices ----

/// What a notice is on a topic: the artifact's name in the place of the segment, the
/// kind in that of the generation, the lower half of the version in that of the
/// offset and the upper half in that of the length, under a mark of its own.
/// Whatever has that mark is a notice, and nothing else.
pub proof fn notices_on_a_topic(e: VersionEvent, d: ChunkDesc)
    ensures
        ({
            let n = e.spec_to_desc();
            &&& n.segment_id == e.name_id && n.generation == e.kind && n._pad == 0
            &&& n.schema_id == 0x544e_5645
            &&& n.len * 0x1_0000_0000 + n.offset == e.version
        }),
        VersionEvent::spec_from_desc(d) is Some <==> d.schema_id == 0x544e_5645,
        VersionEvent::spec_from_desc(d) matches Some(x) ==> x.spec_to_desc() == (ChunkDesc { _pad: 0, ..d }),
{
}

// ---- journals ----

/// A journal is read slot by slot: what comes out are the records that are in it,
/// each with its slot, none twice, in the order of their slots.
pub proof fn a_journal_is_read_in_order(s: Seq<Option<JournalRecord>>, i: int)
    requires
        s.len() <= usize::MAX,
    ensures
        ({
            let r = records(s);
            &&& r.len() == taken(s)
            &&& forall|a: int, b: int| 0 <= a < b < r.len() ==> (#[trigger] r[a]).0 < (#[trigger] r[b]).0
            &&& forall|a: int|
                0 <= a < r.len() ==> (#[trigger] r[a]).0 < s.len() && s[r[a].0 as int] == Some(r[a].1)
            &&& 0 <= i < s.len() && s[i] is Some ==> exists|a: int|
                0 <= a < r.len() && #[trigger] r[a] == (i as usize, s[i]->Some_0)
        }),
    decreases s.len(),
{
    if s.len() > 0 {
        let d = s.drop_last();
        a_journal_is_read_in_order(d, i);
        let (p, r) = (records(d), records(s));
        assert forall|a: int| 0 <= a < r.len() implies (#[trigger] r[a]).0 < s.len() && s[r[a].0 as int]
            == Some(r[a].1) by {
            if a < p.len() {
                assert(r[a] == p[a]);
            }
        }
        assert forall|a: int, b: int| 0 <= a < b < r.len() implies (#[trigger] r[a]).0 < (
        #[trigger] r[b]).0 by {
            assert(r[a] == p[a]);
            if b < p.len() {
                assert(r[b] == p[b]);
            }
        }
        if 0 <= i < d.len() && s[i] is Some {
            let a = choose|a: int| 0 <= a < p.len() && #[trigger] p[a] == (i as usize, d[i]->Some_0);
            assert(r[a] == p[a]);
        }
        if i == d.len() && s[i] is Some {
            assert(r[p.len() as int] == (i as usize, s[i]->Some_0));
        }
    }
}

// ---- pools ----

/// How long the chunks of a pool are: class after class, as many of each as it says.
pub proof fn how_long_chunks_are(classes: Seq<SizeClass>, more: Seq<SizeClass>)
    ensures
        sizes(classes + more) == sizes(classes) + sizes(more),
        classes.len() == 1 ==> sizes(classes).len() == classes[0].chunk_count && forall|i: int|
            0 <= i < classes[0].chunk_count ==> #[trigger] sizes(classes)[i] == classes[0].chunk_size,
        classes.len() == 0 ==> sizes(classes).len() == 0,
    decreases more.len(),
{
    if more.len() == 0 {
        assert(classes + more =~= classes);
        assert(sizes(classes) + sizes(more) =~= sizes(classes));
    } else {
        assert((classes + more).drop_last() =~= classes + more.drop_last());
        assert((classes + more).last() == more.last());
        how_long_chunks_are(classes, more.drop_last());
        let tail = Seq::new(more.last().chunk_count as nat, |i: int| more.last().chunk_size);
        assert((sizes(classes) + sizes(more.drop_last())) + tail =~= sizes(classes) + (sizes(
            more.drop_last(),
        ) + tail));
    }
    if classes.len() == 1 {
        assert(classes.drop_last() =~= Seq::<SizeClass>::empty());
        assert(sizes(classes.drop_last()) =~= Seq::<u32>::empty());
    }
}

/// Where the chunks of a new pool are: one right behind the other, the first at
/// sixty-four; each is free, unused, and all zeros.
pub proof fn where_chunks_are(pool: &ChunkPool, segment_id: u32, s: Seq<u32>, i: int)
    requires
        new_pool(pool, segment_id, s),
        64 + total_size(s) <= u32::MAX,
        0 <= i < s.len(),
    ensures
        pool.lay@.len() == s.len() && pool@.len() == s.len(),
        pool.lay@[0] == 64,
        i + 1 < s.len() ==> pool.lay@[i + 1] == pool.lay@[i] + s[i],
        ({
            let c = pool@[i];
            &&& c.len == s[i] && c.bytes.len() == s[i]
            &&& c.state is Free && !c.allocated && c.refcount == 0 && c.owner == 0 && c.generation == 0
            &&& c.story is None
            &&& forall|b: int| 0 <= b < s[i] ==> #[trigger] c.bytes[b] == 0
        }),
        free_chunks(pool@) == s.len(),
{
    lemma_total(s, i);
    lemma_total(s, i + 1);
    assert(s.take(0) =~= Seq::<u32>::empty());
    assert(s.take(i + 1).drop_last() =~= s.take(i));
    assert(s.take(i + 1).last() == s[i]);
    lemma_all_free(pool@);
}

proof fn lemma_total(s: Seq<u32>, i: int)
    requires
        0 <= i <= s.len(),
    ensures
        0 <= total_size(s.take(i)) <= total_size(s),
    decreases s.len() - i, s.len(),
{
    if i == s.len() {
        assert(s.take(i) =~= s);
        lemma_total_pos(s);
    } else {
        lemma_total(s, i + 1);
        assert(s.take(i + 1).drop_last() =~= s.take(i));
        lemma_total_pos(s.take(i));
    }
}

proof fn lemma_total_pos(s: Seq<u32>)
    ensures
        total_size(s) >= 0,
    decreases s.len(),
{
    if s.len() > 0 {
        lemma_total_pos(s.drop_last());
    }
}

proof fn lemma_all_free(p: Seq<ChunkView>)
    requires
        forall|i: int| 0 <= i < p.len() ==> !(#[trigger] p[i]).allocated,
    ensures
        free_chunks(p) == p.len(),
    decreases p.len(),
{
    if p.len() > 0 {
        lemma_all_free(p.drop_last());
    }
}

/// Free chunks are counted one by one: the count is that of the chunks that are not
/// handed out.
pub proof fn how_many_chunks_are_free(p: Seq<ChunkView>)
    ensures
        free_chunks(p) == p.filter(|c: ChunkView| !c.allocated).len(),
    decreases p.len(),
{
    reveal(Seq::filter);
    if p.len() > 0 {
        how_many_chunks_are_free(p.drop_last());
    }
}

/// Each class of chunks is twice as long as the one before.
pub proof fn each_class_is_twice_as_long(min: int, n: nat)
    ensures
        doubled(min, 0) == min,
        doubled(min, n + 1) == doubled(min, n) + doubled(min, n),
        doubled(min, n) == min * vstd::arithmetic::power2::pow2(n),
    decreases n,
{
    vstd::arithmetic::power2::lemma2_to64();
    if n > 0 {
        each_class_is_twice_as_long(min, (n - 1) as nat);
        vstd::arithmetic::power2::lemma_pow2_unfold(n);
        let p = vstd::arithmetic::power2::pow2((n - 1) as nat) as int;
        assert(2 * (min * p) == min * (2 * p)) by (nonlinear_arith);
    }
}

/// A chunk that goes back is free, in the next generation, and nothing is known of
/// it but its bytes, which stay.
pub proof fn what_goes_back(c: ChunkView)
    ensures
        c.returned().state is Free && !c.returned().allocated && c.returned().refcount == 0,
        c.returned().generation == (c.generation + 1) % 0x1_0000_0000,
        c.returned().owner == 0 && c.returned().story is None,
        c.returned().bytes == c.bytes && c.returned().len == c.len,
        c.recycled() == (ChunkView { allocated: c.allocated, ..c.returned() }),
        c.unheld() <==> c.state is Published && c.owner == 0 && c.refcount == 0,
{
}

// ---- newer manifests ----

proof fn lemma_read_before(ch: Seq<ManifestView>, since: u64)
    requires
        ch.len() > 0,
    ensures
        crate::artifact::newer::read_before(ch, since) < ch.len(),
    decreases ch.len(),
{
    if ch.len() > 1 && ch[0].version <= since {
        lemma_read_before(ch.skip(1), since);
    }
}

/// What a reader looks at who has read up to a version: all manifests of the chain
/// after that version, and always the newest.
pub proof fn what_is_newer(ch: Seq<ManifestView>, since: u64)
    requires
        ch.len() > 0,
        forall|i: int, j: int| 0 <= i < j < ch.len() ==> ch[i].version < ch[j].version,
    ensures
        ({
            let n = newer(ch, since);
            let k = ch.len() - n.len();
            &&& 0 < n.len() <= ch.len()
            &&& n == ch.skip(k)
            &&& forall|i: int| 0 <= i < k ==> (#[trigger] ch[i]).version <= since
            &&& forall|i: int| k <= i < ch.len() - 1 ==> (#[trigger] ch[i]).version > since
        }),
    decreases ch.len(),
{
    if ch.len() > 1 && ch[0].version <= since {
        let r = ch.skip(1);
        assert forall|i: int, j: int| 0 <= i < j < r.len() implies r[i].version < r[j].version by {
            assert(ch[i + 1].version < ch[j + 1].version);
        }
        what_is_newer(r, since);
        let k = ch.len() - newer(ch, since).len();
        let m = crate::artifact::newer::read_before(r, since) as int;
        lemma_read_before(r, since);
        assert(ch.skip(1 + m) =~= r.skip(m));
        assert(newer(ch, since) == newer(r, since));
        assert(ch.skip(k) =~= r.skip(k - 1));
        assert forall|i: int| 0 <= i < k implies (#[trigger] ch[i]).version <= since by {
            if i > 0 {
                assert(r[i - 1] == ch[i]);
            }
        }
        assert forall|i: int| k <= i < ch.len() - 1 implies (#[trigger] ch[i]).version > since by {
            assert(r[i - 1] == ch[i]);
        }
    } else {
        assert(ch.skip(0) =~= ch);
        if ch.len() > 1 {
            assert forall|i: int| 0 <= i < ch.len() - 1 implies (#[trigger] ch[i]).version > since by {
                if i > 0 {
                    assert(ch[0].version < ch[i].version);
                }
            }
        }
    }
}

} // verus!
