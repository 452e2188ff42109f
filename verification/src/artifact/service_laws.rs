//! What attaching, releasing and reading on promise.
use vstd::prelude::*;

use crate::artifact::borrow::more;
use crate::artifact::commit::{
    base_for, current_chunk, lemma_current, version_manifest, version_story, Base, Commit,
};
use crate::artifact::error::Error;
use crate::artifact::handle::Artifact;
use crate::artifact::head::{fence_of, lease_word, ArtifactHead, HeadView};
use crate::artifact::head_laws::a_lease_is_an_owner_and_a_fence;
use crate::artifact::install::{committed, early_refusal, staged_bits, staged_record};
use crate::artifact::journal::JournalRecord;
use crate::artifact::lease::{lease_bounced, open_refusal, opened, with_lease, Committer};
use crate::artifact::live::{current_table, live};
use crate::artifact::manifest::ManifestView;
use crate::artifact::pool::{lemma_at, lemma_has, less, overwritten, released, ChunkPool, ChunkView};
use crate::artifact::reading::{exact_totals, lemma_story};
use crate::artifact::service::{attached, attached_to, still_staged, unused_head};
use crate::artifact::staging::as_published;
use crate::artifact::window::{all_spans, batches, lemma_table_lens};
use crate::chunk::{ChunkDesc, PackedRef};

verus! {

// ---- heads ----

/// Who can attach: whoever finds a whole head, with its mark, that is in service, and if
/// only one occupant will do, that one. The handle is of the occupant in service.
pub proof fn who_can_attach(name_id: u32, expected: u32, h: HeadView, off: nat, len: nat)
    ensures
        ({
            let r = attached(name_id, h, off as int, len as int);
            let s = attached_to(name_id, expected, h, off as int, len as int);
            let whole = off + 1576 <= len && h.magic == 0x3341_4548_414d_4853;
            &&& r is Ok <==> whole && h.incarnation > 0
            &&& r is Ok ==> r->Ok_0.name_id == name_id && r->Ok_0.incarnation == h.incarnation
            &&& r == Err::<Artifact, Error>(Error::BadMagic) <==> !whole
            &&& r == Err::<Artifact, Error>(Error::Stale) <==> whole && h.incarnation == 0
            &&& s is Ok <==> r is Ok && h.incarnation == expected
            &&& s is Ok ==> s == r
            &&& s == Err::<Artifact, Error>(Error::BadMagic) <==> !whole
            &&& s is Err ==> s->Err_0 is BadMagic || s->Err_0 is Stale
        }),
{
}

/// A head that goes into service has no version, no lease, and no slot in use; the fence
/// is the one it is given, and so is the occupant.
pub proof fn what_a_new_head_is(incarnation: u32, fence: u32, j: int)
    ensures
        ({
            let h = unused_head(incarnation, fence);
            &&& h.quiescent()
            &&& h.incarnation == incarnation && h.write_lease == fence
            &&& h.current == 0 && h.manifest_desc == 0 && h.schema_id == 0
            &&& h.magic == 0x3341_4548_414d_4853 && h.pins.len() == 64
            &&& 0 <= j < 64 ==> !h.pins[j].holds() && h.pins[j].pins == 0
        }),
{
}

/// Who holds a lease can commit: to whom it was given, its fence is the one in the head, and
/// so it stays until the lease is given back or broken. Nobody else's is.
pub proof fn a_holder_is_not_fenced(
    art: Artifact,
    h: HeadView,
    owner: u32,
    c: Committer,
    commit: Commit,
    other: u32,
    token: u32,
)
    requires
        open_refusal(art, h) is None,
        opened(art, h, owner, c),
        !(commit is Patch),
    ensures
        ({
            let held = with_lease(h, lease_word(owner, fence_of(h.write_lease)));
            &&& early_refusal(art, held, c.owner, commit, Some(c.token)) is None
            &&& other != owner || token != c.token ==> early_refusal(art, held, other, commit, Some(token))
                == Some(Error::Fenced)
            &&& early_refusal(art, lease_bounced(held), c.owner, commit, Some(c.token)) == Some(Error::Fenced)
            &&& owner != 0 ==> open_refusal(art, held) == Some(Error::WriteLocked)
            &&& open_refusal(art, lease_bounced(held)) is None
        }),
{
    let f = fence_of(h.write_lease);
    crate::artifact::head::released_token_is_stale(owner, 0, f);
    a_lease_is_an_owner_and_a_fence(owner, f, other, token, h.write_lease);
}

/// A record of a staged manifest names it: as long as the chunk that was staged is published
/// and in that generation, the record is of what is still staged.
pub proof fn a_record_names_its_manifest(art: Artifact, d: ChunkDesc, pool: &ChunkPool, k: int)
    requires
        pool.wf(),
        0 <= k < pool@.len(),
        d.segment_id == pool.segment_id,
        d.offset == pool.lay@[k],
    ensures
        staged_record(art, d) matches JournalRecord::StagedManifest {
            artifact_id,
            incarnation,
            manifest,
            generation,
        } && artifact_id == art.name_id && incarnation == art.incarnation && (still_staged(
            pool,
            manifest,
            generation,
        ) <==> pool@[k].state is Published && pool@[k].generation == d.generation),
{
    when_a_manifest_is_still_staged(pool, k, staged_bits(d), d.generation);
}

// ---- references ----

/// `n` references given up one after the other.
pub open spec fn released_times(c: ChunkView, n: nat) -> ChunkView
    decreases n,
{
    if n == 0 {
        c
    } else {
        released(released_times(c, (n - 1) as nat))
    }
}

/// Giving up references at once is giving them up one after the other. Each takes one off
/// the count; with the last one the chunk goes back, unless someone owns it. What a chunk
/// holds stays.
pub proof fn references_are_given_up(c: ChunkView, n: nat)
    requires
        n <= c.refcount,
    ensures
        less(c, n as int) == released_times(c, n),
        n < c.refcount || n == 0 ==> less(c, n as int) == (ChunkView { refcount: (c.refcount - n) as u32, ..c }),
        c.state is Published && c.owner == 0 && n == c.refcount && n > 0 ==> {
            let d = less(c, n as int);
            d.state is Free && !d.allocated && d.generation != c.generation && d.bytes == c.bytes
        },
        c.refcount + n <= u32::MAX && (c.refcount > 0 || n == 0) ==> less(more(c, n as int), n as int) == c,
    decreases n,
{
    if n > 0 {
        references_are_given_up(c, (n - 1) as nat);
        assert(released_times(c, (n - 1) as nat) == less(c, n - 1));
        assert(less(c, n - 1) == (ChunkView { refcount: (c.refcount - (n - 1)) as u32, ..c }));
    }
}

/// A chunk that is published is held by one reference and owned by nobody; what it holds
/// stays, and it goes back when that reference is given up.
pub proof fn what_is_published(c: ChunkView)
    ensures
        as_published(c).state is Published && as_published(c).refcount == 1 && as_published(c).owner == 0,
        as_published(c).bytes == c.bytes && as_published(c).generation == c.generation && as_published(c).len
            == c.len,
        released(as_published(c)).state is Free && !released(as_published(c)).allocated,
{
}

/// What is written to a chunk is at its start, and the rest of it stays.
pub proof fn what_is_written(b: Seq<u8>, data: Seq<u8>, i: int)
    requires
        data.len() <= b.len(),
        0 <= i < b.len(),
    ensures
        overwritten(b, data).len() == b.len(),
        overwritten(b, data)[i] == if i < data.len() {
            data[i]
        } else {
            b[i]
        },
{
}

/// When a staged manifest is given back: when it is still the one that was staged, which is
/// published and in that generation, and no version names it.
pub proof fn when_a_manifest_is_still_staged(pool: &ChunkPool, k: int, bits: u64, generation: u32)
    requires
        pool.wf(),
        0 <= k < pool@.len(),
    ensures
        bits == pool.segment_id * 0x1_0000_0000 + pool.lay@[k] ==> (still_staged(pool, bits, generation)
            <==> pool@[k].generation == generation && pool@[k].state is Published),
        still_staged(pool, bits, generation) ==> exists|j: int|
            0 <= j < pool@.len() && bits == pool.segment_id * 0x1_0000_0000 + #[trigger] pool.lay@[j],
{
    lemma_at(pool.lay@, k);
    let m = PackedRef(bits);
    crate::chunk::packed_ref_round_trip(m, pool.segment_id, pool.lay@[k]);
    if still_staged(pool, bits, generation) {
        lemma_has(pool.lay@, m.spec_offset());
        let j = pool.at(m.spec_offset());
        assert(pool.lay@[j] == m.spec_offset());
    }
}

/// What a descriptor still means: its chunk, as long as that is published and in its
/// generation. What a chunk that was never loaned is given back as: not handed out, and
/// else as it was; any other stays as it is.
pub proof fn what_a_descriptor_means(pool: &ChunkPool, d: ChunkDesc, k: int, j: int)
    requires
        pool.wf(),
        0 <= k < pool@.len(),
        0 <= j < pool@.len(),
        d.segment_id == pool.segment_id,
        d.offset == pool.lay@[k],
    ensures
        pool.current(d) <==> pool@[k].state is Published && pool@[k].generation == d.generation,
        pool@[k].state is Free ==> pool.freed(d)[k] == (ChunkView { allocated: false, ..pool@[k] }),
        !(pool@[k].state is Free) ==> pool.freed(d) == pool@,
        j != k ==> pool.freed(d)[j] == pool@[j],
        pool.freed(d).len() == pool@.len(),
{
    lemma_at(pool.lay@, k);
}

/// When bytes can be written through a descriptor: if its chunk is not published and is long
/// enough. What is missing is told.
pub proof fn when_bytes_are_written(pool: &ChunkPool, d: ChunkDesc, n: nat, k: int)
    requires
        pool.wf(),
        0 <= k < pool@.len(),
        d.segment_id == pool.segment_id,
        d.offset == pool.lay@[k],
        n <= usize::MAX,
    ensures
        ({
            let r = pool.write_refusal(d, n as int);
            &&& r is Ok <==> !(pool@[k].state is Published) && n <= pool@[k].len
            &&& pool@[k].state is Published ==> r == Err::<(), Error>(Error::BadState)
            &&& !(pool@[k].state is Published) && n > pool@[k].len ==> r == Err::<(), Error>(
                Error::ChunkTooSmall { need: n as usize, have: pool@[k].len as usize },
            )
        }),
{
    lemma_at(pool.lay@, k);
}

// ---- tables that can be read on ----

proof fn lemma_total(ch: Seq<ManifestView>)
    requires
        ch.len() > 0,
        exact_totals(ch),
        ch[0].total_batches == ch[0].batch_spans.len(),
    ensures
        ch.last().total_batches == all_spans(ch).len(),
    decreases ch.len(),
{
    let d = ch.drop_last();
    if ch.len() > 1 {
        assert(exact_totals(d)) by {
            assert forall|i: int| 0 < i < d.len() implies (#[trigger] d[i]).total_batches == d[i
                - 1].total_batches + d[i].batch_spans.len() by {
                assert(ch[i].total_batches == ch[i - 1].total_batches + ch[i].batch_spans.len());
            }
        }
        lemma_total(d);
        assert(ch[ch.len() - 1].total_batches == ch[ch.len() - 2].total_batches
            + ch[ch.len() - 1].batch_spans.len());
    } else {
        assert(all_spans(d).len() == 0);
    }
}

/// A table can be read on: as long as its batches can be counted, a commit on top of a
/// table that can be read makes one that can, and its count is that of its batches.
pub proof fn a_table_can_be_read_on(
    h0: &ArtifactHead,
    p0: &ChunkPool,
    h1: &ArtifactHead,
    p1: &ChunkPool,
    name_id: u32,
    commit: Commit,
    staged: Seq<ChunkDesc>,
    spans: Seq<u32>,
    schema_id: u32,
)
    requires
        live(h0, p0, name_id),
        live(h1, p1, name_id),
        h0@.current < u64::MAX,
        committed(h0@, p0, h1@, p1, name_id, h0@.current, commit, staged, spans, schema_id),
        h0@.current != 0 ==> {
            let t0 = current_table(h0@, p0.lay@, p0@);
            exact_totals(t0) && batches(t0).len() + spans.len() <= u32::MAX
        },
    ensures
        exact_totals(current_table(h1@, p1.lay@, p1@)),
        current_table(h1@, p1.lay@, p1@).last().total_batches == batches(
            current_table(h1@, p1.lay@, p1@),
        ).len(),
{
    let t0 = current_table(h0@, p0.lay@, p0@);
    let t1 = current_table(h1@, p1.lay@, p1@);
    let v = (h0@.current + 1) as u64;
    let b = choose|b: Base|
        base_for(b, h0@, p0, h0@.current, commit) && t1 == #[trigger] version_story(
            t0,
            b,
            version_manifest(name_id, v, schema_id, &b, staged, spans),
        );
    let m = version_manifest(name_id, v, schema_id, &b, staged, spans);
    lemma_current(h1, p1, name_id);
    lemma_story(p1, current_chunk(h1@, p1));
    if let Base::Link(_) = b {
        lemma_current(h0, p0, name_id);
        lemma_story(p0, current_chunk(h0@, p0));
        lemma_total(t0);
        lemma_table_lens(t0);
        assert(t1 == t0.push(m));
        assert forall|i: int| 0 < i < t1.len() implies (#[trigger] t1[i]).total_batches == t1[i
            - 1].total_batches + t1[i].batch_spans.len() by {
            if i < t0.len() {
                assert(t0[i].total_batches == t0[i - 1].total_batches + t0[i].batch_spans.len());
            }
        }
    }
    lemma_total(t1);
    lemma_table_lens(t1);
}

} // verus!
