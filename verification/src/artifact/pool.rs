//! The chunk pool: control words, bytes, and who references what.
//!
//! A chunk is `Free`, `Loaned` to one writer, or `Published` and immutable.
//! A published chunk counts its references and returns to the pool when the
//! last one goes. References come from outside the pool (a version slot, a
//! committer in the middle of its work) and from manifests inside it: a
//! manifest owns one reference on each chunk it lists and one on the manifest
//! it links to.
use vstd::prelude::*;

use crate::artifact::error::Error;
use crate::artifact::manifest::{
    parse_manifest_bytes, parsed, span_sum, Manifest, ManifestLink, ManifestView,
};
use crate::chunk::{ChunkDesc, PackedRef};

verus! {

/// No owner: the chunk's reference count alone keeps it.
pub const OWNER_NONE: u32 = 0;

/// The bytes a segment's own header takes before the first chunk.
pub const POOL_BASE: u32 = 64;

/// The life of a chunk.
#[derive(Clone, Copy, Debug, PartialEq, Eq, Structural)]
pub enum ChunkState {
    /// Not written by anyone; may sit in the pool or be on its way to a writer.
    Free,
    /// Exclusively owned by a writer.
    Loaned,
    /// Immutable and shared.
    Published,
}

/// One chunk with its control words.
pub struct Chunk {
    pub len: u32,
    pub state: ChunkState,
    pub refcount: u32,
    pub owner: u32,
    pub generation: u32,
    /// Handed out by the pool and not yet returned to it.
    pub allocated: bool,
    pub bytes: Vec<u8>,
    /// For a published manifest: the chain it ends, oldest manifest first.
    pub story: Ghost<Option<Seq<ManifestView>>>,
}

/// What a chunk is.
#[verifier::ext_equal]
pub struct ChunkView {
    pub len: u32,
    pub state: ChunkState,
    pub refcount: u32,
    pub owner: u32,
    pub generation: u32,
    pub allocated: bool,
    pub bytes: Seq<u8>,
    pub story: Option<Seq<ManifestView>>,
}

impl View for Chunk {
    type V = ChunkView;

    open spec fn view(&self) -> ChunkView {
        ChunkView {
            len: self.len,
            state: self.state,
            refcount: self.refcount,
            owner: self.owner,
            generation: self.generation,
            allocated: self.allocated,
            bytes: self.bytes@,
            story: self.story@,
        }
    }
}

/// The generation after `g`.
pub open spec fn next_gen(g: u32) -> u32 {
    if g == u32::MAX {
        0
    } else {
        (g + 1) as u32
    }
}

impl ChunkView {
    /// Back to `Free` in a new generation.
    pub open spec fn recycled(self) -> ChunkView {
        ChunkView {
            state: ChunkState::Free,
            refcount: 0,
            owner: OWNER_NONE,
            generation: next_gen(self.generation),
            story: None,
            ..self
        }
    }

    /// Recycled and back in the pool.
    pub open spec fn returned(self) -> ChunkView {
        ChunkView { allocated: false, ..self.recycled() }
    }

    /// Whether nothing holds the published chunk any more.
    pub open spec fn unheld(self) -> bool {
        self.state == ChunkState::Published && self.owner == OWNER_NONE && self.refcount == 0
    }

    /// One reference less.
    pub open spec fn less_one(self) -> ChunkView {
        ChunkView { refcount: (self.refcount - 1) as u32, ..self }
    }
}

impl Chunk {
    /// `Free -> Loaned`, exclusively owned by `owner`.
    pub fn try_loan(&mut self, owner: u32) -> (r: Result<(), Error>)
        ensures
            r is Ok <==> old(self).state == ChunkState::Free,
            r is Err ==> r == Err::<(), Error>(Error::BadState) && *final(self) == *old(self),
            r is Ok ==> final(self)@ == (ChunkView {
                state: ChunkState::Loaned,
                refcount: 0,
                owner,
                ..old(self)@
            }),
    {
        if self.state == ChunkState::Free {
            self.state = ChunkState::Loaned;
            self.refcount = 0;
            self.owner = owner;
            Ok(())
        } else {
            Err(Error::BadState)
        }
    }

    /// `Loaned -> Published` with no reference yet.
    pub fn publish(&mut self) -> (r: Result<(), Error>)
        ensures
            r is Ok <==> old(self).state == ChunkState::Loaned,
            r is Err ==> r == Err::<(), Error>(Error::BadState) && *final(self) == *old(self),
            r is Ok ==> final(self)@ == (ChunkView { state: ChunkState::Published, ..old(self)@ }),
    {
        if self.state == ChunkState::Loaned {
            self.state = ChunkState::Published;
            Ok(())
        } else {
            Err(Error::BadState)
        }
    }

    /// Take one shared reference on a published chunk.
    pub fn borrow_shared(&mut self) -> (r: Result<(), Error>)
        ensures
            r is Ok <==> old(self).state == ChunkState::Published && old(self).refcount < u32::MAX,
            r is Err ==> r == Err::<(), Error>(Error::BadState) && *final(self) == *old(self),
            r is Ok ==> final(self)@ == (ChunkView {
                refcount: (old(self).refcount + 1) as u32,
                ..old(self)@
            }),
    {
        if self.state == ChunkState::Published && self.refcount < u32::MAX {
            self.refcount = self.refcount + 1;
            Ok(())
        } else {
            Err(Error::BadState)
        }
    }

    /// Recycle a published chunk that nothing holds. Of all who try, the one
    /// that finds it so is told `true`.
    pub fn try_reclaim(&mut self) -> (freed: bool)
        ensures
            freed == old(self)@.unheld(),
            final(self)@ == if freed {
                old(self)@.recycled()
            } else {
                old(self)@
            },
    {
        if self.state == ChunkState::Published && self.owner == OWNER_NONE && self.refcount == 0 {
            self.state = ChunkState::Free;
            self.generation = if self.generation == u32::MAX {
                0
            } else {
                self.generation + 1
            };
            self.story = Ghost(None);
            true
        } else {
            false
        }
    }

    /// Give up exclusive ownership; reclaims the chunk if nothing else holds it.
    pub fn owner_release(&mut self) -> (freed: bool)
        ensures
            ({
                let c = ChunkView { owner: OWNER_NONE, ..old(self)@ };
                freed == c.unheld() && final(self)@ == if freed {
                    c.recycled()
                } else {
                    c
                }
            }),
    {
        self.owner = OWNER_NONE;
        self.try_reclaim()
    }

    /// Give up one shared reference; reclaims the chunk if that was the last.
    /// A chunk without a reference is left as it is.
    pub fn release_shared(&mut self) -> (freed: bool)
        ensures
            old(self).refcount == 0 ==> !freed && final(self)@ == old(self)@,
            old(self).refcount > 0 ==> {
                let c = old(self)@.less_one();
                freed == c.unheld() && final(self)@ == if freed {
                    c.recycled()
                } else {
                    c
                }
            },
    {
        if self.refcount == 0 {
            return false;
        }
        self.refcount = self.refcount - 1;
        self.try_reclaim()
    }

    /// Give a loan back unpublished.
    pub fn drop_loan(&mut self) -> (r: Result<(), Error>)
        ensures
            r is Ok <==> old(self).state == ChunkState::Loaned,
            r is Err ==> r == Err::<(), Error>(Error::BadState) && *final(self) == *old(self),
            r is Ok ==> final(self)@ == old(self)@.recycled(),
    {
        if self.state == ChunkState::Loaned {
            self.state = ChunkState::Free;
            self.refcount = 0;
            self.owner = OWNER_NONE;
            self.generation = if self.generation == u32::MAX {
                0
            } else {
                self.generation + 1
            };
            self.story = Ghost(None);
            Ok(())
        } else {
            Err(Error::BadState)
        }
    }

    /// Whether `desc` was minted for this chunk's present generation.
    pub fn validate(&self, desc: &ChunkDesc) -> (ok: bool)
        ensures
            ok == (desc.generation == self.generation),
    {
        desc.generation == self.generation
    }
}

// ---- references ----

/// How often `off` occurs among the listed chunks.
pub open spec fn count_off(s: Seq<ChunkDesc>, off: u32) -> nat
    decreases s.len(),
{
    if s.len() == 0 {
        0
    } else {
        count_off(s.skip(1), off) + if s[0].offset == off {
            1nat
        } else {
            0
        }
    }
}

/// `1` if `prev` links to the chunk at `off`.
pub open spec fn link_off(prev: Option<ManifestLink>, off: u32) -> nat {
    match prev {
        Some(l) => if l.mref.spec_offset() == off {
            1
        } else {
            0
        },
        None => 0,
    }
}

/// How many references the manifest `m` owns on the chunk at `off`.
pub open spec fn uses(m: ManifestView, off: u32) -> nat {
    count_off(m.chunks, off) + link_off(m.prev, off)
}

/// How many references chunk `c` owns on the chunk at `off`.
pub open spec fn owned_on(c: ChunkView, off: u32) -> nat {
    match c.story {
        Some(ch) => uses(ch.last(), off),
        None => 0,
    }
}

/// How many references the pool's manifests own on the chunk at `off`.
pub open spec fn listings(p: Seq<ChunkView>, off: u32) -> nat
    decreases p.len(),
{
    if p.len() == 0 {
        0
    } else {
        listings(p.drop_last(), off) + owned_on(p.last(), off)
    }
}

/// How many references on chunk `i` are held from outside the pool.
pub open spec fn held(lay: Seq<u32>, p: Seq<ChunkView>, i: int) -> int {
    p[i].refcount - listings(p, lay[i])
}

/// Whether some chunk starts at `off`.
pub open spec fn is_laid(lay: Seq<u32>, off: u32) -> bool {
    exists|j: int| 0 <= j < lay.len() && lay[j] == off
}

/// The chunk that starts at `off`.
pub open spec fn at(lay: Seq<u32>, off: u32) -> int {
    choose|j: int| 0 <= j < lay.len() && lay[j] == off
}

/// The layout: distinct offsets, ascending, none of them zero.
pub open spec fn laid_out(lay: Seq<u32>) -> bool {
    &&& forall|i: int| 0 <= i < lay.len() ==> #[trigger] lay[i] > 0
    &&& forall|i: int, j: int| 0 <= i < j < lay.len() ==> lay[i] < lay[j]
}

/// What holds of each chunk by itself.
pub open spec fn chunk_ok(c: ChunkView) -> bool {
    &&& c.bytes.len() == c.len
    &&& c.state != ChunkState::Free ==> c.allocated
    &&& c.state != ChunkState::Published ==> c.refcount == 0 && c.story is None
    &&& c.state == ChunkState::Published && c.owner == OWNER_NONE ==> c.refcount > 0
    &&& c.story matches Some(ch) ==> {
        &&& ch.len() > 0
        &&& c.state == ChunkState::Published
        &&& c.owner == OWNER_NONE
        &&& parsed(c.bytes) == Ok::<ManifestView, Error>(ch.last())
    }
}

/// A listed descriptor names a published data chunk of the generation it says.
pub open spec fn data_ok(lay: Seq<u32>, seg: u32, p: Seq<ChunkView>, d: ChunkDesc) -> bool {
    &&& d.segment_id == seg
    &&& is_laid(lay, d.offset)
    &&& p[at(lay, d.offset)].state == ChunkState::Published
    &&& p[at(lay, d.offset)].generation == d.generation
    &&& p[at(lay, d.offset)].story is None
}

/// A link names the manifest that ends the chain before it.
pub open spec fn link_ok(lay: Seq<u32>, seg: u32, p: Seq<ChunkView>, ch: Seq<ManifestView>, l: ManifestLink) -> bool {
    &&& l.mref.spec_segment_id() == seg
    &&& is_laid(lay, l.mref.spec_offset())
    &&& p[at(lay, l.mref.spec_offset())].generation == l.generation
    &&& p[at(lay, l.mref.spec_offset())].story == Some(ch.drop_last())
    &&& ch.len() > 1
    &&& l.version == ch[ch.len() - 2].version
    &&& l.depth == ch[ch.len() - 2].depth
    &&& ch.last().artifact_id == ch[ch.len() - 2].artifact_id
    &&& ch.last().schema_id == ch[ch.len() - 2].schema_id
}

/// What a manifest refers to is there, and its spans cover its chunk list.
pub open spec fn backed(lay: Seq<u32>, seg: u32, p: Seq<ChunkView>, ch: Seq<ManifestView>) -> bool {
    &&& ch.last().version > 0
    &&& span_sum(ch.last().batch_spans) == ch.last().chunks.len()
    &&& forall|t: int|
        0 <= t < ch.last().chunks.len() ==> data_ok(lay, seg, p, #[trigger] ch.last().chunks[t])
    &&& match ch.last().prev {
        Some(l) => link_ok(lay, seg, p, ch, l),
        None => ch.len() == 1 && ch.last().total_batches == ch.last().batch_spans.len(),
    }
}

/// The pool's invariant: every manifest in it is backed, and no chunk has
/// fewer references than the manifests own on it.
pub open spec fn sound(lay: Seq<u32>, seg: u32, p: Seq<ChunkView>) -> bool {
    &&& laid_out(lay)
    &&& lay.len() == p.len()
    &&& forall|i: int| 0 <= i < p.len() ==> chunk_ok(#[trigger] p[i])
    &&& forall|i: int|
        0 <= i < p.len() && (#[trigger] p[i]).story is Some ==> backed(lay, seg, p, p[i].story->Some_0)
    &&& forall|i: int| 0 <= i < p.len() ==> #[trigger] held(lay, p, i) >= 0
}

// ---- lemmas ----

pub proof fn lemma_at(lay: Seq<u32>, j: int)
    requires
        laid_out(lay),
        0 <= j < lay.len(),
    ensures
        is_laid(lay, lay[j]),
        at(lay, lay[j]) == j,
{
    let k = at(lay, lay[j]);
    assert(0 <= k < lay.len() && lay[k] == lay[j]);
    if k < j {
        assert(lay[k] < lay[j]);
    } else if j < k {
        assert(lay[j] < lay[k]);
    }
}

pub proof fn lemma_has(lay: Seq<u32>, off: u32)
    requires
        laid_out(lay),
        is_laid(lay, off),
    ensures
        0 <= at(lay, off) < lay.len(),
        lay[at(lay, off)] == off,
{
}

pub proof fn lemma_listings_update(p: Seq<ChunkView>, k: int, c: ChunkView, off: u32)
    requires
        0 <= k < p.len(),
    ensures
        listings(p.update(k, c), off) == listings(p, off) - owned_on(p[k], off) + owned_on(c, off),
    decreases p.len(),
{
    let q = p.update(k, c);
    if k == p.len() - 1 {
        assert(q.drop_last() =~= p.drop_last());
    } else {
        assert(q.drop_last() =~= p.drop_last().update(k, c));
        lemma_listings_update(p.drop_last(), k, c, off);
    }
}

pub proof fn lemma_owned_le(p: Seq<ChunkView>, k: int, off: u32)
    requires
        0 <= k < p.len(),
    ensures
        owned_on(p[k], off) <= listings(p, off),
    decreases p.len(),
{
    if k < p.len() - 1 {
        lemma_owned_le(p.drop_last(), k, off);
        assert(p.drop_last()[k] == p[k]);
    }
}

pub proof fn lemma_count_pos(s: Seq<ChunkDesc>, t: int)
    requires
        0 <= t < s.len(),
    ensures
        count_off(s, s[t].offset) > 0,
    decreases s.len(),
{
    if t > 0 {
        lemma_count_pos(s.skip(1), t - 1);
        assert(s.skip(1)[t - 1] == s[t]);
    }
}

pub proof fn lemma_count_skip(s: Seq<ChunkDesc>, k: int, off: u32)
    requires
        0 <= k < s.len(),
    ensures
        count_off(s.skip(k), off) == count_off(s.skip(k + 1), off) + if s[k].offset == off {
            1nat
        } else {
            0
        },
{
    assert(s.skip(k).skip(1) =~= s.skip(k + 1));
    assert(s.skip(k)[0] == s[k]);
}

/// Changing the control words of a chunk that keeps its story, generation and
/// publication leaves every manifest backed.
pub proof fn lemma_backed_frame(lay: Seq<u32>, seg: u32, p: Seq<ChunkView>, q: Seq<ChunkView>, ch: Seq<ManifestView>)
    requires
        laid_out(lay),
        p.len() == lay.len(),
        q.len() == lay.len(),
        backed(lay, seg, p, ch),
        forall|i: int|
            0 <= i < p.len() && uses(ch.last(), lay[i]) > 0 ==> {
                &&& (#[trigger] q[i]).state == p[i].state
                &&& q[i].generation == p[i].generation
                &&& q[i].story == p[i].story
            },
    ensures
        backed(lay, seg, q, ch),
{
    assert forall|t: int| 0 <= t < ch.last().chunks.len() implies data_ok(
        lay,
        seg,
        q,
        #[trigger] ch.last().chunks[t],
    ) by {
        let d = ch.last().chunks[t];
        assert(data_ok(lay, seg, p, d));
        lemma_has(lay, d.offset);
        lemma_count_pos(ch.last().chunks, t);
        let i = at(lay, d.offset);
        assert(q[i].state == p[i].state);
    }
    if ch.last().prev is Some {
        let l = ch.last().prev->Some_0;
        lemma_has(lay, l.mref.spec_offset());
        let i = at(lay, l.mref.spec_offset());
        assert(q[i].state == p[i].state);
    }
}


/// Chunk `b` is chunk `a` but for its reference count, or `a` returned to the
/// pool.
pub open spec fn kept_or_returned(a: ChunkView, b: ChunkView) -> bool {
    b == (ChunkView { refcount: b.refcount, ..a }) || (a.state == ChunkState::Published && b
        == a.returned())
}

/// One released reference.
pub open spec fn released(c: ChunkView) -> ChunkView {
    if c.less_one().unheld() {
        c.less_one().returned()
    } else {
        c.less_one()
    }
}

/// `n` references released.
pub open spec fn less(c: ChunkView, n: int) -> ChunkView {
    let d = ChunkView { refcount: (c.refcount - n) as u32, ..c };
    if n > 0 && d.unheld() {
        d.returned()
    } else {
        d
    }
}

/// Releasing a reference held from outside keeps the pool sound. If it was the
/// last, the references the chunk itself owned are now held from outside.
proof fn lemma_release(lay: Seq<u32>, seg: u32, p: Seq<ChunkView>, i: int)
    requires
        sound(lay, seg, p),
        0 <= i < p.len(),
        held(lay, p, i) >= 1,
    ensures
        p[i].state == ChunkState::Published,
        p[i].refcount > 0,
        ({
            let q = p.update(i, released(p[i]));
            &&& sound(lay, seg, q)
            &&& kept_or_returned(p[i], q[i])
            &&& forall|j: int|
                0 <= j < p.len() ==> #[trigger] held(lay, q, j) == held(lay, p, j) - (if j == i {
                    1int
                } else {
                    0
                }) + if p[i].less_one().unheld() {
                    owned_on(p[i], lay[j]) as int
                } else {
                    0
                }
        }),
{
    let c = p[i];
    let q = p.update(i, released(c));
    let freed = c.less_one().unheld();
    assert(chunk_ok(c));
    assert forall|j: int| 0 <= j < p.len() implies #[trigger] held(lay, q, j) == held(lay, p, j) - (
    if j == i {
        1int
    } else {
        0
    }) + if freed {
        owned_on(c, lay[j]) as int
    } else {
        0
    } by {
        lemma_listings_update(p, i, released(c), lay[j]);
        lemma_owned_le(p, i, lay[j]);
    }
    if freed {
        assert(listings(p, lay[i]) == 0);
    }
    assert forall|j: int| 0 <= j < q.len() && (#[trigger] q[j]).story is Some implies backed(
        lay,
        seg,
        q,
        q[j].story->Some_0,
    ) by {
        let ch = p[j].story->Some_0;
        assert(p[j].story is Some && q[j].story == p[j].story);
        assert(backed(lay, seg, p, ch));
        if freed {
            lemma_owned_le(p, j, lay[i]);
            assert(uses(ch.last(), lay[i]) == 0);
        }
        lemma_backed_frame(lay, seg, p, q, ch);
    }
    assert forall|j: int| 0 <= j < q.len() implies #[trigger] held(lay, q, j) >= 0 by {
        assert(held(lay, p, j) >= 0);
        if j == i && freed {
            lemma_owned_le(p, i, lay[i]);
        }
    }
}

/// A pool of chunks in one segment.
pub struct ChunkPool {
    pub segment_id: u32,
    /// Where each chunk starts.
    pub lay: Vec<u32>,
    pub chunks: Vec<Chunk>,
}

impl View for ChunkPool {
    type V = Seq<ChunkView>;

    open spec fn view(&self) -> Seq<ChunkView> {
        Seq::new(self.chunks@.len(), |i: int| self.chunks@[i]@)
    }
}

impl ChunkPool {
    /// The pool's invariant.
    pub open spec fn wf(&self) -> bool {
        sound(self.lay@, self.segment_id, self@)
    }

    /// Same segment, same chunks in the same places.
    pub open spec fn same_place(&self, other: &ChunkPool) -> bool {
        &&& self.segment_id == other.segment_id
        &&& self.lay@ == other.lay@
    }

    /// Outside references on chunk `i`.
    pub open spec fn held(&self, i: int) -> int {
        held(self.lay@, self@, i)
    }

    /// Whether `off` in segment `seg` names a chunk of this pool.
    pub open spec fn names(&self, seg: u32, off: u32) -> bool {
        seg == self.segment_id && is_laid(self.lay@, off)
    }

    /// The chunk at `off`.
    pub open spec fn at(&self, off: u32) -> int {
        at(self.lay@, off)
    }

    /// The index of the chunk that `seg` and `off` name.
    pub fn find(&self, seg: u32, off: u32) -> (r: Option<usize>)
        requires
            self.wf(),
        ensures
            r is Some <==> self.names(seg, off),
            r matches Some(i) ==> i < self@.len() && i == self.at(off) && self.lay@[i as int] == off,
    {
        if seg != self.segment_id {
            return None;
        }
        let n: usize = self.lay.len();
        let mut lo: usize = 0;
        let mut hi: usize = n;
        while lo < hi
            invariant
                self.wf(),
                seg == self.segment_id,
                n == self.lay@.len(),
                lo <= hi <= n,
                forall|j: int| 0 <= j < lo ==> self.lay@[j] < off,
                forall|j: int| hi <= j < n ==> self.lay@[j] > off,
            decreases hi - lo,
        {
            let mid: usize = lo + (hi - lo) / 2;
            let x: u32 = self.lay[mid];
            if x == off {
                proof {
                    lemma_at(self.lay@, mid as int);
                }
                return Some(mid);
            }
            if x < off {
                lo = mid + 1;
            } else {
                hi = mid;
            }
        }
        None
    }

    /// Release one outside reference on chunk `i`; whether that freed it.
    pub(crate) fn release_at(&mut self, i: usize) -> (freed: bool)
        requires
            old(self).wf(),
            i < old(self)@.len(),
            old(self).held(i as int) >= 1,
        ensures
            final(self).wf(),
            final(self).same_place(old(self)),
            freed == old(self)@[i as int].less_one().unheld(),
            final(self)@ == old(self)@.update(i as int, released(old(self)@[i as int])),
            kept_or_returned(old(self)@[i as int], final(self)@[i as int]),
            forall|j: int|
                0 <= j < old(self)@.len() ==> #[trigger] final(self).held(j) == old(self).held(j) - (
                if j == i {
                    1int
                } else {
                    0
                }) + if freed {
                    owned_on(old(self)@[i as int], old(self).lay@[j]) as int
                } else {
                    0
                },
    {
        let ghost p = self@;
        proof {
            lemma_release(self.lay@, self.segment_id, p, i as int);
        }
        let c: &mut Chunk = &mut self.chunks[i];
        let freed: bool = c.release_shared();
        if freed {
            c.allocated = false;
        }
        proof {
            assert(self@ =~= p.update(i as int, released(p[i as int])));
        }
        freed
    }

    /// Release one outside reference on the data chunk `desc` names, if it
    /// still is the chunk the descriptor was minted for; whether that freed it.
    pub fn release_chunk(&mut self, desc: &ChunkDesc) -> (freed: bool)
        requires
            old(self).wf(),
            old(self).current(*desc) ==> old(self).held(old(self).at(desc.offset)) >= 1,
        ensures
            final(self).wf(),
            final(self).same_place(old(self)),
            !old(self).current(*desc) ==> !freed && final(self)@ == old(self)@,
            old(self).current(*desc) ==> {
                let i = old(self).at(desc.offset);
                &&& freed == old(self)@[i].less_one().unheld()
                &&& final(self)@ == old(self)@.update(i, released(old(self)@[i]))
                &&& kept_or_returned(old(self)@[i], final(self)@[i])
                &&& forall|j: int|
                    0 <= j < old(self)@.len() ==> #[trigger] final(self).held(j) == old(self).held(
                        j,
                    ) - (if j == i {
                        1int
                    } else {
                        0
                    }) + if freed {
                        owned_on(old(self)@[i], old(self).lay@[j]) as int
                    } else {
                        0
                    }
            },
    {
        match self.find(desc.segment_id, desc.offset) {
            Some(i) => {
                assert(self@[i as int] == self.chunks@[i as int]@);
                if self.chunks[i].validate(desc) && self.chunks[i].state == ChunkState::Published {
                    self.release_at(i)
                } else {
                    false
                }
            },
            None => false,
        }
    }

    /// Release one outside reference on each chunk of `list`.
    #[verifier::spinoff_prover]
    pub fn release_all(&mut self, list: &[ChunkDesc])
        requires
            old(self).wf(),
            forall|t: int|
                0 <= t < list@.len() ==> data_ok(
                    old(self).lay@,
                    old(self).segment_id,
                    old(self)@,
                    #[trigger] list@[t],
                ),
            forall|j: int|
                0 <= j < old(self)@.len() ==> #[trigger] old(self).held(j) >= count_off(
                    list@,
                    old(self).lay@[j],
                ),
        ensures
            final(self).wf(),
            final(self).same_place(old(self)),
            final(self)@.len() == old(self)@.len(),
            forall|j: int|
                0 <= j < old(self)@.len() ==> kept_or_returned(old(self)@[j], #[trigger] final(self)@[j]),
            forall|j: int|
                0 <= j < old(self)@.len() ==> #[trigger] final(self)@[j] == less(
                    old(self)@[j],
                    count_off(list@, old(self).lay@[j]) as int,
                ),
            forall|j: int|
                0 <= j < old(self)@.len() ==> #[trigger] final(self).held(j) == old(self).held(j)
                    - count_off(list@, old(self).lay@[j]),
    {
        let n: usize = list.len();
        let mut k: usize = 0;
        proof {
            assert(list@.skip(0) =~= list@);
        }
        while k < n
            invariant
                n == list@.len(),
                k <= n,
                self.wf(),
                self.same_place(old(self)),
                self@.len() == old(self)@.len(),
                forall|t: int|
                    k <= t < n ==> data_ok(self.lay@, self.segment_id, self@, #[trigger] list@[t]),
                forall|j: int|
                    0 <= j < self@.len() ==> #[trigger] self.held(j) >= count_off(
                        list@.skip(k as int),
                        self.lay@[j],
                    ),
                forall|j: int|
                    0 <= j < self@.len() ==> kept_or_returned(old(self)@[j], #[trigger] self@[j]),
                forall|j: int|
                    0 <= j < self@.len() ==> #[trigger] self@[j] == less(
                        old(self)@[j],
                        count_off(list@, self.lay@[j]) - count_off(list@.skip(k as int), self.lay@[j]),
                    ) && count_off(list@, self.lay@[j]) >= count_off(list@.skip(k as int), self.lay@[j]),
                forall|j: int|
                    0 <= j < self@.len() ==> #[trigger] self.held(j) == old(self).held(j) - count_off(
                        list@,
                        self.lay@[j],
                    ) + count_off(list@.skip(k as int), self.lay@[j]),
            decreases n - k,
        {
            let ghost q = self@;
            let ghost lay = self.lay@;
            let ghost d = list@[k as int];
            let ghost i = self.at(d.offset);
            let ghost h = |j: int| self.held(j);
            proof {
                assert(lay == old(self).lay@);
                assert(data_ok(lay, self.segment_id, q, d));
                lemma_has(lay, d.offset);
                lemma_count_skip(list@, k as int, d.offset);
                assert(self.held(i) >= 1);
                assert(q[i].story is None);
            }
            self.release_chunk(&list[k]);
            proof {
                assert forall|j: int| 0 <= j < q.len() implies #[trigger] self@[j] == less(
                    old(self)@[j],
                    count_off(list@, lay[j]) - count_off(list@.skip(k + 1), lay[j]),
                ) && count_off(list@, lay[j]) >= count_off(list@.skip(k + 1), lay[j]) by {
                    lemma_count_skip(list@, k as int, lay[j]);
                    assert(q[j] == less(
                        old(self)@[j],
                        count_off(list@, lay[j]) - count_off(list@.skip(k as int), lay[j]),
                    ));
                    assert(count_off(list@, lay[j]) >= count_off(list@.skip(k as int), lay[j]));
                    if lay[j] == d.offset {
                        lemma_at(lay, j);
                        assert(self@[j] == released(q[j]));
                    } else {
                        assert(j != i);
                        assert(self@[j] == q[j]);
                    }
                }
                assert(self.lay@ == lay);
                assert forall|j: int| 0 <= j < q.len() implies {
                    &&& #[trigger] self.held(j) >= count_off(list@.skip(k + 1), lay[j])
                    &&& self.held(j) == old(self).held(j) - count_off(list@, lay[j]) + count_off(
                        list@.skip(k + 1),
                        lay[j],
                    )
                } by {
                    lemma_count_skip(list@, k as int, lay[j]);
                    assert(h(j) >= count_off(list@.skip(k as int), lay[j]));
                    if lay[j] == d.offset {
                        lemma_at(lay, j);
                    }
                }
                assert forall|t: int| k + 1 <= t < n implies data_ok(
                    lay,
                    self.segment_id,
                    self@,
                    #[trigger] list@[t],
                ) by {
                    assert(data_ok(lay, self.segment_id, q, list@[t]));
                    let jj = at(lay, list@[t].offset);
                    lemma_has(lay, list@[t].offset);
                    if jj == i {
                        lemma_count_pos(list@.skip(k + 1), t - k - 1);
                        assert(list@.skip(k + 1)[t - k - 1] == list@[t]);
                        assert(self.held(i) >= 1);
                        assert(kept_or_returned(q[i], self@[i]));
                    }
                }
            }
            k = k + 1;
        }
        proof {
            assert(list@.skip(n as int) =~= seq![]);
        }
    }

    /// Whether `d` names a published chunk of the generation it was minted for.
    pub open spec fn current(&self, d: ChunkDesc) -> bool {
        &&& self.names(d.segment_id, d.offset)
        &&& self@[self.at(d.offset)].generation == d.generation
        &&& self@[self.at(d.offset)].state == ChunkState::Published
    }

    /// Release one outside reference on the manifest at `mref`. If that was its
    /// last, the manifest goes back to the pool, and with it go the references
    /// it owned: on each chunk it lists, and on the manifest it links to, where
    /// the same happens again.
    pub fn release_manifest_ref(&mut self, mref: PackedRef)
        requires
            old(self).wf(),
            old(self).names(mref.spec_segment_id(), mref.spec_offset()),
            old(self)@[old(self).at(mref.spec_offset())].story is Some,
            old(self).held(old(self).at(mref.spec_offset())) >= 1,
        ensures
            final(self).wf(),
            final(self).same_place(old(self)),
            final(self)@.len() == old(self)@.len(),
            old(self)@[old(self).at(mref.spec_offset())].refcount > 1 ==> final(self)@ == old(self)@.update(
                old(self).at(mref.spec_offset()),
                old(self)@[old(self).at(mref.spec_offset())].less_one(),
            ),
            forall|j: int|
                0 <= j < old(self)@.len() ==> kept_or_returned(old(self)@[j], #[trigger] final(self)@[j]),
            forall|j: int|
                0 <= j < old(self)@.len() ==> #[trigger] final(self).held(j) == old(self).held(j) - (
                if j == old(self).at(mref.spec_offset()) {
                    1int
                } else {
                    0
                }),
    {
        let ghost p0 = self@;
        let ghost i0 = self.at(mref.spec_offset());
        let mut cur: PackedRef = mref;
        loop
            invariant
                self.wf(),
                old(self).wf(),
                old(self).held(i0) >= 1,
                self.same_place(old(self)),
                p0 == old(self)@,
                self@.len() == p0.len(),
                i0 == old(self).at(mref.spec_offset()),
                0 <= i0 < p0.len(),
                p0[i0].refcount > 1 ==> self@ == p0 && cur == mref,
                self.names(cur.spec_segment_id(), cur.spec_offset()),
                self@[self.at(cur.spec_offset())].story is Some,
                forall|j: int| 0 <= j < p0.len() ==> kept_or_returned(p0[j], #[trigger] self@[j]),
                forall|j: int|
                    0 <= j < p0.len() ==> #[trigger] self.held(j) == old(self).held(j) - (if j == i0 {
                        1int
                    } else {
                        0
                    }) + (if j == self.at(cur.spec_offset()) {
                        1int
                    } else {
                        0
                    }),
            decreases self@[self.at(cur.spec_offset())].story->Some_0.len(),
        {
            let ghost q0 = self@;
            let ghost i = self.at(cur.spec_offset());
            let ghost ch = q0[i].story->Some_0;
            proof {
                lemma_has(self.lay@, cur.spec_offset());
                assert(old(self).held(i) >= 0);
                assert(self.held(i) >= 1);
            }
            let ix: usize = match self.find(cur.segment_id(), cur.offset()) {
                Some(ix) => ix,
                None => {
                    return ;
                },
            };
            proof {
                assert(chunk_ok(q0[i]));
                assert(self@[ix as int] == self.chunks@[ix as int]@);
            }
            let m: Manifest = match parse_manifest_bytes(self.chunks[ix].bytes.as_slice()) {
                Ok(m) => m,
                Err(_) => {
                    return ;
                },
            };
            assert(m@ == ch.last());
            proof {
                assert(backed(self.lay@, self.segment_id, q0, ch));
            }
            if !self.release_at(ix) {
                return ;
            }
            let ghost lay = self.lay@;
            let ghost q1 = self@;
            proof {
                assert forall|t: int| 0 <= t < m.chunks@.len() implies data_ok(
                    lay,
                    self.segment_id,
                    q1,
                    #[trigger] m.chunks@[t],
                ) by {
                    assert(data_ok(lay, self.segment_id, q0, ch.last().chunks[t]));
                    lemma_has(lay, m.chunks@[t].offset);
                }
                assert forall|j: int| 0 <= j < q1.len() implies #[trigger] self.held(j) >= count_off(
                    m.chunks@,
                    lay[j],
                ) by {
                    assert(old(self).held(j) >= 0);
                    assert(held(lay, q0, j) >= 0);
                }
            }
            self.release_all(&m.chunks);
            match m.prev {
                Some(l) => {
                    proof {
                        let k = at(lay, l.mref.spec_offset());
                        lemma_has(lay, l.mref.spec_offset());
                        assert(link_ok(lay, self.segment_id, q0, ch, l));
                        assert(q1[k] == q0[k]);
                        assert(old(self).held(k) >= 0);
                        assert(self.held(k) >= 1);
                        assert(kept_or_returned(q1[k], self@[k]));
                        assert(self@[k].story == Some(ch.drop_last()));
                        assert forall|j: int| 0 <= j < p0.len() implies #[trigger] self.held(j)
                            == old(self).held(j) - (if j == i0 {
                            1int
                        } else {
                            0
                        }) + (if j == k {
                            1int
                        } else {
                            0
                        }) by {
                            if lay[j] == l.mref.spec_offset() {
                                lemma_at(lay, j);
                            }
                        }
                    }
                    cur = l.mref;
                },
                None => {
                    return ;
                },
            }
        }
    }
}


// ---- the ways a pool changes ----

/// A chunk that is not published has no references.
pub proof fn lemma_unreferenced(lay: Seq<u32>, seg: u32, p: Seq<ChunkView>, k: int)
    requires
        sound(lay, seg, p),
        0 <= k < p.len(),
        p[k].state != ChunkState::Published,
    ensures
        listings(p, lay[k]) == 0,
        held(lay, p, k) == 0,
        forall|j: int| 0 <= j < p.len() ==> #[trigger] owned_on(p[j], lay[k]) == 0,
{
    assert(chunk_ok(p[k]));
    assert(held(lay, p, k) >= 0);
    assert forall|j: int| 0 <= j < p.len() implies #[trigger] owned_on(p[j], lay[k]) == 0 by {
        lemma_owned_le(p, j, lay[k]);
    }
}

/// Changing a chunk that is not published, and stays so, touches no reference.
pub proof fn lemma_quiet(lay: Seq<u32>, seg: u32, p: Seq<ChunkView>, k: int, c: ChunkView)
    requires
        sound(lay, seg, p),
        0 <= k < p.len(),
        p[k].state != ChunkState::Published,
        c.state != ChunkState::Published,
        chunk_ok(c),
    ensures
        sound(lay, seg, p.update(k, c)),
        forall|j: int| 0 <= j < p.len() ==> #[trigger] held(lay, p.update(k, c), j) == held(lay, p, j),
{
    let q = p.update(k, c);
    assert(chunk_ok(p[k]));
    lemma_unreferenced(lay, seg, p, k);
    assert forall|j: int| 0 <= j < p.len() implies #[trigger] held(lay, q, j) == held(lay, p, j) by {
        lemma_listings_update(p, k, c, lay[j]);
    }
    assert forall|j: int| 0 <= j < q.len() && (#[trigger] q[j]).story is Some implies backed(
        lay,
        seg,
        q,
        q[j].story->Some_0,
    ) by {
        let ch = p[j].story->Some_0;
        assert(backed(lay, seg, p, ch));
        assert(owned_on(p[j], lay[k]) == 0);
        lemma_backed_frame(lay, seg, p, q, ch);
    }
}

/// Publishing a data chunk under one reference.
pub proof fn lemma_publish_data(lay: Seq<u32>, seg: u32, p: Seq<ChunkView>, k: int, c: ChunkView)
    requires
        sound(lay, seg, p),
        0 <= k < p.len(),
        p[k].state != ChunkState::Published,
        c.state == ChunkState::Published,
        c.refcount == 1,
        c.story is None,
        chunk_ok(c),
    ensures
        sound(lay, seg, p.update(k, c)),
        forall|j: int|
            0 <= j < p.len() ==> #[trigger] held(lay, p.update(k, c), j) == held(lay, p, j) + if j
                == k {
                1int
            } else {
                0
            },
{
    let q = p.update(k, c);
    assert(chunk_ok(p[k]));
    lemma_unreferenced(lay, seg, p, k);
    assert forall|j: int| 0 <= j < p.len() implies #[trigger] held(lay, q, j) == held(lay, p, j) + if j
        == k {
        1int
    } else {
        0
    } by {
        lemma_listings_update(p, k, c, lay[j]);
    }
    assert forall|j: int| 0 <= j < q.len() implies #[trigger] held(lay, q, j) >= 0 by {
        assert(held(lay, p, j) >= 0);
    }
    assert forall|j: int| 0 <= j < q.len() && (#[trigger] q[j]).story is Some implies backed(
        lay,
        seg,
        q,
        q[j].story->Some_0,
    ) by {
        let ch = p[j].story->Some_0;
        assert(backed(lay, seg, p, ch));
        assert(owned_on(p[j], lay[k]) == 0);
        lemma_backed_frame(lay, seg, p, q, ch);
    }
}

/// Publishing a manifest under one reference: the references it owns were held
/// from outside and are now its own.
pub proof fn lemma_publish_manifest(lay: Seq<u32>, seg: u32, p: Seq<ChunkView>, k: int, c: ChunkView)
    requires
        sound(lay, seg, p),
        0 <= k < p.len(),
        p[k].state != ChunkState::Published,
        c.state == ChunkState::Published,
        c.refcount == 1,
        c.story is Some,
        chunk_ok(c),
        backed(lay, seg, p, c.story->Some_0),
        forall|j: int| 0 <= j < p.len() ==> #[trigger] held(lay, p, j) >= owned_on(c, lay[j]),
    ensures
        sound(lay, seg, p.update(k, c)),
        forall|j: int|
            0 <= j < p.len() ==> #[trigger] held(lay, p.update(k, c), j) == held(lay, p, j) - owned_on(
                c,
                lay[j],
            ) + if j == k {
                1int
            } else {
                0
            },
{
    let q = p.update(k, c);
    assert(chunk_ok(p[k]));
    lemma_unreferenced(lay, seg, p, k);
    assert forall|j: int| 0 <= j < p.len() implies #[trigger] held(lay, q, j) == held(lay, p, j)
        - owned_on(c, lay[j]) + if j == k {
        1int
    } else {
        0
    } by {
        lemma_listings_update(p, k, c, lay[j]);
    }
    assert(held(lay, p, k) >= owned_on(c, lay[k]));
    assert forall|j: int| 0 <= j < q.len() implies #[trigger] held(lay, q, j) >= 0 by {
        assert(held(lay, p, j) >= owned_on(c, lay[j]));
    }
    assert forall|j: int| 0 <= j < q.len() && (#[trigger] q[j]).story is Some implies backed(
        lay,
        seg,
        q,
        q[j].story->Some_0,
    ) by {
        let ch = if j == k {
            c.story->Some_0
        } else {
            p[j].story->Some_0
        };
        assert(backed(lay, seg, p, ch));
        if j != k {
            assert(owned_on(p[j], lay[k]) == 0);
        }
        assert(uses(ch.last(), lay[k]) == 0);
        lemma_backed_frame(lay, seg, p, q, ch);
    }
}

/// Taking one more outside reference on a published chunk.
pub proof fn lemma_borrow(lay: Seq<u32>, seg: u32, p: Seq<ChunkView>, k: int)
    requires
        sound(lay, seg, p),
        0 <= k < p.len(),
        p[k].state == ChunkState::Published,
        p[k].refcount < u32::MAX,
    ensures
        ({
            let q = p.update(k, ChunkView { refcount: (p[k].refcount + 1) as u32, ..p[k] });
            &&& sound(lay, seg, q)
            &&& forall|j: int|
                0 <= j < p.len() ==> #[trigger] held(lay, q, j) == held(lay, p, j) + if j == k {
                    1int
                } else {
                    0
                }
        }),
{
    let c = ChunkView { refcount: (p[k].refcount + 1) as u32, ..p[k] };
    let q = p.update(k, c);
    assert(chunk_ok(p[k]));
    assert forall|j: int| 0 <= j < p.len() implies #[trigger] held(lay, q, j) == held(lay, p, j) + if j
        == k {
        1int
    } else {
        0
    } by {
        lemma_listings_update(p, k, c, lay[j]);
    }
    assert forall|j: int| 0 <= j < q.len() implies #[trigger] held(lay, q, j) >= 0 by {
        assert(held(lay, p, j) >= 0);
    }
    assert forall|j: int| 0 <= j < q.len() && (#[trigger] q[j]).story is Some implies backed(
        lay,
        seg,
        q,
        q[j].story->Some_0,
    ) by {
        let ch = p[j].story->Some_0;
        assert(backed(lay, seg, p, ch));
        lemma_backed_frame(lay, seg, p, q, ch);
    }
}

/// Whether `c` can be handed out for a request of `size` bytes.
pub open spec fn fits(c: ChunkView, size: int) -> bool {
    !c.allocated && c.len >= size
}

/// Whether chunk `k` is the one handed out for `size` bytes: of the shortest
/// that fit, the first.
pub open spec fn best_fit(p: Seq<ChunkView>, k: int, size: int) -> bool {
    &&& 0 <= k < p.len()
    &&& fits(p[k], size)
    &&& forall|j: int|
        0 <= j < p.len() && fits(#[trigger] p[j], size) ==> p[k].len < p[j].len || (p[k].len
            == p[j].len && k <= j)
}

/// The bytes of a chunk after `data` is copied to its start.
pub open spec fn overwritten(b: Seq<u8>, data: Seq<u8>) -> Seq<u8> {
    data + b.skip(data.len() as int)
}

/// Copy `data` to the start of `b`.
fn overwrite(b: &mut Vec<u8>, data: &[u8])
    requires
        data@.len() <= old(b)@.len(),
    ensures
        final(b)@ == overwritten(old(b)@, data@),
{
    let n: usize = data.len();
    let mut i: usize = 0;
    while i < n
        invariant
            n == data@.len(),
            i <= n,
            n <= old(b)@.len(),
            b@ == data@.take(i as int) + old(b)@.skip(i as int),
        decreases n - i,
    {
        b.set(i, data[i]);
        proof {
            assert(b@ =~= data@.take(i + 1) + old(b)@.skip(i + 1));
        }
        i = i + 1;
    }
    proof {
        assert(data@.take(n as int) =~= data@);
    }
}

impl ChunkPool {
    /// Hand out the shortest free chunk of at least `size` bytes.
    pub fn allocate(&mut self, size: usize) -> (r: Result<ChunkDesc, Error>)
        requires
            old(self).wf(),
        ensures
            final(self).wf(),
            final(self).same_place(old(self)),
            final(self)@.len() == old(self)@.len(),
            forall|j: int| 0 <= j < old(self)@.len() ==> #[trigger] final(self).held(j) == old(self).held(j),
            r is Err <==> forall|j: int|
                0 <= j < old(self)@.len() ==> !fits(#[trigger] old(self)@[j], size as int),
            r matches Err(e) ==> e == Error::Exhausted && final(self)@ == old(self)@,
            r matches Ok(d) ==> {
                let k = old(self).at(d.offset);
                &&& old(self).names(d.segment_id, d.offset)
                &&& best_fit(old(self)@, k, size as int)
                &&& d.generation == old(self)@[k].generation
                &&& d.len == old(self)@[k].len
                &&& d.schema_id == 0
                &&& d._pad == 0
                &&& final(self)@ == old(self)@.update(
                    k,
                    ChunkView { allocated: true, ..old(self)@[k] },
                )
            },
    {
        let n: usize = self.chunks.len();
        let ghost p = self@;
        let mut best: Option<usize> = None;
        let mut i: usize = 0;
        while i < n
            invariant
                n == self.chunks@.len(),
                p == self@,
                i <= n,
                best is None ==> forall|j: int| 0 <= j < i ==> !fits(#[trigger] p[j], size as int),
                best matches Some(k) ==> k < i && fits(p[k as int], size as int) && forall|j: int|
                    0 <= j < i && fits(#[trigger] p[j], size as int) ==> p[k as int].len < p[j].len
                        || (p[k as int].len == p[j].len && k <= j),
            decreases n - i,
        {
            assert(p[i as int] == self.chunks@[i as int]@);
            if !self.chunks[i].allocated && self.chunks[i].len as u64 >= size as u64 {
                match best {
                    None => {
                        best = Some(i);
                    },
                    Some(k) => {
                        assert(p[k as int] == self.chunks@[k as int]@);
                        if self.chunks[i].len < self.chunks[k].len {
                            best = Some(i);
                        }
                    },
                }
            }
            i = i + 1;
        }
        match best {
            None => Err(Error::Exhausted),
            Some(k) => {
                let ghost c = ChunkView { allocated: true, ..p[k as int] };
                proof {
                    lemma_at(self.lay@, k as int);
                    assert(chunk_ok(p[k as int]));
                    lemma_quiet(self.lay@, self.segment_id, p, k as int, c);
                    assert(p[k as int] == self.chunks@[k as int]@);
                }
                let d = ChunkDesc {
                    segment_id: self.segment_id,
                    generation: self.chunks[k].generation,
                    offset: self.lay[k],
                    len: self.chunks[k].len,
                    schema_id: 0,
                    _pad: 0,
                };
                let ck: &mut Chunk = &mut self.chunks[k];
                ck.allocated = true;
                proof {
                    assert(self@ =~= p.update(k as int, c));
                }
                Ok(d)
            },
        }
    }

    /// Copy `data` to the start of the unpublished chunk `desc` names.
    pub fn write(&mut self, desc: &ChunkDesc, data: &[u8]) -> (r: Result<(), Error>)
        requires
            old(self).wf(),
        ensures
            final(self).wf(),
            final(self).same_place(old(self)),
            final(self)@.len() == old(self)@.len(),
            forall|j: int| 0 <= j < old(self)@.len() ==> #[trigger] final(self).held(j) == old(self).held(j),
            r == old(self).write_refusal(*desc, data@.len() as int),
            r is Err ==> final(self)@ == old(self)@,
            r is Ok ==> {
                let k = old(self).at(desc.offset);
                final(self)@ == old(self)@.update(
                    k,
                    ChunkView { bytes: overwritten(old(self)@[k].bytes, data@), ..old(self)@[k] },
                )
            },
    {
        let ghost p = self@;
        match self.find(desc.segment_id, desc.offset) {
            None => Err(Error::OutOfBounds),
            Some(k) => {
                proof {
                    assert(p[k as int] == self.chunks@[k as int]@);
                    assert(chunk_ok(p[k as int]));
                }
                if self.chunks[k].state == ChunkState::Published {
                    return Err(Error::BadState);
                }
                let n: usize = data.len();
                if n > self.chunks[k].bytes.len() {
                    return Err(Error::ChunkTooSmall { need: n, have: self.chunks[k].bytes.len() });
                }
                let ghost c = ChunkView { bytes: overwritten(p[k as int].bytes, data@), ..p[k as int] };
                let ck: &mut Chunk = &mut self.chunks[k];
                overwrite(&mut ck.bytes, data);
                proof {
                    assert(self@ =~= p.update(k as int, c));
                    lemma_quiet(self.lay@, self.segment_id, p, k as int, c);
                }
                Ok(())
            },
        }
    }

    /// Why a write of `n` bytes through `d` is refused.
    pub open spec fn write_refusal(&self, d: ChunkDesc, n: int) -> Result<(), Error> {
        if !self.names(d.segment_id, d.offset) {
            Err(Error::OutOfBounds)
        } else if self@[self.at(d.offset)].state == ChunkState::Published {
            Err(Error::BadState)
        } else if n > self@[self.at(d.offset)].len {
            Err(
                Error::ChunkTooSmall {
                    need: n as usize,
                    have: self@[self.at(d.offset)].len as usize,
                },
            )
        } else {
            Ok(())
        }
    }
}

} // verus!
