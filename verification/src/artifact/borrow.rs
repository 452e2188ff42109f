//! Taking references on behalf of a version in the making, and staging its
//! manifest, which then owns them.
use vstd::prelude::*;

use crate::artifact::error::Error;
use crate::artifact::manifest::{header_at, image, parsed, well_formed, ManifestView};
use crate::artifact::pool::{
    at, backed, best_fit, chunk_ok, count_off, data_ok, fits, held, lemma_at, lemma_backed_frame,
    lemma_borrow, lemma_has, lemma_publish_manifest, lemma_unreferenced, overwritten, owned_on,
    uses, Chunk, ChunkPool, ChunkState, ChunkView, OWNER_NONE,
};
use crate::chunk::{ChunkDesc, PackedRef};

verus! {

/// `n` references more.
pub open spec fn more(c: ChunkView, n: int) -> ChunkView {
    ChunkView { refcount: (c.refcount + n) as u32, ..c }
}

/// Whether the count of every listed chunk has room for the whole list.
pub open spec fn has_room(pool: &ChunkPool, list: Seq<ChunkDesc>) -> bool {
    forall|t: int|
        0 <= t < list.len() ==> pool@[pool.at((#[trigger] list[t]).offset)].refcount + list.len()
            <= u32::MAX
}

impl ChunkPool {
    /// Take one reference on the published chunk at `mref`.
    pub(crate) fn borrow_at(&mut self, mref: PackedRef) -> (r: Result<(), Error>)
        requires
            old(self).wf(),
            old(self).names(mref.spec_segment_id(), mref.spec_offset()),
            old(self)@[old(self).at(mref.spec_offset())].state == ChunkState::Published,
        ensures
            final(self).wf(),
            final(self).same_place(old(self)),
            ({
                let i = old(self).at(mref.spec_offset());
                &&& r is Ok <==> old(self)@[i].refcount < u32::MAX
                &&& r is Err ==> final(self)@ == old(self)@
                &&& r is Ok ==> {
                    &&& final(self)@ == old(self)@.update(i, more(old(self)@[i], 1))
                    &&& forall|j: int|
                        0 <= j < old(self)@.len() ==> #[trigger] final(self).held(j) == old(self).held(j)
                            + if j == i {
                            1int
                        } else {
                            0
                        }
                }
            }),
    {
        let ghost p = self@;
        proof {
            lemma_has(self.lay@, mref.spec_offset());
        }
        match self.find(mref.segment_id(), mref.offset()) {
            None => Err(Error::OutOfBounds),
            Some(i) => {
                assert(p[i as int] == self.chunks@[i as int]@);
                let c: &mut Chunk = &mut self.chunks[i];
                let r: Result<(), Error> = c.borrow_shared();
                proof {
                    if r is Ok {
                        assert(self@ =~= p.update(i as int, more(p[i as int], 1)));
                        lemma_borrow(self.lay@, self.segment_id, p, i as int);
                    } else {
                        assert(self@ =~= p);
                    }
                }
                r
            },
        }
    }

    /// Take one reference on each listed data chunk, or none at all if a count
    /// could overflow.
    pub(crate) fn borrow_all(&mut self, list: &[ChunkDesc]) -> (ok: bool)
        requires
            old(self).wf(),
            forall|t: int|
                0 <= t < list@.len() ==> data_ok(
                    old(self).lay@,
                    old(self).segment_id,
                    old(self)@,
                    #[trigger] list@[t],
                ),
        ensures
            final(self).wf(),
            final(self).same_place(old(self)),
            final(self)@.len() == old(self)@.len(),
            ok == has_room(old(self), list@),
            !ok ==> final(self)@ == old(self)@,
            ok ==> forall|j: int|
                0 <= j < old(self)@.len() ==> {
                    &&& #[trigger] final(self)@[j] == more(
                        old(self)@[j],
                        count_off(list@, old(self).lay@[j]) as int,
                    )
                    &&& old(self)@[j].refcount + count_off(list@, old(self).lay@[j]) <= u32::MAX
                    &&& final(self).held(j) == old(self).held(j) + count_off(list@, old(self).lay@[j])
                },
    {
        let ghost p = self@;
        let ghost lay = self.lay@;
        let ghost seg = self.segment_id;
        let n: usize = list.len();
        let mut k: usize = 0;
        while k < n
            invariant
                n == list@.len(),
                k <= n,
                *self == *old(self),
                self.wf(),
                p == self@,
                forall|t: int|
                    0 <= t < n ==> data_ok(self.lay@, self.segment_id, self@, #[trigger] list@[t]),
                forall|t: int|
                    0 <= t < k ==> p[self.at((#[trigger] list@[t]).offset)].refcount + n <= u32::MAX,
            decreases n - k,
        {
            proof {
                assert(data_ok(self.lay@, self.segment_id, self@, list@[k as int]));
            }
            if let Some(i) = self.find(list[k].segment_id, list[k].offset) {
                assert(p[i as int] == self.chunks@[i as int]@);
                if self.chunks[i].refcount as u64 > u32::MAX as u64 || n as u64 > u32::MAX as u64
                    || self.chunks[i].refcount as u64 + n as u64 > u32::MAX as u64 {
                    return false;
                }
            }
            k = k + 1;
        }
        k = 0;
        proof {
            assert(list@.skip(0) =~= list@);
            assert forall|j: int| 0 <= j < p.len() implies p[j].refcount + count_off(
                list@,
                #[trigger] lay[j],
            ) <= u32::MAX by {
                lemma_count_le(list@, lay[j]);
                if count_off(list@, lay[j]) > 0 {
                    lemma_count_some(list@, lay[j]);
                    let t = choose|t: int| 0 <= t < list@.len() && (#[trigger] list@[t]).offset == lay[j];
                    lemma_at(lay, j);
                    assert(self.at(list@[t].offset) == j);
                }
            }
        }
        while k < n
            invariant
                n == list@.len(),
                k <= n,
                self.wf(),
                self.same_place(old(self)),
                lay == self.lay@,
                seg == self.segment_id,
                p == old(self)@,
                self@.len() == p.len(),
                forall|t: int| 0 <= t < n ==> data_ok(lay, seg, p, #[trigger] list@[t]),
                forall|j: int|
                    0 <= j < p.len() ==> p[j].refcount + count_off(list@, #[trigger] lay[j]) <= u32::MAX,
                forall|j: int|
                    0 <= j < p.len() ==> {
                        &&& #[trigger] self@[j] == more(
                            p[j],
                            count_off(list@, lay[j]) - count_off(list@.skip(k as int), lay[j]),
                        )
                        &&& count_off(list@, lay[j]) >= count_off(list@.skip(k as int), lay[j])
                        &&& self.held(j) == old(self).held(j) + count_off(list@, lay[j]) - count_off(
                            list@.skip(k as int),
                            lay[j],
                        )
                    },
            decreases n - k,
        {
            let ghost q = self@;
            let ghost d = list@[k as int];
            let ghost i = at(lay, d.offset);
            proof {
                assert(data_ok(lay, seg, p, d));
                lemma_has(lay, d.offset);
                lemma_count_skip_here(list@, k as int, d.offset);
                assert(p[i].refcount + count_off(list@, lay[i]) <= u32::MAX);
                assert(q[i].refcount < u32::MAX);
                assert(q[i].state == ChunkState::Published);
            }
            let mref: PackedRef = PackedRef::from_desc(&list[k]);
            let r: Result<(), Error> = self.borrow_at(mref);
            proof {
                assert(r is Ok);
                assert forall|j: int| 0 <= j < p.len() implies {
                    &&& #[trigger] self@[j] == more(
                        p[j],
                        count_off(list@, lay[j]) - count_off(list@.skip(k + 1), lay[j]),
                    )
                    &&& count_off(list@, lay[j]) >= count_off(list@.skip(k + 1), lay[j])
                    &&& self.held(j) == old(self).held(j) + count_off(list@, lay[j]) - count_off(
                        list@.skip(k + 1),
                        lay[j],
                    )
                } by {
                    lemma_count_skip_here(list@, k as int, lay[j]);
                    assert(q[j] == more(
                        p[j],
                        count_off(list@, lay[j]) - count_off(list@.skip(k as int), lay[j]),
                    ));
                    assert(p[j].refcount + count_off(list@, lay[j]) <= u32::MAX);
                    if lay[j] == d.offset {
                        lemma_at(lay, j);
                    }
                }
            }
            k = k + 1;
        }
        proof {
            assert(list@.skip(n as int) =~= seq![]);
        }
        true
    }
}

proof fn lemma_count_skip_here(s: Seq<ChunkDesc>, k: int, off: u32)
    requires
        0 <= k < s.len(),
    ensures
        count_off(s.skip(k), off) == count_off(s.skip(k + 1), off) + if s[k].offset == off {
            1nat
        } else {
            0
        },
{
    crate::artifact::pool::lemma_count_skip(s, k, off);
}

proof fn lemma_count_le(s: Seq<ChunkDesc>, off: u32)
    ensures
        count_off(s, off) <= s.len(),
    decreases s.len(),
{
    if s.len() > 0 {
        lemma_count_le(s.skip(1), off);
    }
}

pub proof fn lemma_count_some(s: Seq<ChunkDesc>, off: u32)
    requires
        count_off(s, off) > 0,
    ensures
        exists|t: int| 0 <= t < s.len() && (#[trigger] s[t]).offset == off,
    decreases s.len(),
{
    if s.len() > 0 {
        if s[0].offset != off {
            lemma_count_some(s.skip(1), off);
            let t = choose|t: int| 0 <= t < s.skip(1).len() && (#[trigger] s.skip(1)[t]).offset == off;
            assert(s[t + 1] == s.skip(1)[t]);
        }
    }
}

/// A manifest record followed by other bytes parses as the record alone.
pub proof fn parsed_ignores_what_follows(b: Seq<u8>, rest: Seq<u8>)
    requires
        parsed(b) is Ok,
    ensures
        parsed(b + rest) == parsed(b),
{
    reveal(parsed);
    let c = b + rest;
    let h = header_at(b);
    assert(header_at(c) == h);
    assert(image(c).chunks =~= image(b).chunks);
    assert(image(c).batch_spans =~= image(b).batch_spans);
    assert(image(c).kept =~= image(b).kept);
    assert(image(c) == image(b));
    assert(crate::artifact::manifest::kept_padding_zero(c)) by {
        let w = crate::artifact::manifest::window_at(h.chunk_count as int, h.batch_count as int);
        assert forall|i: int| 0 <= i < h.kept_count implies crate::le::u32_at(
            c,
            #[trigger] crate::artifact::manifest::kept_pad_at(w, i),
        ) == 0 by {
            let a = crate::artifact::manifest::kept_pad_at(w, i);
            assert(crate::le::u32_at(b, a) == 0);
        }
    }
    assert(well_formed(c));
}

/// The chunk of a staged manifest: published, held by one reference.
pub open spec fn manifest_chunk(c: ChunkView, bytes: Seq<u8>, story: Seq<ManifestView>) -> ChunkView {
    ChunkView {
        state: ChunkState::Published,
        refcount: 1,
        owner: OWNER_NONE,
        allocated: true,
        bytes: overwritten(c.bytes, bytes),
        story: Some(story),
        ..c
    }
}

impl ChunkPool {
    /// Stage a manifest: allocate a chunk, write the record, publish it under
    /// the caller's one reference. From here on the manifest owns the
    /// references the caller held for it.
    pub(crate) fn stage_manifest(
        &mut self,
        bytes: &[u8],
        owner: u32,
        story: Ghost<Seq<ManifestView>>,
    ) -> (r: Result<ChunkDesc, Error>)
        requires
            old(self).wf(),
            story@.len() > 0,
            parsed(bytes@) == Ok::<ManifestView, Error>(story@.last()),
            backed(old(self).lay@, old(self).segment_id, old(self)@, story@),
            forall|j: int|
                0 <= j < old(self)@.len() ==> #[trigger] old(self).held(j) >= uses(
                    story@.last(),
                    old(self).lay@[j],
                ),
        ensures
            final(self).wf(),
            final(self).same_place(old(self)),
            r is Err <==> forall|j: int|
                0 <= j < old(self)@.len() ==> !fits(#[trigger] old(self)@[j], bytes@.len() as int),
            r matches Err(e) ==> e == Error::Exhausted && final(self)@ == old(self)@,
            r matches Ok(d) ==> {
                let k = old(self).at(d.offset);
                &&& old(self).names(d.segment_id, d.offset)
                &&& best_fit(old(self)@, k, bytes@.len() as int)
                &&& d.generation == old(self)@[k].generation
                &&& final(self)@ == old(self)@.update(
                    k,
                    manifest_chunk(old(self)@[k], bytes@, story@),
                )
                &&& forall|j: int|
                    0 <= j < old(self)@.len() ==> #[trigger] final(self).held(j) == old(self).held(j)
                        - uses(story@.last(), old(self).lay@[j]) + if j == k {
                        1int
                    } else {
                        0
                    }
            },
    {
        let ghost p0 = self@;
        let ghost lay = self.lay@;
        let ghost seg = self.segment_id;
        let ghost m = story@.last();
        let d: ChunkDesc = match self.allocate(bytes.len()) {
            Err(e) => {
                return Err(e);
            },
            Ok(d) => d,
        };
        let ghost k = self.at(d.offset);
        let ghost p1 = self@;
        proof {
            assert forall|j: int| 0 <= j < p1.len() implies #[trigger] held(lay, p1, j) == held(
                lay,
                p0,
                j,
            ) by {
                assert(self.held(j) == old(self).held(j));
            }
            lemma_has(lay, d.offset);
            assert(chunk_ok(p0[k]));
            lemma_unreferenced(lay, seg, p0, k);
        }
        let w: Result<(), Error> = self.write(&d, bytes);
        let ghost p2 = self@;
        let i: usize = match self.find(d.segment_id, d.offset) {
            Some(i) => i,
            None => {
                return Err(Error::OutOfBounds);
            },
        };
        proof {
            assert(w is Ok);
            assert(chunk_ok(p2[k]));
            // the manifest uses nothing in chunk `k`
            assert(uses(m, lay[k]) == 0) by {
                assert(old(self).held(k) >= uses(m, lay[k]));
            }
            assert forall|j: int| 0 <= j < p2.len() implies #[trigger] held(lay, p2, j) == old(
                self,
            ).held(j) by {
                assert(self.held(j) == held(lay, p2, j));
                assert(held(lay, p1, j) == held(lay, p0, j));
            }
            lemma_backed_frame(lay, seg, p0, p2, story@);
            assert(p2[k] == self.chunks@[i as int]@);
        }
        let c: &mut Chunk = &mut self.chunks[i];
        let r1: Result<(), Error> = c.try_loan(owner);
        let r2: Result<(), Error> = c.publish();
        let r3: Result<(), Error> = c.borrow_shared();
        let freed: bool = c.owner_release();
        c.story = Ghost(Some(story@));
        proof {
            assert(r1 is Ok && r2 is Ok && r3 is Ok && !freed);
            let q = manifest_chunk(p0[k], bytes@, story@);
            assert(self@ =~= p2.update(k, q));
            assert(self@ =~= p0.update(k, q));
            parsed_ignores_what_follows(bytes@, p0[k].bytes.skip(bytes@.len() as int));
            assert forall|j: int| 0 <= j < p2.len() implies #[trigger] held(lay, p2, j) >= owned_on(
                q,
                lay[j],
            ) by {
                assert(old(self).held(j) >= uses(m, lay[j]));
            }
            lemma_publish_manifest(lay, seg, p2, k, q);
        }
        Ok(d)
    }
}

} // verus!
