//! Staging chunks for a commit: loan, publish, and give back.
use vstd::prelude::*;

use crate::artifact::error::Error;
use crate::artifact::pool::{
    at, chunk_ok, count_off, held, is_laid, lemma_at, lemma_has, lemma_publish_data, lemma_quiet,
    lemma_unreferenced, released, sound, Chunk, ChunkPool, ChunkState, ChunkView, OWNER_NONE,
};
use crate::chunk::ChunkDesc;

verus! {

/// Whether `d` names chunk `j`, which is loaned in the generation `d` says.
pub open spec fn picks(lay: Seq<u32>, seg: u32, p: Seq<ChunkView>, d: ChunkDesc, j: int) -> bool {
    &&& 0 <= j < p.len()
    &&& d.segment_id == seg
    &&& d.offset == lay[j]
    &&& d.generation == p[j].generation
    &&& p[j].state == ChunkState::Loaned
}

/// Whether some descriptor of `s` picks chunk `j`.
pub open spec fn picked(lay: Seq<u32>, seg: u32, p: Seq<ChunkView>, s: Seq<ChunkDesc>, j: int) -> bool {
    exists|t: int| 0 <= t < s.len() && picks(lay, seg, p, #[trigger] s[t], j)
}

/// No two descriptors name the same chunk.
pub open spec fn distinct(s: Seq<ChunkDesc>) -> bool {
    forall|t: int, u: int| 0 <= t < u < s.len() ==> s[t].offset != s[u].offset
}

/// Whether every descriptor of `s` names a loaned chunk of its own.
pub open spec fn stageable(lay: Seq<u32>, seg: u32, p: Seq<ChunkView>, s: Seq<ChunkDesc>) -> bool {
    &&& distinct(s)
    &&& forall|t: int|
        0 <= t < s.len() ==> is_laid(lay, (#[trigger] s[t]).offset) && picks(lay, seg, p, s[t], at(lay, s[t].offset))
}

/// Why chunks that cannot all be staged are refused: because of the first of them
/// that cannot be, which the pool does not have, or which is not loaned, or not
/// any more.
pub open spec fn stage_error(lay: Seq<u32>, seg: u32, p: Seq<ChunkView>, s: Seq<ChunkDesc>) -> Error
    decreases s.len(),
{
    if s.len() > 0 && !stageable(lay, seg, p, s.drop_last()) {
        stage_error(lay, seg, p, s.drop_last())
    } else if s.len() > 0 && (s.last().segment_id != seg || !is_laid(lay, s.last().offset)) {
        Error::OutOfBounds
    } else {
        Error::BadState
    }
}

/// A staged chunk once published: immutable, and held by one reference.
pub open spec fn as_published(c: ChunkView) -> ChunkView {
    ChunkView { state: ChunkState::Published, refcount: 1, owner: OWNER_NONE, ..c }
}

proof fn lemma_count_absent(s: Seq<ChunkDesc>, off: u32)
    requires
        forall|t: int| 0 <= t < s.len() ==> (#[trigger] s[t]).offset != off,
    ensures
        count_off(s, off) == 0,
    decreases s.len(),
{
    if s.len() > 0 {
        assert forall|t: int| 0 <= t < s.skip(1).len() implies (#[trigger] s.skip(1)[t]).offset != off by {
            assert(s.skip(1)[t] == s[t + 1]);
        }
        lemma_count_absent(s.skip(1), off);
    }
}

/// Among distinct descriptors each offset occurs once or not at all.
pub proof fn lemma_count_distinct(s: Seq<ChunkDesc>, off: u32)
    requires
        distinct(s),
    ensures
        count_off(s, off) <= 1,
        count_off(s, off) == 1 <==> exists|t: int| 0 <= t < s.len() && (#[trigger] s[t]).offset == off,
    decreases s.len(),
{
    if s.len() > 0 {
        let r = s.skip(1);
        assert forall|t: int, u: int| 0 <= t < u < r.len() implies r[t].offset != r[u].offset by {
            assert(r[t] == s[t + 1] && r[u] == s[u + 1]);
        }
        lemma_count_distinct(r, off);
        if s[0].offset == off {
            assert forall|t: int| 0 <= t < r.len() implies (#[trigger] r[t]).offset != off by {
                assert(r[t] == s[t + 1]);
            }
            lemma_count_absent(r, off);
        } else {
            if exists|t: int| 0 <= t < s.len() && (#[trigger] s[t]).offset == off {
                let t = choose|t: int| 0 <= t < s.len() && (#[trigger] s[t]).offset == off;
                assert(r[t - 1] == s[t]);
            }
            if exists|t: int| 0 <= t < r.len() && (#[trigger] r[t]).offset == off {
                let t = choose|t: int| 0 <= t < r.len() && (#[trigger] r[t]).offset == off;
                assert(s[t + 1] == r[t]);
            }
        }
    }
}

/// Why publishing the chunk `d` names is refused.
pub open spec fn publish_refusal(lay: Seq<u32>, seg: u32, p: Seq<ChunkView>, d: ChunkDesc) -> Option<Error> {
    if d.segment_id != seg || !is_laid(lay, d.offset) {
        Some(Error::OutOfBounds)
    } else if !picks(lay, seg, p, d, at(lay, d.offset)) {
        Some(Error::BadState)
    } else {
        None
    }
}

impl ChunkPool {
    /// Loan the chunk `desc` names to `owner`.
    pub fn loan(&mut self, desc: &ChunkDesc, owner: u32) -> (r: Result<(), Error>)
        requires
            old(self).wf(),
        ensures
            final(self).wf(),
            final(self).same_place(old(self)),
            forall|j: int| 0 <= j < old(self)@.len() ==> #[trigger] final(self).held(j) == old(self).held(j),
            r == if !old(self).names(desc.segment_id, desc.offset) {
                Err::<(), Error>(Error::OutOfBounds)
            } else if old(self)@[old(self).at(desc.offset)].state == ChunkState::Free && old(self)@[old(
                self,
            ).at(desc.offset)].allocated {
                Ok(())
            } else {
                Err(Error::BadState)
            },
            r is Err ==> final(self)@ == old(self)@,
            r is Ok ==> {
                let k = old(self).at(desc.offset);
                final(self)@ == old(self)@.update(
                    k,
                    ChunkView { state: ChunkState::Loaned, owner, ..old(self)@[k] },
                )
            },
    {
        let ghost p = self@;
        match self.find(desc.segment_id, desc.offset) {
            None => Err(Error::OutOfBounds),
            Some(k) => {
                proof {
                    assert(p[k as int] == self.chunks@[k as int]@);
                    assert(chunk_ok(p[k as int]));
                }
                if !self.chunks[k].allocated {
                    return Err(Error::BadState);
                }
                let c: &mut Chunk = &mut self.chunks[k];
                let r: Result<(), Error> = c.try_loan(owner);
                proof {
                    let q = ChunkView { state: ChunkState::Loaned, owner, ..p[k as int] };
                    if r is Ok {
                        assert(self@ =~= p.update(k as int, q));
                        lemma_quiet(self.lay@, self.segment_id, p, k as int, q);
                    } else {
                        assert(self@ =~= p);
                    }
                }
                match r {
                    Ok(_) => Ok(()),
                    Err(_) => Err(Error::BadState),
                }
            },
        }
    }

    /// Publish one staged chunk: immutable from here on, held by the caller's
    /// one reference, owned by nobody.
    pub fn publish_staged(&mut self, desc: &ChunkDesc) -> (r: Result<(), Error>)
        requires
            old(self).wf(),
        ensures
            final(self).wf(),
            final(self).same_place(old(self)),
            match publish_refusal(old(self).lay@, old(self).segment_id, old(self)@, *desc) {
                Some(e) => r == Err::<(), Error>(e) && final(self)@ == old(self)@,
                None => {
                    let k = old(self).at(desc.offset);
                    &&& r is Ok
                    &&& final(self)@ == old(self)@.update(k, as_published(old(self)@[k]))
                    &&& forall|j: int|
                        0 <= j < old(self)@.len() ==> #[trigger] final(self).held(j) == old(self).held(j)
                            + if j == k {
                            1int
                        } else {
                            0
                        }
                },
            },
    {
        let ghost p = self@;
        match self.find(desc.segment_id, desc.offset) {
            None => Err(Error::OutOfBounds),
            Some(k) => {
                proof {
                    assert(p[k as int] == self.chunks@[k as int]@);
                    assert(chunk_ok(p[k as int]));
                }
                if self.chunks[k].state != ChunkState::Loaned || !self.chunks[k].validate(desc) {
                    return Err(Error::BadState);
                }
                let c: &mut Chunk = &mut self.chunks[k];
                let r1: Result<(), Error> = c.publish();
                let r2: Result<(), Error> = c.borrow_shared();
                let freed: bool = c.owner_release();
                proof {
                    let q = as_published(p[k as int]);
                    assert(r1 is Ok && r2 is Ok && !freed);
                    assert(self@ =~= p.update(k as int, q));
                    lemma_publish_data(self.lay@, self.segment_id, p, k as int, q);
                }
                Ok(())
            },
        }
    }

    /// Give a staged chunk that is still loaned back to the pool.
    pub fn free_loaned(&mut self, desc: &ChunkDesc)
        requires
            old(self).wf(),
        ensures
            final(self).wf(),
            final(self).same_place(old(self)),
            final(self)@.len() == old(self)@.len(),
            forall|j: int| 0 <= j < old(self)@.len() ==> #[trigger] final(self).held(j) == old(self).held(j),
            forall|j: int|
                0 <= j < old(self)@.len() ==> #[trigger] final(self)@[j] == if picks(
                    old(self).lay@,
                    old(self).segment_id,
                    old(self)@,
                    *desc,
                    j,
                ) {
                    old(self)@[j].returned()
                } else {
                    old(self)@[j]
                },
    {
        let ghost p = self@;
        if let Some(k) = self.find(desc.segment_id, desc.offset) {
            proof {
                assert(p[k as int] == self.chunks@[k as int]@);
                assert(chunk_ok(p[k as int]));
                assert forall|j: int| 0 <= j < p.len() && desc.offset == self.lay@[j] implies j == k by {
                    lemma_at(self.lay@, j);
                }
            }
            if self.chunks[k].validate(desc) {
                let c: &mut Chunk = &mut self.chunks[k];
                let r: Result<(), Error> = c.drop_loan();
                if r.is_ok() {
                    c.allocated = false;
                }
                proof {
                    let q = p[k as int].returned();
                    if r is Ok {
                        assert(self@ =~= p.update(k as int, q));
                        lemma_quiet(self.lay@, self.segment_id, p, k as int, q);
                    } else {
                        assert(self@ =~= p);
                    }
                }
            }
        }
    }

    /// Give every staged chunk that is still loaned back to the pool.
    pub fn free_all_loaned(&mut self, staged: &[ChunkDesc])
        requires
            old(self).wf(),
        ensures
            final(self).wf(),
            final(self).same_place(old(self)),
            final(self)@.len() == old(self)@.len(),
            forall|j: int| 0 <= j < old(self)@.len() ==> #[trigger] final(self).held(j) == old(self).held(j),
            forall|j: int|
                0 <= j < old(self)@.len() ==> #[trigger] final(self)@[j] == if picked(
                    old(self).lay@,
                    old(self).segment_id,
                    old(self)@,
                    staged@,
                    j,
                ) {
                    old(self)@[j].returned()
                } else {
                    old(self)@[j]
                },
    {
        let ghost p = self@;
        let ghost lay = self.lay@;
        let ghost seg = self.segment_id;
        let n: usize = staged.len();
        let mut k: usize = 0;
        while k < n
            invariant
                n == staged@.len(),
                k <= n,
                self.wf(),
                self.same_place(old(self)),
                lay == self.lay@,
                seg == self.segment_id,
                p == old(self)@,
                self@.len() == p.len(),
                forall|j: int| 0 <= j < p.len() ==> #[trigger] self.held(j) == old(self).held(j),
                forall|j: int|
                    0 <= j < p.len() ==> #[trigger] self@[j] == if picked(
                        lay,
                        seg,
                        p,
                        staged@.take(k as int),
                        j,
                    ) {
                        p[j].returned()
                    } else {
                        p[j]
                    },
            decreases n - k,
        {
            let ghost q = self@;
            self.free_loaned(&staged[k]);
            proof {
                let d = staged@[k as int];
                let s0 = staged@.take(k as int);
                let s1 = staged@.take(k + 1);
                assert forall|j: int| 0 <= j < p.len() implies #[trigger] self@[j] == if picked(
                    lay,
                    seg,
                    p,
                    s1,
                    j,
                ) {
                    p[j].returned()
                } else {
                    p[j]
                } by {
                    assert(s1[k as int] == d);
                    if picked(lay, seg, p, s0, j) {
                        let t = choose|t: int| 0 <= t < s0.len() && picks(lay, seg, p, #[trigger] s0[t], j);
                        assert(s1[t] == s0[t]);
                    }
                    if picked(lay, seg, p, s1, j) && !picked(lay, seg, p, s0, j) {
                        let t = choose|t: int| 0 <= t < s1.len() && picks(lay, seg, p, #[trigger] s1[t], j);
                        if t < k {
                            assert(s0[t] == s1[t]);
                        }
                        assert(t == k);
                    }
                    assert(q[j] == if picked(lay, seg, p, s0, j) {
                        p[j].returned()
                    } else {
                        p[j]
                    });
                }
            }
            k = k + 1;
        }
        proof {
            assert(staged@.take(n as int) =~= staged@);
        }
    }

    /// Publish every staged chunk. If one cannot be published, all of them are
    /// given back: those already published are released, the others' loans
    /// dropped.
    pub fn publish_all(&mut self, staged: &[ChunkDesc]) -> (r: Result<(), Error>)
        requires
            old(self).wf(),
        ensures
            final(self).wf(),
            final(self).same_place(old(self)),
            final(self)@.len() == old(self)@.len(),
            r is Ok <==> stageable(old(self).lay@, old(self).segment_id, old(self)@, staged@),
            r matches Err(e) ==> e == stage_error(
                old(self).lay@,
                old(self).segment_id,
                old(self)@,
                staged@,
            ),
            r is Ok ==> forall|j: int|
                0 <= j < old(self)@.len() ==> {
                    &&& #[trigger] final(self)@[j] == if picked(
                        old(self).lay@,
                        old(self).segment_id,
                        old(self)@,
                        staged@,
                        j,
                    ) {
                        as_published(old(self)@[j])
                    } else {
                        old(self)@[j]
                    }
                    &&& final(self).held(j) == old(self).held(j) + count_off(staged@, old(self).lay@[j])
                },
            r is Err ==> forall|j: int|
                0 <= j < old(self)@.len() ==> {
                    &&& #[trigger] final(self)@[j] == if picked(
                        old(self).lay@,
                        old(self).segment_id,
                        old(self)@,
                        staged@,
                        j,
                    ) {
                        old(self)@[j].returned()
                    } else {
                        old(self)@[j]
                    }
                    &&& final(self).held(j) == old(self).held(j)
                },
    {
        let ghost p = self@;
        let ghost lay = self.lay@;
        let ghost seg = self.segment_id;
        let n: usize = staged.len();
        let mut k: usize = 0;
        while k < n
            invariant
                n == staged@.len(),
                k <= n,
                old(self).wf(),
                self.wf(),
                self.same_place(old(self)),
                lay == self.lay@,
                seg == self.segment_id,
                p == old(self)@,
                self@.len() == p.len(),
                stageable(lay, seg, p, staged@.take(k as int)),
                forall|j: int|
                    0 <= j < p.len() ==> {
                        &&& #[trigger] self@[j] == if picked(lay, seg, p, staged@.take(k as int), j) {
                            as_published(p[j])
                        } else {
                            p[j]
                        }
                        &&& self.held(j) == old(self).held(j) + if picked(
                            lay,
                            seg,
                            p,
                            staged@.take(k as int),
                            j,
                        ) {
                            1int
                        } else {
                            0
                        }
                    },
            decreases n - k,
        {
            let ghost q = self@;
            let ghost d = staged@[k as int];
            let ghost s0 = staged@.take(k as int);
            let ghost s1 = staged@.take(k + 1);
            match self.publish_staged(&staged[k]) {
                Ok(()) => {
                    proof {
                        let i = at(lay, d.offset);
                        lemma_has(lay, d.offset);
                        assert(q[i].state == ChunkState::Loaned);
                        assert(!picked(lay, seg, p, s0, i));
                        assert(picks(lay, seg, p, d, i));
                        lemma_extend_stage(lay, seg, p, staged@, k as int);
                        assert forall|j: int| 0 <= j < p.len() implies {
                            &&& #[trigger] self@[j] == if picked(lay, seg, p, s1, j) {
                                as_published(p[j])
                            } else {
                                p[j]
                            }
                            &&& self.held(j) == old(self).held(j) + if picked(lay, seg, p, s1, j) {
                                1int
                            } else {
                                0
                            }
                        } by {
                            lemma_picked_push(lay, seg, p, staged@, k as int, j);
                            assert(q[j] == if picked(lay, seg, p, s0, j) {
                                as_published(p[j])
                            } else {
                                p[j]
                            });
                            if picks(lay, seg, p, d, j) {
                                lemma_at(lay, j);
                            }
                        }
                    }
                },
                Err(e) => {
                    proof {
                        assert(s1.take(k as int) =~= s0);
                        assert(s1[k as int] == d);
                        lemma_not_stageable(lay, seg, p, q, s1, k as int);
                        lemma_stage_error(lay, seg, p, staged@, k as int, n as int);
                        assert(staged@.take(n as int) =~= staged@);
                    }
                    self.unpublish(staged, k, Ghost(p));
                    self.free_all_loaned(staged);
                    proof {
                        assert forall|j: int| 0 <= j < p.len() implies {
                            &&& #[trigger] self@[j] == if picked(lay, seg, p, staged@, j) {
                                p[j].returned()
                            } else {
                                p[j]
                            }
                            &&& self.held(j) == old(self).held(j)
                        } by {
                            lemma_picked_mono(lay, seg, p, staged@, k as int, j);
                        }
                    }
                    return Err(e);
                },
            }
            k = k + 1;
        }
        proof {
            assert(staged@.take(n as int) =~= staged@);
            assert forall|j: int| 0 <= j < p.len() implies (if picked(lay, seg, p, staged@, j) {
                1int
            } else {
                0
            }) == count_off(staged@, #[trigger] lay[j]) by {
                lemma_count_distinct(staged@, lay[j]);
                if exists|t: int| 0 <= t < staged@.len() && (#[trigger] staged@[t]).offset == lay[j] {
                    let t = choose|t: int| 0 <= t < staged@.len() && (#[trigger] staged@[t]).offset == lay[j];
                    lemma_at(lay, j);
                    assert(picks(lay, seg, p, staged@[t], j));
                }
            }
        }
        Ok(())
    }

    /// Release the first `k` staged chunks, published a moment ago.
    fn unpublish(&mut self, staged: &[ChunkDesc], k: usize, Ghost(p): Ghost<Seq<ChunkView>>)
        requires
            old(self).wf(),
            k <= staged@.len(),
            p.len() == old(self)@.len(),
            sound(old(self).lay@, old(self).segment_id, p),
            stageable(old(self).lay@, old(self).segment_id, p, staged@.take(k as int)),
            forall|j: int|
                0 <= j < p.len() ==> {
                    &&& #[trigger] old(self)@[j] == if picked(
                        old(self).lay@,
                        old(self).segment_id,
                        p,
                        staged@.take(k as int),
                        j,
                    ) {
                        as_published(p[j])
                    } else {
                        p[j]
                    }
                    &&& old(self).held(j) == held(old(self).lay@, p, j) + if picked(
                        old(self).lay@,
                        old(self).segment_id,
                        p,
                        staged@.take(k as int),
                        j,
                    ) {
                        1int
                    } else {
                        0
                    }
                },
        ensures
            final(self).wf(),
            final(self).same_place(old(self)),
            final(self)@.len() == p.len(),
            forall|j: int|
                0 <= j < p.len() ==> {
                    &&& #[trigger] final(self)@[j] == if picked(
                        old(self).lay@,
                        old(self).segment_id,
                        p,
                        staged@.take(k as int),
                        j,
                    ) {
                        p[j].returned()
                    } else {
                        p[j]
                    }
                    &&& final(self).held(j) == held(old(self).lay@, p, j)
                },
    {
        let ghost lay = self.lay@;
        let ghost seg = self.segment_id;
        let ghost s = staged@.take(k as int);
        let mut i: usize = 0;
        proof {
            assert forall|j: int| 0 <= j < p.len() implies !picked(lay, seg, p, s.take(0), j) by {}
        }
        while i < k
            invariant
                i <= k <= staged@.len(),
                s == staged@.take(k as int),
                self.wf(),
                self.same_place(old(self)),
                lay == self.lay@,
                seg == self.segment_id,
                self@.len() == p.len(),
                sound(lay, seg, p),
                stageable(lay, seg, p, s),
                forall|j: int|
                    0 <= j < p.len() ==> {
                        &&& #[trigger] self@[j] == if picked(lay, seg, p, s.take(i as int), j) {
                            p[j].returned()
                        } else if picked(lay, seg, p, s, j) {
                            as_published(p[j])
                        } else {
                            p[j]
                        }
                        &&& self.held(j) == held(lay, p, j) + if picked(lay, seg, p, s, j) && !picked(
                            lay,
                            seg,
                            p,
                            s.take(i as int),
                            j,
                        ) {
                            1int
                        } else {
                            0
                        }
                    },
            decreases k - i,
        {
            let ghost q = self@;
            let ghost d = s[i as int];
            let ghost x = at(lay, d.offset);
            proof {
                assert(staged@[i as int] == d);
                lemma_has(lay, d.offset);
                assert(picks(lay, seg, p, d, x));
                assert(!picked(lay, seg, p, s.take(i as int), x));
                assert(picked(lay, seg, p, s, x));
                assert(q[x] == as_published(p[x]));
                lemma_unreferenced(lay, seg, p, x);
                assert(chunk_ok(p[x]));
            }
            self.release_chunk(&staged[i]);
            proof {
                assert forall|j: int| 0 <= j < p.len() implies {
                    &&& #[trigger] self@[j] == if picked(lay, seg, p, s.take(i + 1), j) {
                        p[j].returned()
                    } else if picked(lay, seg, p, s, j) {
                        as_published(p[j])
                    } else {
                        p[j]
                    }
                    &&& self.held(j) == held(lay, p, j) + if picked(lay, seg, p, s, j) && !picked(
                        lay,
                        seg,
                        p,
                        s.take(i + 1),
                        j,
                    ) {
                        1int
                    } else {
                        0
                    }
                } by {
                    lemma_picked_push(lay, seg, p, s, i as int, j);
                    if picks(lay, seg, p, d, j) {
                        lemma_at(lay, j);
                    }
                    if j == x {
                        assert(released(q[x]) =~= p[x].returned());
                    }
                    assert(q[j] == if picked(lay, seg, p, s.take(i as int), j) {
                        p[j].returned()
                    } else if picked(lay, seg, p, s, j) {
                        as_published(p[j])
                    } else {
                        p[j]
                    });
                }
            }
            i = i + 1;
        }
        proof {
            assert(s.take(k as int) =~= s);
        }
    }
}

proof fn lemma_picked_push(lay: Seq<u32>, seg: u32, p: Seq<ChunkView>, s: Seq<ChunkDesc>, k: int, j: int)
    requires
        0 <= k < s.len(),
    ensures
        picked(lay, seg, p, s.take(k + 1), j) <==> picked(lay, seg, p, s.take(k), j) || picks(
            lay,
            seg,
            p,
            s[k],
            j,
        ),
{
    let a = s.take(k);
    let b = s.take(k + 1);
    assert(b[k] == s[k]);
    if picked(lay, seg, p, a, j) {
        let t = choose|t: int| 0 <= t < a.len() && picks(lay, seg, p, #[trigger] a[t], j);
        assert(b[t] == a[t]);
    }
    if picked(lay, seg, p, b, j) {
        let t = choose|t: int| 0 <= t < b.len() && picks(lay, seg, p, #[trigger] b[t], j);
        if t < k {
            assert(a[t] == b[t]);
        }
    }
}

proof fn lemma_picked_mono(lay: Seq<u32>, seg: u32, p: Seq<ChunkView>, s: Seq<ChunkDesc>, k: int, j: int)
    requires
        0 <= k <= s.len(),
    ensures
        picked(lay, seg, p, s.take(k), j) ==> picked(lay, seg, p, s, j),
{
    let a = s.take(k);
    if picked(lay, seg, p, a, j) {
        let t = choose|t: int| 0 <= t < a.len() && picks(lay, seg, p, #[trigger] a[t], j);
        assert(s[t] == a[t]);
    }
}

proof fn lemma_extend_stage(lay: Seq<u32>, seg: u32, p: Seq<ChunkView>, s: Seq<ChunkDesc>, k: int)
    requires
        0 <= k < s.len(),
        stageable(lay, seg, p, s.take(k)),
        is_laid(lay, s[k].offset),
        picks(lay, seg, p, s[k], at(lay, s[k].offset)),
        !picked(lay, seg, p, s.take(k), at(lay, s[k].offset)),
    ensures
        stageable(lay, seg, p, s.take(k + 1)),
{
    let a = s.take(k);
    let b = s.take(k + 1);
    assert forall|t: int| 0 <= t < b.len() implies is_laid(lay, (#[trigger] b[t]).offset) && picks(
        lay,
        seg,
        p,
        b[t],
        at(lay, b[t].offset),
    ) by {
        if t < k {
            assert(a[t] == b[t]);
        }
    }
    assert forall|t: int, u: int| 0 <= t < u < b.len() implies b[t].offset != b[u].offset by {
        assert(a[t] == b[t]);
        if u < k {
            assert(a[u] == b[u]);
        } else if b[t].offset == s[k].offset {
            assert(picks(lay, seg, p, a[t], at(lay, s[k].offset)));
        }
    }
}

/// If the next chunk cannot be published after the first `k` were, the list is
/// not stageable as a whole.
proof fn lemma_not_stageable(
    lay: Seq<u32>,
    seg: u32,
    p: Seq<ChunkView>,
    q: Seq<ChunkView>,
    s: Seq<ChunkDesc>,
    k: int,
)
    requires
        0 <= k < s.len(),
        q.len() == p.len(),
        lay.len() == p.len(),
        stageable(lay, seg, p, s.take(k)),
        forall|j: int|
            0 <= j < p.len() ==> #[trigger] q[j] == if picked(lay, seg, p, s.take(k), j) {
                as_published(p[j])
            } else {
                p[j]
            },
        publish_refusal(lay, seg, q, s[k]) is Some,
    ensures
        !stageable(lay, seg, p, s),
{
    if stageable(lay, seg, p, s) {
        let x = at(lay, s[k].offset);
        assert(picks(lay, seg, p, s[k], x));
        let a = s.take(k);
        if picked(lay, seg, p, a, x) {
            let t = choose|t: int| 0 <= t < a.len() && picks(lay, seg, p, #[trigger] a[t], x);
            assert(a[t] == s[t]);
            assert(s[t].offset != s[k].offset);
        }
    }
}

/// If chunk `k` is the first that cannot be staged, it is why a longer list is
/// refused.
proof fn lemma_stage_error(
    lay: Seq<u32>,
    seg: u32,
    p: Seq<ChunkView>,
    s: Seq<ChunkDesc>,
    k: int,
    n: int,
)
    requires
        0 <= k < n <= s.len(),
        stageable(lay, seg, p, s.take(k)),
        !stageable(lay, seg, p, s.take(k + 1)),
    ensures
        !stageable(lay, seg, p, s.take(n)),
        stage_error(lay, seg, p, s.take(n)) == if s[k].segment_id != seg || !is_laid(
            lay,
            s[k].offset,
        ) {
            Error::OutOfBounds
        } else {
            Error::BadState
        },
    decreases n,
{
    let b = s.take(n);
    assert(b.drop_last() =~= s.take(n - 1));
    if n > k + 1 {
        lemma_stage_error(lay, seg, p, s, k, n - 1);
        let a = s.take(n - 1);
        if stageable(lay, seg, p, b) {
            assert forall|t: int| 0 <= t < a.len() implies is_laid(lay, (#[trigger] a[t]).offset)
                && picks(lay, seg, p, a[t], at(lay, a[t].offset)) by {
                assert(a[t] == b[t]);
            }
            assert forall|t: int, u: int| 0 <= t < u < a.len() implies a[t].offset != a[u].offset by {
                assert(a[t] == b[t] && a[u] == b[u]);
            }
        }
    } else {
        assert(b.last() == s[k]);
    }
}

} // verus!
