//! Walking a chain of manifests.
//!
//! The table of a version is its manifest and everything reachable through the
//! links. The walk trusts nothing it reads: it bounds the number of hops by the
//! head's depth, and it checks each manifest against the link that led to it.
use vstd::prelude::*;

use crate::artifact::error::Error;
use crate::artifact::manifest::{Manifest, ManifestLink, ManifestView};

verus! {

/// A copy of `v`.
pub fn copy_vec<T: Copy>(v: &Vec<T>) -> (r: Vec<T>)
    ensures
        r@ == v@,
{
    let n: usize = v.len();
    let mut r: Vec<T> = Vec::new();
    let mut i: usize = 0;
    while i < n
        invariant
            n == v@.len(),
            i <= n,
            r@ == v@.take(i as int),
        decreases n - i,
    {
        r.push(v[i]);
        proof {
            assert(v@.take(i + 1) =~= v@.take(i as int).push(v@[i as int]));
        }
        i = i + 1;
    }
    proof {
        assert(v@.take(n as int) =~= v@);
    }
    r
}

impl Manifest {
    /// The link a successor that extends this manifest records, given where it
    /// lives and its chunk's generation.
    pub fn link_from(&self, mref: crate::chunk::PackedRef, generation: u32) -> (l: ManifestLink)
        ensures
            l == link_to(self@, mref, generation),
    {
        ManifestLink {
            version: self.version,
            mref,
            generation,
            depth: self.depth,
            total_batches: self.total_batches,
        }
    }

    /// A copy of the manifest.
    pub fn duplicate(&self) -> (m: Manifest)
        ensures
            m@ == self@,
    {
        Manifest {
            artifact_id: self.artifact_id,
            version: self.version,
            schema_id: self.schema_id,
            chunks: copy_vec(&self.chunks),
            batch_spans: copy_vec(&self.batch_spans),
            prev: self.prev,
            depth: self.depth,
            total_batches: self.total_batches,
            window_base: self.window_base,
            kept: copy_vec(&self.kept),
        }
    }
}

/// The link to the manifest `m`.
pub open spec fn link_to(m: ManifestView, mref: crate::chunk::PackedRef, generation: u32) -> ManifestLink {
    ManifestLink {
        version: m.version,
        mref,
        generation,
        depth: m.depth,
        total_batches: m.total_batches,
    }
}

/// What holds of each manifest of a chain that `head` ends.
pub open spec fn member_ok(m: ManifestView, head: ManifestView) -> bool {
    &&& m.batch_spans.len() <= m.total_batches
    &&& m.artifact_id == head.artifact_id
    &&& m.schema_id == head.schema_id
}

/// What holds of the link of the manifest that is `hops` links away from `head`.
pub open spec fn hop_ok(m: ManifestView, hops: int, head: ManifestView) -> bool {
    &&& m.prev is Some
    &&& hops < head.depth
    &&& m.depth > 0
    &&& m.prev->Some_0.version < m.version
    &&& m.prev->Some_0.depth == m.depth - 1
    &&& m.prev->Some_0.total_batches == m.total_batches - m.batch_spans.len()
}

/// Whether `m` is the manifest that `l` describes.
pub open spec fn answers(l: ManifestLink, m: ManifestView) -> bool {
    &&& m.version == l.version
    &&& m.depth == l.depth
    &&& m.total_batches == l.total_batches
}

/// Whether `m`, `hops` links away from `head`, ends the chain.
pub open spec fn root_ok(m: ManifestView, hops: int, head: ManifestView) -> bool {
    &&& m.prev is None
    &&& m.depth == 0
    &&& hops == head.depth
    &&& m.total_batches == m.batch_spans.len()
}

/// Whether `n`, newest first, is the beginning of a consistent chain from `head`.
pub open spec fn walked(n: Seq<ManifestView>, head: ManifestView) -> bool {
    &&& n.len() > 0
    &&& n[0] == head
    &&& forall|i: int| 0 <= i < n.len() ==> member_ok(#[trigger] n[i], head)
    &&& forall|i: int|
        0 <= i < n.len() - 1 ==> hop_ok(#[trigger] n[i], i, head) && answers(
            n[i].prev->Some_0,
            n[i + 1],
        )
}

/// Where a walk that wants the manifests newer than `floor` stops.
pub open spec fn stops(m: ManifestView, hops: int, head: ManifestView, floor: Option<u64>) -> bool {
    ||| root_ok(m, hops, head)
    ||| floor is Some && hop_ok(m, hops, head) && m.prev->Some_0.version <= floor->Some_0
}

/// Whether `n`, newest first, is exactly the part of the chain from `head` that
/// is newer than `floor`; the whole chain if there is no floor.
pub open spec fn walk_result(n: Seq<ManifestView>, head: ManifestView, floor: Option<u64>) -> bool {
    &&& walked(n, head)
    &&& stops(n.last(), n.len() - 1, head, floor)
    &&& forall|i: int| 0 <= i < n.len() - 1 ==> !stops(#[trigger] n[i], i, head, floor)
}

/// Whether `f` may answer the link `l` with the manifest `m`.
pub open spec fn may_answer<F: Fn(&ManifestLink) -> Result<Manifest, Error>>(
    f: F,
    l: ManifestLink,
    m: ManifestView,
) -> bool {
    exists|x: Manifest| call_ensures(f, (&l,), Ok::<Manifest, Error>(x)) && x@ == m
}

/// Whether `f` answers the link `l` with the manifest `m` and nothing else.
pub open spec fn must_answer<F: Fn(&ManifestLink) -> Result<Manifest, Error>>(
    f: F,
    l: ManifestLink,
    m: ManifestView,
) -> bool {
    forall|r: Result<Manifest, Error>| #[trigger] call_ensures(f, (&l,), r) ==> r is Ok && r->Ok_0@ == m
}

/// Whether `f` may answer every link of `n` with the next manifest of `n`.
pub open spec fn resolved_by<F: Fn(&ManifestLink) -> Result<Manifest, Error>>(
    n: Seq<ManifestView>,
    f: F,
) -> bool {
    forall|i: int| 0 <= i < n.len() - 1 ==> may_answer(f, (#[trigger] n[i]).prev->Some_0, n[i + 1])
}

/// Whether `f` answers every link of `n` with the next manifest of `n`.
pub open spec fn answered_by<F: Fn(&ManifestLink) -> Result<Manifest, Error>>(
    n: Seq<ManifestView>,
    f: F,
) -> bool {
    forall|i: int| 0 <= i < n.len() - 1 ==> must_answer(f, (#[trigger] n[i]).prev->Some_0, n[i + 1])
}

/// Whether there is a chain from `head` that `f` answers.
#[verifier::opaque]
pub open spec fn walkable<F: Fn(&ManifestLink) -> Result<Manifest, Error>>(
    head: ManifestView,
    floor: Option<u64>,
    f: F,
) -> bool {
    exists|n: Seq<ManifestView>| #[trigger] walk_result(n, head, floor) && answered_by(n, f)
}

/// Whether a walk from `head` passes the manifests `n` and comes to `cur`: each
/// on the way is consistent, does not stop the walk, and is followed by what `f`
/// may answer its link with.
pub open spec fn begun<F: Fn(&ManifestLink) -> Result<Manifest, Error>>(
    n: Seq<ManifestView>,
    cur: ManifestView,
    head: ManifestView,
    floor: Option<u64>,
    f: F,
) -> bool {
    let m = n.push(cur);
    &&& m[0] == head
    &&& forall|i: int| 0 <= i < n.len() ==> member_ok(#[trigger] m[i], head)
    &&& forall|i: int|
        0 <= i < n.len() ==> hop_ok(#[trigger] m[i], i, head) && answers(m[i].prev->Some_0, m[i + 1])
    &&& forall|i: int| 0 <= i < n.len() ==> !stops(#[trigger] m[i], i, head, floor)
    &&& resolved_by(m, f)
}

/// Whether a manifest, `hops` links away from `head`, can be part of a chain.
pub open spec fn consistent(m: ManifestView, hops: int, head: ManifestView) -> bool {
    member_ok(m, head) && (root_ok(m, hops, head) || hop_ok(m, hops, head))
}

/// Whether `f` may answer the link `l` with a manifest that is not the one it
/// describes.
pub open spec fn may_mistake<F: Fn(&ManifestLink) -> Result<Manifest, Error>>(
    f: F,
    l: ManifestLink,
) -> bool {
    exists|x: Manifest| call_ensures(f, (&l,), Ok::<Manifest, Error>(x)) && !answers(l, x@)
}

/// Whether a walk fails with `e` at `cur`, `hops` links away from `head`:
/// `VersionGone` if the manifest is inconsistent, and then nothing more is read,
/// or if its link is answered with another manifest; else what `f` fails with on
/// its link.
pub open spec fn fails_at<F: Fn(&ManifestLink) -> Result<Manifest, Error>>(
    cur: ManifestView,
    hops: int,
    head: ManifestView,
    floor: Option<u64>,
    f: F,
    e: Error,
) -> bool {
    if !consistent(cur, hops, head) {
        e == Error::VersionGone
    } else {
        let l = cur.prev->Some_0;
        &&& !stops(cur, hops, head, floor)
        &&& call_ensures(f, (&l,), Err::<Manifest, Error>(e)) || (e == Error::VersionGone && may_mistake(
            f,
            l,
        ))
    }
}

/// Whether a walk from `head` may fail with `e`: it comes to a manifest at which
/// it does.
pub open spec fn walk_failed<F: Fn(&ManifestLink) -> Result<Manifest, Error>>(
    head: ManifestView,
    floor: Option<u64>,
    f: F,
    e: Error,
) -> bool {
    exists|n: Seq<ManifestView>, cur: ManifestView| #[trigger]
        begun(n, cur, head, floor, f) && fails_at(cur, n.len() as int, head, floor, f, e)
}

/// The views of a sequence of manifests.
pub open spec fn views(s: Seq<Manifest>) -> Seq<ManifestView> {
    Seq::new(s.len(), |i: int| s[i]@)
}

fn walk<F>(head: &Manifest, floor: Option<u64>, read_prev: F) -> (r: Result<Vec<Manifest>, Error>)
    where F: Fn(&ManifestLink) -> Result<Manifest, Error>
    requires
        forall|l: &ManifestLink| #[trigger] call_requires(read_prev, (l,)),
    ensures
        r matches Ok(v) ==> walk_result(views(v@), head@, floor) && resolved_by(views(v@), read_prev),
        r matches Err(e) ==> !walkable(head@, floor, read_prev) && walk_failed(
            head@,
            floor,
            read_prev,
            e,
        ),
{
    let mut acc: Vec<Manifest> = Vec::new();
    let mut cur: Manifest = head.duplicate();
    let mut hops: u32 = 0;
    let ghost mut n: Seq<ManifestView> = seq![];
    proof {
        lemma_visit_head(head@, floor, read_prev);
    }
    loop
        invariant
            forall|l: &ManifestLink| #[trigger] call_requires(read_prev, (l,)),
            n == views(acc@),
            n.len() == hops,
            hops <= head.depth,
            begun(n, cur@, head@, floor, read_prev),
            must_visit(hops as int, cur@, head@, floor, read_prev),
        decreases head.depth - hops,
    {
        let own: usize = cur.batch_spans.len();
        if own as u64 > cur.total_batches as u64 || cur.artifact_id != head.artifact_id
            || cur.schema_id != head.schema_id {
            proof {
                lemma_dead_end(hops as int, cur@, head@, floor, read_prev);
            }
            return Err(Error::VersionGone);
        }
        match cur.prev {
            None => {
                if cur.depth != 0 || hops != head.depth || cur.total_batches as u64 != own as u64 {
                    proof {
                        lemma_dead_end(hops as int, cur@, head@, floor, read_prev);
                    }
                    return Err(Error::VersionGone);
                }
                let ghost c = cur@;
                acc.push(cur);
                proof {
                    assert(views(acc@) =~= n.push(c));
                    lemma_walk_ends(n, c, head@, floor, read_prev);
                }
                return Ok(acc);
            },
            Some(link) => {
                if hops >= head.depth || cur.depth == 0 || link.version >= cur.version || link.depth
                    != cur.depth - 1 || link.total_batches as u64 != cur.total_batches as u64
                    - own as u64 {
                    proof {
                        lemma_dead_end(hops as int, cur@, head@, floor, read_prev);
                    }
                    return Err(Error::VersionGone);
                }
                let stop: bool = match floor {
                    Some(f) => link.version <= f,
                    None => false,
                };
                let ghost c = cur@;
                if stop {
                    acc.push(cur);
                    proof {
                        assert(views(acc@) =~= n.push(c));
                        lemma_walk_ends(n, c, head@, floor, read_prev);
                    }
                    return Ok(acc);
                }
                let answer: Result<Manifest, Error> = read_prev(&link);
                proof {
                    lemma_next(hops as int, c, head@, floor, read_prev, answer);
                    assert(hop_ok(c, hops as int, head@) && c.prev == Some(link));
                }
                match answer {
                    Err(e) => {
                        assert(fails_at(c, hops as int, head@, floor, read_prev, e));
                        return Err(e);
                    },
                    Ok(prev) => {
                        if prev.version != link.version || prev.depth != link.depth
                            || prev.total_batches != link.total_batches {
                            proof {
                                assert(!answers(link, prev@));
                                assert(may_mistake(read_prev, link));
                                assert(fails_at(
                                    c,
                                    hops as int,
                                    head@,
                                    floor,
                                    read_prev,
                                    Error::VersionGone,
                                ));
                            }
                            return Err(Error::VersionGone);
                        }
                        acc.push(cur);
                        proof {
                            assert(views(acc@) =~= n.push(c));
                            lemma_walk_goes_on(n, c, prev@, head@, floor, read_prev);
                            n = n.push(c);
                        }
                        cur = prev;
                        hops = hops + 1;
                    },
                }
            },
        }
    }
}

/// Every chain from `head` that `f` answers passes through `cur`.
#[verifier::opaque]
spec fn must_visit<F: Fn(&ManifestLink) -> Result<Manifest, Error>>(
    hops: int,
    cur: ManifestView,
    head: ManifestView,
    floor: Option<u64>,
    f: F,
) -> bool {
    forall|n: Seq<ManifestView>|
        #[trigger] walk_result(n, head, floor) && answered_by(n, f) ==> hops < n.len() && n[hops] == cur
}

proof fn lemma_visit_head<F: Fn(&ManifestLink) -> Result<Manifest, Error>>(
    head: ManifestView,
    floor: Option<u64>,
    f: F,
)
    ensures
        must_visit(0, head, head, floor, f),
        begun(seq![], head, head, floor, f),
        views(Seq::<Manifest>::empty()) == Seq::<ManifestView>::empty(),
{
    reveal(must_visit);
    assert(views(Seq::<Manifest>::empty()) =~= Seq::<ManifestView>::empty());
}

/// No walk passes through a manifest that neither ends the chain nor has a
/// usable link.
proof fn lemma_dead_end<F: Fn(&ManifestLink) -> Result<Manifest, Error>>(
    hops: int,
    cur: ManifestView,
    head: ManifestView,
    floor: Option<u64>,
    f: F,
)
    requires
        0 <= hops,
        must_visit(hops, cur, head, floor, f),
        !member_ok(cur, head) || (!root_ok(cur, hops, head) && !hop_ok(cur, hops, head)),
    ensures
        !walkable(head, floor, f),
{
    reveal(must_visit);
    reveal(walkable);
    if walkable(head, floor, f) {
        let n = choose|n: Seq<ManifestView>|
            #[trigger] walk_result(n, head, floor) && answered_by(n, f);
        assert(n[hops] == cur);
        assert(member_ok(n[hops], head));
        if hops < n.len() - 1 {
            assert(hop_ok(n[hops], hops, head));
        } else {
            assert(n.last() == cur);
        }
    }
}

proof fn lemma_next<F: Fn(&ManifestLink) -> Result<Manifest, Error>>(
    hops: int,
    cur: ManifestView,
    head: ManifestView,
    floor: Option<u64>,
    f: F,
    r: Result<Manifest, Error>,
)
    requires
        0 <= hops,
        must_visit(hops, cur, head, floor, f),
        !stops(cur, hops, head, floor),
        cur.prev is Some,
        call_ensures(f, (&cur.prev->Some_0,), r),
    ensures
        r is Err || !answers(cur.prev->Some_0, r->Ok_0@) ==> !walkable(head, floor, f),
        r is Ok ==> must_visit(hops + 1, r->Ok_0@, head, floor, f),
{
    reveal(must_visit);
    reveal(walkable);
    assert forall|n: Seq<ManifestView>|
        #[trigger] walk_result(n, head, floor) && answered_by(n, f) implies {
        &&& hops + 1 < n.len()
        &&& r is Ok
        &&& n[hops + 1] == r->Ok_0@
        &&& answers(cur.prev->Some_0, r->Ok_0@)
    } by {
        assert(n[hops] == cur);
        if hops + 1 == n.len() {
            assert(n.last() == cur);
        }
        assert(must_answer(f, n[hops].prev->Some_0, n[hops + 1]));
        assert(hop_ok(n[hops], hops, head) && answers(n[hops].prev->Some_0, n[hops + 1]));
    }
}

proof fn lemma_walk_ends<F: Fn(&ManifestLink) -> Result<Manifest, Error>>(
    n: Seq<ManifestView>,
    cur: ManifestView,
    head: ManifestView,
    floor: Option<u64>,
    f: F,
)
    requires
        begun(n, cur, head, floor, f),
        member_ok(cur, head),
        stops(cur, n.len() as int, head, floor),
    ensures
        walk_result(n.push(cur), head, floor),
        resolved_by(n.push(cur), f),
{
}

proof fn lemma_walk_goes_on<F: Fn(&ManifestLink) -> Result<Manifest, Error>>(
    n: Seq<ManifestView>,
    cur: ManifestView,
    prev: ManifestView,
    head: ManifestView,
    floor: Option<u64>,
    f: F,
)
    requires
        begun(n, cur, head, floor, f),
        member_ok(cur, head),
        hop_ok(cur, n.len() as int, head),
        answers(cur.prev->Some_0, prev),
        !stops(cur, n.len() as int, head, floor),
        may_answer(f, cur.prev->Some_0, prev),
    ensures
        begun(n.push(cur), prev, head, floor, f),
{
    let m = n.push(cur);
    let m2 = m.push(prev);
    assert forall|i: int| 0 <= i < m.len() implies hop_ok(#[trigger] m2[i], i, head) && answers(
        m2[i].prev->Some_0,
        m2[i + 1],
    ) by {
        assert(m2[i] == m[i]);
        if i < n.len() {
            assert(m2[i + 1] == m[i + 1]);
        }
    }
    assert forall|i: int| 0 <= i < m2.len() - 1 implies may_answer(
        f,
        (#[trigger] m2[i]).prev->Some_0,
        m2[i + 1],
    ) by {
        assert(m2[i] == m[i]);
        if i < n.len() {
            assert(m2[i + 1] == m[i + 1]);
            assert(may_answer(f, m[i].prev->Some_0, m[i + 1]));
        }
    }
}

/// Walk a chain from `head` towards its root and give the manifests newer than
/// `floor`, newest first. `read_prev` resolves one link; nothing at or below the
/// floor is read.
pub fn walk_chain_newest_first<F>(head: &Manifest, floor: u64, read_prev: F) -> (r: Result<
    Vec<Manifest>,
    Error,
>) where F: Fn(&ManifestLink) -> Result<Manifest, Error>
    requires
        forall|l: &ManifestLink| #[trigger] call_requires(read_prev, (l,)),
    ensures
        r matches Ok(v) ==> walk_result(views(v@), head@, Some(floor)) && resolved_by(
            views(v@),
            read_prev,
        ),
        r matches Err(e) ==> !walkable(head@, Some(floor), read_prev) && walk_failed(
            head@,
            Some(floor),
            read_prev,
            e,
        ),
{
    walk(head, Some(floor), read_prev)
}

/// Walk a chain from `head` back to its root and give its manifests oldest
/// first, the row order of the table. `read_prev` resolves one link. Whatever
/// is inconsistent on the way is `VersionGone`; an error of `read_prev` is
/// passed on.
pub fn walk_chain_with<F>(head: &Manifest, read_prev: F) -> (r: Result<Vec<Manifest>, Error>)
    where F: Fn(&ManifestLink) -> Result<Manifest, Error>
    requires
        forall|l: &ManifestLink| #[trigger] call_requires(read_prev, (l,)),
    ensures
        r matches Ok(v) ==> walk_result(views(v@).reverse(), head@, None) && resolved_by(
            views(v@).reverse(),
            read_prev,
        ),
        r matches Err(e) ==> !walkable(head@, None, read_prev) && walk_failed(
            head@,
            None,
            read_prev,
            e,
        ),
{
    match walk(head, None, read_prev) {
        Err(e) => Err(e),
        Ok(newest_first) => {
            let ghost nf = newest_first@;
            let chain: Vec<Manifest> = reversed(newest_first);
            proof {
                assert(views(chain@).reverse() =~= views(nf));
            }
            Ok(chain)
        },
    }
}

/// The manifests in opposite order.
pub(crate) fn reversed(v: Vec<Manifest>) -> (r: Vec<Manifest>)
    ensures
        r@ == v@.reverse(),
{
    let mut v: Vec<Manifest> = v;
    let ghost all = v@;
    let mut r: Vec<Manifest> = Vec::new();
    while v.len() > 0
        invariant
            v@.len() + r@.len() == all.len(),
            v@ == all.take(v@.len() as int),
            r@ == all.skip(v@.len() as int).reverse(),
        decreases v@.len(),
    {
        let ghost k = v@.len() as int;
        match v.pop() {
            Some(m) => {
                r.push(m);
                proof {
                    assert(v@ =~= all.take(k - 1));
                    assert(r@ =~= all.skip(k - 1).reverse());
                }
            },
            None => {},
        }
    }
    proof {
        assert(all.skip(0) =~= all);
    }
    r
}

/// The manifests a walk gives have strictly decreasing versions, so a walk
/// never meets a manifest twice; their depths count down by one and their batch
/// totals telescope.
pub proof fn walk_descends(n: Seq<ManifestView>, head: ManifestView, i: int, j: int)
    requires
        walked(n, head),
        0 <= i < j < n.len(),
    ensures
        n[j].version < n[i].version,
        n[j].depth == n[i].depth - (j - i),
        n[j].total_batches <= n[i].total_batches,
    decreases j,
{
    assert(hop_ok(n[j - 1], j - 1, head));
    assert(member_ok(n[j - 1], head));
    if i < j - 1 {
        walk_descends(n, head, i, j - 1);
    }
}

/// A walk that fails has read at most as many links as the head's depth says,
/// each of an older version than the one before.
pub proof fn failed_walk_is_bounded<F: Fn(&ManifestLink) -> Result<Manifest, Error>>(
    n: Seq<ManifestView>,
    cur: ManifestView,
    head: ManifestView,
    floor: Option<u64>,
    f: F,
)
    requires
        begun(n, cur, head, floor, f),
    ensures
        n.len() <= head.depth,
        consistent(cur, n.len() as int, head) && cur.prev is Some ==> n.len() < head.depth,
        forall|i: int| 0 <= i < n.len() ==> (#[trigger] n.push(cur)[i + 1]).version < n.push(cur)[i].version,
{
    let m = n.push(cur);
    if n.len() > 0 {
        assert(hop_ok(m[n.len() - 1], n.len() - 1, head));
    }
    assert forall|i: int| 0 <= i < n.len() implies (#[trigger] m[i + 1]).version < m[i].version by {
        assert(hop_ok(m[i], i, head) && answers(m[i].prev->Some_0, m[i + 1]));
    }
}

/// A walk from an inconsistent head fails with `VersionGone`: it gives no
/// manifests and reads nothing. A root that claims a depth is such a head.
pub proof fn inconsistent_head_is_gone<F: Fn(&ManifestLink) -> Result<Manifest, Error>>(
    head: ManifestView,
    floor: Option<u64>,
    f: F,
    e: Error,
)
    requires
        !consistent(head, 0, head),
        walk_failed(head, floor, f, e),
    ensures
        e == Error::VersionGone,
        forall|n: Seq<ManifestView>| !walk_result(n, head, floor),
{
    assert forall|n: Seq<ManifestView>| !walk_result(n, head, floor) by {
        if walk_result(n, head, floor) {
            assert(member_ok(n[0], head));
            if n.len() > 1 {
                assert(hop_ok(n[0], 0, head));
            }
        }
    }
    let (n, cur) = choose|n: Seq<ManifestView>, cur: ManifestView| #[trigger]
        begun(n, cur, head, floor, f) && fails_at(cur, n.len() as int, head, floor, f, e);
    if n.len() > 0 {
        let m = n.push(cur);
        assert(member_ok(m[0], head) && hop_ok(m[0], 0, head));
    } else {
        assert(n.push(cur)[0] == cur);
    }
}

/// An error of `read_prev` is passed on: where it fails with `e` and nothing else
/// on the head's link, so does the walk.
pub proof fn read_error_is_passed_on<F: Fn(&ManifestLink) -> Result<Manifest, Error>>(
    head: ManifestView,
    floor: Option<u64>,
    f: F,
    e: Error,
    r: Error,
)
    requires
        member_ok(head, head),
        hop_ok(head, 0, head),
        forall|x: Result<Manifest, Error>| #[trigger]
            call_ensures(f, (&head.prev->Some_0,), x) ==> x == Err::<Manifest, Error>(r),
        walk_failed(head, floor, f, e),
    ensures
        e == r,
{
    let (n, cur) = choose|n: Seq<ManifestView>, cur: ManifestView| #[trigger]
        begun(n, cur, head, floor, f) && fails_at(cur, n.len() as int, head, floor, f, e);
    let m = n.push(cur);
    assert(m[0] == head);
    if n.len() > 0 {
        assert(may_answer(f, m[0].prev->Some_0, m[1]));
    }
}

/// A walk to the root takes exactly as many hops as the head's depth says.
pub proof fn walk_length(n: Seq<ManifestView>, head: ManifestView)
    requires
        walk_result(n, head, None),
    ensures
        n.len() == head.depth + 1,
        n.last().prev is None,
{
}

} // verus!
