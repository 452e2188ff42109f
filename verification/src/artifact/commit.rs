//! Committing a version: publish the staged chunks, take the references the
//! new version needs, stage its manifest, claim a slot, install.
use vstd::prelude::*;

use crate::artifact::borrow::{has_room, manifest_chunk, more};
use crate::artifact::chain::link_to;
use crate::artifact::error::Error;
use crate::artifact::event::CommitKind;
use crate::artifact::head::{ArtifactHead, HeadView, NO_VERSION};
use crate::artifact::live::{current_table, lemma_slot_holds, live, slot_ok};
use crate::artifact::manifest::{
    encode_manifest, new_manifest, refused, span_sum, Manifest, ManifestLink, ManifestView,
    WindowRoot,
};
use crate::artifact::pool::{
    at, backed, chunk_ok, count_off, data_ok, fits, held, is_laid, lemma_at, lemma_has, less,
    link_off, link_ok, uses, ChunkPool, ChunkState, ChunkView,
};
use crate::artifact::reading::{
    exact_totals, lemma_story, manifest_at, read_chain, read_manifest_checked,
};
use crate::artifact::window::{
    all_chunks, all_spans, dropped, keeps, plan_window, start, WindowPlan,
};
use crate::chunk::{ChunkDesc, PackedRef};

verus! {

/// A span of rows.
#[derive(Clone, Copy, Debug, PartialEq, Eq, Structural)]
pub struct RowRange {
    pub start: u64,
    pub end: u64,
}

/// How a commit relates the new version to its predecessor.
#[derive(Clone, Copy, Debug, PartialEq, Eq, Structural)]
pub enum Commit {
    /// Supersede it wholesale: the new manifest is a root.
    Replace,
    /// Extend it: the new manifest links to the prior one.
    Append,
    /// Re-root on its newest batches: the new manifest is a root that lists
    /// them again, by reference, before the new ones.
    Window { keep_batches: u32 },
    /// Update a range of rows. Not supported.
    Patch(RowRange),
}

impl Commit {
    pub open spec fn spec_kind(self) -> CommitKind {
        match self {
            Commit::Replace => CommitKind::Replace,
            Commit::Append => CommitKind::Append,
            Commit::Window { .. } => CommitKind::Window,
            Commit::Patch(_) => CommitKind::Patch,
        }
    }

    /// The kind this commit announces.
    pub fn kind(&self) -> (k: CommitKind)
        ensures
            k == self.spec_kind(),
    {
        match self {
            Commit::Replace => CommitKind::Replace,
            Commit::Append => CommitKind::Append,
            Commit::Window { .. } => CommitKind::Window,
            Commit::Patch(_) => CommitKind::Patch,
        }
    }

    /// Whether the commit, expecting `expect` to be current, builds on it.
    pub open spec fn extends(self, expect: u64) -> bool {
        expect != NO_VERSION && match self {
            Commit::Append => true,
            Commit::Window { keep_batches } => keep_batches > 0,
            _ => false,
        }
    }
}

/// The chunk that holds the current manifest.
pub open spec fn current_chunk(h: HeadView, pool: &ChunkPool) -> int {
    pool.at(PackedRef(h.manifest_desc).spec_offset())
}

/// The chunks a window of `keep` batches over the table `t` lists again.
pub open spec fn window_chunks(t: Seq<ManifestView>, keep: int) -> Seq<ChunkDesc> {
    all_chunks(t).skip(start(all_spans(t), dropped(all_spans(t).len() as int, keep)))
}

/// The current version's manifest is there.
pub proof fn lemma_current(h: &ArtifactHead, pool: &ChunkPool, name_id: u32)
    requires
        live(h, pool, name_id),
        h@.current != NO_VERSION,
    ensures
        pool.names(
            PackedRef(h@.manifest_desc).spec_segment_id(),
            PackedRef(h@.manifest_desc).spec_offset(),
        ),
        h@.manifest_desc != 0,
        ({
            let i = current_chunk(h@, pool);
            &&& 0 <= i < pool@.len()
            &&& pool@[i].story is Some
            &&& pool@[i].state == ChunkState::Published
            &&& pool@[i].refcount > 0
            &&& pool.held(i) >= 1
            &&& current_table(h@, pool.lay@, pool@) == pool@[i].story->Some_0
            &&& pool@[i].story->Some_0.last().version == h@.current
            &&& pool@[i].story->Some_0.last().artifact_id == name_id
            &&& manifest_at(pool, PackedRef(h@.manifest_desc)) == Ok::<ManifestView, Error>(
                pool@[i].story->Some_0.last(),
            )
        }),
{
    let j = choose|j: int|
        0 <= j < h@.pins.len() && (#[trigger] h@.pins[j]).tracks(h@.current) && h@.pins[j].manifest
            == h@.manifest_desc;
    assert(slot_ok(pool.lay@, pool.segment_id, pool@, name_id, h@.pins[j]));
    lemma_slot_holds(h@, pool.lay@, pool.segment_id, pool@, name_id, j);
    let i = current_chunk(h@, pool);
    assert(chunk_ok(pool@[i]));
    lemma_has(pool.lay@, PackedRef(h@.manifest_desc).spec_offset());
    assert(pool.lay@[i] > 0);
}

/// Every chunk of a table is a published data chunk of the generation listed.
pub proof fn lemma_table_data(pool: &ChunkPool, i: int, t: int)
    requires
        pool.wf(),
        0 <= i < pool@.len(),
        pool@[i].story is Some,
        0 <= t < all_chunks(pool@[i].story->Some_0).len(),
    ensures
        data_ok(pool.lay@, pool.segment_id, pool@, all_chunks(pool@[i].story->Some_0)[t]),
    decreases pool@[i].story->Some_0.len(),
{
    let ch = pool@[i].story->Some_0;
    let p = ch.drop_last();
    let m = ch.last();
    assert(chunk_ok(pool@[i]));
    assert(backed(pool.lay@, pool.segment_id, pool@, ch));
    if t < all_chunks(p).len() {
        if m.prev is Some {
            let l = m.prev->Some_0;
            assert(link_ok(pool.lay@, pool.segment_id, pool@, ch, l));
            lemma_has(pool.lay@, l.mref.spec_offset());
            lemma_table_data(pool, at(pool.lay@, l.mref.spec_offset()), t);
        } else {
            assert(p.len() == 0);
        }
        assert(all_chunks(ch)[t] == all_chunks(p)[t]);
    } else {
        assert(all_chunks(ch)[t] == m.chunks[t - all_chunks(p).len()]);
    }
}

/// What the new version builds on.
pub enum Base {
    /// Nothing: a root.
    Root,
    /// The prior manifest, by a link.
    Link(ManifestLink),
    /// The newest batches of the prior table, listed again.
    Window(WindowPlan),
}

/// The references a base holds on the chunk at `off`.
pub open spec fn base_refs(b: Base, off: u32) -> nat {
    match b {
        Base::Root => 0,
        Base::Link(l) => link_off(Some(l), off),
        Base::Window(plan) => count_off(plan.chunks@, off),
    }
}

/// Why a commit that builds on the current version is refused.
pub open spec fn base_refusal(
    h: HeadView,
    pool: &ChunkPool,
    expect: u64,
    commit: Commit,
    schema_id: u32,
) -> Option<Error> {
    let t = current_table(h, pool.lay@, pool@);
    let conflict = Some(Error::Conflict { expected: expect, actual: h.current });
    if !commit.extends(expect) {
        None
    } else if h.current != expect {
        conflict
    } else if t.last().schema_id != schema_id {
        Some(
            match commit {
                Commit::Append => Error::Unsupported("Append schema differs from the prior version"),
                _ => Error::Unsupported("Window schema differs from the prior version"),
            },
        )
    } else {
        match commit {
            Commit::Append => if pool@[current_chunk(h, pool)].refcount == u32::MAX {
                conflict
            } else {
                None
            },
            Commit::Window { keep_batches } => if !exact_totals(t) || !has_room(
                pool,
                window_chunks(t, keep_batches as int),
            ) {
                conflict
            } else {
                None
            },
            _ => None,
        }
    }
}

/// Whether `b` is the base the commit builds on.
pub open spec fn base_for(
    b: Base,
    h: HeadView,
    pool: &ChunkPool,
    expect: u64,
    commit: Commit,
) -> bool {
    let t = current_table(h, pool.lay@, pool@);
    match b {
        Base::Root => !commit.extends(expect),
        Base::Link(l) => {
            &&& commit is Append
            &&& commit.extends(expect)
            &&& l == link_to(
                t.last(),
                PackedRef(h.manifest_desc),
                pool@[current_chunk(h, pool)].generation,
            )
        },
        Base::Window(plan) => {
            &&& commit matches Commit::Window { keep_batches } && keeps(&plan, t, keep_batches as int)
            &&& commit.extends(expect)
        },
    }
}

/// The references of `b` are held on top of what was held before.
pub open spec fn base_held(b: Base, p0: &ChunkPool, p1: &ChunkPool) -> bool {
    &&& p1.wf()
    &&& p1.same_place(p0)
    &&& p1@.len() == p0@.len()
    &&& forall|j: int|
        0 <= j < p0@.len() ==> {
            &&& #[trigger] p1@[j] == more(p0@[j], base_refs(b, p0.lay@[j]) as int)
            &&& p0@[j].refcount + base_refs(b, p0.lay@[j]) <= u32::MAX
            &&& p1.held(j) == p0.held(j) + base_refs(b, p0.lay@[j])
        }
}

/// Take a link to the manifest at `mref`; `None` if its count cannot take one
/// more reference.
fn take_link(pool: &mut ChunkPool, mref: PackedRef, prior: &Manifest) -> (r: Option<Base>)
    requires
        old(pool).wf(),
        old(pool).names(mref.spec_segment_id(), mref.spec_offset()),
        old(pool)@[old(pool).at(mref.spec_offset())].state == ChunkState::Published,
    ensures
        ({
            let i = old(pool).at(mref.spec_offset());
            &&& r is None <==> old(pool)@[i].refcount == u32::MAX
            &&& r is None ==> final(pool)@ == old(pool)@ && final(pool).wf() && final(pool).same_place(
                old(pool),
            )
            &&& r matches Some(b) ==> {
                &&& b == Base::Link(link_to(prior@, mref, old(pool)@[i].generation))
                &&& base_held(b, old(pool), final(pool))
            }
        }),
{
    let ghost p = pool@;
    let ghost lay = pool.lay@;
    let ghost i = pool.at(mref.spec_offset());
    proof {
        lemma_has(lay, mref.spec_offset());
    }
    let generation: u32 = match pool.find(mref.segment_id(), mref.offset()) {
        Some(k) => {
            assert(p[k as int] == pool.chunks@[k as int]@);
            pool.chunks[k].generation
        },
        None => 0,
    };
    if pool.borrow_at(mref).is_err() {
        return None;
    }
    let l: ManifestLink = prior.link_from(mref, generation);
    proof {
        assert forall|j: int| 0 <= j < p.len() implies base_refs(Base::Link(l), #[trigger] lay[j]) == (
        if j == i {
            1nat
        } else {
            0
        }) by {
            if lay[j] == mref.spec_offset() {
                lemma_at(lay, j);
            }
        }
        assert forall|j: int| 0 <= j < p.len() implies {
            &&& #[trigger] pool@[j] == more(p[j], base_refs(Base::Link(l), lay[j]) as int)
            &&& p[j].refcount + base_refs(Base::Link(l), lay[j]) <= u32::MAX
            &&& pool.held(j) == old(pool).held(j) + base_refs(Base::Link(l), lay[j])
        } by {
            assert(base_refs(Base::Link(l), lay[j]) == (if j == i {
                1nat
            } else {
                0
            }));
        }
    }
    Some(Base::Link(l))
}

/// List the newest `keep` batches of the table in chunk `i` again; `None` if
/// the table cannot be read or a count has no room.
fn take_window(pool: &mut ChunkPool, prior: &Manifest, keep: u32, i: Ghost<int>) -> (r: Option<Base>)
    requires
        old(pool).wf(),
        0 <= i@ < old(pool)@.len(),
        old(pool)@[i@].story is Some,
        old(pool)@[i@].story->Some_0.last() == prior@,
    ensures
        ({
            let t = old(pool)@[i@].story->Some_0;
            &&& r is None <==> !exact_totals(t) || !has_room(old(pool), window_chunks(t, keep as int))
            &&& r is None ==> final(pool)@ == old(pool)@ && final(pool).wf() && final(pool).same_place(
                old(pool),
            )
            &&& r matches Some(b) ==> {
                &&& b matches Base::Window(plan) && keeps(&plan, t, keep as int)
                &&& base_held(b, old(pool), final(pool))
            }
        }),
{
    let ghost p = pool@;
    let ghost lay = pool.lay@;
    let ghost t = p[i@].story->Some_0;
    let chain: Vec<Manifest> = match read_chain(pool, prior, i) {
        Ok(c) => c,
        Err(_) => {
            return None;
        },
    };
    proof {
        lemma_story(pool, i@);
    }
    let plan: WindowPlan = plan_window(&chain, keep);
    proof {
        let d = dropped(all_spans(t).len() as int, keep as int);
        crate::artifact::window::lemma_table_lens(t);
        crate::artifact::window::lemma_cut_skip(all_chunks(t), all_spans(t), d);
        assert forall|k: int| 0 <= k < plan.chunks@.len() implies data_ok(
            lay,
            pool.segment_id,
            p,
            #[trigger] plan.chunks@[k],
        ) by {
            lemma_table_data(pool, i@, k + start(all_spans(t), d));
        }
    }
    if !pool.borrow_all(plan.chunks.as_slice()) {
        return None;
    }
    Some(Base::Window(plan))
}

/// Resolve what the commit builds on, and take the references that takes.
pub(crate) fn resolve_base(
    head: &ArtifactHead,
    pool: &mut ChunkPool,
    name_id: u32,
    expect: u64,
    commit: &Commit,
    schema_id: u32,
) -> (r: Result<Base, Error>)
    requires
        live(head, old(pool), name_id),
    ensures
        match base_refusal(head@, old(pool), expect, *commit, schema_id) {
            Some(e) => {
                &&& r is Err
                &&& r->Err_0 == e
                &&& final(pool)@ == old(pool)@
                &&& final(pool).wf()
                &&& final(pool).same_place(old(pool))
            },
            None => {
                &&& r is Ok
                &&& base_for(r->Ok_0, head@, old(pool), expect, *commit)
                &&& base_held(r->Ok_0, old(pool), final(pool))
            },
        },
{
    let extends: bool = expect != NO_VERSION && match commit {
        Commit::Append => true,
        Commit::Window { keep_batches } => *keep_batches > 0,
        _ => false,
    };
    if !extends {
        assert(base_held(Base::Root, pool, pool));
        return Ok(Base::Root);
    }
    let mref: PackedRef = PackedRef(head.manifest_desc);
    proof {
        if head@.current != NO_VERSION {
            lemma_current(head, pool, name_id);
        } else {
            lemma_nothing_at_zero(pool);
        }
    }
    let prior: Manifest = match read_manifest_checked(pool, mref, name_id, expect) {
        Ok(m) => m,
        Err(_) => {
            return Err(Error::Conflict { expected: expect, actual: head.current });
        },
    };
    let ghost i = current_chunk(head@, pool);
    let taken: Option<Base> = match commit {
        Commit::Append => {
            if prior.schema_id != schema_id {
                return Err(Error::Unsupported("Append schema differs from the prior version"));
            }
            take_link(pool, mref, &prior)
        },
        Commit::Window { keep_batches } => {
            if prior.schema_id != schema_id {
                return Err(Error::Unsupported("Window schema differs from the prior version"));
            }
            take_window(pool, &prior, *keep_batches, Ghost(i))
        },
        _ => Some(Base::Root),
    };
    match taken {
        Some(b) => Ok(b),
        None => Err(Error::Conflict { expected: expect, actual: head.current }),
    }
}

proof fn lemma_nothing_at_zero(pool: &ChunkPool)
    requires
        pool.wf(),
    ensures
        manifest_at(pool, PackedRef(0)) is Err,
{
    let off = PackedRef(0).spec_offset();
    if is_laid(pool.lay@, off) {
        lemma_has(pool.lay@, off);
        assert(pool.lay@[at(pool.lay@, off)] > 0);
    }
}


// ---- the new version's manifest ----

/// The chunks the new version lists.
pub open spec fn version_chunks(b: Base, staged: Seq<ChunkDesc>) -> Seq<ChunkDesc> {
    match b {
        Base::Window(plan) => plan.chunks@ + staged,
        _ => staged,
    }
}

/// The spans of the new version.
pub open spec fn version_spans(b: Base, spans: Seq<u32>) -> Seq<u32> {
    match b {
        Base::Window(plan) => plan.spans@ + spans,
        _ => spans,
    }
}

/// The link of the new version.
pub open spec fn version_prev(b: Base) -> Option<ManifestLink> {
    match b {
        Base::Link(l) => Some(l),
        _ => None,
    }
}

/// The window of the new version: none if nothing is kept.
pub open spec fn version_window(b: &Base) -> Option<&WindowRoot> {
    match b {
        Base::Window(plan) => if plan.root.kept@.len() > 0 {
            Some(&plan.root)
        } else {
            None
        },
        _ => None,
    }
}

/// The manifest of the new version.
pub open spec fn version_manifest(
    name_id: u32,
    version: u64,
    schema_id: u32,
    b: &Base,
    staged: Seq<ChunkDesc>,
    spans: Seq<u32>,
) -> ManifestView {
    new_manifest(
        name_id,
        version,
        schema_id,
        version_chunks(*b, staged),
        version_spans(*b, spans),
        version_prev(*b),
        version_window(b),
    )
}

/// The chain of the new version, when the prior one's is `t`.
pub open spec fn version_story(t: Seq<ManifestView>, b: Base, m: ManifestView) -> Seq<ManifestView> {
    match b {
        Base::Link(_) => t.push(m),
        _ => seq![m],
    }
}

/// What the pool must hold for the manifest over `b` and `chunks` to be staged.
pub open spec fn holds_parts(pool: &ChunkPool, b: Base, chunks: Seq<ChunkDesc>) -> bool {
    &&& pool.wf()
    &&& forall|t: int|
        0 <= t < chunks.len() ==> data_ok(pool.lay@, pool.segment_id, pool@, #[trigger] chunks[t])
    &&& forall|j: int|
        0 <= j < pool@.len() ==> #[trigger] pool.held(j) >= count_off(chunks, pool.lay@[j]) + link_off(
            version_prev(b),
            pool.lay@[j],
        )
    &&& b matches Base::Link(l) ==> {
        &&& pool.names(l.mref.spec_segment_id(), l.mref.spec_offset())
        &&& pool@[pool.at(l.mref.spec_offset())].story is Some
        &&& pool@[pool.at(l.mref.spec_offset())].refcount > 1
    }
}

/// Give back the references held for a version that will not be.
pub(crate) fn release_parts(pool: &mut ChunkPool, b: &Base, chunks: &[ChunkDesc])
    requires
        holds_parts(old(pool), *b, chunks@),
    ensures
        final(pool).wf(),
        final(pool).same_place(old(pool)),
        final(pool)@.len() == old(pool)@.len(),
        forall|j: int|
            0 <= j < old(pool)@.len() ==> {
                &&& #[trigger] final(pool)@[j] == less(
                    old(pool)@[j],
                    (count_off(chunks@, old(pool).lay@[j]) + link_off(
                        version_prev(*b),
                        old(pool).lay@[j],
                    )) as int,
                )
                &&& final(pool).held(j) == old(pool).held(j) - count_off(chunks@, old(pool).lay@[j])
                    - link_off(version_prev(*b), old(pool).lay@[j])
            },
{
    let ghost p = pool@;
    let ghost lay = pool.lay@;
    let ghost seg = pool.segment_id;
    pool.release_all(chunks);
    match b {
        Base::Link(l) => {
            let ghost q = pool@;
            let ghost i = at(lay, l.mref.spec_offset());
            proof {
                lemma_has(lay, l.mref.spec_offset());
                // a manifest is not among the data chunks
                if count_off(chunks@, lay[i]) > 0 {
                    crate::artifact::borrow::lemma_count_some(chunks@, lay[i]);
                    let t = choose|t: int| 0 <= t < chunks@.len() && (#[trigger] chunks@[t]).offset == lay[i];
                    assert(data_ok(lay, seg, p, chunks@[t]));
                    assert(at(lay, chunks@[t].offset) == i);
                }
                assert(q[i] == less(p[i], 0));
                assert(old(pool).held(i) >= 1);
            }
            pool.release_manifest_ref(l.mref);
            proof {
                assert forall|j: int| 0 <= j < p.len() implies {
                    &&& #[trigger] pool@[j] == less(
                        p[j],
                        (count_off(chunks@, lay[j]) + link_off(version_prev(*b), lay[j])) as int,
                    )
                    &&& pool.held(j) == old(pool).held(j) - count_off(chunks@, lay[j]) - link_off(
                        version_prev(*b),
                        lay[j],
                    )
                } by {
                    if lay[j] == l.mref.spec_offset() {
                        lemma_at(lay, j);
                    }
                    assert(q[j] == less(p[j], count_off(chunks@, lay[j]) as int));
                }
            }
        },
        _ => {},
    }
}

/// Whether chunk `c1` is chunk `c0` made the manifest that ends `story`.
pub open spec fn became_manifest(c0: ChunkView, c1: ChunkView, story: Seq<ManifestView>) -> bool {
    &&& c1 == (ChunkView { bytes: c1.bytes, ..manifest_chunk(c0, c1.bytes, story) })
    &&& c1.bytes.len() == c0.bytes.len()
}

/// Why the manifest of the new version cannot be staged.
pub open spec fn stage_refusal(
    pool: &ChunkPool,
    version: u64,
    b: &Base,
    staged: Seq<ChunkDesc>,
    spans: Seq<u32>,
) -> Option<Error> {
    let chunks = version_chunks(*b, staged);
    let all = version_spans(*b, spans);
    match refused(version, chunks, all, version_prev(*b), version_window(b)) {
        Some(e) => Some(e),
        None => if forall|j: int|
            0 <= j < pool@.len() ==> !fits(
                #[trigger] pool@[j],
                crate::artifact::manifest::record_len(
                    chunks.len() as int,
                    all.len() as int,
                    crate::artifact::manifest::kept_of(version_window(b)).len() as int,
                ),
            ) {
            Some(Error::Exhausted)
        } else {
            None
        },
    }
}

/// Write and stage the manifest of the new version.
pub(crate) fn stage_version(
    pool: &mut ChunkPool,
    name_id: u32,
    version: u64,
    schema_id: u32,
    b: &Base,
    chunks: &[ChunkDesc],
    spans: &[u32],
    owner: u32,
    staged: Ghost<Seq<ChunkDesc>>,
    own: Ghost<Seq<u32>>,
    t: Ghost<Seq<ManifestView>>,
) -> (r: Result<ChunkDesc, Error>)
    requires
        version > 0,
        chunks@ == version_chunks(*b, staged@),
        spans@ == version_spans(*b, own@),
        span_sum(spans@) == chunks@.len(),
        holds_parts(old(pool), *b, chunks@),
        b matches Base::Link(l) ==> {
            &&& old(pool)@[old(pool).at(l.mref.spec_offset())].story == Some(t@)
            &&& t@.len() > 0
            &&& l == link_to(
                t@.last(),
                l.mref,
                old(pool)@[old(pool).at(l.mref.spec_offset())].generation,
            )
            &&& t@.last().artifact_id == name_id
            &&& t@.last().schema_id == schema_id
        },
    ensures
        final(pool).wf(),
        final(pool).same_place(old(pool)),
        match stage_refusal(old(pool), version, b, staged@, own@) {
            Some(e) => r is Err && r->Err_0 == e && final(pool)@ == old(pool)@,
            None => {
                let m = version_manifest(name_id, version, schema_id, b, staged@, own@);
                let story = version_story(t@, *b, m);
                &&& r is Ok
                &&& old(pool).names(r->Ok_0.segment_id, r->Ok_0.offset)
                &&& ({
                    let k = old(pool).at(r->Ok_0.offset);
                    &&& 0 <= k < old(pool)@.len()
                    &&& !old(pool)@[k].allocated
                    &&& r->Ok_0.generation == old(pool)@[k].generation
                    &&& became_manifest(old(pool)@[k], final(pool)@[k], story)
                    &&& final(pool)@ == old(pool)@.update(k, final(pool)@[k])
                    &&& forall|j: int|
                        0 <= j < old(pool)@.len() ==> #[trigger] final(pool).held(j) == old(pool).held(j)
                            - count_off(chunks@, old(pool).lay@[j]) - link_off(
                            version_prev(*b),
                            old(pool).lay@[j],
                        ) + if j == k {
                            1int
                        } else {
                            0
                        }
                })
            },
        },
{
    let ghost lay = pool.lay@;
    let ghost p = pool@;
    let prev: Option<&ManifestLink> = match b {
        Base::Link(l) => Some(l),
        _ => None,
    };
    let window: Option<&WindowRoot> = match b {
        Base::Window(plan) => if plan.root.kept.len() > 0 {
            Some(&plan.root)
        } else {
            None
        },
        _ => None,
    };
    let bytes: Vec<u8> = match encode_manifest(
        name_id,
        version,
        schema_id,
        chunks,
        spans,
        prev,
        window,
    ) {
        Ok(bytes) => bytes,
        Err(e) => {
            return Err(e);
        },
    };
    let ghost m = version_manifest(name_id, version, schema_id, b, staged@, own@);
    let ghost story = version_story(t@, *b, m);
    proof {
        assert(story.last() == m);
        assert(backed(lay, pool.segment_id, p, story)) by {
            assert forall|k: int| 0 <= k < story.last().chunks.len() implies data_ok(
                lay,
                pool.segment_id,
                p,
                #[trigger] story.last().chunks[k],
            ) by {
                assert(data_ok(lay, pool.segment_id, p, chunks@[k]));
            }
            if let Base::Link(l) = *b {
                assert(story.drop_last() =~= t@);
                assert(story[story.len() - 2] == t@.last());
            }
        }
        assert forall|j: int| 0 <= j < p.len() implies #[trigger] pool.held(j) >= uses(story.last(), lay[j]) by {
        }
    }
    match pool.stage_manifest(bytes.as_slice(), owner, Ghost(story)) {
        Ok(d) => {
            proof {
                let k = old(pool).at(d.offset);
                lemma_has(lay, d.offset);
                assert(chunk_ok(p[k]));
                assert(chunk_ok(pool@[k]));
            }
            Ok(d)
        },
        Err(e) => Err(e),
    }
}

} // verus!
