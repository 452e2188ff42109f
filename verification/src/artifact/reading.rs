//! Reading manifests and tables out of the pool.
use vstd::prelude::*;

use crate::artifact::chain::{
    answered_by, answers, hop_ok, may_answer, member_ok, must_answer, resolved_by, stops, views,
    walk_chain_with, walk_length, walk_result, walkable, walked,
};
use crate::artifact::error::Error;
use crate::artifact::manifest::{
    manifest_strict, parse_manifest_bytes, parsed, parsed_is_strict, Manifest, ManifestLink,
    ManifestView,
};
use crate::artifact::pool::{at, backed, chunk_ok, lemma_has, link_ok, ChunkPool};
use crate::artifact::window::{chain_sane, member_sane};
use crate::chunk::PackedRef;

verus! {

/// What reading the manifest at `mref` gives.
pub open spec fn manifest_at(pool: &ChunkPool, mref: PackedRef) -> Result<ManifestView, Error> {
    if !pool.names(mref.spec_segment_id(), mref.spec_offset()) {
        Err(Error::OutOfBounds)
    } else {
        parsed(pool@[pool.at(mref.spec_offset())].bytes)
    }
}

/// What reading the manifest at `mref` gives to a reader who expects it to be
/// `version` of `artifact_id`.
pub open spec fn checked_manifest_at(
    pool: &ChunkPool,
    mref: PackedRef,
    artifact_id: u32,
    version: u64,
) -> Result<ManifestView, Error> {
    match manifest_at(pool, mref) {
        Err(e) => Err(e),
        Ok(m) => if m.artifact_id != artifact_id || m.version != version {
            Err(Error::StaleManifest)
        } else {
            Ok(m)
        },
    }
}

/// Whether `r` is `want`, manifests taken by what they say.
pub open spec fn reads_as(r: Result<Manifest, Error>, want: Result<ManifestView, Error>) -> bool {
    match want {
        Ok(m) => r is Ok && r->Ok_0@ == m,
        Err(e) => r == Err::<Manifest, Error>(e),
    }
}

/// Read and validate the manifest chunk `mref` points at.
pub fn read_manifest(pool: &ChunkPool, mref: PackedRef) -> (r: Result<Manifest, Error>)
    requires
        pool.wf(),
    ensures
        reads_as(r, manifest_at(pool, mref)),
{
    match pool.find(mref.segment_id(), mref.offset()) {
        None => Err(Error::OutOfBounds),
        Some(i) => {
            assert(pool@[i as int] == pool.chunks@[i as int]@);
            parse_manifest_bytes(pool.chunks[i].bytes.as_slice())
        },
    }
}

/// Read the manifest at `mref` and check that it says it is `expect_version` of
/// `expect_artifact_id`.
pub fn read_manifest_checked(
    pool: &ChunkPool,
    mref: PackedRef,
    expect_artifact_id: u32,
    expect_version: u64,
) -> (r: Result<Manifest, Error>)
    requires
        pool.wf(),
    ensures
        reads_as(r, checked_manifest_at(pool, mref, expect_artifact_id, expect_version)),
{
    match read_manifest(pool, mref) {
        Err(e) => Err(e),
        Ok(m) => {
            if m.artifact_id != expect_artifact_id || m.version != expect_version {
                Err(Error::StaleManifest)
            } else {
                Ok(m)
            }
        },
    }
}

/// What following the link `l` gives.
pub open spec fn linked_manifest(pool: &ChunkPool, artifact_id: u32, l: ManifestLink) -> Result<
    ManifestView,
    Error,
> {
    if !pool.names(l.mref.spec_segment_id(), l.mref.spec_offset()) {
        Err(Error::OutOfBounds)
    } else if pool@[pool.at(l.mref.spec_offset())].generation != l.generation {
        Err(Error::VersionGone)
    } else {
        checked_manifest_at(pool, l.mref, artifact_id, l.version)
    }
}

/// Follow a link: the chunk must still be of the generation the link was taken
/// at, and hold the manifest the link describes.
pub fn read_linked(pool: &ChunkPool, artifact_id: u32, link: &ManifestLink) -> (r: Result<Manifest, Error>)
    requires
        pool.wf(),
    ensures
        reads_as(r, linked_manifest(pool, artifact_id, *link)),
{
    match pool.find(link.mref.segment_id(), link.mref.offset()) {
        None => Err(Error::OutOfBounds),
        Some(i) => {
            assert(pool@[i as int] == pool.chunks@[i as int]@);
            if pool.chunks[i].generation != link.generation {
                return Err(Error::VersionGone);
            }
            read_manifest_checked(pool, link.mref, artifact_id, link.version)
        },
    }
}

/// The batch totals along the chain were never capped.
pub open spec fn exact_totals(ch: Seq<ManifestView>) -> bool {
    forall|i: int|
        0 < i < ch.len() ==> (#[trigger] ch[i]).total_batches == ch[i - 1].total_batches
            + ch[i].batch_spans.len()
}

/// The chain behind a story is made of strict manifests, each linked to the
/// one before.
pub open spec fn story_ok(pool: &ChunkPool, ch: Seq<ManifestView>) -> bool {
    &&& ch.len() > 0
    &&& forall|i: int| 0 <= i < ch.len() ==> manifest_strict(#[trigger] ch[i]) && member_sane(ch[i])
    &&& ch[0].prev is None
    &&& ch[0].total_batches == ch[0].batch_spans.len()
    &&& forall|i: int|
        0 < i < ch.len() ==> {
            &&& (#[trigger] ch[i]).prev is Some
            &&& ch[i].prev->Some_0.version == ch[i - 1].version
            &&& ch[i].prev->Some_0.depth == ch[i - 1].depth
            &&& linked_manifest(pool, ch[i - 1].artifact_id, ch[i].prev->Some_0) == Ok::<
                ManifestView,
                Error,
            >(ch[i - 1])
        }
    &&& forall|i: int|
        0 <= i < ch.len() ==> {
            &&& (#[trigger] ch[i]).depth == i
            &&& ch[i].artifact_id == ch.last().artifact_id
            &&& ch[i].schema_id == ch.last().schema_id
        }
}

/// In a sound pool every story is a chain that can be read.
pub proof fn lemma_story(pool: &ChunkPool, i: int)
    requires
        pool.wf(),
        0 <= i < pool@.len(),
        pool@[i].story is Some,
    ensures
        story_ok(pool, pool@[i].story->Some_0),
        chain_sane(pool@[i].story->Some_0),
        parsed(pool@[i].bytes) == Ok::<ManifestView, Error>(pool@[i].story->Some_0.last()),
    decreases pool@[i].story->Some_0.len(),
{
    let ch = pool@[i].story->Some_0;
    let m = ch.last();
    assert(chunk_ok(pool@[i]));
    assert(backed(pool.lay@, pool.segment_id, pool@, ch));
    parsed_is_strict(pool@[i].bytes);
    if m.prev is Some {
        let l = m.prev->Some_0;
        assert(link_ok(pool.lay@, pool.segment_id, pool@, ch, l));
        lemma_has(pool.lay@, l.mref.spec_offset());
        lemma_story(pool, at(pool.lay@, l.mref.spec_offset()));
        assert(ch.drop_last().last() == ch[ch.len() - 2]);
        assert(ch =~= ch.drop_last().push(m));
        lemma_story_push(pool, ch.drop_last(), m);
    } else {
        assert(ch[0] == m);
    }
}

proof fn lemma_story_push(pool: &ChunkPool, p: Seq<ManifestView>, m: ManifestView)
    requires
        story_ok(pool, p),
        chain_sane(p),
        manifest_strict(m),
        member_sane(m),
        m.prev is Some,
        m.prev->Some_0.version == p.last().version,
        m.prev->Some_0.depth == p.last().depth,
        m.artifact_id == p.last().artifact_id,
        m.schema_id == p.last().schema_id,
        linked_manifest(pool, p.last().artifact_id, m.prev->Some_0) == Ok::<ManifestView, Error>(
            p.last(),
        ),
    ensures
        story_ok(pool, p.push(m)),
        chain_sane(p.push(m)),
{
    let ch = p.push(m);
    let n = ch.len() as int;
    assert(ch[n - 2] == p.last());
    assert(p[n - 2].depth == n - 2);
    assert forall|j: int| 0 <= j < n implies manifest_strict(#[trigger] ch[j]) && member_sane(ch[j]) by {
        if j < n - 1 {
            assert(p[j] == ch[j]);
        }
    }
    assert forall|j: int| 0 <= j < n implies {
        &&& (#[trigger] ch[j]).depth == j
        &&& ch[j].artifact_id == m.artifact_id
        &&& ch[j].schema_id == m.schema_id
    } by {
        if j < n - 1 {
            assert(p[j] == ch[j]);
        }
    }
    assert forall|j: int| 0 < j < n implies {
        &&& (#[trigger] ch[j]).prev is Some
        &&& ch[j].prev->Some_0.version == ch[j - 1].version
        &&& ch[j].prev->Some_0.depth == ch[j - 1].depth
        &&& linked_manifest(pool, ch[j - 1].artifact_id, ch[j].prev->Some_0) == Ok::<
            ManifestView,
            Error,
        >(ch[j - 1])
    } by {
        if j < n - 1 {
            assert(p[j] == ch[j]);
            assert(p[j - 1] == ch[j - 1]);
        }
    }
    assert(p[0] == ch[0]);
    assert forall|a: int, b: int| 0 <= a < b < n implies ch[a].version < ch[b].version by {
        if b == n - 1 && a < n - 2 {
            assert(p[a].version < p[n - 2].version);
        }
    }
    assert forall|j: int| 0 < j < n implies (#[trigger] ch[j]).kept.len() == 0 by {
        if j < n - 1 {
            assert(p[j].kept.len() == 0);
        }
    }
}

/// A story whose totals are exact is a consistent walk, newest first.
proof fn lemma_story_walks(pool: &ChunkPool, ch: Seq<ManifestView>)
    requires
        story_ok(pool, ch),
        exact_totals(ch),
    ensures
        walk_result(ch.reverse(), ch.last(), None),
{
    let n = ch.reverse();
    let head = ch.last();
    let len = ch.len() as int;
    assert forall|i: int| 0 <= i < n.len() implies member_ok(#[trigger] n[i], head) by {
        assert(n[i] == ch[len - 1 - i]);
        assert(manifest_strict(ch[len - 1 - i]));
    }
    assert forall|i: int| 0 <= i < n.len() - 1 implies hop_ok(#[trigger] n[i], i, head) && answers(
        n[i].prev->Some_0,
        n[i + 1],
    ) by {
        let j = len - 1 - i;
        assert(n[i] == ch[j]);
        assert(n[i + 1] == ch[j - 1]);
        assert(manifest_strict(ch[j]));
        assert(ch[j].depth == j);
    }
    assert(n.last() == ch[0]);
    assert(manifest_strict(ch[0]));
    assert(head == ch[len - 1]);
    assert forall|i: int| 0 <= i < n.len() - 1 implies !stops(#[trigger] n[i], i, head, None) by {
        assert(n[i] == ch[len - 1 - i]);
    }
}

/// Walking the links of a story gives back the story and nothing else.
pub proof fn lemma_walk_is_story(pool: &ChunkPool, ch: Seq<ManifestView>, n: Seq<ManifestView>, i: int)
    requires
        story_ok(pool, ch),
        walked(n, ch.last()),
        n.len() <= ch.len(),
        0 <= i < n.len(),
        forall|j: int|
            0 <= j < n.len() - 1 ==> linked_manifest(
                pool,
                ch.last().artifact_id,
                (#[trigger] n[j]).prev->Some_0,
            ) == Ok::<ManifestView, Error>(n[j + 1]),
    ensures
        n[i] == ch[ch.len() - 1 - i],
    decreases i,
{
    if i > 0 {
        lemma_walk_is_story(pool, ch, n, i - 1);
        let j = ch.len() - 1 - (i - 1);
        assert(n[i - 1] == ch[j]);
        assert(ch[j].artifact_id == ch.last().artifact_id);
        assert(ch[j - 1].artifact_id == ch.last().artifact_id);
        assert(linked_manifest(pool, ch.last().artifact_id, n[i - 1].prev->Some_0) == Ok::<
            ManifestView,
            Error,
        >(n[i]));
    }
}

/// Whether `f` follows links as the pool does.
pub open spec fn follows<F: Fn(&ManifestLink) -> Result<Manifest, Error>>(f: F, pool: &ChunkPool, artifact_id: u32) -> bool {
    forall|l: ManifestLink, r: Result<Manifest, Error>| #[trigger]
        call_ensures(f, (&l,), r) ==> reads_as(r, linked_manifest(pool, artifact_id, l))
}

/// A story whose totals are exact can be walked.
proof fn lemma_story_walkable<F: Fn(&ManifestLink) -> Result<Manifest, Error>>(
    pool: &ChunkPool,
    ch: Seq<ManifestView>,
    f: F,
)
    requires
        story_ok(pool, ch),
        exact_totals(ch),
        follows(f, pool, ch.last().artifact_id),
    ensures
        walkable(ch.last(), None, f),
{
    lemma_story_walks(pool, ch);
    let n = ch.reverse();
    assert forall|i: int| 0 <= i < n.len() - 1 implies must_answer(
        f,
        (#[trigger] n[i]).prev->Some_0,
        n[i + 1],
    ) by {
        let j = ch.len() - 1 - i;
        assert(n[i] == ch[j] && n[i + 1] == ch[j - 1]);
        assert(ch[j].prev is Some);
        assert(ch[j - 1].artifact_id == ch.last().artifact_id);
    }
    assert(answered_by(n, f));
    reveal(walkable);
}

/// What a walk over a story gives is the story, and then its totals are exact.
proof fn lemma_story_walked<F: Fn(&ManifestLink) -> Result<Manifest, Error>>(
    pool: &ChunkPool,
    ch: Seq<ManifestView>,
    n: Seq<ManifestView>,
    f: F,
)
    requires
        story_ok(pool, ch),
        follows(f, pool, ch.last().artifact_id),
        walk_result(n, ch.last(), None),
        resolved_by(n, f),
    ensures
        n == ch.reverse(),
        exact_totals(ch),
{
    walk_length(n, ch.last());
    assert(ch[ch.len() - 1].depth == ch.len() - 1);
    assert forall|j: int| 0 <= j < n.len() - 1 implies linked_manifest(
        pool,
        ch.last().artifact_id,
        (#[trigger] n[j]).prev->Some_0,
    ) == Ok::<ManifestView, Error>(n[j + 1]) by {
        assert(may_answer(f, n[j].prev->Some_0, n[j + 1]));
    }
    assert forall|i: int| 0 <= i < n.len() implies #[trigger] n[i] == ch[ch.len() - 1 - i] by {
        lemma_walk_is_story(pool, ch, n, i);
    }
    assert(n =~= ch.reverse());
    assert forall|i: int| 0 < i < ch.len() implies (#[trigger] ch[i]).total_batches == ch[i
        - 1].total_batches + ch[i].batch_spans.len() by {
        let j = ch.len() - 1 - i;
        assert(n[j] == ch[i] && n[j + 1] == ch[i - 1]);
        assert(hop_ok(n[j], j, ch.last()) && answers(n[j].prev->Some_0, n[j + 1]));
        assert(member_ok(n[j], ch.last()));
    }
}

/// The manifests of the chain that `head`, the manifest in chunk `at_chunk`,
/// ends: oldest first, the row order of the table.
pub(crate) fn read_chain(pool: &ChunkPool, head: &Manifest, at_chunk: Ghost<int>) -> (r: Result<
    Vec<Manifest>,
    Error,
>)
    requires
        pool.wf(),
        0 <= at_chunk@ < pool@.len(),
        pool@[at_chunk@].story is Some,
        pool@[at_chunk@].story->Some_0.last() == head@,
    ensures
        r is Ok <==> exact_totals(pool@[at_chunk@].story->Some_0),
        r matches Ok(v) ==> views(v@) == pool@[at_chunk@].story->Some_0,
{
    let ghost ch = pool@[at_chunk@].story->Some_0;
    let artifact_id: u32 = head.artifact_id;
    let read_prev = |l: &ManifestLink| -> (r: Result<Manifest, Error>)
        ensures
            reads_as(r, linked_manifest(pool, artifact_id, *l)),
        { read_linked(pool, artifact_id, l) };
    proof {
        lemma_story(pool, at_chunk@);
        assert(follows(read_prev, pool, artifact_id));
        if exact_totals(ch) {
            lemma_story_walkable(pool, ch, read_prev);
        }
    }
    let r: Result<Vec<Manifest>, Error> = walk_chain_with(head, read_prev);
    proof {
        if r is Ok {
            lemma_story_walked(pool, ch, views(r->Ok_0@).reverse(), read_prev);
            assert(views(r->Ok_0@) =~= ch.reverse().reverse());
            assert(ch.reverse().reverse() =~= ch);
        }
    }
    r
}

} // verus!
