//! What a manifest is on the wire, and which are accepted.
use vstd::prelude::*;

use crate::artifact::error::Error;
use crate::artifact::manifest::{
    base_of, header_at, image, kept_at, kept_of, kept_sum, new_manifest, parsed, record_len,
    refused, span_sum, window_strict, KeptMember, ManifestLink, ManifestView, WindowRoot,
};
use crate::artifact::pool::ChunkPool;
use crate::artifact::reading::linked_manifest;
use crate::chunk::{desc_at, ChunkDesc};
use crate::message::laws::{counts_to, lemma_counts_4, lemma_counts_8};

verus! {

// ---- windows ----

/// Whether the members of a window are in order: each is older than the next, and
/// has a batch.
pub open spec fn in_order(kept: Seq<KeptMember>) -> bool {
    &&& forall|i: int| 0 <= i < kept.len() ==> (#[trigger] kept[i]).batches >= 1
    &&& forall|i: int, j: int|
        0 <= i && j == i + 1 && j < kept.len() ==> (#[trigger] kept[i]).version < (#[trigger] kept[j]).version
}

proof fn lemma_in_order(kept: Seq<KeptMember>, i: int, j: int)
    requires
        in_order(kept),
        0 <= i < j < kept.len(),
    ensures
        kept[i].version < kept[j].version,
    decreases j,
{
    if i < j - 1 {
        lemma_in_order(kept, i, j - 1);
    }
    let k = j - 1;
    assert(kept[k].version < kept[j].version);
}

/// Which windows are consistent: those without members and without a base, and those
/// with members in order, a base that is not zero and not later than the first, the
/// last older than the version that lists them, and no more batches than it lists.
pub proof fn which_windows_are_consistent(base: u64, kept: Seq<KeptMember>, version: u64, batches: int)
    requires
        batches >= 0,
    ensures
        window_strict(base, kept, version, batches) <==> if kept.len() == 0 {
            base == 0
        } else {
            &&& in_order(kept)
            &&& 1 <= base <= kept.first().version
            &&& kept.last().version < version
            &&& kept_sum(kept) <= batches
        },
{
    if kept.len() > 0 && in_order(kept) && kept.last().version < version {
        assert forall|i: int| 0 <= i < kept.len() implies (#[trigger] kept[i]).version < version by {
            if i < kept.len() - 1 {
                lemma_in_order(kept, i, kept.len() - 1);
            }
        }
        assert forall|i: int, j: int| 0 <= i < j < kept.len() implies kept[i].version < kept[j].version by {
            lemma_in_order(kept, i, j);
        }
    }
    if kept.len() > 0 && window_strict(base, kept, version, batches) {
        assert(kept[kept.len() - 1].version < version);
    }
}

/// Spans, and the batches of a window, are added up.
pub proof fn spans_add_up(a: Seq<u32>, b: Seq<u32>, k: Seq<KeptMember>, l: Seq<KeptMember>)
    ensures
        span_sum(a + b) == span_sum(a) + span_sum(b),
        a.len() == 1 ==> span_sum(a) == a[0],
        a.len() == 0 ==> span_sum(a) == 0,
        kept_sum(k + l) == kept_sum(k) + kept_sum(l),
        k.len() == 1 ==> kept_sum(k) == k[0].batches,
        k.len() == 0 ==> kept_sum(k) == 0,
    decreases b.len() + l.len(),
{
    if b.len() > 0 {
        spans_add_up(a, b.drop_last(), k, l);
        assert((a + b).drop_last() =~= a + b.drop_last());
    } else {
        assert(a + b =~= a);
        if l.len() > 0 {
            spans_add_up(a, b, k, l.drop_last());
            assert((k + l).drop_last() =~= k + l.drop_last());
        } else {
            assert(k + l =~= k);
        }
    }
    reveal_with_fuel(span_sum, 2);
    reveal_with_fuel(kept_sum, 2);
}

// ---- writing ----

/// Which manifests can be written: those with no more chunks and batches than a word
/// can count, whose link, if they have one, leads to an older version that is there
/// and is not too deep, whose window is consistent and goes without a link, and that
/// fit into memory.
pub proof fn which_manifests_can_be_written(
    version: u64,
    chunks: Seq<ChunkDesc>,
    spans: Seq<u32>,
    prev: Option<ManifestLink>,
    window: Option<&WindowRoot>,
)
    ensures
        refused(version, chunks, spans, prev, window) is None <==> {
            &&& chunks.len() <= 0xffff_ffff
            &&& spans.len() <= 0xffff_ffff
            &&& match prev {
                Some(l) => {
                    &&& 1 <= l.version && l.version < version
                    &&& l.mref.0 > 0
                    &&& l.depth < 0xffff_ffff
                    &&& kept_of(window).len() == 0
                },
                None => true,
            }
            &&& window_strict(base_of(window), kept_of(window), version, spans.len() as int)
            &&& 64 + 24 * chunks.len() + 4 * spans.len() + (if kept_of(window).len() == 0 {
                0
            } else {
                8 + 16 * kept_of(window).len()
            }) <= usize::MAX
        },
        window matches Some(w) ==> base_of(window) == w.base && kept_of(window) == w.kept@,
        window is None ==> base_of(window) == 0 && kept_of(window).len() == 0,
{
}

/// What a new manifest says: what it was given, and how deep it is and how many
/// batches there are in its chain: one deeper than what it links to, and its own
/// batches more, as far as a word can count.
pub proof fn what_a_new_manifest_says(
    artifact_id: u32,
    version: u64,
    schema_id: u32,
    chunks: Seq<ChunkDesc>,
    spans: Seq<u32>,
    prev: Option<ManifestLink>,
    window: Option<&WindowRoot>,
)
    requires
        refused(version, chunks, spans, prev, window) is None,
    ensures
        ({
            let m = new_manifest(artifact_id, version, schema_id, chunks, spans, prev, window);
            &&& m.artifact_id == artifact_id && m.version == version && m.schema_id == schema_id
            &&& m.chunks == chunks && m.batch_spans == spans
            &&& m.window_base == base_of(window) && m.kept == kept_of(window)
            &&& m.prev is Some <==> prev is Some
            &&& prev is None ==> m.depth == 0 && m.total_batches == spans.len()
            &&& prev matches Some(l) ==> {
                let k = m.prev->Some_0;
                &&& m.depth == l.depth + 1
                &&& l.total_batches + spans.len() <= 0xffff_ffff ==> m.total_batches == l.total_batches
                    + spans.len() && k == l
                &&& l.total_batches + spans.len() > 0xffff_ffff ==> m.total_batches == 0xffff_ffff
                &&& k.version == l.version && k.mref == l.mref && k.generation == l.generation && k.depth
                    == l.depth
                &&& k.total_batches + spans.len() == m.total_batches
            }
        }),
{
}

/// A manifest grows by a chunk's descriptor, a batch's span, or a window's member; the
/// first member comes with the window's base.
pub proof fn how_long_manifests_are(chunks: int, batches: int, kept: int)
    requires
        chunks >= 0,
        batches >= 0,
        kept >= 0,
    ensures
        record_len(0, 0, 0) == 64,
        record_len(chunks + 1, batches, kept) == record_len(chunks, batches, kept) + 24,
        record_len(chunks, batches + 1, kept) == record_len(chunks, batches, kept) + 4,
        record_len(chunks, batches, kept + 1) == record_len(chunks, batches, kept) + if kept == 0 {
            24int
        } else {
            16
        },
{
}

// ---- reading ----

/// What is read could have been written: what parses is the manifest that is written
/// of its parts, but for a root's count of batches, which is at least that.
pub proof fn what_is_read_could_have_been_written(b: Seq<u8>, w: WindowRoot)
    requires
        b.len() <= usize::MAX,
        parsed(b) is Ok,
        w.base == parsed(b)->Ok_0.window_base,
        w.kept@ == parsed(b)->Ok_0.kept,
    ensures
        ({
            let m = parsed(b)->Ok_0;
            let n = new_manifest(
                m.artifact_id,
                m.version,
                m.schema_id,
                m.chunks,
                m.batch_spans,
                m.prev,
                Some(&w),
            );
            &&& refused(m.version, m.chunks, m.batch_spans, m.prev, Some(&w)) is None
            &&& span_sum(m.batch_spans) == m.chunks.len()
            &&& m == (ManifestView { total_batches: m.total_batches, ..n })
            &&& m.prev is Some ==> m == n
            &&& m.total_batches >= n.total_batches
        }),
{
    reveal(parsed);
    let h = header_at(b);
    let m = image(b);
    assert(m.chunks.len() == h.chunk_count && m.batch_spans.len() == h.batch_count && m.kept.len()
        == h.kept_count);
}

/// Which bytes are refused: those too short for a header, and those without the mark
/// of a manifest, which are told apart, and those that contradict themselves.
pub proof fn which_bytes_are_no_manifest(b: Seq<u8>)
    ensures
        b.len() < 64 ==> parsed(b) == Err::<ManifestView, Error>(Error::VersionGone),
        parsed(b) == Err::<ManifestView, Error>(Error::BadMagic) <==> b.len() >= 64 && b.take(8) != seq![
            0x53u8, 0x48u8, 0x4du8, 0x4du8, 0x46u8, 0x53u8, 0x54u8, 0x34u8,
        ],
        parsed(b) is Err ==> parsed(b) == Err::<ManifestView, Error>(Error::BadMagic) || parsed(b) == Err::<
            ManifestView,
            Error,
        >(Error::VersionGone),
{
    reveal(parsed);
    if b.len() >= 64 {
        let s = seq![0x53u8, 0x48u8, 0x4du8, 0x4du8, 0x46u8, 0x53u8, 0x54u8, 0x34u8];
        let t = b.take(8);
        let low = crate::le::u32_at(b, 0) as int;
        let high = crate::le::u32_at(b, 4) as int;
        assert(low == b[0] + 0x100 * b[1] + 0x1_0000 * b[2] + 0x100_0000 * b[3]);
        assert(high == b[4] + 0x100 * b[5] + 0x1_0000 * b[6] + 0x100_0000 * b[7]);
        assert(header_at(b).magic == low + 0x1_0000_0000 * high);
        if header_at(b).magic == crate::artifact::manifest::MANIFEST_MAGIC {
            assert(high == 0x3454_5346 && low == 0x4d4d_4853);
            assert(t =~= s);
        }
        if t == s {
            assert(b[0] == t[0] && b[1] == t[1] && b[2] == t[2] && b[3] == t[3]);
            assert(b[4] == t[4] && b[5] == t[5] && b[6] == t[6] && b[7] == t[7]);
        }
    }
}

/// Which headers contradict themselves: a root has no link at all and no depth, what
/// is linked is older, and of what is linked nothing is windowed. So a manifest that
/// is read is a root or has a link, all of it.
pub proof fn what_the_header_of_a_manifest_says(b: Seq<u8>)
    requires
        parsed(b) is Ok,
    ensures
        ({
            let h = header_at(b);
            let m = parsed(b)->Ok_0;
            &&& h.prev_ref == 0 <==> h.prev_version == 0
            &&& h.prev_ref == 0 <==> h.depth == 0
            &&& h.prev_ref == 0 ==> h.prev_gen == 0
            &&& h.prev_ref != 0 ==> h.prev_version < h.version && h.kept_count == 0
            &&& h.total_batches >= h.batch_count
            &&& m.prev is None <==> h.prev_ref == 0
            &&& m.prev matches Some(l) ==> {
                &&& l.version == h.prev_version && l.mref.0 == h.prev_ref && l.generation == h.prev_gen
                &&& l.depth + 1 == h.depth
                &&& l.total_batches + h.batch_count == h.total_batches
            }
        }),
{
    reveal(parsed);
}

/// Where the parts of a manifest's header are, each with its lowest byte first.
pub proof fn where_parts_of_a_header_are(b: Seq<u8>)
    requires
        b.len() >= 64,
    ensures
        ({
            let h = header_at(b);
            &&& counts_to(b.subrange(8, 16), h.version as int)
            &&& counts_to(b.subrange(16, 20), h.artifact_id as int)
            &&& counts_to(b.subrange(20, 24), h.schema_id as int)
            &&& counts_to(b.subrange(24, 28), h.chunk_count as int)
            &&& counts_to(b.subrange(28, 32), h.batch_count as int)
            &&& counts_to(b.subrange(32, 40), h.prev_version as int)
            &&& counts_to(b.subrange(40, 48), h.prev_ref as int)
            &&& counts_to(b.subrange(48, 52), h.prev_gen as int)
            &&& counts_to(b.subrange(52, 56), h.depth as int)
            &&& counts_to(b.subrange(56, 60), h.total_batches as int)
            &&& counts_to(b.subrange(60, 64), h.kept_count as int)
        }),
{
    lemma_counts_8(b, 8);
    lemma_counts_4(b, 16);
    lemma_counts_4(b, 20);
    lemma_counts_4(b, 24);
    lemma_counts_4(b, 28);
    lemma_counts_8(b, 32);
    lemma_counts_8(b, 40);
    lemma_counts_4(b, 48);
    lemma_counts_4(b, 52);
    lemma_counts_4(b, 56);
    lemma_counts_4(b, 60);
}

/// Where the parts of a descriptor are, and those of a window's member.
pub proof fn where_parts_of_a_record_are(b: Seq<u8>, at: int)
    requires
        0 <= at,
        at + 24 <= b.len(),
    ensures
        counts_to(b.subrange(at, at + 4), desc_at(b, at).segment_id as int),
        counts_to(b.subrange(at + 4, at + 8), desc_at(b, at).generation as int),
        counts_to(b.subrange(at + 8, at + 12), desc_at(b, at).offset as int),
        counts_to(b.subrange(at + 12, at + 16), desc_at(b, at).len as int),
        counts_to(b.subrange(at + 16, at + 20), desc_at(b, at).schema_id as int),
        counts_to(b.subrange(at + 20, at + 24), desc_at(b, at)._pad as int),
        counts_to(b.subrange(at, at + 8), kept_at(b, at).version as int),
        counts_to(b.subrange(at + 8, at + 12), kept_at(b, at).batches as int),
{
    lemma_counts_4(b, at);
    lemma_counts_4(b, at + 4);
    lemma_counts_4(b, at + 8);
    lemma_counts_4(b, at + 12);
    lemma_counts_4(b, at + 16);
    lemma_counts_4(b, at + 20);
    lemma_counts_8(b, at);
}

/// Where the lists of a manifest are: the descriptors behind the header, the spans
/// behind them, and behind those the base of the window and its members, each of which
/// ends with four zeros.
pub proof fn where_lists_of_a_manifest_are(b: Seq<u8>, i: int)
    requires
        parsed(b) is Ok,
        0 <= i,
    ensures
        ({
            let m = parsed(b)->Ok_0;
            let s = 64int + 24 * m.chunks.len();
            let w = s + 4 * m.batch_spans.len();
            &&& i < m.chunks.len() ==> m.chunks[i] == desc_at(b, 64 + 24 * i)
            &&& i < m.batch_spans.len() ==> counts_to(
                b.subrange(s + 4 * i, s + 4 * i + 4),
                m.batch_spans[i] as int,
            )
            &&& m.kept.len() > 0 ==> counts_to(b.subrange(w, w + 8), m.window_base as int)
            &&& i < m.kept.len() ==> m.kept[i] == kept_at(b, w + 8 + 16 * i) && b[w + 8 + 16 * i + 12] == 0
                && b[w + 8 + 16 * i + 13] == 0 && b[w + 8 + 16 * i + 14] == 0 && b[w + 8 + 16 * i + 15] == 0
            &&& w + (if m.kept.len() > 0 {
                8 + 16 * m.kept.len()
            } else {
                0
            }) <= b.len()
        }),
{
    reveal(parsed);
    let m = parsed(b)->Ok_0;
    let s = 64int + 24 * m.chunks.len();
    let w = s + 4 * m.batch_spans.len();
    if i < m.batch_spans.len() {
        lemma_counts_4(b, s + 4 * i);
        assert(crate::artifact::manifest::span_pos(m.chunks.len() as int, i) == s + 4 * i);
    }
    if m.kept.len() > 0 {
        lemma_counts_8(b, w as int);
    }
    if i < m.kept.len() {
        assert(crate::artifact::manifest::kept_pos(w as int, i) == w + 8 + 16 * i);
        assert(crate::le::u32_at(b, crate::artifact::manifest::kept_pad_at(w as int, i)) == 0);
        let p = w + 8 + 16 * i + 12;
        assert(crate::le::u32_at(b, p) == b[p] + 0x100 * b[p + 1] + 0x1_0000 * b[p + 2] + 0x100_0000
            * b[p + 3]);
    }
}

/// What following a link gives: the manifest in the chunk that it names, if the chunk
/// is still in the generation of the link and the manifest is of the artifact and the
/// version that is looked for.
pub proof fn what_following_a_link_gives(pool: &ChunkPool, artifact_id: u32, l: ManifestLink, k: int)
    requires
        pool.wf(),
        0 <= k < pool@.len(),
        l.mref.spec_segment_id() == pool.segment_id,
        l.mref.spec_offset() == pool.lay@[k],
    ensures
        ({
            let r = linked_manifest(pool, artifact_id, l);
            let p = parsed(pool@[k].bytes);
            &&& pool@[k].generation != l.generation ==> r == Err::<ManifestView, Error>(Error::VersionGone)
            &&& pool@[k].generation == l.generation ==> match p {
                Err(e) => r == Err::<ManifestView, Error>(e),
                Ok(m) => if m.artifact_id == artifact_id && m.version == l.version {
                    r == p
                } else {
                    r == Err::<ManifestView, Error>(Error::StaleManifest)
                },
            }
        }),
{
    crate::artifact::pool::lemma_at(pool.lay@, k);
}

} // verus!
