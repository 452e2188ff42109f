//! The manifest record: which chunks one version added, and what it extends.
//!
//! A manifest is an immutable chunk. It lists the data chunks its **own**
//! version added, partitioned into batches, and either links to the manifest
//! of the version it extends or is a **root**. A root may be **windowed**: it
//! then re-lists the newest batches of its predecessor and records which
//! version each of them came from.
//!
//! # Layout
//!
//! ```text
//! off  size  field            notes
//!  0    8    magic            b"SHMMFST4"
//!  8    8    version          self-id
//! 16    4    artifact_id      self-id
//! 20    4    schema_id        equals the predecessor's when linked
//! 24    4    chunk_count      own data chunks only
//! 28    4    batch_count      own batches only
//! 32    8    prev_version     0 = root; else < version
//! 40    8    prev_ref         packed reference of the predecessor manifest; 0 = root
//! 48    4    prev_gen         generation of the predecessor chunk; 0 if root
//! 52    4    depth            0 for a root, else the predecessor's + 1
//! 56    4    total_batches    own + the predecessor's (saturating)
//! 60    4    kept_count       members of the window; 0 unless a windowed root
//! 64   24·chunk_count  descriptors (own, row order)
//! ..    4·batch_count  u32 spans (sum == chunk_count)
//! ..    8   window_base            only if kept_count > 0
//! ..   16·kept_count  {version u64, batches u32, 0 u32}
//! ```
use vstd::prelude::*;

use crate::artifact::error::Error;
use crate::chunk::{desc_at, get_desc, put_desc, ChunkDesc, PackedRef};
use crate::le::{get_u32, get_u64, put_u32, put_u64, same_outside, u32_at, u64_at};

verus! {

/// Manifest magic: the little-endian bytes of `b"SHMMFST4"`.
pub const MANIFEST_MAGIC: u64 = 0x3454_5346_4d4d_4853;

/// The size of the fixed header.
pub const MANIFEST_HEADER_BYTES: usize = 64;

/// The fixed header at the start of a manifest chunk.
#[derive(Clone, Copy, Debug, PartialEq, Eq, Structural)]
pub struct VersionManifest {
    pub magic: u64,
    pub version: u64,
    pub artifact_id: u32,
    pub schema_id: u32,
    pub chunk_count: u32,
    pub batch_count: u32,
    pub prev_version: u64,
    pub prev_ref: u64,
    pub prev_gen: u32,
    pub depth: u32,
    pub total_batches: u32,
    pub kept_count: u32,
}

/// A validated link from a manifest to its predecessor's manifest.
#[derive(Clone, Copy, Debug, PartialEq, Eq, Structural)]
pub struct ManifestLink {
    /// The predecessor's version, smaller than the linking manifest's.
    pub version: u64,
    /// Where the predecessor manifest chunk lives.
    pub mref: PackedRef,
    /// The predecessor chunk's generation when the link was taken.
    pub generation: u32,
    /// The predecessor's chain depth.
    pub depth: u32,
    /// The predecessor's batch total.
    pub total_batches: u32,
}

/// One version's share of the batches a windowed root re-lists.
#[derive(Clone, Copy, Debug, PartialEq, Eq, Structural)]
pub struct KeptMember {
    pub version: u64,
    pub batches: u32,
}

/// What a windowed root records about the batches it re-lists.
#[derive(Clone, Debug)]
pub struct WindowRoot {
    /// A reader at or past this version loses nothing by the window.
    pub base: u64,
    /// The re-listed batches by version, oldest first.
    pub kept: Vec<KeptMember>,
}

/// A parsed manifest.
#[derive(Clone, Debug, PartialEq, Eq)]
pub struct Manifest {
    pub artifact_id: u32,
    pub version: u64,
    pub schema_id: u32,
    /// The data chunks this version lists, flat and in row order.
    pub chunks: Vec<ChunkDesc>,
    /// `batch_spans[b]` consecutive chunks form batch `b`.
    pub batch_spans: Vec<u32>,
    /// The predecessor link, or `None` for a root.
    pub prev: Option<ManifestLink>,
    /// `0` for a root, else the predecessor's depth plus one.
    pub depth: u32,
    /// Batches in the whole chain.
    pub total_batches: u32,
    /// The window's base, `0` unless this is a windowed root.
    pub window_base: u64,
    /// The window's members, empty unless this is a windowed root.
    pub kept: Vec<KeptMember>,
}

/// What a manifest says.
#[verifier::ext_equal]
pub struct ManifestView {
    pub artifact_id: u32,
    pub version: u64,
    pub schema_id: u32,
    pub chunks: Seq<ChunkDesc>,
    pub batch_spans: Seq<u32>,
    pub prev: Option<ManifestLink>,
    pub depth: u32,
    pub total_batches: u32,
    pub window_base: u64,
    pub kept: Seq<KeptMember>,
}

impl View for Manifest {
    type V = ManifestView;

    open spec fn view(&self) -> ManifestView {
        ManifestView {
            artifact_id: self.artifact_id,
            version: self.version,
            schema_id: self.schema_id,
            chunks: self.chunks@,
            batch_spans: self.batch_spans@,
            prev: self.prev,
            depth: self.depth,
            total_batches: self.total_batches,
            window_base: self.window_base,
            kept: self.kept@,
        }
    }
}

// ---- extents ----

/// Offset of the span array.
pub open spec fn spans_at(chunks: int) -> int {
    MANIFEST_HEADER_BYTES + 24 * chunks
}

/// Offset of the window section.
pub open spec fn window_at(chunks: int, batches: int) -> int {
    spans_at(chunks) + 4 * batches
}

/// Length of the whole record.
pub open spec fn record_len(chunks: int, batches: int, kept: int) -> int {
    window_at(chunks, batches) + if kept > 0 {
        8 + 16 * kept
    } else {
        0
    }
}

/// Byte offset of the descriptor array within a manifest chunk.
pub fn chunks_offset() -> (n: usize)
    ensures
        n == MANIFEST_HEADER_BYTES,
{
    MANIFEST_HEADER_BYTES
}

/// Byte offset of the span array within a manifest chunk.
pub fn spans_offset(chunk_count: usize) -> (n: usize)
    requires
        spans_at(chunk_count as int) <= usize::MAX,
    ensures
        n == spans_at(chunk_count as int),
{
    chunks_offset() + chunk_count * 24
}

/// The serialized length of a manifest that lists `chunk_count` chunks in
/// `batch_count` batches and keeps no window.
pub fn manifest_len(chunk_count: usize, batch_count: usize) -> (n: usize)
    requires
        window_at(chunk_count as int, batch_count as int) <= usize::MAX,
    ensures
        n == window_at(chunk_count as int, batch_count as int),
        n == record_len(chunk_count as int, batch_count as int, 0),
{
    spans_offset(chunk_count) + batch_count * 4
}

// ---- what the bytes say ----

/// The header read off the first 64 bytes.
pub open spec fn header_at(b: Seq<u8>) -> VersionManifest {
    VersionManifest {
        magic: u64_at(b, 0),
        version: u64_at(b, 8),
        artifact_id: u32_at(b, 16),
        schema_id: u32_at(b, 20),
        chunk_count: u32_at(b, 24),
        batch_count: u32_at(b, 28),
        prev_version: u64_at(b, 32),
        prev_ref: u64_at(b, 40),
        prev_gen: u32_at(b, 48),
        depth: u32_at(b, 52),
        total_batches: u32_at(b, 56),
        kept_count: u32_at(b, 60),
    }
}

/// The member whose 16-byte record starts at `at`.
pub open spec fn kept_at(b: Seq<u8>, at: int) -> KeptMember {
    KeptMember { version: u64_at(b, at), batches: u32_at(b, at + 8) }
}

/// `prev_ref == 0`, `prev_version == 0` and `depth == 0` come together and mark
/// a root, whose `prev_gen` is `0` too; a link names an older version; only a
/// root is windowed; the chain's batch total covers the own batches.
pub open spec fn header_strict(h: VersionManifest) -> bool {
    let root = h.prev_ref == 0;
    &&& root == (h.prev_version == 0)
    &&& root == (h.depth == 0)
    &&& root ==> h.prev_gen == 0
    &&& !root ==> h.prev_version < h.version
    &&& !root ==> h.kept_count == 0
    &&& h.total_batches >= h.batch_count
}

/// The sum of the members' batches.
pub open spec fn kept_sum(kept: Seq<KeptMember>) -> nat
    decreases kept.len(),
{
    if kept.len() == 0 {
        0
    } else {
        kept_sum(kept.drop_last()) + kept.last().batches as nat
    }
}

/// The members of a window: versions ascending from the base on and older than
/// the root's own, at least one batch each, no more of them than are listed.
pub open spec fn window_strict(base: u64, kept: Seq<KeptMember>, version: u64, batches: int) -> bool {
    &&& kept.len() == 0 ==> base == 0
    &&& kept.len() > 0 ==> 0 < base <= kept[0].version
    &&& forall|i: int|
        0 <= i < kept.len() ==> (#[trigger] kept[i]).batches > 0 && kept[i].version < version
    &&& forall|i: int, j: int| 0 <= i < j < kept.len() ==> kept[i].version < kept[j].version
    &&& kept_sum(kept) <= batches
}

/// The manifest the bytes spell out.
pub open spec fn image(b: Seq<u8>) -> ManifestView {
    let h = header_at(b);
    let cc = h.chunk_count as int;
    let bc = h.batch_count as int;
    let w = window_at(cc, bc);
    ManifestView {
        artifact_id: h.artifact_id,
        version: h.version,
        schema_id: h.schema_id,
        chunks: Seq::new(cc as nat, |i: int| desc_at(b, desc_pos(i))),
        batch_spans: Seq::new(bc as nat, |i: int| u32_at(b, span_pos(cc, i))),
        prev: if h.prev_ref == 0 {
            None
        } else {
            Some(
                ManifestLink {
                    version: h.prev_version,
                    mref: PackedRef(h.prev_ref),
                    generation: h.prev_gen,
                    depth: (h.depth - 1) as u32,
                    total_batches: (h.total_batches - h.batch_count) as u32,
                },
            )
        },
        depth: h.depth,
        total_batches: h.total_batches,
        window_base: if h.kept_count > 0 {
            u64_at(b, w)
        } else {
            0
        },
        kept: Seq::new(h.kept_count as nat, |i: int| kept_at(b, kept_pos(w, i))),
    }
}

/// Whether the padding word of every window member is zero.
pub open spec fn kept_padding_zero(b: Seq<u8>) -> bool {
    let h = header_at(b);
    let w = window_at(h.chunk_count as int, h.batch_count as int);
    forall|i: int| 0 <= i < h.kept_count ==> u32_at(b, #[trigger] kept_pad_at(w, i)) == 0
}

/// Where descriptor `i` starts.
pub open spec fn desc_pos(i: int) -> int {
    MANIFEST_HEADER_BYTES + 24 * i
}

/// Where span `i` of a record with `chunks` descriptors starts.
pub open spec fn span_pos(chunks: int, i: int) -> int {
    spans_at(chunks) + 4 * i
}

/// Where member `i` of a window section at `w` starts.
pub open spec fn kept_pos(w: int, i: int) -> int {
    w + 8 + 16 * i
}

/// Where the padding word of member `i` starts.
pub open spec fn kept_pad_at(w: int, i: int) -> int {
    kept_pos(w, i) + 12
}

/// Whether the bytes hold a whole, consistent manifest record.
pub open spec fn well_formed(b: Seq<u8>) -> bool {
    let h = header_at(b);
    &&& header_strict(h)
    &&& record_len(h.chunk_count as int, h.batch_count as int, h.kept_count as int) <= b.len()
    &&& span_sum(image(b).batch_spans) == h.chunk_count
    &&& window_strict(image(b).window_base, image(b).kept, h.version, h.batch_count as int)
    &&& kept_padding_zero(b)
}

/// What parsing these bytes gives.
#[verifier::opaque]
pub open spec fn parsed(b: Seq<u8>) -> Result<ManifestView, Error> {
    if b.len() < MANIFEST_HEADER_BYTES {
        Err(Error::VersionGone)
    } else if header_at(b).magic != MANIFEST_MAGIC {
        Err(Error::BadMagic)
    } else if !well_formed(b) {
        Err(Error::VersionGone)
    } else {
        Ok(image(b))
    }
}

/// What a parsed manifest is sure to be.
pub open spec fn manifest_strict(m: ManifestView) -> bool {
    &&& m.batch_spans.len() <= m.total_batches
    &&& span_sum(m.batch_spans) == m.chunks.len()
    &&& window_strict(m.window_base, m.kept, m.version, m.batch_spans.len() as int)
    &&& match m.prev {
        Some(l) => {
            &&& l.mref.0 != 0
            &&& 0 < l.version < m.version
            &&& m.depth == l.depth + 1
            &&& m.total_batches == l.total_batches + m.batch_spans.len()
            &&& m.kept.len() == 0
        },
        None => m.depth == 0,
    }
}

/// Parsing gives consistent manifests only.
pub proof fn parsed_is_strict(b: Seq<u8>)
    requires
        parsed(b) is Ok,
    ensures
        manifest_strict(parsed(b)->Ok_0),
{
    reveal(parsed);
}

// ---- parsing ----

fn get_header(b: &[u8]) -> (h: VersionManifest)
    requires
        b@.len() >= MANIFEST_HEADER_BYTES,
    ensures
        h == header_at(b@),
{
    VersionManifest {
        magic: get_u64(b, 0),
        version: get_u64(b, 8),
        artifact_id: get_u32(b, 16),
        schema_id: get_u32(b, 20),
        chunk_count: get_u32(b, 24),
        batch_count: get_u32(b, 28),
        prev_version: get_u64(b, 32),
        prev_ref: get_u64(b, 40),
        prev_gen: get_u32(b, 48),
        depth: get_u32(b, 52),
        total_batches: get_u32(b, 56),
        kept_count: get_u32(b, 60),
    }
}

/// Whether `base` and `kept` are a consistent window of a root at `version`
/// that lists `batches` batches.
pub fn check_window(base: u64, kept: &[KeptMember], version: u64, batches: u32) -> (ok: bool)
    ensures
        ok == window_strict(base, kept@, version, batches as int),
{
    let n: usize = kept.len();
    if n == 0 {
        return base == 0;
    }
    if base == 0 || base > kept[0].version {
        return false;
    }
    let mut i: usize = 0;
    let mut sum: u64 = 0;
    while i < n
        invariant
            n == kept@.len(),
            i <= n,
            sum == kept_sum(kept@.take(i as int)),
            sum <= batches,
            forall|k: int|
                0 <= k < i ==> (#[trigger] kept@[k]).batches > 0 && kept@[k].version < version,
            forall|j: int, k: int| 0 <= j < k < i ==> kept@[j].version < kept@[k].version,
        decreases n - i,
    {
        let m: KeptMember = kept[i];
        proof {
            assert(kept@.take(i + 1).drop_last() =~= kept@.take(i as int));
            lemma_kept_sum_prefix(kept@, i + 1);
        }
        if m.batches == 0 || m.version >= version {
            return false;
        }
        if i > 0 && kept[i - 1].version >= m.version {
            return false;
        }
        sum = sum + m.batches as u64;
        if sum > batches as u64 {
            return false;
        }
        i = i + 1;
    }
    proof {
        assert(kept@.take(n as int) =~= kept@);
    }
    true
}

proof fn lemma_kept_sum_prefix(kept: Seq<KeptMember>, n: int)
    requires
        0 <= n <= kept.len(),
    ensures
        kept_sum(kept.take(n)) <= kept_sum(kept),
    decreases kept.len(),
{
    if n == kept.len() {
        assert(kept.take(n) =~= kept);
    } else {
        lemma_kept_sum_prefix(kept.drop_last(), n);
        assert(kept.drop_last().take(n) =~= kept.take(n));
    }
}

proof fn lemma_span_sum_prefix(spans: Seq<u32>, n: int)
    requires
        0 <= n <= spans.len(),
    ensures
        span_sum(spans.take(n)) <= span_sum(spans),
    decreases spans.len(),
{
    if n == spans.len() {
        assert(spans.take(n) =~= spans);
    } else {
        lemma_span_sum_prefix(spans.drop_last(), n);
        assert(spans.drop_last().take(n) =~= spans.take(n));
    }
}

/// Whether the spans make up `chunks` chunks.
pub fn check_spans(spans: &Vec<u32>, chunks: u32) -> (ok: bool)
    ensures
        ok == (span_sum(spans@) == chunks),
{
    let n: usize = spans.len();
    let mut sum: u32 = 0;
    let mut i: usize = 0;
    while i < n
        invariant
            n == spans@.len(),
            i <= n,
            sum == span_sum(spans@.take(i as int)),
            sum <= chunks,
        decreases n - i,
    {
        proof {
            assert(spans@.take(i + 1).drop_last() =~= spans@.take(i as int));
            lemma_span_sum_prefix(spans@, i + 1);
        }
        if spans[i] > chunks - sum {
            return false;
        }
        sum = sum + spans[i];
        i = i + 1;
    }
    proof {
        assert(spans@.take(n as int) =~= spans@);
    }
    sum == chunks
}

/// Parse and validate a manifest over its chunk bytes.
///
/// Every count is untrusted. A `bytes` shorter than the header, a record that
/// overruns it, an inconsistent header, or batches that do not make up the
/// chunks is `VersionGone`; a wrong magic is `BadMagic`.
pub fn parse_manifest_bytes(bytes: &[u8]) -> (r: Result<Manifest, Error>)
    ensures
        match parsed(bytes@) {
            Ok(m) => r is Ok && r->Ok_0@ == m,
            Err(e) => r == Err::<Manifest, Error>(e),
        },
{
    proof {
        reveal(parsed);
    }
    let n: usize = bytes.len();
    if n < MANIFEST_HEADER_BYTES {
        return Err(Error::VersionGone);
    }
    let h: VersionManifest = get_header(bytes);
    if h.magic != MANIFEST_MAGIC {
        return Err(Error::BadMagic);
    }
    let is_root: bool = h.prev_ref == 0;
    if is_root != (h.prev_version == 0) || is_root != (h.depth == 0) || (is_root && h.prev_gen != 0)
        || (!is_root && (h.prev_version >= h.version || h.kept_count != 0)) || h.total_batches
        < h.batch_count {
        return Err(Error::VersionGone);
    }
    let window_len: u64 = if h.kept_count > 0 {
        8 + 16 * (h.kept_count as u64)
    } else {
        0
    };
    let total: u64 = 64 + 24 * (h.chunk_count as u64) + 4 * (h.batch_count as u64) + window_len;
    if total > n as u64 {
        return Err(Error::VersionGone);
    }
    let cc: usize = h.chunk_count as usize;
    let bc: usize = h.batch_count as usize;
    let kc: usize = h.kept_count as usize;
    let mut chunks: Vec<ChunkDesc> = Vec::new();
    let mut i: usize = 0;
    while i < cc
        invariant
            cc == h.chunk_count,
            n == bytes@.len(),
            64 + 24 * cc <= n,
            i <= cc,
            chunks@.len() == i,
            forall|k: int| 0 <= k < i ==> chunks@[k] == desc_at(bytes@, desc_pos(k)),
        decreases cc - i,
    {
        chunks.push(get_desc(bytes, 64 + 24 * i));
        i = i + 1;
    }
    let so: usize = spans_offset(cc);
    let mut spans: Vec<u32> = Vec::new();
    i = 0;
    while i < bc
        invariant
            bc == h.batch_count,
            n == bytes@.len(),
            so == spans_at(cc as int),
            so + 4 * bc <= n,
            i <= bc,
            spans@.len() == i,
            forall|k: int| 0 <= k < i ==> spans@[k] == u32_at(bytes@, span_pos(cc as int, k)),
        decreases bc - i,
    {
        spans.push(get_u32(bytes, so + 4 * i));
        i = i + 1;
    }
    let w: usize = so + 4 * bc;
    let mut kept: Vec<KeptMember> = Vec::new();
    let mut window_base: u64 = 0;
    let mut pad_zero: bool = true;
    if kc > 0 {
        window_base = get_u64(bytes, w);
        i = 0;
        while i < kc
            invariant
                kc == h.kept_count,
                n == bytes@.len(),
                w == window_at(h.chunk_count as int, h.batch_count as int),
                w + 8 + 16 * kc <= n,
                i <= kc,
                kept@.len() == i,
                forall|k: int| 0 <= k < i ==> kept@[k] == kept_at(bytes@, kept_pos(w as int, k)),
                pad_zero <==> (forall|k: int|
                    0 <= k < i ==> u32_at(bytes@, #[trigger] kept_pad_at(w as int, k)) == 0),
            decreases kc - i,
        {
            let at: usize = w + 8 + 16 * i;
            assert(kept_pad_at(w as int, i as int) == at + 12);
            if get_u32(bytes, at + 12) != 0 {
                pad_zero = false;
            }
            kept.push(KeptMember { version: get_u64(bytes, at), batches: get_u32(bytes, at + 8) });
            i = i + 1;
        }
    }
    let ghost v = image(bytes@);
    proof {
        assert(chunks@ =~= v.chunks);
        assert(spans@ =~= v.batch_spans);
        assert(kept@ =~= v.kept);
    }
    if !check_spans(&spans, h.chunk_count) {
        return Err(Error::VersionGone);
    }
    if !pad_zero || !check_window(window_base, kept.as_slice(), h.version, h.batch_count) {
        return Err(Error::VersionGone);
    }
    let prev: Option<ManifestLink> = if is_root {
        None
    } else {
        Some(
            ManifestLink {
                version: h.prev_version,
                mref: PackedRef(h.prev_ref),
                generation: h.prev_gen,
                depth: h.depth - 1,
                total_batches: h.total_batches - h.batch_count,
            },
        )
    };
    Ok(
        Manifest {
            artifact_id: h.artifact_id,
            version: h.version,
            schema_id: h.schema_id,
            chunks,
            batch_spans: spans,
            prev,
            depth: h.depth,
            total_batches: h.total_batches,
            window_base,
            kept,
        },
    )
}

// ---- writing ----

/// The sum of a span table.
pub open spec fn span_sum(spans: Seq<u32>) -> nat
    decreases spans.len(),
{
    if spans.len() == 0 {
        0
    } else {
        span_sum(spans.drop_last()) + spans.last() as nat
    }
}

/// Whether `link` can be followed from a manifest at `version`: it names an
/// older version that is really there.
pub open spec fn link_older(link: ManifestLink, version: u64) -> bool {
    0 < link.version < version && link.mref.0 != 0
}

/// The batch total of a manifest with `own` batches that extends `prev`,
/// capped at what the header word holds.
pub open spec fn chain_total(own: int, prev: Option<ManifestLink>) -> u32 {
    match prev {
        Some(l) => if own + l.total_batches > u32::MAX {
            u32::MAX
        } else {
            (own + l.total_batches) as u32
        },
        None => own as u32,
    }
}

/// The base of an optional window.
pub open spec fn base_of(window: Option<&WindowRoot>) -> u64 {
    match window {
        Some(w) => w.base,
        None => 0,
    }
}

/// The members of an optional window.
pub open spec fn kept_of(window: Option<&WindowRoot>) -> Seq<KeptMember> {
    match window {
        Some(w) => w.kept@,
        None => seq![],
    }
}

/// The manifest of `version` over the given chunks: `prev` decides whether it
/// is linked, how deep it is and how many batches its chain holds.
pub open spec fn new_manifest(
    artifact_id: u32,
    version: u64,
    schema_id: u32,
    chunks: Seq<ChunkDesc>,
    spans: Seq<u32>,
    prev: Option<ManifestLink>,
    window: Option<&WindowRoot>,
) -> ManifestView {
    let total = chain_total(spans.len() as int, prev);
    ManifestView {
        artifact_id,
        version,
        schema_id,
        chunks,
        batch_spans: spans,
        prev: match prev {
            Some(l) => Some(
                ManifestLink { total_batches: (total - spans.len()) as u32, ..l },
            ),
            None => None,
        },
        depth: match prev {
            Some(l) => (l.depth + 1) as u32,
            None => 0,
        },
        total_batches: total,
        window_base: base_of(window),
        kept: kept_of(window),
    }
}

/// Why a manifest with these parts is refused, if it is.
pub open spec fn refused(
    version: u64,
    chunks: Seq<ChunkDesc>,
    spans: Seq<u32>,
    prev: Option<ManifestLink>,
    window: Option<&WindowRoot>,
) -> Option<Error> {
    if chunks.len() > u32::MAX {
        Some(Error::Unsupported("too many chunks in manifest"))
    } else if spans.len() > u32::MAX {
        Some(Error::Unsupported("too many batches in manifest"))
    } else if prev is Some && !link_older(prev->Some_0, version) {
        Some(Error::Unsupported("manifest link must name an older version"))
    } else if prev is Some && prev->Some_0.depth == u32::MAX {
        Some(Error::Unsupported("manifest chain too deep"))
    } else if prev is Some && kept_of(window).len() > 0 {
        Some(Error::Unsupported("a windowed manifest is a root"))
    } else if !window_strict(base_of(window), kept_of(window), version, spans.len() as int) {
        Some(Error::Unsupported("manifest window is inconsistent"))
    } else if record_len(chunks.len() as int, spans.len() as int, kept_of(window).len() as int)
        > usize::MAX {
        Some(Error::LayoutOverflow("manifest larger than memory"))
    } else {
        None
    }
}

proof fn lemma_kept_count(kept: Seq<KeptMember>)
    requires
        forall|i: int| 0 <= i < kept.len() ==> (#[trigger] kept[i]).batches > 0,
    ensures
        kept.len() <= kept_sum(kept),
    decreases kept.len(),
{
    if kept.len() > 0 {
        let p = kept.drop_last();
        assert forall|i: int| 0 <= i < p.len() implies (#[trigger] p[i]).batches > 0 by {
            assert(p[i] == kept[i]);
        }
        lemma_kept_count(p);
    }
}

fn put_header(b: &mut [u8], h: &VersionManifest)
    requires
        old(b)@.len() >= MANIFEST_HEADER_BYTES,
    ensures
        same_outside(old(b)@, final(b)@, 0, 64),
        header_at(final(b)@) == *h,
{
    put_u64(b, 0, h.magic);
    put_u64(b, 8, h.version);
    put_u32(b, 16, h.artifact_id);
    put_u32(b, 20, h.schema_id);
    put_u32(b, 24, h.chunk_count);
    put_u32(b, 28, h.batch_count);
    put_u64(b, 32, h.prev_version);
    put_u64(b, 40, h.prev_ref);
    put_u32(b, 48, h.prev_gen);
    put_u32(b, 52, h.depth);
    put_u32(b, 56, h.total_batches);
    put_u32(b, 60, h.kept_count);
}

fn put_kept(b: &mut [u8], at: usize, m: &KeptMember)
    requires
        at + 16 <= old(b)@.len(),
    ensures
        same_outside(old(b)@, final(b)@, at as int, 16),
        kept_at(final(b)@, at as int) == *m,
        u32_at(final(b)@, at + 12) == 0,
{
    let n: usize = b.len();
    assert(at + 16 <= n);
    put_u64(b, at, m.version);
    put_u32(b, at + 8, m.batches);
    put_u32(b, at + 12, 0);
}

/// Serialize a manifest.
///
/// The bytes parse back to exactly the manifest described by the arguments.
/// `batch_spans` must partition `chunks`. A link that does not name an older
/// version, a chain at the depth limit, a link beside a window, or a window
/// whose members are not older versions in ascending order is refused.
#[verifier::rlimit(40)]
pub fn encode_manifest(
    artifact_id: u32,
    version: u64,
    schema_id: u32,
    chunks: &[ChunkDesc],
    batch_spans: &[u32],
    prev: Option<&ManifestLink>,
    window: Option<&WindowRoot>,
) -> (r: Result<Vec<u8>, Error>)
    requires
        span_sum(batch_spans@) == chunks@.len(),
    ensures
        match refused(
            version,
            chunks@,
            batch_spans@,
            if prev is Some {
                Some(*prev->Some_0)
            } else {
                None
            },
            window,
        ) {
            Some(e) => r == Err::<Vec<u8>, Error>(e),
            None => {
                &&& r is Ok
                &&& r->Ok_0@.len() == record_len(
                    chunks@.len() as int,
                    batch_spans@.len() as int,
                    kept_of(window).len() as int,
                )
                &&& parsed(r->Ok_0@) == Ok::<ManifestView, Error>(
                    new_manifest(
                        artifact_id,
                        version,
                        schema_id,
                        chunks@,
                        batch_spans@,
                        if prev is Some {
                            Some(*prev->Some_0)
                        } else {
                            None
                        },
                        window,
                    ),
                )
            },
        },
{
    let cn: usize = chunks.len();
    let bn: usize = batch_spans.len();
    if cn as u64 > u32::MAX as u64 {
        return Err(Error::Unsupported("too many chunks in manifest"));
    }
    if bn as u64 > u32::MAX as u64 {
        return Err(Error::Unsupported("too many batches in manifest"));
    }
    let mut prev_version: u64 = 0;
    let mut prev_ref: u64 = 0;
    let mut prev_gen: u32 = 0;
    let mut depth: u32 = 0;
    let mut total: u32 = bn as u32;
    if let Some(l) = prev {
        if l.version >= version || l.version == 0 || l.mref.to_bits() == 0 {
            return Err(Error::Unsupported("manifest link must name an older version"));
        }
        if l.depth == u32::MAX {
            return Err(Error::Unsupported("manifest chain too deep"));
        }
        prev_version = l.version;
        prev_ref = l.mref.to_bits();
        prev_gen = l.generation;
        depth = l.depth + 1;
        let sum: u64 = bn as u64 + l.total_batches as u64;
        total = if sum > u32::MAX as u64 {
            u32::MAX
        } else {
            sum as u32
        };
    }
    let mut kn: usize = 0;
    let mut base: u64 = 0;
    if let Some(w) = window {
        kn = w.kept.len();
        base = w.base;
        if prev.is_some() && kn > 0 {
            return Err(Error::Unsupported("a windowed manifest is a root"));
        }
        if !check_window(base, w.kept.as_slice(), version, bn as u32) {
            return Err(Error::Unsupported("manifest window is inconsistent"));
        }
        proof {
            lemma_kept_count(w.kept@);
        }
    }
    let window_len: u64 = if kn > 0 {
        8 + 16 * (kn as u64)
    } else {
        0
    };
    let len: u64 = 64 + 24 * (cn as u64) + 4 * (bn as u64) + window_len;
    if len > usize::MAX as u64 {
        return Err(Error::LayoutOverflow("manifest larger than memory"));
    }
    let len: usize = len as usize;
    let h = VersionManifest {
        magic: MANIFEST_MAGIC,
        version,
        artifact_id,
        schema_id,
        chunk_count: cn as u32,
        batch_count: bn as u32,
        prev_version,
        prev_ref,
        prev_gen,
        depth,
        total_batches: total,
        kept_count: kn as u32,
    };
    let mut buf: Vec<u8> = zeroed(len);
    put_header(buf.as_mut_slice(), &h);
    let mut i: usize = 0;
    while i < cn
        invariant
            cn == chunks@.len(),
            buf@.len() == len,
            64 + 24 * cn <= len,
            i <= cn,
            header_at(buf@) == h,
            forall|k: int| 0 <= k < i ==> #[trigger] desc_at(buf@, desc_pos(k)) == chunks@[k],
        decreases cn - i,
    {
        let ghost before = buf@;
        put_desc(buf.as_mut_slice(), 64 + 24 * i, &chunks[i]);
        proof {
            assert(forall|k: int| 0 <= k < i ==> #[trigger] desc_at(buf@, desc_pos(k)) == desc_at(before, desc_pos(k)));
        }
        i = i + 1;
    }
    let so: usize = 64 + 24 * cn;
    i = 0;
    while i < bn
        invariant
            cn == chunks@.len(),
            bn == batch_spans@.len(),
            buf@.len() == len,
            so == 64 + 24 * cn,
            so + 4 * bn <= len,
            i <= bn,
            header_at(buf@) == h,
            forall|k: int| 0 <= k < cn ==> #[trigger] desc_at(buf@, desc_pos(k)) == chunks@[k],
            forall|k: int| 0 <= k < i ==> #[trigger] u32_at(buf@, span_pos(cn as int, k)) == batch_spans@[k],
        decreases bn - i,
    {
        let ghost before = buf@;
        put_u32(buf.as_mut_slice(), so + 4 * i, batch_spans[i]);
        proof {
            assert(forall|k: int| 0 <= k < cn ==> #[trigger] desc_at(buf@, desc_pos(k)) == desc_at(before, desc_pos(k)));
            assert(forall|k: int| 0 <= k < i ==> #[trigger] u32_at(buf@, span_pos(cn as int, k)) == u32_at(before, span_pos(cn as int, k)));
        }
        i = i + 1;
    }
    let w: usize = so + 4 * bn;
    if let Some(win) = window {
        if kn > 0 {
            let ghost before = buf@;
            put_u64(buf.as_mut_slice(), w, base);
            proof {
                assert(forall|k: int| 0 <= k < cn ==> #[trigger] desc_at(buf@, desc_pos(k)) == desc_at(before, desc_pos(k)));
                assert(forall|k: int| 0 <= k < bn ==> #[trigger] u32_at(buf@, span_pos(cn as int, k)) == u32_at(before, span_pos(cn as int, k)));
            }
            i = 0;
            while i < kn
                invariant
                    cn == chunks@.len(),
                    bn == batch_spans@.len(),
                    kn == win.kept@.len(),
                    buf@.len() == len,
                    so == 64 + 24 * cn,
                    w == so + 4 * bn,
                    w + 8 + 16 * kn <= len,
                    i <= kn,
                    header_at(buf@) == h,
                    u64_at(buf@, w as int) == base,
                    forall|k: int| 0 <= k < cn ==> #[trigger] desc_at(buf@, desc_pos(k)) == chunks@[k],
                    forall|k: int| 0 <= k < bn ==> #[trigger] u32_at(buf@, span_pos(cn as int, k)) == batch_spans@[k],
                    forall|k: int| 0 <= k < i ==> #[trigger] kept_at(buf@, kept_pos(w as int, k)) == win.kept@[k],
                    forall|k: int| 0 <= k < i ==> u32_at(buf@, #[trigger] kept_pad_at(w as int, k)) == 0,
                decreases kn - i,
            {
                let ghost before = buf@;
                let at: usize = w + 8 + 16 * i;
                put_kept(buf.as_mut_slice(), at, &win.kept[i]);
                proof {
                    assert(forall|k: int| 0 <= k < cn ==> #[trigger] desc_at(buf@, desc_pos(k)) == desc_at(before, desc_pos(k)));
                    assert(forall|k: int| 0 <= k < bn ==> #[trigger] u32_at(buf@, span_pos(cn as int, k)) == u32_at(before, span_pos(cn as int, k)));
                    assert(forall|k: int|
                        0 <= k < i ==> #[trigger] kept_at(buf@, kept_pos(w as int, k)) == kept_at(before, kept_pos(w as int, k)));
                    assert(forall|k: int|
                        0 <= k < i ==> u32_at(buf@, #[trigger] kept_pad_at(w as int, k)) == u32_at(before, kept_pad_at(w as int, k)));
                }
                i = i + 1;
            }
        }
    }
    proof {
        let p: Option<ManifestLink> = if prev is Some {
            Some(*prev->Some_0)
        } else {
            None
        };
        let v = new_manifest(artifact_id, version, schema_id, chunks@, batch_spans@, p, window);
        assert(image(buf@).chunks =~= v.chunks);
        assert(image(buf@).batch_spans =~= v.batch_spans);
        assert(image(buf@).kept =~= v.kept);
        assert(image(buf@) == v);
        assert(well_formed(buf@));
        reveal(parsed);
    }
    Ok(buf)
}

/// A vector of `n` zero bytes.
pub fn zeroed(n: usize) -> (b: Vec<u8>)
    ensures
        b@.len() == n,
        forall|i: int| 0 <= i < n ==> b@[i] == 0,
{
    let mut b: Vec<u8> = Vec::new();
    let mut i: usize = 0;
    while i < n
        invariant
            i <= n,
            b@.len() == i,
            forall|k: int| 0 <= k < i ==> b@[k] == 0,
        decreases n - i,
    {
        b.push(0);
        i = i + 1;
    }
    b
}

} // verus!
