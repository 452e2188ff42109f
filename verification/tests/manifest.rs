use holon::artifact::chain::{walk_chain_newest_first, walk_chain_with};
use holon::artifact::error::Error;
use holon::artifact::manifest::{
    check_spans, encode_manifest, manifest_len, parse_manifest_bytes, KeptMember, Manifest,
    ManifestLink, WindowRoot, MANIFEST_MAGIC,
};
use holon::chunk::{ChunkDesc, PackedRef};

/// Deterministic xorshift PRNG.
struct Rng(u64);

impl Rng {
    fn next_u64(&mut self) -> u64 {
        let mut x = self.0;
        x ^= x << 13;
        x ^= x >> 7;
        x ^= x << 17;
        self.0 = x;
        x
    }
    fn byte(&mut self) -> u8 {
        (self.next_u64() & 0xff) as u8
    }
    fn below(&mut self, n: usize) -> usize {
        (self.next_u64() % n as u64) as usize
    }
}

/// A well-formed root manifest image with `chunk_count`/`batch_count` entries
/// in a buffer of `len` bytes.
fn valid_manifest(chunk_count: u32, batch_count: u32, len: usize) -> Vec<u8> {
    let mut b = vec![0u8; len];
    if len >= 64 {
        b[0..8].copy_from_slice(&MANIFEST_MAGIC.to_le_bytes());
        b[8..16].copy_from_slice(&5u64.to_le_bytes());
        b[16..20].copy_from_slice(&7u32.to_le_bytes());
        b[20..24].copy_from_slice(&1u32.to_le_bytes());
        b[24..28].copy_from_slice(&chunk_count.to_le_bytes());
        b[28..32].copy_from_slice(&batch_count.to_le_bytes());
        b[56..60].copy_from_slice(&batch_count.to_le_bytes());
    }
    b
}

fn link(b: &mut [u8], prev_version: u64, prev_ref: u64, prev_gen: u32, depth: u32, total: u32) {
    b[32..40].copy_from_slice(&prev_version.to_le_bytes());
    b[40..48].copy_from_slice(&prev_ref.to_le_bytes());
    b[48..52].copy_from_slice(&prev_gen.to_le_bytes());
    b[52..56].copy_from_slice(&depth.to_le_bytes());
    b[56..60].copy_from_slice(&total.to_le_bytes());
}

#[test]
fn manifest_parser_rejects_oversized_counts_no_oob() {
    let mut b = valid_manifest(0, 0, 96);
    b[24..28].copy_from_slice(&u32::MAX.to_le_bytes());
    assert!(matches!(parse_manifest_bytes(&b), Err(Error::VersionGone)));

    let mut b = valid_manifest(0, 0, 96);
    b[28..32].copy_from_slice(&u32::MAX.to_le_bytes());
    b[56..60].copy_from_slice(&u32::MAX.to_le_bytes());
    assert!(matches!(parse_manifest_bytes(&b), Err(Error::VersionGone)));

    // A count that fits the u32 length cap but overruns the actual bytes.
    let mut b = valid_manifest(0, 0, 96);
    b[24..28].copy_from_slice(&3u32.to_le_bytes());
    assert!(matches!(parse_manifest_bytes(&b), Err(Error::VersionGone)));
}

#[test]
fn manifest_parser_rejects_short_and_bad_magic() {
    for n in 0..64usize {
        assert!(matches!(parse_manifest_bytes(&vec![0u8; n]), Err(Error::VersionGone)));
    }
    assert!(matches!(parse_manifest_bytes(&[0u8; 96]), Err(Error::BadMagic)));
}

#[test]
fn manifest_parser_round_trips_a_root_image() {
    let total = manifest_len(2, 2);
    assert_eq!(total, 120);
    let mut b = valid_manifest(2, 2, total);
    for i in 0..2u32 {
        let at = 64 + i as usize * 24;
        b[at..at + 4].copy_from_slice(&(100 + i).to_le_bytes());
        b[at + 12..at + 16].copy_from_slice(&4096u32.to_le_bytes());
    }
    let sp = 64 + 2 * 24;
    b[sp..sp + 4].copy_from_slice(&1u32.to_le_bytes());
    b[sp + 4..sp + 8].copy_from_slice(&1u32.to_le_bytes());
    let m = parse_manifest_bytes(&b).expect("valid manifest parses");
    assert_eq!(m.chunks.len(), 2);
    assert_eq!(m.batch_spans, vec![1, 1]);
    assert_eq!(m.chunks[0].segment_id, 100);
    assert_eq!(m.artifact_id, 7);
    assert_eq!(m.version, 5);
    assert_eq!(m.prev, None);
    assert_eq!(m.depth, 0);
    assert_eq!(m.total_batches, 2);
}

#[test]
fn manifest_parser_round_trips_a_linked_image() {
    let total = manifest_len(1, 1);
    let mut b = valid_manifest(1, 1, total);
    let sp = 64 + 24;
    b[sp..sp + 4].copy_from_slice(&1u32.to_le_bytes());
    // version 5 links to version 3 at depth 2 (prev depth 1), 4 batches total.
    link(&mut b, 3, 0x0000_0001_0000_1000, 9, 2, 4);
    let m = parse_manifest_bytes(&b).expect("linked manifest parses");
    assert_eq!(m.depth, 2);
    assert_eq!(m.total_batches, 4);
    assert_eq!(
        m.prev,
        Some(ManifestLink {
            version: 3,
            mref: PackedRef(0x0000_0001_0000_1000),
            generation: 9,
            depth: 1,
            total_batches: 3,
        })
    );
    // A never-recycled predecessor legitimately has generation 0.
    link(&mut b, 3, 0x0000_0001_0000_1000, 0, 2, 4);
    assert!(parse_manifest_bytes(&b).is_ok());
}

#[test]
fn manifest_parser_enforces_root_strictness() {
    let total = manifest_len(0, 0);
    let ok = valid_manifest(0, 0, total);
    assert!(parse_manifest_bytes(&ok).is_ok());

    // prev_ref without prev_version / depth.
    let mut b = ok.clone();
    b[40..48].copy_from_slice(&1u64.to_le_bytes());
    assert!(matches!(parse_manifest_bytes(&b), Err(Error::VersionGone)));
    // prev_version without prev_ref.
    let mut b = ok.clone();
    b[32..40].copy_from_slice(&1u64.to_le_bytes());
    assert!(matches!(parse_manifest_bytes(&b), Err(Error::VersionGone)));
    // depth without a link.
    let mut b = ok.clone();
    b[52..56].copy_from_slice(&1u32.to_le_bytes());
    assert!(matches!(parse_manifest_bytes(&b), Err(Error::VersionGone)));
    // prev_gen on a root.
    let mut b = ok.clone();
    b[48..52].copy_from_slice(&1u32.to_le_bytes());
    assert!(matches!(parse_manifest_bytes(&b), Err(Error::VersionGone)));
    // Linked but prev_version >= version (a self-link, and a future link).
    let mut b = ok.clone();
    link(&mut b, 5, 1, 0, 1, 0);
    assert!(matches!(parse_manifest_bytes(&b), Err(Error::VersionGone)));
    let mut b = ok.clone();
    link(&mut b, 6, 1, 0, 1, 0);
    assert!(matches!(parse_manifest_bytes(&b), Err(Error::VersionGone)));
    // Linked with depth 0.
    let mut b = ok.clone();
    link(&mut b, 4, 1, 0, 0, 0);
    assert!(matches!(parse_manifest_bytes(&b), Err(Error::VersionGone)));
    // total_batches < batch_count.
    let mut b = valid_manifest(1, 1, manifest_len(1, 1));
    b[56..60].copy_from_slice(&0u32.to_le_bytes());
    assert!(matches!(parse_manifest_bytes(&b), Err(Error::VersionGone)));
    // Reserved word set.
    let mut b = ok.clone();
    b[60..64].copy_from_slice(&1u32.to_le_bytes());
    assert!(matches!(parse_manifest_bytes(&b), Err(Error::VersionGone)));
    // A well-formed link still parses.
    let mut b = ok.clone();
    link(&mut b, 4, 1, 0, 1, 0);
    assert!(parse_manifest_bytes(&b).is_ok());
}

#[test]
fn manifest_parser_never_panics_on_arbitrary_bytes() {
    let mut rng = Rng(0x5eed_dead_beef_0002);
    for _ in 0..200_000 {
        let b: Vec<u8> = if rng.below(2) == 0 {
            let len = rng.below(160);
            (0..len).map(|_| rng.byte()).collect()
        } else {
            let cc = rng.below(6) as u32;
            let bc = rng.below(6) as u32;
            let len = 64 + rng.below(160);
            let mut b = valid_manifest(cc, bc, len);
            if rng.below(2) == 0 {
                link(
                    &mut b,
                    1 + rng.below(4) as u64,
                    1 + rng.next_u64() % 1000,
                    rng.byte() as u32,
                    1 + rng.below(3) as u32,
                    bc + rng.below(4) as u32,
                );
            }
            for _ in 0..rng.below(8) {
                if !b.is_empty() {
                    let i = rng.below(b.len());
                    b[i] ^= rng.byte();
                }
            }
            b
        };
        let _ = parse_manifest_bytes(&b);
    }
}

// ---- encoding ----

fn desc(i: u32) -> ChunkDesc {
    ChunkDesc { segment_id: 3, generation: i, offset: 64 * (i + 1), len: 64, schema_id: 9, _pad: 0 }
}

#[test]
fn encoded_manifests_parse_back() {
    let chunks = vec![desc(0), desc(1), desc(2)];
    let b = encode_manifest(7, 5, 9, &chunks, &[1, 2], None, None).unwrap();
    assert_eq!(b.len(), manifest_len(3, 2));
    let m = parse_manifest_bytes(&b).unwrap();
    assert_eq!((m.artifact_id, m.version, m.schema_id), (7, 5, 9));
    assert_eq!(m.chunks, chunks);
    assert_eq!(m.batch_spans, vec![1, 2]);
    assert_eq!((m.depth, m.total_batches, m.window_base), (0, 2, 0));

    let l = ManifestLink { version: 4, mref: PackedRef::pack(3, 640), generation: 6, depth: 2, total_batches: 5 };
    let b = encode_manifest(7, 5, 9, &chunks, &[3], Some(&l), None).unwrap();
    let m = parse_manifest_bytes(&b).unwrap();
    assert_eq!(m.prev, Some(l));
    assert_eq!((m.depth, m.total_batches), (3, 6));

    let w = WindowRoot { base: 2, kept: vec![KeptMember { version: 3, batches: 1 }, KeptMember { version: 4, batches: 1 }] };
    let b = encode_manifest(7, 5, 9, &chunks, &[1, 1, 1], None, Some(&w)).unwrap();
    let m = parse_manifest_bytes(&b).unwrap();
    assert_eq!(m.window_base, 2);
    assert_eq!(m.kept, w.kept);
}

#[test]
fn encoding_refuses_bad_links() {
    let l = ManifestLink { version: 5, mref: PackedRef::pack(3, 640), generation: 0, depth: 0, total_batches: 0 };
    assert!(matches!(
        encode_manifest(7, 5, 9, &[], &[], Some(&l), None),
        Err(Error::Unsupported("manifest link must name an older version"))
    ));
    let l = ManifestLink { version: 4, depth: u32::MAX, ..l };
    assert!(matches!(
        encode_manifest(7, 5, 9, &[], &[], Some(&l), None),
        Err(Error::Unsupported("manifest chain too deep"))
    ));
}

// ---- walking ----

fn mref(v: u64) -> PackedRef {
    PackedRef(0x1_0000_0000 | (v << 8))
}

fn root(version: u64, batches: u32) -> Manifest {
    Manifest {
        artifact_id: 7,
        version,
        schema_id: 1,
        chunks: vec![ChunkDesc::zero(); batches as usize],
        batch_spans: vec![1; batches as usize],
        prev: None,
        depth: 0,
        total_batches: batches,
        window_base: 0,
        kept: vec![],
    }
}

fn linked(version: u64, batches: u32, prev: &Manifest) -> Manifest {
    Manifest {
        artifact_id: prev.artifact_id,
        version,
        schema_id: prev.schema_id,
        chunks: vec![ChunkDesc::zero(); batches as usize],
        batch_spans: vec![1; batches as usize],
        prev: Some(prev.link_from(mref(prev.version), 0)),
        depth: prev.depth + 1,
        total_batches: prev.total_batches + batches,
        window_base: 0,
        kept: vec![],
    }
}

/// A chain keyed by manifest ref.
fn store(ms: &[Manifest]) -> impl Fn(&ManifestLink) -> Result<Manifest, Error> + '_ {
    move |l: &ManifestLink| {
        ms.iter().find(|m| mref(m.version) == l.mref).cloned().ok_or(Error::VersionGone)
    }
}

#[test]
fn walk_chain_happy_path_is_oldest_first() {
    let a = root(1, 2);
    let b = linked(2, 1, &a);
    let c = linked(3, 3, &b);
    let all = [a.clone(), b.clone(), c.clone()];
    let chain = walk_chain_with(&c, store(&all)).unwrap();
    assert_eq!(chain, vec![a.clone(), b, c]);
    assert_eq!(chain.last().unwrap().total_batches, 6);
    // A root walks to itself.
    assert_eq!(walk_chain_with(&a, store(&all)).unwrap(), vec![a]);
}

#[test]
fn walk_newest_first_stops_at_the_floor() {
    let a = root(1, 2);
    let b = linked(2, 1, &a);
    let c = linked(3, 3, &b);
    let all = [a.clone(), b.clone(), c.clone()];
    assert_eq!(walk_chain_newest_first(&c, 1, store(&all)).unwrap(), vec![c.clone(), b.clone()]);
    assert_eq!(walk_chain_newest_first(&c, 0, store(&all)).unwrap(), vec![c.clone(), b, a]);
    // Nothing at or below the floor is read: an empty store is enough.
    assert_eq!(walk_chain_newest_first(&c, 2, store(&[])).unwrap(), vec![c]);
}

#[test]
fn walk_chain_rejects_cycle_depth_overrun_and_ordering() {
    let a = root(1, 1);
    let b = linked(2, 1, &a);
    let mut c = linked(3, 1, &b);
    let all = [a.clone(), b.clone(), c.clone()];

    // Cycle: c -> b -> c (b's link points forward).
    let mut b_cycle = b.clone();
    b_cycle.prev = Some(c.link_from(mref(3), 0));
    assert!(matches!(
        walk_chain_with(&c, store(&[a.clone(), b_cycle, c.clone()])),
        Err(Error::VersionGone)
    ));

    // Depth overrun: head claims depth 1 but the chain is 2 deep.
    c.depth = 1;
    c.prev = Some(ManifestLink { depth: 0, ..c.prev.unwrap() });
    assert!(matches!(walk_chain_with(&c, store(&all)), Err(Error::VersionGone)));

    // Non-decreasing version on the link itself.
    let mut d = linked(4, 1, &b);
    d.prev = Some(ManifestLink { version: 4, ..d.prev.unwrap() });
    assert!(matches!(walk_chain_with(&d, store(&all)), Err(Error::VersionGone)));

    // The resolved predecessor does not self-identify as the linked version.
    let mut e = linked(5, 1, &b);
    e.prev = Some(ManifestLink { mref: mref(1), ..e.prev.unwrap() });
    assert!(matches!(walk_chain_with(&e, store(&all)), Err(Error::VersionGone)));

    // Missing predecessor propagates the resolver's error.
    let f = linked(6, 1, &b);
    assert!(matches!(
        walk_chain_with(&f, store(std::slice::from_ref(&f))),
        Err(Error::VersionGone)
    ));
}

#[test]
fn walk_chain_rejects_schema_drift_and_batch_total_mismatch() {
    let a = root(1, 2);
    let b = linked(2, 1, &a);
    let mut a_drift = a.clone();
    a_drift.schema_id = 2;
    assert!(matches!(
        walk_chain_with(&b, store(&[a_drift, b.clone()])),
        Err(Error::VersionGone)
    ));

    // total_batches does not telescope: b claims 5 total over a's 2.
    let mut b_bad = b.clone();
    b_bad.total_batches = 5;
    b_bad.prev = Some(ManifestLink { total_batches: 4, ..b_bad.prev.unwrap() });
    assert!(matches!(
        walk_chain_with(&b_bad, store(&[a.clone(), b_bad.clone()])),
        Err(Error::VersionGone)
    ));

    // A root whose total_batches != its own batch_count.
    let mut a_bad = a.clone();
    a_bad.total_batches = 3;
    assert!(matches!(
        walk_chain_with(&a_bad, store(std::slice::from_ref(&a_bad))),
        Err(Error::VersionGone)
    ));
}

#[test]
fn spans_must_make_up_the_chunks() {
    let mut b = valid_manifest(1, 1, manifest_len(1, 1));
    let sp = 64 + 24;
    for (span, ok) in [(0u32, false), (1, true), (2, false), (7, false), (u32::MAX, false)] {
        b[sp..sp + 4].copy_from_slice(&span.to_le_bytes());
        match parse_manifest_bytes(&b) {
            Ok(m) => assert!(ok && m.batch_spans == vec![span]),
            Err(e) => assert!(!ok && e == Error::VersionGone),
        }
    }
    assert!(check_spans(&vec![], 0) && !check_spans(&vec![], 1));
    assert!(check_spans(&vec![2, 0, 3], 5) && !check_spans(&vec![u32::MAX, 2], 1));
}

#[test]
fn walks_fail_with_what_went_wrong() {
    let a = root(1, 1);
    let b = linked(2, 1, &a);
    // An error of the resolver is passed on.
    let full = |_: &ManifestLink| Err::<Manifest, Error>(Error::Exhausted);
    assert!(matches!(walk_chain_with(&b, full), Err(Error::Exhausted)));
    assert!(matches!(walk_chain_newest_first(&b, 0, full), Err(Error::Exhausted)));
    // A root that claims a depth is gone, and nothing is read.
    let calls = std::cell::Cell::new(0u32);
    let mut deep = root(3, 1);
    deep.depth = 2;
    let counted = |_: &ManifestLink| {
        calls.set(calls.get() + 1);
        Err::<Manifest, Error>(Error::Exhausted)
    };
    assert!(matches!(walk_chain_with(&deep, counted), Err(Error::VersionGone)));
    assert_eq!(calls.get(), 0);
    // At most as many links are read as the head's depth says.
    let c = linked(3, 1, &b);
    let all = [a.clone(), b.clone(), c.clone()];
    let read = store(&all);
    let counted = |l: &ManifestLink| {
        calls.set(calls.get() + 1);
        read(l)
    };
    assert_eq!(walk_chain_with(&c, counted).unwrap(), vec![a, b, c]);
    assert_eq!(calls.get(), 2);
}
