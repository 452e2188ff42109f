//! Writing a manifest into the pool by itself.
use vstd::prelude::*;

use crate::artifact::borrow::parsed_ignores_what_follows;
use crate::artifact::error::Error;
use crate::artifact::manifest::{
    encode_manifest, kept_of, new_manifest, parsed, record_len, refused, span_sum, ManifestLink,
    ManifestView, WindowRoot,
};
use crate::artifact::pool::{chunk_ok, fits, lemma_has, overwritten, ChunkPool, ChunkView};
use crate::batch::write::{desc_of, handed_out, lemma_none_fits, lemma_pick, pick};
use crate::chunk::ChunkDesc;

verus! {

/// What a link is, if there is one.
pub open spec fn link_view(prev: Option<&ManifestLink>) -> Option<ManifestLink> {
    match prev {
        Some(l) => Some(*l),
        None => None,
    }
}

/// Write a manifest into a new chunk, handed out and not loaned yet. It takes
/// no references: what it lists is the caller's to keep.
pub fn write_manifest(
    pool: &mut ChunkPool,
    artifact_id: u32,
    version: u64,
    schema_id: u32,
    chunks: &[ChunkDesc],
    batch_spans: &[u32],
    prev: Option<&ManifestLink>,
    window: Option<&WindowRoot>,
) -> (r: Result<ChunkDesc, Error>)
    requires
        old(pool).wf(),
        span_sum(batch_spans@) == chunks@.len(),
    ensures
        final(pool).wf(),
        final(pool).same_place(old(pool)),
        r is Err ==> final(pool)@ == old(pool)@,
        match refused(version, chunks@, batch_spans@, link_view(prev), window) {
            Some(e) => r == Err::<ChunkDesc, Error>(e),
            None => match pick(
                old(pool)@,
                record_len(
                    chunks@.len() as int,
                    batch_spans@.len() as int,
                    kept_of(window).len() as int,
                ),
            ) {
                None => r == Err::<ChunkDesc, Error>(Error::Exhausted),
                Some(k) => {
                    let b = final(pool)@[k].bytes;
                    &&& r == Ok::<ChunkDesc, Error>(desc_of(old(pool), k, 0))
                    &&& final(pool)@ == old(pool)@.update(
                        k,
                        ChunkView { bytes: b, ..handed_out(old(pool)@[k]) },
                    )
                    &&& parsed(b) == Ok::<ManifestView, Error>(
                        new_manifest(
                            artifact_id,
                            version,
                            schema_id,
                            chunks@,
                            batch_spans@,
                            link_view(prev),
                            window,
                        ),
                    )
                },
            },
        },
{
    let ghost p = pool@;
    let bytes: Vec<u8> = match encode_manifest(
        artifact_id,
        version,
        schema_id,
        chunks,
        batch_spans,
        prev,
        window,
    ) {
        Ok(b) => b,
        Err(e) => {
            return Err(e);
        },
    };
    let d: ChunkDesc = match pool.allocate(bytes.len()) {
        Ok(d) => d,
        Err(e) => {
            proof {
                lemma_none_fits(p, bytes@.len() as int);
            }
            return Err(e);
        },
    };
    let ghost k = pool.at(d.offset);
    proof {
        lemma_pick(p, k, bytes@.len() as int);
        lemma_has(pool.lay@, d.offset);
        assert(fits(p[k], bytes@.len() as int));
        assert(chunk_ok(p[k]));
    }
    let w: Result<(), Error> = pool.write(&d, bytes.as_slice());
    proof {
        assert(w is Ok);
        let b = pool@[k].bytes;
        assert(b == overwritten(p[k].bytes, bytes@));
        parsed_ignores_what_follows(bytes@, p[k].bytes.skip(bytes@.len() as int));
        assert(pool@ =~= p.update(k, ChunkView { bytes: b, ..handed_out(p[k]) }));
    }
    Ok(d)
}

} // verus!
