//! What a pinned version reads as.
use vstd::prelude::*;

use crate::artifact::chain::views;
use crate::artifact::error::Error;
use crate::artifact::manifest::Manifest;
use crate::artifact::newer::{delta_of_newer, newer, read_newer};
use crate::artifact::pin::VersionPin;
use crate::artifact::pool::{lemma_has, ChunkPool};
use crate::artifact::reading::{exact_totals, lemma_story, read_chain};
use crate::artifact::window::{
    all_chunks, batches, batches_of, delta_batches, delta_from, gather, groups, truncated, Delta,
};
use crate::chunk::ChunkDesc;

verus! {

impl VersionPin {
    /// The pinned version number.
    pub fn version(&self) -> (v: u64)
        ensures
            v == self.version,
    {
        self.version
    }

    /// The manifest of the pinned version: the chunks it added and its link to
    /// the predecessor's manifest.
    pub fn manifest(&self) -> (m: &Manifest)
        ensures
            *m == self.manifest,
    {
        &self.manifest
    }

    /// The chain of manifests, oldest first. It can be read unless the running
    /// batch total along it was ever capped.
    pub fn chain(&self, pool: &ChunkPool) -> (r: Result<Vec<Manifest>, Error>)
        requires
            self.frozen(pool),
        ensures
            r is Ok <==> exact_totals(self.table(pool)),
            r matches Err(e) ==> e == Error::VersionGone,
            r matches Ok(v) ==> views(v@) == self.table(pool) && v@.len() > 0
                && crate::artifact::window::chain_sane(views(v@)),
    {
        let ghost i = pool.at(self.mref.spec_offset());
        proof {
            lemma_has(pool.lay@, self.mref.spec_offset());
            lemma_story(pool, i);
        }
        match read_chain(pool, &self.manifest, Ghost(i)) {
            Ok(chain) => Ok(chain),
            Err(_) => Err(Error::VersionGone),
        }
    }

    /// Every data chunk of the table, in row order.
    pub fn data_chunks(&self, pool: &ChunkPool) -> (r: Result<Vec<ChunkDesc>, Error>)
        requires
            self.frozen(pool),
        ensures
            r is Ok <==> exact_totals(self.table(pool)),
            r matches Err(e) ==> e == Error::VersionGone,
            r matches Ok(v) ==> v@ == all_chunks(self.table(pool)),
    {
        match self.chain(pool) {
            Ok(chain) => Ok(gather(&chain).chunks),
            Err(e) => Err(e),
        }
    }

    /// The batches of the table, each a group of chunks, in row order.
    pub fn batches(&self, pool: &ChunkPool) -> (r: Result<Vec<Vec<ChunkDesc>>, Error>)
        requires
            self.frozen(pool),
        ensures
            r is Ok <==> exact_totals(self.table(pool)),
            r matches Err(e) ==> e == Error::VersionGone,
            r matches Ok(v) ==> groups(v@) == batches(self.table(pool)),
    {
        match self.chain(pool) {
            Ok(chain) => Ok(batches_of(&chain)),
            Err(e) => Err(e),
        }
    }

    /// The batches that a reader at version `since` lacks. Only the manifests
    /// newer than `since` are read, and the newest; they can be unless the running
    /// batch total along them was ever capped.
    pub fn batches_since(&self, pool: &ChunkPool, since: u64) -> (r: Result<Delta, Error>)
        requires
            self.frozen(pool),
        ensures
            r is Ok <==> exact_totals(newer(self.table(pool), since)),
            r matches Err(e) ==> e == Error::VersionGone,
            r matches Ok(d) ==> {
                &&& groups(d.batches@) == delta_batches(self.table(pool), since)
                &&& d.from_version == delta_from(self.table(pool), since)
                &&& d.truncated == truncated(self.table(pool), since)
            },
    {
        let ghost i = pool.at(self.mref.spec_offset());
        proof {
            lemma_has(pool.lay@, self.mref.spec_offset());
            lemma_story(pool, i);
        }
        match read_newer(pool, &self.manifest, since, Ghost(i)) {
            Ok(part) => Ok(delta_of_newer(&part, since, Ghost(self.table(pool)))),
            Err(_) => Err(Error::VersionGone),
        }
    }
}

} // verus!
