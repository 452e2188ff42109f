use std::sync::Arc;

use arrow_array::{
    make_array, Array, ArrayRef, Int32Array, Int64Array, ListArray, RecordBatch, StringArray,
    StructArray,
};
use arrow_buffer::{NullBuffer, OffsetBuffer, ScalarBuffer};
use arrow_data::ArrayData;
use arrow_schema::{DataType, Field, Fields, Schema};
use holon::artifact::batches::{loan_all, CommitError};
use holon::artifact::commit::{Commit, RowRange};
use holon::artifact::config::{PoolConfig, SizeClass};
use holon::artifact::error::Error;
use holon::artifact::event::{CommitKind, VersionEvent};
use holon::artifact::handle::Artifact;
use holon::artifact::head::{ArtifactHead, FIRST_INCARNATION};
use holon::artifact::journal::{BorrowJournal, JournalRecord};
use holon::artifact::lease::Committer;
use holon::artifact::pin::VersionPin;
use holon::artifact::policy::WindowPolicy;
use holon::artifact::pool::{ChunkPool, ChunkState};
use holon::artifact::record::write_manifest;
use holon::artifact::window::Delta;
use holon::batch::read::bytes_in_place;
use holon::batch::rows::{read_batch_chunks, Rows};
use holon::batch::schema::SchemaRegistry;
use holon::batch::write::{write_batch, Batch};
use holon::chunk::{ChunkDesc, PackedRef};

type SchemaRef = Arc<Schema>;

// ---- fixtures ----

struct Fx {
    art: Artifact,
    head: ArtifactHead,
    pool: ChunkPool,
    reg: SchemaRegistry,
}

fn schema() -> SchemaRef {
    Arc::new(Schema::new(vec![Field::new("v", DataType::Int64, false)]))
}

fn batch(vals: &[i64]) -> RecordBatch {
    let a = Int64Array::from(vals.to_vec());
    RecordBatch::try_new(schema(), vec![Arc::new(a)]).unwrap()
}

fn plain(b: &RecordBatch) -> Batch {
    let cols: Vec<ArrayData> = b.columns().iter().map(|c| c.to_data()).collect();
    Batch::from_columns(b.schema(), &cols, b.num_rows()).unwrap()
}

fn col(b: &RecordBatch) -> Vec<i64> {
    b.column(0).as_any().downcast_ref::<Int64Array>().unwrap().values().to_vec()
}

fn record(r: &Rows) -> RecordBatch {
    let arrays: Vec<ArrayRef> = r.columns.iter().map(|d| make_array(d.clone())).collect();
    RecordBatch::try_new(r.schema.clone(), arrays).unwrap()
}

impl Fx {
    fn with(name_id: u32, config: &PoolConfig, reg: SchemaRegistry) -> Fx {
        let pool = ChunkPool::create(49, config, 1 << 30).unwrap();
        let mut head = ArtifactHead::fresh();
        let art = Artifact::create(name_id, &mut head, 1 << 16).unwrap();
        Fx { art, head, pool, reg }
    }

    fn new(name_id: u32) -> Fx {
        Fx::with(
            name_id,
            &PoolConfig::power_of_two(1024, 4096, 64),
            SchemaRegistry::with_schemas(std::slice::from_ref(&schema())),
        )
    }

    /// A pool whose largest class is 256 bytes.
    fn lineage(name_id: u32, chunks: u32) -> Fx {
        Fx::with(
            name_id,
            &PoolConfig::power_of_two(256, 256, chunks),
            SchemaRegistry::with_schemas(std::slice::from_ref(&schema())),
        )
    }

    /// 256-byte chunks, plus wider ones for windowed roots.
    fn windowed(name_id: u32, chunks: u32) -> Fx {
        Fx::with(
            name_id,
            &PoolConfig {
                classes: vec![
                    SizeClass { chunk_size: 256, chunk_count: chunks },
                    SizeClass { chunk_size: 4096, chunk_count: 64 },
                ],
            },
            SchemaRegistry::with_schemas(std::slice::from_ref(&schema())),
        )
    }

    fn free_total(&self) -> usize {
        self.pool.free_count()
    }

    fn open(&mut self, owner: u32) -> Result<Committer, Error> {
        self.art.open_exclusive(&mut self.head, owner)
    }

    fn commit(&mut self, w: &Committer, c: Commit, b: &RecordBatch) -> Result<u64, CommitError> {
        w.commit(&mut self.head, &mut self.pool, c, &plain(b), &mut self.reg)
    }

    fn optimistic(&mut self, owner: u32, expect: u64, c: Commit, b: &RecordBatch) -> Result<u64, CommitError> {
        self.art.commit_optimistic(&mut self.head, &mut self.pool, owner, expect, c, &plain(b), &mut self.reg)
    }

    fn pin(&mut self) -> VersionPin {
        self.art.pin(&mut self.head, &self.pool).unwrap()
    }

    fn drop_pin(&mut self, p: VersionPin) {
        self.art.unpin(&mut self.head, &mut self.pool, p)
    }

    fn state(&self, d: &ChunkDesc) -> ChunkState {
        let i = self.pool.find(d.segment_id, d.offset).unwrap();
        self.pool.chunks[i].state
    }

    fn refcount(&self, d: &ChunkDesc) -> u32 {
        let i = self.pool.find(d.segment_id, d.offset).unwrap();
        self.pool.chunks[i].refcount
    }

    fn group(&self, g: &[ChunkDesc]) -> RecordBatch {
        record(&read_batch_chunks(&self.pool, g, &self.reg).unwrap())
    }

    fn batches(&self, p: &VersionPin) -> Vec<RecordBatch> {
        p.as_arrow_batches(&self.pool, &self.reg).unwrap().iter().map(record).collect()
    }

    fn table(&self, p: &VersionPin) -> RecordBatch {
        record(&p.as_arrow(&self.pool, &self.reg).unwrap())
    }

    fn rows(&self, p: &VersionPin) -> Vec<i64> {
        self.batches(p).iter().flat_map(col).collect()
    }

    fn current_rows(&mut self) -> Vec<i64> {
        let p = self.pin();
        let r = self.rows(&p);
        self.drop_pin(p);
        r
    }

    fn delta(&self, p: &VersionPin, since: u64) -> Delta {
        p.batches_since(&self.pool, since).unwrap()
    }

    fn delta_rows(&self, d: &Delta) -> Vec<i64> {
        d.batches.iter().flat_map(|g| col(&self.group(g))).collect()
    }
}

fn refused(r: Result<u64, CommitError>) -> Error {
    match r {
        Err(CommitError::Artifact(e)) => e,
        _ => panic!("expected a refusal"),
    }
}

// ---- commits and pins ----

#[test]
fn replace_commit_pin_and_read_is_zero_copy() {
    let mut fx = Fx::new(1);
    let b = batch(&[10, 20, 30]);
    let w = fx.open(7).unwrap();
    let v = fx.commit(&w, Commit::Replace, &b).unwrap();
    assert_eq!(v, 1);
    w.close(&mut fx.head);

    let pin = fx.pin();
    assert_eq!(pin.version(), 1);
    let out = fx.table(&pin);
    assert_eq!(col(&out), vec![10, 20, 30]);
    assert_eq!(&out, &b);

    // The values are read where the batch was written, in the bytes of the
    // version's own chunk.
    let read = pin.located_batches(&fx.pool, &fx.reg).unwrap();
    assert_eq!((read.len(), read[0].row_count, &read[0].schema), (1, 3, &schema()));
    let e = read[0].columns[0].buffers[0];
    assert_eq!((e.chunk_index, e.len), (0, 24));
    let d = pin.manifest().chunks[0];
    let there = bytes_in_place(&fx.pool, &[d], &e).unwrap();
    let i = fx.pool.find(d.segment_id, d.offset).unwrap();
    let all = fx.pool.chunks[i].bytes.as_ptr_range();
    assert!(all.start <= there.as_ptr_range().start && there.as_ptr_range().end <= all.end);
    let values: Vec<i64> =
        there.chunks_exact(8).map(|x| i64::from_le_bytes(x.try_into().unwrap())).collect();
    assert_eq!(values, vec![10, 20, 30]);
    let stale = ChunkDesc { generation: d.generation.wrapping_add(1), ..d };
    assert!(bytes_in_place(&fx.pool, &[stale], &e).is_none());
    assert!(bytes_in_place(&fx.pool, &[], &e).is_none());
}

#[test]
fn append_shares_prior_chunk_and_rcu_isolates_old_pin() {
    let mut fx = Fx::new(2);
    let w = fx.open(7).unwrap();
    assert_eq!(fx.commit(&w, Commit::Replace, &batch(&[1, 2, 3])).unwrap(), 1);

    let pin_v1 = fx.pin();
    assert_eq!(pin_v1.version(), 1);
    assert_eq!(fx.commit(&w, Commit::Append, &batch(&[4, 5])).unwrap(), 2);
    w.close(&mut fx.head);

    assert_eq!(col(&fx.table(&pin_v1)), vec![1, 2, 3]);

    let pin_v2 = fx.pin();
    assert_eq!(pin_v2.version(), 2);
    assert_eq!(pin_v2.manifest().chunks.len(), 1, "own chunk only");
    assert_eq!(pin_v2.manifest().depth, 1);
    assert_eq!(pin_v2.manifest().total_batches, 2);
    assert_eq!(pin_v2.manifest().prev.map(|l| l.version), Some(1));
    let chain = pin_v2.chain(&fx.pool).unwrap();
    assert_eq!(chain.len(), 2);
    assert_eq!(chain[0].version, 1, "oldest first");
    assert_eq!(chain[1].version, 2);
    assert_eq!(pin_v2.data_chunks(&fx.pool).unwrap().len(), 2);
    assert_eq!(
        pin_v2.data_chunks(&fx.pool).unwrap()[0],
        pin_v1.manifest().chunks[0],
        "v2's table starts with v1's chunk, shared not copied"
    );
    assert_eq!(col(&fx.table(&pin_v2)), vec![1, 2, 3, 4, 5]);
    assert_eq!(col(&fx.table(&pin_v1)), vec![1, 2, 3]);
}

#[test]
fn reclamation_frees_exclusive_chunk_but_keeps_shared() {
    let mut fx = Fx::new(3);
    let w = fx.open(7).unwrap();
    fx.commit(&w, Commit::Replace, &batch(&[1, 2, 3])).unwrap();
    let p = fx.pin();
    let v1_data = p.manifest().chunks[0];
    fx.drop_pin(p);

    fx.commit(&w, Commit::Append, &batch(&[4])).unwrap();
    let pin2 = fx.pin();
    let v2_exclusive = pin2.manifest().chunks[0];
    let v1_link = pin2.manifest().prev.expect("v2 links to v1");
    let table = pin2.data_chunks(&fx.pool).unwrap();
    fx.drop_pin(pin2);
    let shared = table[0];
    assert_eq!(shared, v1_data, "v2 must share v1's chunk");
    let v1_manifest_chunk = ChunkDesc {
        segment_id: v1_link.mref.segment_id(),
        offset: v1_link.mref.offset(),
        ..ChunkDesc::zero()
    };

    assert_eq!(fx.state(&shared), ChunkState::Published, "shared chunk must survive v1 retirement");
    assert_eq!(fx.refcount(&shared), 1, "a data chunk's refcount is the number of manifests listing it");
    assert_eq!(fx.state(&v1_manifest_chunk), ChunkState::Published);
    assert_eq!(fx.refcount(&v1_manifest_chunk), 1, "v1's manifest is held only by v2's link once v1 retired");

    fx.commit(&w, Commit::Replace, &batch(&[9])).unwrap();
    w.close(&mut fx.head);
    assert_eq!(fx.state(&shared), ChunkState::Free, "shared chunk must be freed once its last version (v2) retired");
    assert_eq!(fx.state(&v2_exclusive), ChunkState::Free, "v2's exclusive chunk must be freed");
    assert_eq!(fx.state(&v1_manifest_chunk), ChunkState::Free, "the cascade must free v1's manifest");
    assert_eq!(fx.current_rows(), vec![9]);
}

#[test]
fn pin_defers_reclamation_until_dropped() {
    let mut fx = Fx::new(4);
    let w = fx.open(7).unwrap();
    fx.commit(&w, Commit::Replace, &batch(&[1, 2, 3])).unwrap();
    let held = fx.pin();
    let v1_chunk = held.manifest().chunks[0];
    fx.commit(&w, Commit::Replace, &batch(&[4])).unwrap();
    w.close(&mut fx.head);

    assert_eq!(fx.state(&v1_chunk), ChunkState::Published);
    assert_eq!(col(&fx.table(&held)), vec![1, 2, 3]);
    fx.drop_pin(held);
    assert_eq!(fx.state(&v1_chunk), ChunkState::Free, "v1 chunk must be reclaimed once its last pin drops");
}

#[test]
fn optimistic_conflict_one_writer_loses() {
    let mut fx = Fx::new(5);
    fx.optimistic(7, 0, Commit::Replace, &batch(&[0])).unwrap();
    let results = [
        fx.optimistic(11, 1, Commit::Replace, &batch(&[11])),
        fx.optimistic(12, 1, Commit::Replace, &batch(&[12])),
    ];
    let oks = results.iter().filter(|r| r.is_ok()).count();
    let conflicts = results
        .iter()
        .filter(|r| matches!(r, Err(CommitError::Artifact(Error::Conflict { .. }))))
        .count();
    assert_eq!(oks, 1, "exactly one optimistic commit should win");
    assert_eq!(conflicts, 1, "the other must observe a Conflict");
    assert_eq!(fx.art.current_version(&fx.head), 2);
}

#[test]
fn exclusive_lease_blocks_second_writer() {
    let mut fx = Fx::new(6);
    let w1 = fx.open(7).unwrap();
    assert!(matches!(fx.open(8), Err(Error::WriteLocked)));
    w1.close(&mut fx.head);
    assert!(fx.open(8).is_ok());
}

#[test]
fn version_event_published_on_commit() {
    let mut fx = Fx::new(42);
    let mut topic: Vec<ChunkDesc> = Vec::new();
    let w = fx.open(7).unwrap();
    for (c, b) in [(Commit::Replace, batch(&[1])), (Commit::Append, batch(&[2]))] {
        let (v, e) = w
            .commit_noticed(&mut fx.head, &mut fx.pool, c, &plain(&b), &mut fx.reg)
            .unwrap();
        assert_eq!(e.version, v);
        topic.push(e.to_desc());
    }
    w.close(&mut fx.head);

    let events: Vec<VersionEvent> =
        topic.iter().map(|d| VersionEvent::from_desc(d).expect("event desc")).collect();
    assert_eq!(events.len(), 2);
    assert_eq!(events[0].name_id, 42);
    assert_eq!(events[0].version, 1);
    assert_eq!(events[0].kind, CommitKind::Replace.as_u32());
    assert_eq!(events[1].version, 2);
    assert_eq!(events[1].kind, CommitKind::Append.as_u32());
    assert_eq!(VersionEvent::from_desc(&ChunkDesc::zero()), None);
}

#[test]
fn every_commit_gives_its_notice() {
    let mut fx = Fx::new(43);
    let (v, e) = fx
        .art
        .commit_optimistic_noticed(
            &mut fx.head,
            &mut fx.pool,
            7,
            0,
            Commit::Replace,
            &plain(&batch(&[1])),
            &mut fx.reg,
        )
        .unwrap();
    assert_eq!((v, e), (1, VersionEvent::new(43, 1, CommitKind::Replace)));
    // A commit that is refused gives none.
    assert!(fx
        .art
        .commit_optimistic_noticed(
            &mut fx.head,
            &mut fx.pool,
            7,
            0,
            Commit::Append,
            &plain(&batch(&[2])),
            &mut fx.reg,
        )
        .is_err());
    let staged = write_batch(&mut fx.pool, &mut fx.reg, &plain(&batch(&[3]))).unwrap();
    loan_all(&mut fx.pool, &vec![staged], 7);
    let (v, e) = fx
        .art
        .commit_staged_optimistic_noticed(
            &mut fx.head,
            &mut fx.pool,
            7,
            1,
            Commit::Append,
            &[staged],
            &[1],
            1,
        )
        .unwrap();
    assert_eq!((v, e), (2, VersionEvent::new(43, 2, CommitKind::Append)));
    let w = fx.open(7).unwrap();
    let staged = write_batch(&mut fx.pool, &mut fx.reg, &plain(&batch(&[4]))).unwrap();
    loan_all(&mut fx.pool, &vec![staged], 7);
    let (v, e) = w
        .commit_staged_noticed(&mut fx.head, &mut fx.pool, Commit::Replace, &[staged], &[1], 1)
        .unwrap();
    assert_eq!((v, e), (3, VersionEvent::new(43, 3, CommitKind::Replace)));
    let (v, e) = w.evict_current_noticed(&mut fx.head, &mut fx.pool).unwrap();
    assert_eq!((v, e), (4, VersionEvent::new(43, 4, CommitKind::Replace)));
    let policy = WindowPolicy { keep_batches: 2, max_depth: 1 };
    let b = plain(&batch(&[5]));
    let (v, e) = w
        .commit_windowed_noticed(&mut fx.head, &mut fx.pool, &policy, &b, &mut fx.reg)
        .unwrap();
    let kind = policy.commit_for_depth(Some(0)).kind();
    assert_eq!((v, e), (5, VersionEvent::new(43, 5, kind)));
    w.close(&mut fx.head);
    let mut journal = BorrowJournal::create(4);
    let staged = write_batch(&mut fx.pool, &mut fx.reg, &plain(&batch(&[6]))).unwrap();
    loan_all(&mut fx.pool, &vec![staged], 7);
    let (v, e) = fx
        .art
        .commit_staged_inner_noticed(
            &mut fx.head,
            &mut fx.pool,
            &mut journal,
            5,
            7,
            Commit::Replace,
            &[staged],
            &[1],
            1,
            None,
        )
        .unwrap();
    assert_eq!((v, e), (6, VersionEvent::new(43, 6, CommitKind::Replace)));
}

#[test]
fn patches_are_refused_and_touch_nothing() {
    let mut fx = Fx::new(7);
    let free = fx.free_total();
    let c = Commit::Patch(RowRange { start: 0, end: 1 });
    assert_eq!(
        refused(fx.optimistic(7, 0, c, &batch(&[1]))),
        Error::Unsupported("Patch commit deferred to v0.2")
    );
    assert_eq!(fx.free_total(), free);
    assert_eq!(fx.art.version_event(3, &c).kind, CommitKind::Patch.as_u32());
}

#[test]
fn reclaimer_skips_freeing_a_live_pin_then_frees_on_drop() {
    let mut fx = Fx::new(101);
    let w = fx.open(7).unwrap();
    fx.commit(&w, Commit::Replace, &batch(&[1, 2, 3])).unwrap();
    let held = fx.pin();
    let v1_chunk = held.manifest().chunks[0];
    assert_eq!(fx.art.version_pin_count(&fx.head, 1), Some(1), "one live pin on v1");
    fx.commit(&w, Commit::Replace, &batch(&[4])).unwrap();
    w.close(&mut fx.head);

    assert_eq!(fx.state(&v1_chunk), ChunkState::Published, "the reclaimer must skip freeing v1 while it is pinned");
    assert_eq!(fx.art.version_pin_count(&fx.head, 1), Some(1));
    fx.drop_pin(held);
    assert_eq!(fx.state(&v1_chunk), ChunkState::Free, "v1 chunk must be reclaimed the moment its last pin drops");
    assert_eq!(fx.art.version_pin_count(&fx.head, 1), None, "v1's slot must be free once retired");
}

#[test]
fn retained_pins_are_given_back_by_version() {
    let mut fx = Fx::new(113);
    assert!(matches!(fx.art.retain_pin(&mut fx.head, &fx.pool), Err(Error::VersionGone)));
    fx.optimistic(7, 0, Commit::Replace, &batch(&[1])).unwrap();
    assert_eq!(fx.art.retain_pin(&mut fx.head, &fx.pool).unwrap(), 1);
    fx.optimistic(7, 1, Commit::Replace, &batch(&[2])).unwrap();
    assert_eq!(fx.art.version_pin_count(&fx.head, 1), Some(1));
    assert!(fx.art.release_leaked_pin(&mut fx.head, &mut fx.pool, 1));
    assert_eq!(fx.art.version_pin_count(&fx.head, 1), None);
    assert!(!fx.art.release_leaked_pin(&mut fx.head, &mut fx.pool, 1));
}

// ---- journals ----

#[test]
fn journalled_pin_records_and_clean_drop_releases() {
    let mut fx = Fx::new(102);
    let mut journal = BorrowJournal::create(64);
    fx.optimistic(7, 0, Commit::Replace, &batch(&[10, 20])).unwrap();
    let pin = fx.art.pin_journaled(&mut fx.head, &fx.pool, &mut journal).unwrap();
    assert_eq!(pin.version(), 1);
    assert_eq!(journal.len(), 1);
    let recs: Vec<JournalRecord> = journal.replay_indexed().into_iter().map(|(_, r)| r).collect();
    assert_eq!(
        recs,
        vec![JournalRecord::ArtifactPin {
            artifact_id: 102,
            incarnation: FIRST_INCARNATION,
            version: 1
        }]
    );
    fx.art.unpin_journaled(&mut fx.head, &mut fx.pool, &mut journal, pin);
    assert_eq!(journal.len(), 0, "clean drop must release the journal entry");
}

#[test]
fn a_full_journal_takes_the_pin_back() {
    let mut fx = Fx::new(114);
    let mut journal = BorrowJournal::create(0);
    fx.optimistic(7, 0, Commit::Replace, &batch(&[1])).unwrap();
    assert!(matches!(
        fx.art.pin_journaled(&mut fx.head, &fx.pool, &mut journal),
        Err(Error::JournalFull)
    ));
    assert_eq!(fx.art.version_pin_count(&fx.head, 1), Some(0));
    assert!(matches!(
        fx.art.open_exclusive_journaled(&mut fx.head, 7, &mut journal),
        Err(Error::JournalFull)
    ));
    assert_eq!(fx.art.write_lease_owner(&fx.head), 0);
    assert!(journal.is_empty());
}

#[test]
fn release_leaked_pin_retires_a_crashed_readers_version() {
    let mut fx = Fx::new(103);
    let mut journal = BorrowJournal::create(64);
    fx.optimistic(7, 0, Commit::Replace, &batch(&[1, 2, 3])).unwrap();
    let pin = fx.art.pin_journaled(&mut fx.head, &fx.pool, &mut journal).unwrap();
    let v1_chunk = pin.manifest().chunks[0];
    fx.optimistic(7, 1, Commit::Replace, &batch(&[9])).unwrap();
    assert_eq!(fx.state(&v1_chunk), ChunkState::Published, "v1 chunk pinned by the leaked pin must survive");

    // The reader crashes: its pin is never given back.
    drop(pin);
    assert_eq!(fx.art.version_pin_count(&fx.head, 1), Some(1));

    let mut released = 0;
    for (_, rec) in journal.replay_indexed() {
        if let JournalRecord::ArtifactPin { artifact_id, incarnation, version } = rec {
            assert_eq!(artifact_id, 103);
            assert_eq!(incarnation, FIRST_INCARNATION);
            if fx.art.release_leaked_pin(&mut fx.head, &mut fx.pool, version) {
                released += 1;
            }
        }
    }
    assert_eq!(released, 1, "exactly one leaked pin reclaimed");
    assert_eq!(fx.art.version_pin_count(&fx.head, 1), None);
    assert_eq!(fx.state(&v1_chunk), ChunkState::Free, "the leaked pin's version chunk must be reclaimed");
}

#[test]
fn journalled_exclusive_records_and_clean_drop_releases() {
    let mut fx = Fx::new(110);
    let mut journal = BorrowJournal::create(64);
    let w = fx.art.open_exclusive_journaled(&mut fx.head, 7, &mut journal).unwrap();
    assert_eq!(w.owner(), 7);
    assert_eq!(w.fence_token(), 0, "first lease is acquired under fence 0");
    assert_eq!(fx.art.write_lease_owner(&fx.head), 7, "lease is held by the writer");
    assert_eq!(journal.len(), 1);
    let recs: Vec<JournalRecord> = journal.replay_indexed().into_iter().map(|(_, r)| r).collect();
    assert_eq!(
        recs,
        vec![JournalRecord::WriteLease {
            artifact_id: 110,
            incarnation: FIRST_INCARNATION,
            fence: 0
        }]
    );
    assert!(matches!(fx.open(8), Err(Error::WriteLocked)));
    assert!(w.close_journaled(&mut fx.head, &mut journal));
    assert_eq!(journal.len(), 0, "clean drop must release the WriteLease entry");
    assert_eq!(fx.art.write_lease_owner(&fx.head), 0, "clean drop must free the lease");
}

#[test]
fn fenced_committer_installs_no_version_and_returns_staged() {
    let mut fx = Fx::new(111);
    let w = fx.open(7).unwrap();
    assert_eq!(w.fence_token(), 0);
    let free_before = fx.free_total();

    assert!(fx.art.release_leaked_write_lease(&mut fx.head), "force-release must report a lease was held");
    assert_eq!(fx.art.write_lease_owner(&fx.head), 0, "lease is force-released");

    assert_eq!(refused(fx.commit(&w, Commit::Replace, &batch(&[1, 2, 3]))), Error::Fenced);
    assert_eq!(fx.art.current_version(&fx.head), 0, "a fenced commit installs no version");
    assert_eq!(fx.free_total(), free_before, "a fenced commit must return every staged chunk to the pool");

    // The staged path is fenced identically.
    let w2 = fx.open(9).unwrap();
    assert!(fx.art.release_leaked_write_lease(&mut fx.head));
    let desc = write_batch(&mut fx.pool, &mut fx.reg, &plain(&batch(&[4, 5]))).unwrap();
    fx.pool.loan(&desc, 9).unwrap();
    let free_staged = fx.free_total();
    assert!(matches!(
        w2.commit_staged(&mut fx.head, &mut fx.pool, Commit::Replace, &[desc], &[1], desc.schema_id),
        Err(Error::Fenced)
    ));
    assert_eq!(fx.art.current_version(&fx.head), 0);
    assert!(
        fx.free_total() > free_staged,
        "the pre-staged LOANED chunk must be returned on a fenced commit_staged"
    );
    let w3 = fx.open(11).unwrap();
    assert_eq!(fx.commit(&w3, Commit::Replace, &batch(&[9])).unwrap(), 1);
}

#[test]
fn clean_release_bumps_fence_and_new_writer_acquires() {
    let mut fx = Fx::new(112);
    let w1 = fx.open(7).unwrap();
    assert_eq!(w1.fence_token(), 0);
    assert_eq!(fx.commit(&w1, Commit::Replace, &batch(&[1])).unwrap(), 1);
    assert!(w1.close(&mut fx.head));
    assert_eq!(fx.art.write_lease_owner(&fx.head), 0);

    let w2 = fx.open(8).unwrap();
    assert_eq!(w2.fence_token(), 1, "clean release must have bumped the fence");
    assert_eq!(fx.commit(&w2, Commit::Replace, &batch(&[2])).unwrap(), 2);
    w2.close(&mut fx.head);
    assert_eq!(fx.art.current_version(&fx.head), 2);
    assert_eq!(fx.current_rows(), vec![2]);
}

#[test]
fn zombie_pin_drop_after_replay_does_not_double_decrement() {
    let mut fx = Fx::new(104);
    let mut journal = BorrowJournal::create(64);
    fx.optimistic(7, 0, Commit::Replace, &batch(&[1, 2, 3])).unwrap();
    let pin = fx.art.pin_journaled(&mut fx.head, &fx.pool, &mut journal).unwrap();
    fx.optimistic(7, 1, Commit::Replace, &batch(&[9])).unwrap();
    assert_eq!(fx.art.version_pin_count(&fx.head, 1), Some(1));

    let mut replayed = 0;
    for (slot, rec) in journal.replay_indexed() {
        if let JournalRecord::ArtifactPin { version, .. } = rec {
            assert!(journal.release(slot), "replay wins the election");
            assert!(fx.art.release_leaked_pin(&mut fx.head, &mut fx.pool, version));
            replayed += 1;
        }
    }
    assert_eq!(replayed, 1);
    assert_eq!(fx.art.version_pin_count(&fx.head, 1), None, "v1 retired by the replay");
    let after_replay = fx.free_total();

    fx.art.unpin_journaled(&mut fx.head, &mut fx.pool, &mut journal, pin);
    assert_eq!(fx.free_total(), after_replay, "zombie drop released nothing");

    let p2 = fx.pin();
    assert_eq!(p2.version(), 2);
    fx.drop_pin(p2);
    fx.optimistic(7, 2, Commit::Replace, &batch(&[4])).unwrap();
}

#[test]
fn staged_manifest_record_replays_uninstalled_and_ignores_installed() {
    let mut fx = Fx::new(105);
    let mut journal = BorrowJournal::create(64);

    let staged = write_batch(&mut fx.pool, &mut fx.reg, &plain(&batch(&[1, 2]))).unwrap();
    fx.pool.loan(&staged, 7).unwrap();
    fx.art
        .commit_staged_optimistic_journaled(
            &mut fx.head,
            &mut fx.pool,
            7,
            0,
            Commit::Replace,
            &[staged],
            &[1],
            1,
            &mut journal,
        )
        .unwrap();
    assert_eq!(journal.len(), 0, "install released the staged-manifest record");
    let installed_bits = fx.art.current_manifest_bits(&fx.head);

    // A manifest staged (published, one owned reference) but never installed.
    let orphan = write_manifest(&mut fx.pool, 105, 2, 1, &[], &[], None, None).unwrap();
    let i = fx.pool.find(orphan.segment_id, orphan.offset).unwrap();
    let c = &mut fx.pool.chunks[i];
    c.try_loan(7).unwrap();
    c.publish().unwrap();
    c.borrow_shared().unwrap();
    c.owner_release();
    let orphan_bits = PackedRef::from_desc(&orphan).to_bits();
    let before = fx.free_total();

    assert!(!fx.art.reclaim_staged_manifest(&fx.head, &mut fx.pool, installed_bits, 0));
    let p = fx.pin();
    assert_eq!(p.version(), 1, "installed manifest untouched");
    fx.drop_pin(p);
    assert!(fx.art.reclaim_staged_manifest(&fx.head, &mut fx.pool, orphan_bits, orphan.generation));
    assert_eq!(fx.state(&orphan), ChunkState::Free);
    assert_eq!(fx.free_total(), before + 1, "exactly the orphan chunk came back");
    assert!(!fx.art.reclaim_staged_manifest(&fx.head, &mut fx.pool, orphan_bits, orphan.generation));
}

#[test]
fn a_commit_in_two_steps_is_on_record_in_between() {
    let mut fx = Fx::new(106);
    let mut journal = BorrowJournal::create(2);
    let base = fx.free_total();
    let stage = |fx: &mut Fx, journal: &mut BorrowJournal, v: i64, expect: u64| {
        let d = write_batch(&mut fx.pool, &mut fx.reg, &plain(&batch(&[v]))).unwrap();
        fx.pool.loan(&d, 7).unwrap();
        fx.art.stage(
            &fx.head,
            &mut fx.pool,
            journal,
            expect,
            7,
            Commit::Append,
            &[d],
            &[1],
            1,
            None,
        )
    };

    // Staged and installed.
    let st = stage(&mut fx, &mut journal, 1, 0).unwrap();
    let d = st.manifest();
    let record = JournalRecord::StagedManifest {
        artifact_id: 106,
        incarnation: FIRST_INCARNATION,
        manifest: PackedRef::from_desc(&d).to_bits(),
        generation: d.generation,
    };
    assert_eq!(journal.replay_indexed(), vec![(0, record)]);
    assert_eq!(fx.art.current_version(&fx.head), 0, "not installed yet");
    assert_eq!(fx.art.install(&mut fx.head, &mut fx.pool, &mut journal, st).unwrap(), 1);
    assert!(journal.is_empty());
    assert_eq!(base - fx.free_total(), 2);

    // Staged, and then the writer dies: whoever finds the record gives it back.
    let st = stage(&mut fx, &mut journal, 2, 1).unwrap();
    assert_eq!(base - fx.free_total(), 4);
    drop(st);
    for (slot, rec) in journal.replay_indexed() {
        if let JournalRecord::StagedManifest { manifest, generation, .. } = rec {
            assert!(journal.release(slot));
            assert!(fx.art.reclaim_staged_manifest(&fx.head, &mut fx.pool, manifest, generation));
        }
    }
    assert_eq!(base - fx.free_total(), 2, "manifest and batch are back");
    assert_eq!(fx.current_rows(), vec![1]);

    // Two staged on one version: the second to install is undone, and off the
    // record.
    let a = stage(&mut fx, &mut journal, 3, 1).unwrap();
    let r = stage(&mut fx, &mut journal, 4, 9);
    assert!(matches!(r, Err(Error::Conflict { expected: 9, actual: 1 })));
    assert_eq!(journal.len(), 1, "a refused one is not on record");
    assert_eq!(fx.art.install(&mut fx.head, &mut fx.pool, &mut journal, a).unwrap(), 2);
    assert_eq!(base - fx.free_total(), 4);

    // A full journal does not stop a commit.
    let mut full = BorrowJournal::create(0);
    let st = stage(&mut fx, &mut full, 5, 2).unwrap();
    assert_eq!(st.slot, None);
    assert_eq!(fx.art.install(&mut fx.head, &mut fx.pool, &mut full, st).unwrap(), 3);
    assert_eq!(fx.current_rows(), vec![1, 3, 5]);
}

#[test]
fn every_commit_takes_its_chunks_and_no_other() {
    let mut fx = Fx::windowed(107, 64);
    let base = fx.free_total();
    let w = fx.open(7).unwrap();
    for i in 1..=5i64 {
        fx.commit(&w, Commit::Append, &batch(&[i])).unwrap();
        assert_eq!(base - fx.free_total(), 2 * i as usize, "a manifest and a batch each");
    }
    // A window lists two batches again, and its root is all that is left.
    assert_eq!(fx.commit(&w, Commit::Window { keep_batches: 2 }, &batch(&[6])).unwrap(), 6);
    assert_eq!(base - fx.free_total(), 4);
    // A loan of another writer is left alone.
    let mine = write_batch(&mut fx.pool, &mut fx.reg, &plain(&batch(&[9]))).unwrap();
    fx.pool.loan(&mine, 8).unwrap();
    fx.commit(&w, Commit::Replace, &batch(&[7])).unwrap();
    assert_eq!(fx.state(&mine), ChunkState::Loaned);
    assert_eq!(base - fx.free_total(), 3);
    w.close(&mut fx.head);
    fx.pool.free_all_loaned(&[mine]);
    fx.art.evict_all(&mut fx.head, &mut fx.pool).unwrap();
    assert_eq!(fx.free_total(), base);
}

// ---- wide and nested batches ----

fn wide_batch(cols: usize, rows: usize) -> (RecordBatch, SchemaRef) {
    let mut fields = Vec::new();
    let mut columns: Vec<ArrayRef> = Vec::new();
    for c in 0..cols {
        fields.push(Field::new(format!("c{c}"), DataType::Int64, false));
        let vals: Vec<i64> = (0..rows as i64).map(|r| r + (c as i64) * 100_000).collect();
        columns.push(Arc::new(Int64Array::from(vals)));
    }
    let schema: SchemaRef = Arc::new(Schema::new(fields));
    (RecordBatch::try_new(schema.clone(), columns).unwrap(), schema)
}

fn wide_fx(name_id: u32, schema: &SchemaRef) -> Fx {
    Fx::with(
        name_id,
        &PoolConfig::power_of_two(1024, 4096, 64),
        SchemaRegistry::with_schemas(std::slice::from_ref(schema)),
    )
}

#[test]
fn multi_chunk_version_reads_zero_copy_and_reclaims_every_chunk() {
    let (b, schema) = wide_batch(6, 200);
    let mut fx = wide_fx(200, &schema);
    let full_free = fx.free_total();

    let w = fx.open(7).unwrap();
    assert_eq!(fx.commit(&w, Commit::Replace, &b).unwrap(), 1);
    w.close(&mut fx.head);
    let used_v1 = full_free - fx.free_total();

    let pin = fx.pin();
    let m = pin.manifest();
    assert!(m.chunks.len() >= 2, "batch must span >= 2 data chunks, got {}", m.chunks.len());
    assert_eq!(m.batch_spans, vec![m.chunks.len() as u32], "one batch spanning all its chunks");
    assert_eq!(&fx.table(&pin), &b, "multi-chunk version reads back equal");
    fx.drop_pin(pin);

    let w2 = fx.open(9).unwrap();
    assert_eq!(fx.commit(&w2, Commit::Replace, &b).unwrap(), 2);
    w2.close(&mut fx.head);
    let used_v2 = full_free - fx.free_total();
    assert_eq!(used_v2, used_v1, "v1's chunks must be fully reclaimed");
    let pin = fx.pin();
    assert_eq!(&fx.table(&pin), &b);
}

#[test]
fn multi_chunk_append_shares_prior_chunks_across_versions() {
    let (b1, schema) = wide_batch(6, 200);
    let mut fx = wide_fx(201, &schema);
    let w = fx.open(7).unwrap();
    assert_eq!(fx.commit(&w, Commit::Replace, &b1).unwrap(), 1);
    w.close(&mut fx.head);
    let free_after_v1 = fx.free_total();
    let p = fx.pin();
    let v1_chunks = p.manifest().chunks.len();
    fx.drop_pin(p);

    let w2 = fx.open(9).unwrap();
    assert_eq!(fx.commit(&w2, Commit::Append, &b1).unwrap(), 2);
    w2.close(&mut fx.head);

    let pin2 = fx.pin();
    let m2 = pin2.manifest();
    assert_eq!(m2.chunks.len(), v1_chunks, "the head manifest lists only v2's own chunks");
    assert_eq!(m2.batch_spans, vec![v1_chunks as u32], "one own batch");
    assert_eq!(m2.total_batches, 2, "two batches across the chain");
    let chain = pin2.chain(&fx.pool).unwrap();
    assert_eq!(chain.len(), 2);
    assert_eq!(chain[0].batch_spans[0] as usize, v1_chunks);
    assert_eq!(pin2.data_chunks(&fx.pool).unwrap().len(), 2 * v1_chunks);

    let batches = fx.batches(&pin2);
    assert_eq!(batches.len(), 2);
    assert_eq!(&batches[0], &b1);
    assert_eq!(&batches[1], &b1);
    assert_eq!(fx.table(&pin2).num_rows(), 2 * b1.num_rows());
    fx.drop_pin(pin2);

    let consumed_by_v2 = free_after_v1 - fx.free_total();
    assert!(
        consumed_by_v2 <= v1_chunks + 1,
        "append must not copy prior chunks (consumed {consumed_by_v2}, v1 had {v1_chunks})"
    );
}

#[test]
fn nested_struct_list_version_round_trips_zero_copy() {
    let a = Arc::new(Int32Array::from(vec![Some(1), Some(2), None, Some(4)])) as ArrayRef;
    let bcol =
        Arc::new(StringArray::from(vec![Some("x"), None, Some("zz"), Some("www")])) as ArrayRef;
    let sfields = Fields::from(vec![
        Field::new("a", DataType::Int32, true),
        Field::new("b", DataType::Utf8, true),
    ]);
    let s = StructArray::new(
        sfields.clone(),
        vec![a, bcol],
        Some(NullBuffer::from(vec![true, true, false, true])),
    );
    let values = Int32Array::from(vec![1, 2, 3, 4, 5, 6]);
    let offsets = OffsetBuffer::new(ScalarBuffer::from(vec![0i32, 2, 2, 5, 6]));
    let ifield = Arc::new(Field::new("item", DataType::Int32, false));
    let list = ListArray::new(ifield.clone(), offsets, Arc::new(values), None);
    let schema: SchemaRef = Arc::new(Schema::new(vec![
        Field::new("s", DataType::Struct(sfields), true),
        Field::new("l", DataType::List(ifield), false),
    ]));
    let b = RecordBatch::try_new(schema.clone(), vec![Arc::new(s), Arc::new(list)]).unwrap();
    let mut fx = wide_fx(202, &schema);
    let full_free = fx.free_total();

    let w = fx.open(7).unwrap();
    assert_eq!(fx.commit(&w, Commit::Replace, &b).unwrap(), 1);
    w.close(&mut fx.head);
    let pin = fx.pin();
    assert_eq!(&fx.table(&pin), &b, "nested (struct + list) version reads back equal");
    fx.drop_pin(pin);

    let w2 = fx.open(9).unwrap();
    assert_eq!(fx.commit(&w2, Commit::Replace, &b).unwrap(), 2);
    w2.close(&mut fx.head);
    let used = full_free - fx.free_total();
    assert!(used >= 2, "nested version occupies data + manifest chunks");
    let pin = fx.pin();
    assert_eq!(&fx.table(&pin), &b);
}

// ---- eviction ----

#[test]
fn evict_current_reclaims_and_the_version_sequence_continues() {
    let mut fx = Fx::new(41);
    let baseline = fx.free_total();
    let v1 = fx.optimistic(7, 0, Commit::Replace, &batch(&[1, 2, 3])).unwrap();
    assert_eq!(v1, 1);
    let used_v1 = baseline - fx.free_total();
    assert!(used_v1 >= 2, "v1 holds a data chunk and a manifest chunk");

    let v2 = fx.art.evict_current_optimistic(&mut fx.head, &mut fx.pool, 7, v1).unwrap();
    assert_eq!(v2, 2, "the empty version continues the sequence");
    assert_eq!(fx.art.current_version(&fx.head), 2);
    assert_eq!(baseline - fx.free_total(), 1, "only the empty version's manifest chunk remains");

    let pin = fx.pin();
    assert_eq!(pin.version(), 2);
    assert_eq!(pin.manifest().chunks.len(), 0, "zero-chunk manifest round-trips");
    assert_eq!(pin.manifest().batch_spans.len(), 0);
    assert!(matches!(
        pin.as_arrow(&fx.pool, &fx.reg),
        Err(CommitError::Artifact(Error::VersionGone))
    ));
    fx.drop_pin(pin);

    let v3 = fx.optimistic(7, 2, Commit::Replace, &batch(&[9])).unwrap();
    assert_eq!(v3, 3);
    assert_eq!(fx.current_rows(), vec![9]);
    assert_eq!(
        baseline - fx.free_total(),
        2,
        "the empty v2 manifest was itself retired when v3 superseded it"
    );
}

#[test]
fn evict_current_with_a_pinned_reader_drains_on_pin_drop() {
    let mut fx = Fx::new(42);
    let baseline = fx.free_total();
    fx.optimistic(7, 0, Commit::Replace, &batch(&[5, 6])).unwrap();
    let used_v1 = baseline - fx.free_total();
    let pin = fx.pin();

    let v2 = fx.art.evict_current_optimistic(&mut fx.head, &mut fx.pool, 7, 1).unwrap();
    assert_eq!(v2, 2);
    assert_eq!(col(&fx.table(&pin)), vec![5, 6]);
    assert_eq!(baseline - fx.free_total(), used_v1 + 1, "nothing of v1 freed while the pin is live");
    fx.drop_pin(pin);
    assert_eq!(baseline - fx.free_total(), 1, "the last pin drop retired the evicted version");
}

#[test]
fn evict_current_on_empty_errors_and_conflicts_are_clean() {
    let mut fx = Fx::new(43);
    assert!(matches!(
        fx.art.evict_current_optimistic(&mut fx.head, &mut fx.pool, 7, 0),
        Err(Error::VersionGone)
    ));
    fx.optimistic(7, 0, Commit::Replace, &batch(&[1])).unwrap();
    let baseline = fx.free_total();
    assert!(matches!(
        fx.art.evict_current_optimistic(&mut fx.head, &mut fx.pool, 7, 9),
        Err(Error::Conflict { expected: 9, actual: 1 })
    ));
    assert_eq!(fx.free_total(), baseline, "a lost evict leaks nothing");
    assert_eq!(fx.art.current_version(&fx.head), 1);

    let committer = fx.open(7).unwrap();
    assert_eq!(committer.evict_current(&mut fx.head, &mut fx.pool).unwrap(), 2);
    assert_eq!(committer.evict_current(&mut fx.head, &mut fx.pool).unwrap(), 3);
    committer.close(&mut fx.head);
    assert_eq!(fx.art.current_version(&fx.head), 3);
}

// ---- lineages ----

#[test]
fn append_1000_in_a_pool_whose_largest_class_is_256_bytes() {
    let mut fx = Fx::lineage(300, 4096);
    let baseline = fx.free_total();
    let w = fx.open(7).unwrap();
    assert_eq!(fx.commit(&w, Commit::Replace, &batch(&[0])).unwrap(), 1);
    for i in 1..=1000i64 {
        assert_eq!(fx.commit(&w, Commit::Append, &batch(&[i])).unwrap(), i as u64 + 1);
    }
    w.close(&mut fx.head);
    assert_eq!(fx.art.current_version(&fx.head), 1001);
    assert_eq!(
        baseline - fx.free_total(),
        2 * 1001,
        "exactly one data chunk + one manifest chunk per chain member"
    );

    let pin = fx.pin();
    assert_eq!(pin.manifest().chunks.len(), 1, "pin parses the head only");
    assert_eq!(pin.manifest().depth, 1000);
    assert_eq!(pin.manifest().total_batches, 1001);
    let chain = pin.chain(&fx.pool).unwrap();
    assert_eq!(chain.len(), 1001);
    assert!(
        chain.windows(2).all(|w| w[0].version + 1 == w[1].version),
        "chain is oldest-first and contiguous"
    );
    assert_eq!(pin.data_chunks(&fx.pool).unwrap().len(), 1001);
    assert_eq!(pin.as_arrow_batches(&fx.pool, &fx.reg).unwrap().len(), 1001);
    let expect: Vec<i64> = (0..=1000).collect();
    assert_eq!(fx.rows(&pin), expect);
}

#[test]
fn replace_after_a_long_lineage_frees_the_whole_chain() {
    let mut fx = Fx::lineage(301, 1024);
    let baseline = fx.free_total();
    let w = fx.open(7).unwrap();
    fx.commit(&w, Commit::Replace, &batch(&[0])).unwrap();
    for i in 1..=200i64 {
        fx.commit(&w, Commit::Append, &batch(&[i])).unwrap();
    }
    assert_eq!(baseline - fx.free_total(), 2 * 201);
    assert_eq!(fx.commit(&w, Commit::Replace, &batch(&[9])).unwrap(), 202);
    w.close(&mut fx.head);
    assert_eq!(baseline - fx.free_total(), 2, "only v202's data + manifest remain after the cascade");
    assert_eq!(fx.current_rows(), vec![9]);
}

#[test]
fn pinned_prefix_survives_the_cascade() {
    let mut fx = Fx::lineage(302, 1024);
    let baseline = fx.free_total();
    let w = fx.open(7).unwrap();
    fx.commit(&w, Commit::Replace, &batch(&[1])).unwrap();
    for i in 2..=5i64 {
        fx.commit(&w, Commit::Append, &batch(&[i])).unwrap();
    }
    let held = fx.pin();
    assert_eq!(held.version(), 5);
    for i in 6..=20i64 {
        fx.commit(&w, Commit::Append, &batch(&[i])).unwrap();
    }
    assert_eq!(baseline - fx.free_total(), 2 * 20);

    assert_eq!(fx.commit(&w, Commit::Replace, &batch(&[99])).unwrap(), 21);
    w.close(&mut fx.head);
    assert_eq!(baseline - fx.free_total(), 2 + 2 * 5, "v21 plus the pinned v1..v5 prefix remain");
    assert_eq!(col(&fx.table(&held)), vec![1, 2, 3, 4, 5]);
    assert_eq!(held.chain(&fx.pool).unwrap().len(), 5);
    fx.drop_pin(held);
    assert_eq!(baseline - fx.free_total(), 2, "the pin drop retired v5 and the cascade freed the prefix");
}

#[test]
fn losing_appends_and_windows_leave_an_exact_census() {
    let mut fx = Fx::windowed(405, 1024);
    let baseline = fx.free_total();
    let mut current = fx.optimistic(7, 0, Commit::Replace, &batch(&[0])).unwrap();
    for round in 0..60u64 {
        let (first, second) = if round % 3 == 0 {
            (Commit::Window { keep_batches: 4 }, Commit::Append)
        } else {
            (Commit::Append, Commit::Window { keep_batches: 4 })
        };
        let won = fx.optimistic(11, current, first, &batch(&[round as i64])).unwrap();
        assert_eq!(
            refused(fx.optimistic(12, current, second, &batch(&[-1]))),
            Error::Conflict { expected: current, actual: won }
        );
        current = won;
        let pin = fx.pin();
        let live = pin.manifest().depth as usize + 1 + pin.manifest().total_batches as usize;
        assert!(pin.manifest().total_batches <= 5 + pin.manifest().depth);
        fx.drop_pin(pin);
        assert_eq!(baseline - fx.free_total(), live, "round {round}: census off");
    }
    fx.optimistic(7, current, Commit::Replace, &batch(&[1])).unwrap();
    assert_eq!(baseline - fx.free_total(), 2);
}

#[test]
fn as_arrow_batches_is_zero_copy_per_batch_and_as_arrow_copies() {
    let mut fx = Fx::new(304);
    let w = fx.open(7).unwrap();
    fx.commit(&w, Commit::Replace, &batch(&[1, 2])).unwrap();
    fx.commit(&w, Commit::Append, &batch(&[3])).unwrap();
    fx.commit(&w, Commit::Append, &batch(&[4, 5, 6])).unwrap();
    w.close(&mut fx.head);

    let pin = fx.pin();
    let batches = fx.batches(&pin);
    assert_eq!(batches.len(), 3);
    assert_eq!(col(&batches[0]), vec![1, 2]);
    assert_eq!(col(&batches[1]), vec![3]);
    assert_eq!(col(&batches[2]), vec![4, 5, 6]);
    let chunks = pin.data_chunks(&fx.pool).unwrap();
    assert_eq!(chunks.len(), 3, "one chunk per batch here");
    for (r, d) in pin.located_batches(&fx.pool, &fx.reg).unwrap().iter().zip(&chunks) {
        let e = r.columns[0].buffers[0];
        assert!(e.offset + e.len <= d.len, "the values lie in the version's own chunk");
    }
    assert_eq!(col(&fx.table(&pin)), vec![1, 2, 3, 4, 5, 6]);
}

#[test]
fn self_link_and_forward_link_are_rejected() {
    let mut fx = Fx::new(305);
    fx.optimistic(7, 0, Commit::Replace, &batch(&[1])).unwrap();
    let baseline = fx.free_total();
    let p = fx.pin();
    let schema_id = p.manifest().schema_id;
    assert_eq!(p.manifest().version, 1);
    let link = p.manifest().link_from(PackedRef(0x0000_0001_0000_1000), 0);
    fx.drop_pin(p);
    assert!(matches!(
        write_manifest(&mut fx.pool, 305, 1, schema_id, &[], &[], Some(&link), None),
        Err(Error::Unsupported(_))
    ));
    assert!(matches!(
        write_manifest(&mut fx.pool, 305, 0, schema_id, &[], &[], Some(&link), None),
        Err(Error::Unsupported(_))
    ));
    assert_eq!(fx.free_total(), baseline, "a refused link allocates nothing");
}

#[test]
fn leaked_pin_replay_on_an_append_lineage_cascades() {
    let mut fx = Fx::lineage(306, 1024);
    let mut journal = BorrowJournal::create(64);
    let baseline = fx.free_total();
    let mut cur = fx.optimistic(7, 0, Commit::Replace, &batch(&[1])).unwrap();
    for i in 2..=10i64 {
        cur = fx.optimistic(7, cur, Commit::Append, &batch(&[i])).unwrap();
    }
    let pin = fx.art.pin_journaled(&mut fx.head, &fx.pool, &mut journal).unwrap();
    assert_eq!(pin.version(), 10);
    drop(pin); // the reader crashes holding v10

    cur = fx.optimistic(7, cur, Commit::Replace, &batch(&[0])).unwrap();
    assert_eq!(cur, 11);
    assert_eq!(baseline - fx.free_total(), 2 * 10 + 2, "the leaked pin keeps the 10-deep chain alive");

    let mut released = 0;
    for (_, rec) in journal.replay_indexed() {
        if let JournalRecord::ArtifactPin { version, .. } = rec {
            if fx.art.release_leaked_pin(&mut fx.head, &mut fx.pool, version) {
                released += 1;
            }
        }
    }
    assert_eq!(released, 1);
    assert_eq!(fx.art.version_pin_count(&fx.head, 10), None);
    assert_eq!(baseline - fx.free_total(), 2, "the replayed release retired v10 and the cascade freed the chain");
}

#[test]
fn evict_all_on_a_lineage_returns_the_pool_to_baseline() {
    let mut fx = Fx::lineage(307, 1024);
    let baseline = fx.free_total();
    let w = fx.open(7).unwrap();
    fx.commit(&w, Commit::Replace, &batch(&[1])).unwrap();
    for i in 2..=21i64 {
        fx.commit(&w, Commit::Append, &batch(&[i])).unwrap();
    }
    let held = fx.pin();
    assert_eq!(held.version(), 21);
    for i in 22..=26i64 {
        fx.commit(&w, Commit::Append, &batch(&[i])).unwrap();
    }
    w.close(&mut fx.head);
    assert_eq!(baseline - fx.free_total(), 2 * 26);

    fx.art.evict_all(&mut fx.head, &mut fx.pool).unwrap();
    assert_eq!(fx.art.current_version(&fx.head), 0);
    assert_eq!(
        baseline - fx.free_total(),
        2 * 21,
        "v26..v22 cascaded down to the pinned v21; its chain survives the pin"
    );
    let expect: Vec<i64> = (1..=21).collect();
    assert_eq!(fx.rows(&held), expect);

    fx.drop_pin(held);
    assert_eq!(fx.free_total(), baseline, "the pin drop retired v21 and the cascade returned everything");
    fx.art.evict_all(&mut fx.head, &mut fx.pool).unwrap();
    assert_eq!(fx.free_total(), baseline);
    assert!(fx.art.is_quiescent(&fx.head));
}

#[test]
fn append_with_a_different_schema_is_rejected() {
    let schema_b: SchemaRef = Arc::new(Schema::new(vec![Field::new("w", DataType::Int32, false)]));
    let mut fx = Fx::with(
        308,
        &PoolConfig::power_of_two(1024, 4096, 64),
        SchemaRegistry::with_schemas(&[schema(), schema_b.clone()]),
    );
    fx.optimistic(7, 0, Commit::Replace, &batch(&[1])).unwrap();
    let baseline = fx.free_total();
    let other =
        RecordBatch::try_new(schema_b, vec![Arc::new(Int32Array::from(vec![2]))]).unwrap();
    assert!(matches!(refused(fx.optimistic(7, 1, Commit::Append, &other)), Error::Unsupported(_)));
    assert_eq!(fx.art.current_version(&fx.head), 1);
    assert_eq!(fx.free_total(), baseline, "the rejected Append returned its staged chunk");

    assert_eq!(fx.optimistic(7, 1, Commit::Replace, &other).unwrap(), 2);
    let pin = fx.pin();
    assert_eq!(pin.manifest().depth, 0, "a Replace is a new root");
    assert_eq!(fx.table(&pin), other);
}

// ---- windows ----

#[test]
fn window_commit_keeps_the_newest_batches_and_frees_the_tail() {
    let mut fx = Fx::windowed(401, 256);
    let baseline = fx.free_total();
    let w = fx.open(7).unwrap();
    fx.commit(&w, Commit::Replace, &batch(&[1])).unwrap();
    for i in 2..=10i64 {
        fx.commit(&w, Commit::Append, &batch(&[i])).unwrap();
    }
    assert_eq!(baseline - fx.free_total(), 2 * 10);

    let v = fx.commit(&w, Commit::Window { keep_batches: 3 }, &batch(&[11])).unwrap();
    assert_eq!(v, 11);
    let pin = fx.pin();
    assert_eq!(pin.manifest().depth, 0, "a Window is a root");
    assert!(pin.manifest().prev.is_none());
    assert_eq!(pin.manifest().chunks.len(), 4);
    assert_eq!(pin.manifest().batch_spans, vec![1, 1, 1, 1]);
    assert_eq!(fx.rows(&pin), vec![8, 9, 10, 11]);
    assert_eq!(col(&fx.table(&pin)), vec![8, 9, 10, 11]);
    fx.drop_pin(pin);
    assert_eq!(
        baseline - fx.free_total(),
        4 + 1,
        "3 kept + 1 new data chunks and one manifest; v1..v7 and every old manifest freed"
    );

    fx.commit(&w, Commit::Append, &batch(&[12])).unwrap();
    assert_eq!(fx.current_rows(), vec![8, 9, 10, 11, 12]);
    assert_eq!(baseline - fx.free_total(), 5 + 2);

    fx.commit(&w, Commit::Window { keep_batches: 0 }, &batch(&[13])).unwrap();
    assert_eq!(fx.current_rows(), vec![13]);
    assert_eq!(baseline - fx.free_total(), 2);

    fx.commit(&w, Commit::Append, &batch(&[14])).unwrap();
    fx.commit(&w, Commit::Window { keep_batches: 99 }, &batch(&[15])).unwrap();
    assert_eq!(fx.current_rows(), vec![13, 14, 15]);
    assert_eq!(baseline - fx.free_total(), 3 + 1);
}

#[test]
fn window_policy_bounds_chunks_depth_and_read_over_10k_commits() {
    let mut fx = Fx::windowed(402, 256);
    let baseline = fx.free_total();
    let policy = WindowPolicy::new(16);
    let w = fx.open(7).unwrap();
    let mut windows = 0usize;
    for i in 1..=10_000i64 {
        let kind = policy.commit_for_depth(fx.art.current_depth(&fx.head, &fx.pool));
        if matches!(kind, Commit::Window { .. }) {
            windows += 1;
        }
        let b = plain(&batch(&[i]));
        assert_eq!(
            w.commit_windowed(&mut fx.head, &mut fx.pool, &policy, &b, &mut fx.reg).unwrap(),
            i as u64
        );
        if i % 1000 == 0 || i < 40 {
            let pin = fx.pin();
            let (depth, n) = (pin.manifest().depth, pin.manifest().total_batches as i64);
            assert!(depth < 16, "v{i}: depth {depth} escaped the policy");
            assert!((16..=32).contains(&n) || i <= 32, "v{i}: {n} batches");
            let expect: Vec<i64> = ((i - n + 1)..=i).collect();
            assert_eq!(fx.rows(&pin), expect, "v{i}: table is the newest {n} rows");
            fx.drop_pin(pin);
            let live = baseline - fx.free_total();
            assert_eq!(live, depth as usize + 1 + n as usize, "v{i}: census");
            assert!(live <= 32 + 16, "v{i}: {live} live chunks");
        }
    }
    assert_eq!(windows, 10_000 / 16, "the first root plus one Window per 16 commits");
    w.close(&mut fx.head);

    let w = fx.open(7).unwrap();
    fx.commit(&w, Commit::Replace, &batch(&[0])).unwrap();
    assert_eq!(baseline - fx.free_total(), 2);
}

#[test]
fn batches_since_returns_only_new_manifests_and_flags_truncation() {
    let mut fx = Fx::windowed(403, 256);
    let w = fx.open(7).unwrap();
    fx.commit(&w, Commit::Replace, &batch(&[1])).unwrap();
    fx.commit(&w, Commit::Append, &batch(&[2])).unwrap();
    fx.commit(&w, Commit::Append, &batch(&[3])).unwrap();
    let pin = fx.pin();

    let d = fx.delta(&pin, 2);
    assert_eq!((fx.delta_rows(&d), d.from_version, d.truncated), (vec![3], 3, false));
    let d = fx.delta(&pin, 1);
    assert_eq!((fx.delta_rows(&d), d.from_version, d.truncated), (vec![2, 3], 2, false));
    let d = fx.delta(&pin, 3);
    assert!(d.batches.is_empty() && !d.truncated && d.from_version == 3);
    let d = fx.delta(&pin, 7);
    assert!(d.batches.is_empty() && !d.truncated);
    let d = fx.delta(&pin, 0);
    assert_eq!((fx.delta_rows(&d), d.from_version, d.truncated), (vec![1, 2, 3], 1, false));
    fx.drop_pin(pin);

    // v4 = Window{2}: root [2, 3, 4] with members (2,1),(3,1) and base 1.
    fx.commit(&w, Commit::Window { keep_batches: 2 }, &batch(&[4])).unwrap();
    let pin = fx.pin();
    let m = pin.manifest();
    assert_eq!(m.window_base, 1);
    assert_eq!(
        m.kept.iter().map(|k| (k.version, k.batches)).collect::<Vec<_>>(),
        vec![(2, 1), (3, 1)]
    );
    let d = fx.delta(&pin, 3);
    assert_eq!((fx.delta_rows(&d), d.from_version, d.truncated), (vec![4], 4, false));
    let d = fx.delta(&pin, 2);
    assert_eq!((fx.delta_rows(&d), d.from_version, d.truncated), (vec![3, 4], 4, false));
    let d = fx.delta(&pin, 1);
    assert_eq!((fx.delta_rows(&d), d.from_version, d.truncated), (vec![2, 3, 4], 4, false));
    let d = fx.delta(&pin, 4);
    assert!(d.batches.is_empty() && !d.truncated);
    let d = fx.delta(&pin, 0);
    assert_eq!((fx.delta_rows(&d), d.truncated), (vec![2, 3, 4], false));
    fx.drop_pin(pin);

    fx.commit(&w, Commit::Append, &batch(&[5])).unwrap();
    let pin = fx.pin();
    let d = fx.delta(&pin, 4);
    assert_eq!((fx.delta_rows(&d), d.from_version, d.truncated), (vec![5], 5, false));
    let d = fx.delta(&pin, 3);
    assert_eq!((fx.delta_rows(&d), d.from_version, d.truncated), (vec![4, 5], 4, false));
    fx.drop_pin(pin);

    // v6 = Window{1} onto a windowed root: v5 kept whole (linked, base 4).
    fx.commit(&w, Commit::Window { keep_batches: 1 }, &batch(&[6])).unwrap();
    let pin = fx.pin();
    assert_eq!(pin.manifest().window_base, 4);
    let d = fx.delta(&pin, 4);
    assert_eq!((fx.delta_rows(&d), d.from_version, d.truncated), (vec![5, 6], 6, false));
    let d = fx.delta(&pin, 3);
    assert_eq!((fx.delta_rows(&d), d.from_version, d.truncated), (vec![5, 6], 6, true));
    fx.drop_pin(pin);

    // v7 = Window{3} keeps the whole of root v6: its base (4) is inherited.
    fx.commit(&w, Commit::Window { keep_batches: 3 }, &batch(&[7])).unwrap();
    let pin = fx.pin();
    let m = pin.manifest();
    assert_eq!(m.window_base, 4);
    assert_eq!(
        m.kept.iter().map(|k| (k.version, k.batches)).collect::<Vec<_>>(),
        vec![(5, 1), (6, 1)]
    );
    let d = fx.delta(&pin, 4);
    assert_eq!((fx.delta_rows(&d), d.truncated), (vec![5, 6, 7], false));
    let d = fx.delta(&pin, 5);
    assert_eq!((fx.delta_rows(&d), d.truncated), (vec![6, 7], false));
    let d = fx.delta(&pin, 6);
    assert_eq!((fx.delta_rows(&d), d.truncated), (vec![7], false));
    fx.drop_pin(pin);

    // A Replace is never transparent: a reader at v7 must resync.
    fx.commit(&w, Commit::Replace, &batch(&[8])).unwrap();
    let pin = fx.pin();
    let d = fx.delta(&pin, 7);
    assert_eq!((fx.delta_rows(&d), d.from_version, d.truncated), (vec![8], 8, true));
    fx.drop_pin(pin);
    fx.commit(&w, Commit::Window { keep_batches: 5 }, &batch(&[9])).unwrap();
    let pin = fx.pin();
    assert_eq!(pin.manifest().window_base, 8);
    let d = fx.delta(&pin, 7);
    assert_eq!((fx.delta_rows(&d), d.truncated), (vec![8, 9], true));
    let d = fx.delta(&pin, 8);
    assert_eq!((fx.delta_rows(&d), d.truncated), (vec![9], false));
}

#[test]
fn pinned_reader_survives_a_window_commit() {
    let mut fx = Fx::windowed(404, 256);
    let baseline = fx.free_total();
    let w = fx.open(7).unwrap();
    fx.commit(&w, Commit::Replace, &batch(&[1])).unwrap();
    for i in 2..=5i64 {
        fx.commit(&w, Commit::Append, &batch(&[i])).unwrap();
    }
    let held = fx.pin();
    assert_eq!(held.version(), 5);

    fx.commit(&w, Commit::Window { keep_batches: 2 }, &batch(&[6])).unwrap();
    assert_eq!(
        baseline - fx.free_total(),
        10 + 2,
        "the pinned chain (10) plus v6's own data chunk + manifest"
    );
    assert_eq!(fx.rows(&held), vec![1, 2, 3, 4, 5]);
    assert_eq!(fx.current_rows(), vec![4, 5, 6]);
    let root = fx.pin();
    for (i, c) in root.manifest().chunks.iter().enumerate() {
        let expect = if i < 2 { 2 } else { 1 };
        assert_eq!(fx.refcount(c), expect, "kept chunk {i}");
    }
    fx.drop_pin(root);

    fx.drop_pin(held);
    assert_eq!(
        baseline - fx.free_total(),
        3 + 1,
        "v1..v3 and the five old manifests cascaded; [4],[5] survive on the root's reference"
    );
    assert_eq!(fx.current_rows(), vec![4, 5, 6]);
}

#[test]
fn window_keeps_multi_chunk_batches_whole() {
    let (b1, schema) = wide_batch(6, 200);
    let mut fx = wide_fx(406, &schema);
    let baseline = fx.free_total();
    let w = fx.open(7).unwrap();
    fx.commit(&w, Commit::Replace, &b1).unwrap();
    let p = fx.pin();
    let n = p.manifest().chunks.len();
    fx.drop_pin(p);
    assert!(n > 1, "the batch must span several chunks for this test to mean anything");
    fx.commit(&w, Commit::Append, &b1).unwrap();
    fx.commit(&w, Commit::Append, &b1).unwrap();
    assert_eq!(baseline - fx.free_total(), 3 * n + 3);

    fx.commit(&w, Commit::Window { keep_batches: 2 }, &b1).unwrap();
    let pin = fx.pin();
    assert_eq!(pin.manifest().chunks.len(), 3 * n);
    assert_eq!(pin.manifest().batch_spans, vec![n as u32; 3]);
    let batches = fx.batches(&pin);
    assert_eq!(batches.len(), 3);
    for b in &batches {
        assert_eq!(b, &b1);
    }
    fx.drop_pin(pin);
    assert_eq!(baseline - fx.free_total(), 3 * n + 1);
}

#[test]
fn window_with_a_different_schema_is_rejected() {
    let schema_b: SchemaRef = Arc::new(Schema::new(vec![Field::new("w", DataType::Int32, false)]));
    let mut fx = Fx::with(
        407,
        &PoolConfig::power_of_two(1024, 4096, 64),
        SchemaRegistry::with_schemas(&[schema(), schema_b.clone()]),
    );
    fx.optimistic(7, 0, Commit::Replace, &batch(&[1])).unwrap();
    fx.optimistic(7, 1, Commit::Append, &batch(&[2])).unwrap();
    let baseline = fx.free_total();
    let other =
        RecordBatch::try_new(schema_b, vec![Arc::new(Int32Array::from(vec![3]))]).unwrap();
    assert!(matches!(
        refused(fx.optimistic(7, 2, Commit::Window { keep_batches: 1 }, &other)),
        Error::Unsupported(_)
    ));
    assert_eq!(fx.art.current_version(&fx.head), 2);
    assert_eq!(fx.free_total(), baseline);
    assert_eq!(fx.current_rows(), vec![1, 2]);
}

// ---- service ----

#[test]
fn attaching_finds_the_occupant() {
    let mut head = ArtifactHead::fresh();
    assert!(matches!(Artifact::attach(1, &head, 1 << 16), Err(Error::Stale)));
    let a = Artifact::create(1, &mut head, 1 << 16).unwrap();
    assert_eq!((a.name_id(), a.incarnation()), (1, FIRST_INCARNATION));
    assert_eq!(Artifact::attach(1, &head, 1 << 16).unwrap(), a);
    assert!(matches!(Artifact::attach(1, &head, 100), Err(Error::BadMagic)));
    assert!(matches!(
        Artifact::attach_at_incarnation(1, 2, &head, 0, 1 << 16),
        Err(Error::Stale)
    ));
    assert!(Artifact::attach_at_incarnation(1, 1, &head, 64, 64 + 1576).is_ok());
    let mut bad = head.clone();
    bad.magic = 0;
    assert!(matches!(Artifact::attach(1, &bad, 1 << 16), Err(Error::BadMagic)));
    assert!(matches!(
        Artifact::create(1, &mut head, 1575),
        Err(Error::LayoutOverflow("head segment too small for ArtifactHead"))
    ));
}

#[test]
fn a_recycled_head_keeps_the_fence() {
    let mut head = ArtifactHead::fresh();
    let a = Artifact::create_at(1, 5, &mut head, 0, 1 << 16).unwrap();
    let w = a.open_exclusive(&mut head, 7).unwrap();
    assert!(a.release_leaked_write_lease(&mut head));
    assert_eq!(a.retire_head(&mut head), 5);
    assert!(a.is_quiescent(&head));
    let b = Artifact::create_at(1, 6, &mut head, 0, 1 << 16).unwrap();
    let w2 = b.open_exclusive(&mut head, 7).unwrap();
    assert_eq!(w2.fence_token(), 1, "the fence goes on");
    assert!(!w.close(&mut head), "the old token fits no lease of the new occupant");
    assert_eq!(b.write_lease_owner(&head), 7);
    assert!(matches!(a.check_live(&head), Err(Error::Stale)));
    assert!(matches!(a.open_exclusive(&mut head, 9), Err(Error::WriteLocked)));
    w2.close(&mut head);
    assert!(matches!(a.open_exclusive(&mut head, 9), Err(Error::Stale)));
    b.retire_head(&mut head);
    b.commission_head(&mut head, 6);
    assert!(b.check_live(&head).is_ok());
    assert!(matches!(
        Artifact::create_at(1, 7, &mut head, usize::MAX - 7, 1 << 16),
        Err(Error::LayoutOverflow("head offset overflow"))
    ));
    assert!(matches!(
        Artifact::create_at(1, 7, &mut head, 64, 64),
        Err(Error::LayoutOverflow("head segment too small for ArtifactHead at offset"))
    ));
}

#[test]
fn stale_handles_are_refused_everywhere() {
    let mut fx = Fx::new(115);
    fx.optimistic(7, 0, Commit::Replace, &batch(&[1])).unwrap();
    let free = fx.free_total();
    fx.art.retire_head(&mut fx.head);
    assert_eq!(refused(fx.optimistic(7, 1, Commit::Replace, &batch(&[2]))), Error::Stale);
    assert_eq!(fx.free_total(), free, "a stale commit returns what it staged");
    assert!(matches!(fx.art.pin(&mut fx.head, &fx.pool), Err(Error::Stale)));
    assert!(matches!(fx.art.evict_all(&mut fx.head, &mut fx.pool), Err(Error::Stale)));
}

#[test]
fn staged_chunks_must_be_loaned_and_distinct() {
    let mut fx = Fx::new(116);
    let d = write_batch(&mut fx.pool, &mut fx.reg, &plain(&batch(&[1]))).unwrap();
    // Not loaned.
    assert!(matches!(
        fx.art.commit_staged_optimistic(&mut fx.head, &mut fx.pool, 7, 0, Commit::Replace, &[d], &[1], 1),
        Err(Error::BadState)
    ));
    loan_all(&mut fx.pool, &vec![d], 7);
    // The same chunk twice.
    assert!(matches!(
        fx.art.commit_staged_optimistic(&mut fx.head, &mut fx.pool, 7, 0, Commit::Replace, &[d, d], &[2], 1),
        Err(Error::BadState)
    ));
    // Nowhere.
    let nowhere = ChunkDesc { offset: 3, ..d };
    assert!(matches!(
        fx.art.commit_staged_optimistic(&mut fx.head, &mut fx.pool, 7, 0, Commit::Replace, &[nowhere], &[1], 1),
        Err(Error::OutOfBounds)
    ));
}

#[test]
fn a_full_version_table_is_refused() {
    let mut fx = Fx::lineage(117, 1024);
    let mut pins = Vec::new();
    for v in 0..64u64 {
        fx.optimistic(7, v, Commit::Replace, &batch(&[v as i64])).unwrap();
        pins.push(fx.pin());
    }
    assert_eq!(
        refused(fx.optimistic(7, 64, Commit::Replace, &batch(&[9]))),
        Error::Unsupported("live-version table full")
    );
    let p = pins.remove(0);
    fx.drop_pin(p);
    assert_eq!(fx.optimistic(7, 64, Commit::Replace, &batch(&[9])).unwrap(), 65);
}

#[test]
fn an_exhausted_pool_refuses_and_leaks_nothing() {
    let mut fx = Fx::lineage(118, 3);
    fx.optimistic(7, 0, Commit::Replace, &batch(&[1])).unwrap();
    // One chunk left: the data fits, the manifest does not.
    assert_eq!(refused(fx.optimistic(7, 1, Commit::Append, &batch(&[2]))), Error::Exhausted);
    assert_eq!(fx.free_total(), 1);
    assert_eq!(fx.current_rows(), vec![1]);
}

#[test]
fn pools_that_do_not_fit_are_refused() {
    assert!(matches!(
        ChunkPool::create(1, &PoolConfig::power_of_two(256, 1024, 4), 1000),
        Err(Error::LayoutOverflow("pool does not fit the segment"))
    ));
    let c = PoolConfig::power_of_two(256, 1500, 4);
    let sizes: Vec<u32> = c.classes.iter().map(|c| c.chunk_size).collect();
    assert_eq!(sizes, vec![256, 512, 1024]);
    let p = ChunkPool::create(1, &c, 1 << 20).unwrap();
    assert_eq!((p.free_count(), p.max_chunk_size()), (12, 1024));
    assert_eq!(p.lay[0], 64);
    assert_eq!(p.lay[1], 64 + 256);
}

#[test]
fn staged_commits_of_a_lease_holder() {
    let mut fx = Fx::windowed(119, 64);
    let mut journal = BorrowJournal::create(8);
    let w = fx.open(7).unwrap();
    let policy = WindowPolicy::new(2);
    let mut stage = |fx: &mut Fx, v: i64| {
        let d = write_batch(&mut fx.pool, &mut fx.reg, &plain(&batch(&[v]))).unwrap();
        fx.pool.loan(&d, 7).unwrap();
        d
    };
    let d = stage(&mut fx, 1);
    let v = w
        .commit_staged_journaled(&mut fx.head, &mut fx.pool, Commit::Append, &[d], &[1], d.schema_id, &mut journal)
        .unwrap();
    assert_eq!((v, journal.len()), (1, 0));
    for i in 2..=6i64 {
        let d = stage(&mut fx, i);
        assert_eq!(
            w.commit_staged_windowed(&mut fx.head, &mut fx.pool, &policy, &[d], &[1], d.schema_id).unwrap(),
            i as u64
        );
    }
    let rows = fx.current_rows();
    assert!(rows.len() >= 3 && rows.len() <= 4, "{rows:?}");
    assert_eq!(*rows.last().unwrap(), 6);
    // A full journal does not stop the commit.
    let mut none = BorrowJournal::create(0);
    let d = stage(&mut fx, 7);
    assert_eq!(
        w.commit_staged_journaled(&mut fx.head, &mut fx.pool, Commit::Append, &[d], &[1], d.schema_id, &mut none)
            .unwrap(),
        7
    );
    assert!(none.is_empty());
}
