use std::sync::Arc;

use arrow_array::{make_array, Array, ArrayRef, Int64Array, RecordBatch};
use arrow_data::ArrayData;
use arrow_schema::{DataType, Field, Schema};
use holon::artifact::config::PoolConfig;
use holon::artifact::event::{CommitKind, VersionEvent};
use holon::artifact::handle::Artifact;
use holon::artifact::head::ArtifactHead;
use holon::artifact::pool::{ChunkPool, ChunkState};
use holon::batch::read::{bytes_in_place, locate_batch, ReadBatch};
use holon::batch::rows::{read_batch, Rows};
use holon::batch::schema::SchemaRegistry;
use holon::batch::write::{serialized_len, Batch};
use holon::chunk::{ChunkDesc, PackedRef, CHUNK_DESC_BYTES};
use holon::spike::trip::{
    compare_output, integers_in_place, read_output, round_trip, TripError,
};
use holon::spike::work::{bits_of, read_integers, signed_of, work, write_integers, WorkError};
use holon::spike::{
    clear_retained_chunk, decode_version, double, encode_version, payload_ratio, result_version,
    retain_input_chunk, verify_doubled, AckPolicy, Mismatch, OutputPolicy, RetainedInputRef,
    RetainedOutputRef, SpikeReport, TaskRequest, VERSION_MARKER,
};

const ROWS: usize = 4096;

fn schema() -> Arc<Schema> {
    Arc::new(Schema::new(vec![Field::new("v", DataType::Int64, false)]))
}

fn columns(v: &[i64]) -> Vec<ArrayData> {
    let a: ArrayRef = Arc::new(Int64Array::from(v.to_vec()));
    let b = RecordBatch::try_new(schema(), vec![a]).unwrap();
    b.columns().iter().map(|c| c.to_data()).collect()
}

fn values(r: &Rows) -> Vec<i64> {
    let a = make_array(r.columns[0].clone());
    a.as_any().downcast_ref::<Int64Array>().unwrap().values().to_vec()
}

/// The integers of a batch, read where they lie; `None` if a buffer is not inside
/// of the pool's own bytes.
fn in_place(pool: &ChunkPool, chunks: &[ChunkDesc], b: &ReadBatch) -> Option<Vec<i64>> {
    let column = &b.columns[0];
    for e in column.validity.iter().chain(&column.buffers) {
        let s = bytes_in_place(pool, chunks, e)?.as_ptr_range();
        let d = chunks[e.chunk_index as usize];
        let all = pool.chunks[pool.find(d.segment_id, d.offset)?].bytes.as_ptr_range();
        if s.start < all.start || s.end > all.end {
            return None;
        }
    }
    integers_in_place(pool, chunks, b)
}

#[test]
fn spike_maps_task_fabric_onto_shm_actors() {
    let config = PoolConfig::power_of_two(1024, 1 << 16, 8);
    let mut payload = ChunkPool::create(1, &config, 1 << 21).unwrap();
    let mut out = ChunkPool::create(2, &config, 1 << 21).unwrap();
    let mut head = ArtifactHead::fresh();
    let art = Artifact::create(0xA5A5, &mut head, 1 << 16).unwrap();
    let mut reg = SchemaRegistry::with_schemas(&[schema()]);
    let free0 = payload.free_count();

    // The requester retains the input once.
    let input: Vec<i64> = (0..ROWS as i64).collect();
    let cols = columns(&input);
    let batch = Batch::from_columns(schema(), &cols, ROWS).unwrap();
    let input_payload_bytes = serialized_len(&batch.columns).expect("serializable");
    let input_desc = retain_input_chunk(&mut payload, &mut reg, &batch, 1).unwrap();
    let request = TaskRequest {
        task_id: "spike-task-1".to_string(),
        input: RetainedInputRef { dataset: "spike_input".to_string(), schema_id: 1 },
        output: OutputPolicy::Dataset {
            dataset: "task_results".to_string(),
            group: "task_results".to_string(),
            ack: AckPolicy { clear_on_ack: true },
        },
        deadline_nanos: 5_000_000_000,
    };
    assert_eq!(request.input.schema_id, input_desc.schema_id as u64);

    // The worker takes a reference, reads the input, doubles it, and retains
    // the output as a version.
    let done = work(&mut payload, &input_desc, &art, &mut head, &mut out, &mut reg, 2).unwrap();
    assert_eq!(done.rows, ROWS);
    let result = done.result;
    let seen = values(&read_batch(&payload, &input_desc, &reg).unwrap());
    assert_eq!(seen, input);
    let doubled = double(&seen);
    let located = locate_batch(&payload, &input_desc, &reg).unwrap();
    let input_in_place = in_place(&payload, &[input_desc], &located) == Some(input.clone());
    let i = payload.find(input_desc.segment_id, input_desc.offset).unwrap();
    assert_eq!(payload.chunks[i].refcount, 1, "the worker gave its reference back");

    // The requester reads the output where it lies.
    assert_eq!(result.segment_id, VERSION_MARKER);
    let version = result_version(&result).expect("a version");
    let pin = art.pin(&mut head, &out).unwrap();
    assert_eq!(pin.version(), version);
    let read = pin.as_arrow(&out, &reg).unwrap();
    let output = values(&read);
    assert_eq!(verify_doubled(&input, &output), Ok(()));
    let located = pin.located_batches(&out, &reg).unwrap();
    assert_eq!((located.len(), located[0].row_count), (1, ROWS as u32));
    let output_in_place = in_place(&out, &pin.manifest().chunks, &located[0]) == Some(doubled);
    art.unpin(&mut head, &mut out, pin);

    let cleared = clear_retained_chunk(&mut payload, &input_desc);
    let report = SpikeReport {
        input_payload_bytes,
        control_msg_bytes: CHUNK_DESC_BYTES,
        queue_slot_bytes: 64,
        payload_to_control_ratio: payload_ratio(input_payload_bytes),
        output: RetainedOutputRef { dataset: "task_results".to_string(), version },
        output_rows: output.len(),
        input_read_zero_copy: input_in_place,
        output_read_zero_copy: output_in_place,
        cleared_on_ack: cleared,
        output_cleared_on_ack: art.evict_current_optimistic(&mut head, &mut out, 1, version).is_ok(),
        round_trip_nanos: 0,
    };

    assert_eq!(report.control_msg_bytes, 24, "control message is a ChunkDesc");
    assert!(
        report.input_payload_bytes > 8 * 1024,
        "input payload is substantial ({} bytes)",
        report.input_payload_bytes
    );
    assert!(
        report.payload_to_control_ratio > 100,
        "payload dwarfs the control message (ratio {})",
        report.payload_to_control_ratio
    );
    assert_eq!(report.output.version, 1, "first retained output version");
    assert_eq!(report.output_rows, ROWS, "all rows produced");
    assert!(report.input_read_zero_copy, "input read straight from shm");
    assert!(report.output_read_zero_copy, "output read straight from shm");
    assert!(report.cleared_on_ack, "retained input reclaimed on ack");
    assert!(report.output_cleared_on_ack);

    assert_eq!(payload.chunks[i].state, ChunkState::Free);
    assert_eq!(payload.free_count(), free0);
    assert!(!clear_retained_chunk(&mut payload, &input_desc), "cleared once");
}

#[test]
fn versions_ride_in_descriptors() {
    for v in [0u64, 1, 0xFFFF_FFFF, 0x1_0000_0000, u64::MAX] {
        assert_eq!(decode_version(&encode_version(v)), v);
        assert_eq!(result_version(&encode_version(v)), Some(v));
    }
    let d = encode_version(0x0000_0002_0000_0003);
    assert_eq!((d.segment_id, d.offset, d.len), (VERSION_MARKER, 3, 2));
    assert_eq!(result_version(&ChunkDesc::zero()), None);
}

#[test]
fn doubling_is_checked_row_by_row() {
    assert_eq!(double(&vec![1, -2, 0]), vec![2, -4, 0]);
    assert_eq!(verify_doubled(&vec![1, 2], &vec![2]), Err(Mismatch::Rows));
    assert_eq!(verify_doubled(&vec![1, 2, 3], &vec![2, 5, 7]), Err(Mismatch::Row { row: 1 }));
    assert_eq!(verify_doubled(&vec![i64::MAX], &vec![-2]), Err(Mismatch::Row { row: 0 }));
    assert_eq!(payload_ratio(2400), 100);
}

#[test]
fn inputs_of_more_than_one_chunk_are_refused() {
    let mut pool = ChunkPool::create(1, &PoolConfig::power_of_two(1024, 1024, 64), 1 << 20).unwrap();
    let mut reg = SchemaRegistry::with_schemas(&[schema()]);
    let free0 = pool.free_count();
    let cols = columns(&[7; 4096]);
    let batch = Batch::from_columns(schema(), &cols, 4096).unwrap();
    assert!(retain_input_chunk(&mut pool, &mut reg, &batch, 1).is_err());
    assert_eq!(pool.free_count(), free0);
}

#[test]
fn references_pack_into_a_word() {
    let d = ChunkDesc { segment_id: 7, offset: 4096, ..ChunkDesc::zero() };
    let r = PackedRef::from_desc(&d);
    assert_eq!(r, PackedRef::pack(7, 4096));
    assert_eq!(r.to_bits(), 0x0000_0007_0000_1000);
    assert_eq!((r.segment_id(), r.offset()), (7, 4096));
}

#[test]
fn events_ride_in_descriptors() {
    let e = VersionEvent::new(9, 0x5_0000_0006, CommitKind::Window);
    let d = e.to_desc();
    assert_eq!((d.segment_id, d.offset, d.len), (9, 6, 5));
    assert_eq!(VersionEvent::from_desc(&d), Some(e));
    for k in [CommitKind::Replace, CommitKind::Append, CommitKind::Patch, CommitKind::Window] {
        assert_eq!(CommitKind::from_u32(k.as_u32()), Some(k));
    }
    assert_eq!(CommitKind::from_u32(99), None);
}

#[test]
fn integers_in_buffers() {
    for v in [0i64, 1, -1, i64::MAX, i64::MIN] {
        assert_eq!(bits_of(v), v as u64);
        assert_eq!(signed_of(v as u64), v);
    }
    let b = write_integers(&vec![-2, 3]).unwrap();
    assert_eq!(&b[..8], &(-2i64).to_le_bytes());
    assert_eq!(read_integers(&b, 2), vec![-2, 3]);
}

#[test]
fn workers_refuse_what_they_cannot_do() {
    let config = PoolConfig::power_of_two(1024, 4096, 8);
    let mut payload = ChunkPool::create(1, &config, 1 << 20).unwrap();
    let mut out = ChunkPool::create(2, &PoolConfig::power_of_two(256, 256, 1), 1 << 20).unwrap();
    let mut head = ArtifactHead::fresh();
    let art = Artifact::create(5, &mut head, 1 << 16).unwrap();
    let mut reg = SchemaRegistry::with_schemas(&[schema()]);
    let mut go = |p: &mut ChunkPool, d: &ChunkDesc, reg: &mut SchemaRegistry| {
        work(p, d, &art, &mut head, &mut out, reg, 2)
    };
    assert_eq!(go(&mut payload, &ChunkDesc::zero(), &mut reg), Err(WorkError::Lease));

    let cols = columns(&[1, i64::MAX]);
    let batch = Batch::from_columns(schema(), &cols, 2).unwrap();
    let d = retain_input_chunk(&mut payload, &mut reg, &batch, 1).unwrap();
    assert_eq!(go(&mut payload, &d, &mut reg), Err(WorkError::Overflow));
    let stale = ChunkDesc { generation: d.generation + 1, ..d };
    assert_eq!(go(&mut payload, &stale, &mut reg), Err(WorkError::Lease));

    // Nowhere to write the output to.
    let cols = columns(&[1, 2]);
    let batch = Batch::from_columns(schema(), &cols, 2).unwrap();
    let d = retain_input_chunk(&mut payload, &mut reg, &batch, 1).unwrap();
    assert!(matches!(go(&mut payload, &d, &mut reg), Err(WorkError::Commit(_))));
    let none = &mut SchemaRegistry::new();
    assert!(matches!(go(&mut payload, &d, none), Err(WorkError::Batch(_))));

    // Other numbers.
    let floats = Arc::new(Schema::new(vec![Field::new("f", DataType::Float64, false)]));
    let a: ArrayRef = Arc::new(arrow_array::Float64Array::from(vec![1.0]));
    let batch = Batch::from_columns(floats, &vec![a.to_data()], 1).unwrap();
    let d = retain_input_chunk(&mut payload, &mut reg, &batch, 1).unwrap();
    assert_eq!(go(&mut payload, &d, &mut reg), Err(WorkError::NotInt64));
}

#[test]
fn a_round_trip_in_one_call() {
    let config = PoolConfig::power_of_two(1024, 4096, 8);
    let mut payload = ChunkPool::create(1, &config, 1 << 20).unwrap();
    let mut out = ChunkPool::create(2, &config, 1 << 20).unwrap();
    let mut head = ArtifactHead::fresh();
    let art = Artifact::create(5, &mut head, 1 << 16).unwrap();
    let mut reg = SchemaRegistry::with_schemas(&[schema()]);
    let (free, base) = (payload.free_count(), out.free_count());
    let input = vec![3i64, -4, 0];
    let batch = Batch::from_columns(schema(), &columns(&input), 3).unwrap();

    // The output stays.
    let t = round_trip(
        &art, &mut payload, &mut head, &mut out, &mut reg, &batch, &input, 1, 2, false,
    )
    .unwrap();
    assert_eq!((t.version, t.rows, t.cleared, t.output_cleared), (1, 3, true, false));
    assert_eq!(t.input.schema_id, 1);
    assert_eq!(payload.free_count(), free);
    assert_eq!(base - out.free_count(), 2, "a manifest and a batch");
    let result = encode_version(1);
    assert_eq!(read_output(&art, &mut head, &mut out, &reg, &result).unwrap(), vec![6, -8, 0]);
    assert_eq!(compare_output(&art, &mut head, &mut out, &reg, &result, &input).unwrap(), 3);
    assert!(matches!(
        compare_output(&art, &mut head, &mut out, &reg, &result, &vec![3, -4]),
        Err(TripError::Wrong(Mismatch::Rows))
    ));
    assert!(matches!(
        compare_output(&art, &mut head, &mut out, &reg, &result, &vec![3, -4, 1]),
        Err(TripError::Wrong(Mismatch::Row { row: 2 }))
    ));
    assert!(matches!(
        read_output(&art, &mut head, &mut out, &reg, &encode_version(2)),
        Err(TripError::Version { told: 2, found: 1 })
    ));
    assert!(matches!(
        read_output(&art, &mut head, &mut out, &reg, &ChunkDesc::zero()),
        Err(TripError::NotAVersion)
    ));
    let empty = SchemaRegistry::new();
    assert!(matches!(
        read_output(&art, &mut head, &mut out, &empty, &result),
        Err(TripError::Read(_))
    ));

    // The output is cleared, too. (The worker appends: both batches are read.)
    let r = round_trip(
        &art, &mut payload, &mut head, &mut out, &mut reg, &batch, &input, 1, 2, true,
    );
    assert!(matches!(r, Err(TripError::Wrong(Mismatch::Rows))), "six rows of output");
    art.evict_all(&mut head, &mut out).unwrap();
    assert_eq!(base - out.free_count(), 0);
    assert!(matches!(
        read_output(&art, &mut head, &mut out, &reg, &encode_version(2)),
        Err(TripError::Pin(_))
    ));
    let t = round_trip(
        &art, &mut payload, &mut head, &mut out, &mut reg, &batch, &input, 1, 2, true,
    )
    .unwrap();
    assert!(t.cleared && t.output_cleared);

    // What the worker refuses, and what cannot be retained.
    let big = vec![i64::MAX];
    let batch = Batch::from_columns(schema(), &columns(&big), 1).unwrap();
    assert!(matches!(
        round_trip(&art, &mut payload, &mut head, &mut out, &mut reg, &batch, &big, 1, 2, true),
        Err(TripError::Work(WorkError::Overflow))
    ));
    let wide: Vec<i64> = (0..2000).collect();
    let batch = Batch::from_columns(schema(), &columns(&wide), 2000).unwrap();
    assert!(matches!(
        round_trip(&art, &mut payload, &mut head, &mut out, &mut reg, &batch, &wide, 1, 2, true),
        Err(TripError::Retain(_))
    ));
}
