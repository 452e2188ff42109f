use std::sync::Arc;

use arrow_array::{
    make_array, Array, ArrayRef, BooleanArray, Float64Array, Int32Array, Int64Array, ListArray,
    RecordBatch, StringArray, StructArray,
};
use arrow_buffer::{Buffer, OffsetBuffer, ScalarBuffer};
use arrow_data::{ArrayData, ArrayDataBuilder};
use arrow_schema::{DataType, Field, Fields, Schema};
use holon::artifact::batches::loan_all;
use holon::artifact::config::PoolConfig;
use holon::artifact::pool::ChunkPool;
use holon::batch::array::{is_compactable, is_normalized, plan_batch, ArrayNode, Kind};
use holon::batch::error::Error;
use holon::batch::layout::{
    align_up, buffers_offset, payload_start, read_batch_layout, BufferEntry, BATCH_FORMAT,
    BATCH_MAGIC,
};
use holon::batch::outside::serialize_schema;
use holon::batch::pack::pack;
use holon::batch::join::{are_readable, is_joinable, join_rows};
use holon::batch::read::{locate_batch, locate_batch_chunks, ReadBatch, ReadNode};
use holon::batch::rows::{read_batch, read_batch_chunks, Rows};
use holon::batch::plain::{holds_int64, inner_of, kind_of, plain_of, sort_of, ArrowType};
use holon::batch::schema::{
    deserialize_schema, is_any_crowded, is_serializable, schema_content_hash, try_serialize_schema,
    Outline, SchemaRegistry, RAW_SCHEMA_ID,
};
use holon::batch::write::{serialized_len, write_batch, write_batch_chunks, Batch};
use holon::chunk::ChunkDesc;

type SchemaRef = Arc<Schema>;

// ---- fixtures ----

fn pool(min: u32, max: u32, count: u32) -> ChunkPool {
    ChunkPool::create(47, &PoolConfig::power_of_two(min, max, count), 1 << 24).unwrap()
}

fn plain(b: &RecordBatch) -> Batch {
    let cols: Vec<ArrayData> = b.columns().iter().map(|c| c.to_data()).collect();
    Batch::from_columns(b.schema(), &cols, b.num_rows()).unwrap()
}

fn publish(pool: &mut ChunkPool, descs: &Vec<ChunkDesc>) {
    loan_all(pool, descs, 7);
    for d in descs {
        pool.publish_staged(d).unwrap();
    }
}

fn record(r: &Rows) -> RecordBatch {
    let arrays: Vec<ArrayRef> = r.columns.iter().map(|d| make_array(d.clone())).collect();
    RecordBatch::try_new(r.schema.clone(), arrays).unwrap()
}

/// Every buffer entry of every node lies inside its chunk; how many there are.
fn entries_in_chunks(descs: &[ChunkDesc], r: &ReadBatch) -> usize {
    fn walk(descs: &[ChunkDesc], n: &ReadNode) -> usize {
        let mut k = 0;
        for e in n.validity.iter().chain(&n.buffers) {
            assert!(e.offset + e.len <= descs[e.chunk_index as usize].len);
            assert_eq!(e.offset % 64, 0);
            k += 1;
        }
        k + n.children.iter().map(|c| walk(descs, c)).sum::<usize>()
    }
    r.columns.iter().map(|n| walk(descs, n)).sum()
}

fn stage_and_read(pool: &mut ChunkPool, reg: &mut SchemaRegistry, b: &RecordBatch) -> (RecordBatch, Vec<ChunkDesc>, usize) {
    let descs = write_batch_chunks(pool, reg, &plain(b)).unwrap();
    publish(pool, &descs);
    let n = entries_in_chunks(&descs, &locate_batch_chunks(pool, &descs, reg).unwrap());
    let out = record(&read_batch_chunks(pool, &descs, reg).unwrap());
    (out, descs, n)
}

fn sample_schema() -> SchemaRef {
    Arc::new(Schema::new(vec![
        Field::new("i", DataType::Int64, false),
        Field::new("f", DataType::Float64, true),
        Field::new("s", DataType::Utf8, true),
    ]))
}

fn sample_batch(schema: &SchemaRef) -> RecordBatch {
    let i = Int64Array::from(vec![1, 2, 3, 4, 5]);
    let f = Float64Array::from(vec![Some(1.5), None, Some(3.5), Some(4.5), None]);
    let s = StringArray::from(vec![Some("alpha"), Some("beta"), None, Some("delta"), Some("")]);
    RecordBatch::try_new(schema.clone(), vec![Arc::new(i), Arc::new(f), Arc::new(s)]).unwrap()
}

fn seeded(schema: &SchemaRef) -> SchemaRegistry {
    SchemaRegistry::with_schemas(std::slice::from_ref(schema))
}

// ---- round trips ----

#[test]
fn roundtrip_equality() {
    let mut p = pool(1024, 1 << 16, 8);
    let schema = sample_schema();
    let mut reg = seeded(&schema);
    let batch = sample_batch(&schema);
    let desc = write_batch(&mut p, &mut reg, &plain(&batch)).unwrap();
    publish(&mut p, &vec![desc]);
    let r = read_batch(&p, &desc, &reg).unwrap();
    let out = record(&r);
    assert_eq!(out.schema(), batch.schema());
    assert_eq!(out.num_rows(), batch.num_rows());
    assert_eq!(&out, &batch);
}

#[test]
fn read_buffers_point_inside_segment() {
    let mut p = pool(1024, 1 << 16, 8);
    let schema = sample_schema();
    let mut reg = seeded(&schema);
    let batch = sample_batch(&schema);
    let desc = write_batch(&mut p, &mut reg, &plain(&batch)).unwrap();
    publish(&mut p, &vec![desc]);
    let r = locate_batch(&p, &desc, &reg).unwrap();
    let checked = entries_in_chunks(&[desc], &r);
    assert!(checked >= 4, "expected several in-segment buffers, saw {checked}");
}

#[test]
fn stale_descriptor_is_rejected() {
    let mut p = pool(1024, 1 << 16, 8);
    let schema = sample_schema();
    let mut reg = seeded(&schema);
    let desc = write_batch(&mut p, &mut reg, &plain(&sample_batch(&schema))).unwrap();
    publish(&mut p, &vec![desc]);
    // The last reference goes: the chunk is recycled, in a new generation.
    assert!(p.release_chunk(&desc));
    assert!(matches!(read_batch(&p, &desc, &reg), Err(Error::StaleDescriptor)));
}

#[test]
fn schema_interning_is_deterministic() {
    let a = sample_schema();
    let b: SchemaRef = Arc::new(Schema::new(vec![Field::new("x", DataType::Int32, false)]));
    let mut r1 = SchemaRegistry::with_schemas(&[a.clone(), b.clone()]);
    let mut r2 = SchemaRegistry::with_schemas(&[a.clone(), b.clone()]);
    assert_eq!(r1.intern(&a), r2.intern(&a));
    assert_eq!(r1.intern(&b), r2.intern(&b));
    assert_eq!(r1.intern(&a), 1);
    assert_eq!(r1.intern(&b), 2);
    assert_ne!(r1.intern(&a), 0);
    assert_eq!(r1.intern(&a), r1.intern(&a));
    assert_eq!(r1.resolve(1).unwrap(), a);
    assert_eq!(r1.resolve(2).unwrap(), b);
    assert!(r1.resolve(0).is_none());
    assert!(r1.resolve(999).is_none());
}

#[test]
fn unknown_schema_id_is_rejected() {
    let mut p = pool(1024, 1 << 16, 8);
    let schema = sample_schema();
    let mut reg = seeded(&schema);
    let desc = write_batch(&mut p, &mut reg, &plain(&sample_batch(&schema))).unwrap();
    publish(&mut p, &vec![desc]);
    let empty = SchemaRegistry::new();
    assert!(matches!(read_batch(&p, &desc, &empty), Err(Error::UnknownSchema(1))));
}

#[test]
fn struct_column_round_trips_zero_copy() {
    let mut p = pool(1024, 1 << 16, 8);
    let a = Arc::new(Int32Array::from(vec![Some(1), Some(2), None, Some(4)])) as ArrayRef;
    let b = Arc::new(StringArray::from(vec![Some("x"), Some("yy"), Some("zzz"), None])) as ArrayRef;
    let fields = Fields::from(vec![
        Field::new("a", DataType::Int32, true),
        Field::new("b", DataType::Utf8, true),
    ]);
    let nulls = arrow_buffer::NullBuffer::from(vec![true, true, false, true]);
    let s = StructArray::new(fields.clone(), vec![a, b], Some(nulls));
    let schema: SchemaRef =
        Arc::new(Schema::new(vec![Field::new("s", DataType::Struct(fields), true)]));
    let batch = RecordBatch::try_new(schema.clone(), vec![Arc::new(s)]).unwrap();
    let mut reg = seeded(&schema);
    let (out, descs, n) = stage_and_read(&mut p, &mut reg, &batch);
    assert_eq!(descs.len(), 1, "the small struct fits one chunk");
    assert_eq!(&out, &batch, "struct column must round-trip exactly");
    assert!(n >= 4);
}

#[test]
fn list_int32_column_round_trips_zero_copy() {
    let mut p = pool(1024, 1 << 16, 8);
    let values = Int32Array::from(vec![1, 2, 3, 4, 5]);
    let offsets = OffsetBuffer::new(ScalarBuffer::from(vec![0i32, 3, 3, 5]));
    let field = Arc::new(Field::new("item", DataType::Int32, false));
    let list = ListArray::new(field.clone(), offsets, Arc::new(values), None);
    let schema: SchemaRef =
        Arc::new(Schema::new(vec![Field::new("l", DataType::List(field), false)]));
    let batch = RecordBatch::try_new(schema.clone(), vec![Arc::new(list)]).unwrap();
    let mut reg = seeded(&schema);
    let (out, _descs, n) = stage_and_read(&mut p, &mut reg, &batch);
    assert_eq!(&out, &batch, "list column must round-trip exactly");
    assert!(n >= 2);
}

fn col_i64(b: &RecordBatch, c: usize) -> Vec<i64> {
    b.column(c).as_any().downcast_ref::<Int64Array>().unwrap().values().to_vec()
}

#[test]
fn sliced_primitive_equals_logical_slice() {
    let mut p = pool(1024, 1 << 16, 8);
    let full_i = Int64Array::from(vec![10, 20, 30, 40, 50, 60]);
    let full_s = StringArray::from(vec!["a", "bb", "ccc", "dddd", "e", "ff"]);
    let sliced_i = full_i.slice(2, 3);
    let sliced_s = full_s.slice(2, 3);
    assert_ne!(
        sliced_i.to_data().buffers()[0].as_ptr(),
        full_i.to_data().buffers()[0].as_ptr(),
        "the sliced buffer is a non-zero sub-window of the parent"
    );
    let schema: SchemaRef = Arc::new(Schema::new(vec![
        Field::new("i", DataType::Int64, false),
        Field::new("s", DataType::Utf8, false),
    ]));
    let batch =
        RecordBatch::try_new(schema.clone(), vec![Arc::new(sliced_i), Arc::new(sliced_s)]).unwrap();
    let mut reg = seeded(&schema);
    let (out, _descs, n) = stage_and_read(&mut p, &mut reg, &batch);
    assert_eq!(&out, &batch, "result equals the logical slice");
    assert_eq!(col_i64(&out, 0), vec![30, 40, 50], "the exact logical window survived");
    assert!(n >= 3);
}

#[test]
fn sliced_nullable_and_boolean_columns_are_compacted() {
    let mut p = pool(1024, 1 << 16, 8);
    let i = Int64Array::from(vec![Some(1), None, Some(3), Some(4), None, Some(6)]).slice(1, 4);
    let b = BooleanArray::from(vec![true, false, true, true, false, false]).slice(3, 3);
    let b: ArrayRef = Arc::new(b);
    let i: ArrayRef = Arc::new(i);
    assert!(i.to_data().nulls().unwrap().offset() != 0 || b.to_data().offset() != 0);
    let schema: SchemaRef = Arc::new(Schema::new(vec![Field::new("i", DataType::Int64, true)]));
    let batch = RecordBatch::try_new(schema.clone(), vec![i]).unwrap();
    let mut reg = seeded(&schema);
    let (out, _d, _n) = stage_and_read(&mut p, &mut reg, &batch);
    assert_eq!(&out, &batch);

    let schema: SchemaRef = Arc::new(Schema::new(vec![Field::new("b", DataType::Boolean, false)]));
    let batch = RecordBatch::try_new(schema.clone(), vec![b]).unwrap();
    let (out, _d, _n) = stage_and_read(&mut p, &mut reg, &batch);
    assert_eq!(&out, &batch);
}

#[test]
fn batch_spanning_multiple_chunks_round_trips() {
    let mut p = pool(256, 2048, 32);
    let n = 180usize;
    let mut fields = Vec::new();
    let mut cols: Vec<ArrayRef> = Vec::new();
    for c in 0..6 {
        fields.push(Field::new(format!("c{c}"), DataType::Int64, false));
        let vals: Vec<i64> = (0..n as i64).map(|r| r + c as i64 * 1000).collect();
        cols.push(Arc::new(Int64Array::from(vals)));
    }
    let schema: SchemaRef = Arc::new(Schema::new(fields));
    let batch = RecordBatch::try_new(schema.clone(), cols).unwrap();
    let mut reg = seeded(&schema);
    let (out, descs, checked) = stage_and_read(&mut p, &mut reg, &batch);
    assert!(descs.len() >= 2, "batch must span >= 2 chunks, spanned {}", descs.len());
    assert_eq!(&out, &batch, "multi-chunk batch must round-trip exactly");
    assert_eq!(checked, 6, "all six value buffers reachable across chunks");
}

#[test]
fn nested_sliced_combined_round_trips() {
    let mut p = pool(1024, 1 << 16, 8);
    let values = Int32Array::from(vec![1, 2, 3, 4, 5, 6, 7, 8]);
    let offsets = OffsetBuffer::new(ScalarBuffer::from(vec![0i32, 2, 4, 6, 7, 8]));
    let field = Arc::new(Field::new("item", DataType::Int32, false));
    let list = ListArray::new(field.clone(), offsets, Arc::new(values), None);
    let sliced = list.slice(1, 3);
    let schema: SchemaRef =
        Arc::new(Schema::new(vec![Field::new("l", DataType::List(field), false)]));
    let batch = RecordBatch::try_new(schema.clone(), vec![Arc::new(sliced.clone())]).unwrap();
    let mut reg = seeded(&schema);
    let (out, _descs, _n) = stage_and_read(&mut p, &mut reg, &batch);
    assert_eq!(&out, &batch, "sliced nested column round-trips to its logical slice");
    let got = out.column(0).as_any().downcast_ref::<ListArray>().unwrap();
    assert_eq!(got.len(), 3);
}

#[test]
fn corrupt_node_buffer_count_is_rejected_not_paniced() {
    let mut p = pool(1024, 1 << 16, 8);
    let schema: SchemaRef = Arc::new(Schema::new(vec![Field::new("i", DataType::Int64, false)]));
    let mut reg = seeded(&schema);
    let batch =
        RecordBatch::try_new(schema.clone(), vec![Arc::new(Int64Array::from(vec![1i64, 2, 3]))])
            .unwrap();
    let desc = write_batch(&mut p, &mut reg, &plain(&batch)).unwrap();
    // Corrupt the single node's `data_buffers` field to demand 99 buffers.
    let mut b = p.bytes(&desc).unwrap().clone();
    b[32 + 12..32 + 16].copy_from_slice(&99u32.to_le_bytes());
    p.write(&desc, &b).unwrap();
    publish(&mut p, &vec![desc]);
    assert!(matches!(
        read_batch_chunks(&p, std::slice::from_ref(&desc), &reg),
        Err(Error::Layout(_))
    ));
}

#[test]
fn reading_checks_descriptors_first() {
    let mut p = pool(1024, 1 << 16, 8);
    let schema = sample_schema();
    let mut reg = seeded(&schema);
    let desc = write_batch(&mut p, &mut reg, &plain(&sample_batch(&schema))).unwrap();
    publish(&mut p, &vec![desc]);
    assert!(matches!(
        read_batch_chunks(&p, &[], &reg),
        Err(Error::Layout("empty chunk list"))
    ));
    let nowhere = ChunkDesc { offset: 1, ..desc };
    assert!(matches!(
        read_batch(&p, &nowhere, &reg),
        Err(Error::Core(holon::artifact::error::Error::OutOfBounds))
    ));
    let other = ChunkDesc { schema_id: 5, ..desc };
    assert!(matches!(
        read_batch(&p, &other, &reg),
        Err(Error::SchemaMismatch { desc: 5, header: 1 })
    ));
    assert!(matches!(
        read_batch_chunks(&p, &[desc, desc], &reg),
        Err(Error::Layout("header chunk_count != chunk list length"))
    ));
}

// ---- planning and packing ----

fn flat(n: usize) -> ArrayNode {
    ArrayNode {
        data_type: DataType::UInt8,
        offset: 0,
        len: n,
        null_count: 0,
        nulls: None,
        buffers: vec![vec![1u8; n]],
        children: vec![],
    }
}

fn field(name: &str, t: DataType) -> Arc<Field> {
    Arc::new(Field::new(name, t, true))
}

fn struct_type(inner: Vec<DataType>) -> DataType {
    DataType::Struct(inner.into_iter().map(|t| field("x", t)).collect::<Vec<_>>().into())
}

fn keyed(key: DataType) -> DataType {
    DataType::Dictionary(Box::new(key), Box::new(DataType::Utf8))
}

fn key_value() -> DataType {
    DataType::Map(field("e", struct_type(vec![DataType::Utf8, DataType::Utf8])), false)
}

fn run_ends() -> DataType {
    DataType::RunEndEncoded(field("r", DataType::Int32), field("v", DataType::Utf8))
}

fn union_type() -> DataType {
    DataType::Union(arrow_schema::UnionFields::empty(), arrow_schema::UnionMode::Sparse)
}

#[test]
fn types_are_sorted() {
    let item = field("item", DataType::Int8);
    for (t, k) in [
        (DataType::Null, Kind::Flat),
        (DataType::Boolean, Kind::Flat),
        (DataType::Float16, Kind::Flat),
        (DataType::Timestamp(arrow_schema::TimeUnit::Second, None), Kind::Flat),
        (DataType::Time32(arrow_schema::TimeUnit::Millisecond), Kind::Flat),
        (DataType::Time32(arrow_schema::TimeUnit::Microsecond), Kind::Bare),
        (DataType::Time64(arrow_schema::TimeUnit::Millisecond), Kind::Bare),
        (DataType::Time64(arrow_schema::TimeUnit::Nanosecond), Kind::Flat),
        (DataType::Decimal256(1, 0), Kind::Flat),
        (DataType::FixedSizeBinary(3), Kind::Flat),
        (DataType::FixedSizeBinary(-3), Kind::Bare),
        (DataType::Binary, Kind::Bytes),
        (DataType::LargeUtf8, Kind::LargeBytes),
        (DataType::Utf8View, Kind::ByteView),
        (DataType::List(item.clone()), Kind::List),
        (DataType::LargeList(item.clone()), Kind::LargeList),
        (DataType::ListView(item.clone()), Kind::ListView),
        (DataType::LargeListView(item.clone()), Kind::LargeListView),
        (DataType::FixedSizeList(item.clone(), 2), Kind::FixedList),
        (DataType::FixedSizeList(item, -2), Kind::Bare),
        (struct_type(vec![]), Kind::Struct),
        (union_type(), Kind::Union),
        (keyed(DataType::Int8), Kind::Dictionary),
        (key_value(), Kind::KeyValue),
        (run_ends(), Kind::RunEndEncoded),
    ] {
        assert_eq!(sort_of(&t), k, "{t}");
    }
    assert!(matches!(plain_of(&DataType::UInt16), ArrowType::UInt16));
    assert!(holds_int64(&DataType::Int64) && !holds_int64(&DataType::UInt64));
}

#[test]
fn unsupported_kinds_are_refused() {
    for (k, m) in [
        (keyed(DataType::Int8), "dictionary type not supported"),
        (union_type(), "union type not supported"),
        (key_value(), "map type not supported"),
        (run_ends(), "run-end-encoded type not supported"),
    ] {
        let mut outer = flat(1);
        outer.data_type = struct_type(vec![DataType::UInt8, k.clone()]);
        let mut inner = flat(1);
        inner.data_type = k;
        outer.children = vec![flat(1), inner];
        assert!(matches!(plan_batch(&vec![outer]), Err(Error::Unsupported(s)) if s == m));
    }
    let mut d = flat(1);
    d.data_type = keyed(DataType::Int8);
    assert_eq!(serialized_len(&vec![d]), None);
}

#[test]
fn nodes_are_planned_in_pre_order() {
    let mut s = flat(4);
    s.data_type = struct_type(vec![]);
    s.buffers = vec![];
    let mut deep = flat(2);
    deep.data_type = DataType::List(field("item", DataType::UInt8));
    deep.children = vec![flat(9)];
    s.children = vec![flat(4), deep];
    let p = plan_batch(&vec![s, flat(7)]).unwrap();
    let lens: Vec<u32> = p.nodes.iter().map(|n| n.len).collect();
    assert_eq!(lens, vec![4, 4, 2, 9, 7]);
    let kids: Vec<u32> = p.nodes.iter().map(|n| n.child_count).collect();
    assert_eq!(kids, vec![2, 0, 1, 0, 0]);
    let sizes: Vec<usize> = p.buffers.iter().map(|b| b.len()).collect();
    assert_eq!(sizes, vec![4, 2, 9, 7]);
}

#[test]
fn packing_places_each_buffer() {
    // 2 nodes, 2 buffers: tables end at 32 + 48 + 24 = 104, payload at 128.
    let p = plan_batch(&vec![flat(10), flat(100)]).unwrap();
    assert_eq!(payload_start(2, 2), 128);
    let k = pack(&p, 1024).unwrap();
    assert_eq!(k.locs, vec![(0, 128), (0, 192)]);
    assert_eq!(k.chunk_used, vec![292]);
    // The second buffer does not fit behind the first.
    let k = pack(&p, 200).unwrap();
    assert_eq!(k.locs, vec![(0, 128), (1, 0)]);
    assert_eq!(k.chunk_used, vec![138, 100]);
    assert!(matches!(pack(&p, 100), Err(Error::ChunkTooSmall { need: 128, have: 100 })));
    let wide = plan_batch(&vec![flat(300)]).unwrap();
    assert!(matches!(pack(&wide, 256), Err(Error::Unsupported("buffer exceeds max chunk size"))));
    assert_eq!(serialized_len(&vec![flat(10), flat(100)]), Some(292));
    assert_eq!((align_up(0), align_up(1), align_up(64), align_up(65)), (0, 64, 64, 128));
}

#[test]
fn a_batch_too_wide_for_one_chunk_is_given_back() {
    let mut p = pool(256, 2048, 4);
    let free = p.free_count();
    let vals: Vec<i64> = (0..200).collect();
    let schema: SchemaRef = Arc::new(Schema::new(vec![
        Field::new("a", DataType::Int64, false),
        Field::new("b", DataType::Int64, false),
    ]));
    let batch = RecordBatch::try_new(
        schema.clone(),
        vec![Arc::new(Int64Array::from(vals.clone())), Arc::new(Int64Array::from(vals))],
    )
    .unwrap();
    let mut reg = seeded(&schema);
    let b = plain(&batch);
    let need = serialized_len(&b.columns).unwrap();
    match write_batch(&mut p, &mut reg, &b) {
        Err(Error::ChunkTooSmall { need: n, have }) => {
            assert_eq!(n, need);
            assert_eq!(have, 2048);
        }
        _ => panic!("expected ChunkTooSmall"),
    }
    assert_eq!(p.free_count(), free, "nothing leaked");
}

#[test]
fn exhaustion_gives_every_chunk_back() {
    let mut p = pool(2048, 2048, 2);
    let schema: SchemaRef = Arc::new(Schema::new(
        (0..4).map(|c| Field::new(format!("c{c}"), DataType::Int64, false)).collect::<Vec<_>>(),
    ));
    let cols: Vec<ArrayRef> =
        (0..4).map(|_| Arc::new(Int64Array::from((0..200).collect::<Vec<i64>>())) as ArrayRef).collect();
    let batch = RecordBatch::try_new(schema.clone(), cols).unwrap();
    let mut reg = seeded(&schema);
    assert!(matches!(
        write_batch_chunks(&mut p, &mut reg, &plain(&batch)),
        Err(Error::Core(holon::artifact::error::Error::Exhausted))
    ));
    assert_eq!(p.free_count(), 2);
}

#[test]
fn normalization_is_looked_for_at_every_depth() {
    let mut a = flat(4);
    assert!(is_normalized(&a));
    let mut inner = flat(4);
    inner.offset = 1;
    a.data_type = DataType::List(field("item", DataType::UInt8));
    a.children = vec![flat(2), inner];
    assert!(!is_normalized(&a));
}

// ---- the layout parser ----

/// Deterministic xorshift PRNG.
struct Rng(u64);

impl Rng {
    fn next_u64(&mut self) -> u64 {
        let mut x = self.0;
        x ^= x << 13;
        x ^= x >> 7;
        x ^= x << 17;
        self.0 = x;
        x
    }
    fn byte(&mut self) -> u8 {
        (self.next_u64() & 0xff) as u8
    }
    fn below(&mut self, n: usize) -> usize {
        (self.next_u64() % n as u64) as usize
    }
}

fn valid_primary(node_count: u32, buffer_count: u32, chunk_len: usize) -> Vec<u8> {
    let mut buf = vec![0u8; chunk_len];
    buf[0..8].copy_from_slice(&BATCH_MAGIC.to_le_bytes());
    buf[8..12].copy_from_slice(&BATCH_FORMAT.to_le_bytes());
    buf[12..16].copy_from_slice(&1u32.to_le_bytes());
    buf[16..20].copy_from_slice(&3u32.to_le_bytes());
    buf[20..24].copy_from_slice(&node_count.to_le_bytes());
    buf[24..28].copy_from_slice(&buffer_count.to_le_bytes());
    buf[28..32].copy_from_slice(&1u32.to_le_bytes());
    let boff = buffers_offset(node_count as usize);
    let payload = payload_start(node_count as usize, buffer_count as usize);
    for i in 0..buffer_count as usize {
        let at = boff + i * 12;
        if at + 12 <= buf.len() {
            buf[at..at + 4].copy_from_slice(&0u32.to_le_bytes());
            buf[at + 4..at + 8].copy_from_slice(&(payload as u32).to_le_bytes());
            buf[at + 8..at + 12].copy_from_slice(&4u32.to_le_bytes());
        }
    }
    buf
}

#[test]
fn layout_parser_rejects_oversized_tables_no_oob() {
    let mut buf = valid_primary(0, 0, 64);
    buf[20..24].copy_from_slice(&u32::MAX.to_le_bytes());
    let err = read_batch_layout(&buf, &[buf.len()]);
    assert!(matches!(err, Err(Error::Layout(_))), "got {err:?}");

    let mut buf = valid_primary(0, 0, 64);
    buf[24..28].copy_from_slice(&u32::MAX.to_le_bytes());
    assert!(matches!(read_batch_layout(&buf, &[buf.len()]), Err(Error::Layout(_))));
}

#[test]
fn layout_parser_rejects_short_and_bad_magic() {
    for n in 0..32usize {
        assert!(matches!(read_batch_layout(&vec![0u8; n], &[n]), Err(Error::Layout(_))));
    }
    assert!(matches!(read_batch_layout(&[0u8; 64], &[64]), Err(Error::BadMagic)));
}

#[test]
fn layout_parser_rejects_out_of_range_buffer_entry() {
    let mut buf = valid_primary(0, 1, 128);
    let at = buffers_offset(0);
    buf[at..at + 4].copy_from_slice(&9u32.to_le_bytes());
    assert!(matches!(read_batch_layout(&buf, &[buf.len()]), Err(Error::Layout(_))));

    let mut buf = valid_primary(0, 1, 128);
    let at = buffers_offset(0);
    buf[at + 4..at + 8].copy_from_slice(&120u32.to_le_bytes());
    buf[at + 8..at + 12].copy_from_slice(&100u32.to_le_bytes());
    assert!(matches!(read_batch_layout(&buf, &[buf.len()]), Err(Error::Layout(_))));
}

#[test]
fn layout_parser_reads_a_valid_primary() {
    let buf = valid_primary(2, 1, 192);
    let (h, nodes, entries) = read_batch_layout(&buf, &[192]).unwrap();
    assert_eq!((h.schema_id, h.row_count, h.chunk_count), (1, 3, 1));
    assert_eq!(nodes.len(), 2);
    assert_eq!(entries, vec![BufferEntry { chunk_index: 0, offset: 128, len: 4 }]);
}

#[test]
fn layout_parser_never_panics_on_arbitrary_bytes() {
    let mut rng = Rng(0x5eed_1234_abcd_0001);
    for _ in 0..200_000 {
        let mode = rng.below(3);
        let (bytes, lens): (Vec<u8>, Vec<usize>) = match mode {
            0 => {
                let len = rng.below(96);
                let b: Vec<u8> = (0..len).map(|_| rng.byte()).collect();
                (b, vec![len])
            }
            _ => {
                let nc = rng.below(6) as u32;
                let bc = rng.below(6) as u32;
                let len = 32 + rng.below(160);
                let mut b = valid_primary(nc, bc, len);
                for _ in 0..rng.below(8) {
                    if !b.is_empty() {
                        let i = rng.below(b.len());
                        b[i] ^= rng.byte();
                    }
                }
                let lens = if rng.below(2) == 0 {
                    vec![b.len()]
                } else {
                    vec![b.len(), rng.below(64)]
                };
                (b, lens)
            }
        };
        let _ = read_batch_layout(&bytes, &lens);
    }
}

// ---- schemas ----

fn schema_a() -> SchemaRef {
    Arc::new(Schema::new(vec![
        Field::new("id", DataType::Int64, false),
        Field::new("name", DataType::Utf8, false),
    ]))
}

fn schema_b() -> SchemaRef {
    Arc::new(Schema::new(vec![
        Field::new("ts", DataType::Int64, false),
        Field::new("value", DataType::Float64, true),
    ]))
}

#[test]
fn serialize_round_trip_equals_original() {
    for schema in [schema_a(), schema_b()] {
        let bytes = serialize_schema(&schema);
        let back = deserialize_schema(&bytes).expect("deserialize");
        assert_eq!(back, schema, "schema must survive an IPC round trip");
    }
}

#[test]
fn garbage_is_no_schema() {
    assert!(matches!(deserialize_schema(&[1, 2, 3]), Err(Error::Arrow)));
    assert!(matches!(deserialize_schema(&[]), Err(Error::Arrow)));
}

#[test]
fn content_hash_is_equal_for_equal_and_stable_on_recompute() {
    let h1 = schema_content_hash(&serialize_schema(&schema_a()));
    let h2 = schema_content_hash(&serialize_schema(&schema_a()));
    assert_eq!(h1, h2, "equal schemas must hash equal (stable recompute)");
    let hb = schema_content_hash(&serialize_schema(&schema_b()));
    assert_ne!(h1, hb, "different schemas must hash differently");
}

#[test]
fn content_hash_is_fnv_1a() {
    assert_eq!(schema_content_hash(b""), 0xcbf2_9ce4_8422_2325);
    assert_eq!(schema_content_hash(b"a"), 0xaf63_dc4c_8601_ec8c);
    assert_eq!(schema_content_hash(b"foobar"), 0x8594_4171_f739_67e8);
}

#[test]
fn insert_then_lookup_by_id_and_by_content_hash() {
    let mut reg = SchemaRegistry::new();
    reg.insert(7, schema_a());
    assert_eq!(reg.resolve(7), Some(schema_a()), "resolve by id");
    assert_eq!(reg.id_for(&schema_a()), Some(7), "lookup by content hash");
    assert_eq!(reg.intern(&schema_a()), 7, "intern hits the inserted mapping");
    reg.insert(7, schema_a());
    assert_eq!(reg.resolve(7), Some(schema_a()));
}

#[test]
fn learned_ids_push_the_next_one_up() {
    let mut reg = SchemaRegistry::new();
    reg.insert(7, schema_a());
    assert_eq!(reg.intern(&schema_b()), 8);
    reg.insert(RAW_SCHEMA_ID, schema_b());
    assert_eq!(reg.len(), 2);
    // What is known stays: neither the id nor the schema is overwritten.
    reg.insert(7, schema_b());
    assert_eq!(reg.resolve(7), Some(schema_a()));
    assert_eq!(reg.id_for(&schema_b()), Some(8));
}

#[test]
fn with_schemas_and_raw_id_still_work() {
    let mut reg = SchemaRegistry::with_schemas(&[schema_a(), schema_b()]);
    assert_eq!(reg.intern(&schema_a()), 1, "first schema is id 1");
    assert_eq!(reg.intern(&schema_b()), 2, "second schema is id 2");
    assert_eq!(reg.resolve(1), Some(schema_a()));
    assert_eq!(reg.resolve(2), Some(schema_b()));
    assert_eq!(reg.resolve(RAW_SCHEMA_ID), None);
    assert_eq!(reg.len(), 2);
}

#[test]
fn intern_dedups_and_mints_monotonically() {
    let mut reg = SchemaRegistry::new();
    assert_eq!(reg.intern(&schema_a()), 1);
    assert_eq!(reg.intern(&schema_a()), 1, "same schema dedups to its id");
    assert_eq!(reg.intern(&schema_b()), 2, "new schema mints the next id");
    assert!(SchemaRegistry::default().is_empty());
}

#[test]
fn column_shapes_follow_the_schema() {
    let item = Arc::new(Field::new("item", DataType::Int32, true));
    let schema = Schema::new(vec![
        Field::new("a", DataType::Int64, false),
        Field::new("l", DataType::List(item.clone()), true),
        Field::new(
            "s",
            DataType::Struct(Fields::from(vec![
                Field::new("x", DataType::Utf8, true),
                Field::new("y", DataType::LargeList(item), true),
            ])),
            true,
        ),
    ]);
    let v: Vec<ArrowType> = schema.fields().iter().map(|f| plain_of(f.data_type())).collect();
    let kinds: Vec<Kind> = v.iter().map(kind_of).collect();
    assert_eq!(kinds, vec![Kind::Flat, Kind::List, Kind::Struct]);
    let inner: Vec<Vec<DataType>> = v.into_iter().map(inner_of).collect();
    assert_eq!(inner[0], vec![]);
    assert_eq!(inner[1], vec![DataType::Int32]);
    assert_eq!(inner[2].iter().map(sort_of).collect::<Vec<_>>(), vec![Kind::Bytes, Kind::LargeList]);
}

#[test]
fn types_without_arrays_are_not_compacted() {
    let t = DataType::Time32(arrow_schema::TimeUnit::Microsecond);
    let schema = Arc::new(Schema::new(vec![Field::new("t", t.clone(), false)]));
    let whole = |offset: usize| {
        ArrayDataBuilder::new(t.clone())
            .offset(offset)
            .len(2)
            .add_buffer(Buffer::from_slice_ref([1i32, 2, 3]))
            .build()
            .unwrap()
    };
    let b = Batch::from_columns(schema.clone(), &vec![whole(0)], 2).unwrap();
    assert_eq!(b.columns[0].len, 2);
    assert!(matches!(
        Batch::from_columns(schema, &vec![whole(1)], 2),
        Err(Error::Unsupported("column cannot be normalized"))
    ));
}

#[test]
fn schemas_with_unions_survive_their_bytes() {
    let ids: Vec<i8> = (0..100).collect();
    let fields: Vec<Field> =
        ids.iter().map(|i| Field::new(format!("f{i}"), DataType::Int8, true)).collect();
    let t = DataType::Union(
        arrow_schema::UnionFields::try_new(ids, fields).unwrap(),
        arrow_schema::UnionMode::Sparse,
    );
    let s: Arc<Schema> = Arc::new(Schema::new(vec![
        Field::new("u", t, false),
        Field::new("t", DataType::Time32(arrow_schema::TimeUnit::Second), true),
    ]));
    let bytes = serialize_schema(&s);
    let back = deserialize_schema(&bytes).unwrap();
    assert_eq!(back, s);
    assert_eq!(serialize_schema(&back), bytes);
}

fn outline(bare: Option<bool>, children: usize) -> Outline {
    Outline { bare, children: (0..children).map(|_| outline(None, 0)).collect() }
}

#[test]
fn crowded_unions_are_told() {
    assert!(!is_any_crowded(&vec![]));
    assert!(!is_any_crowded(&vec![
        outline(None, 500),
        outline(Some(false), 500),
        outline(Some(true), 128)
    ]));
    assert!(is_any_crowded(&vec![outline(None, 0), outline(Some(true), 129)]));
    let deep = Outline { bare: None, children: vec![outline(None, 2), outline(Some(true), 129)] };
    assert!(is_any_crowded(&vec![deep]));
}

/// A schema message with one union of `n` fields and no type ids.
fn bare_union_message(n: usize) -> Vec<u8> {
    let mut tracker = arrow::ipc::writer::DictionaryTracker::new(false);
    let mut fbb = arrow::ipc::convert::IpcSchemaEncoder::new()
        .with_dictionary_tracker(&mut tracker)
        .schema_to_fb(&Schema::empty());
    fbb.reset();
    let mut children = Vec::new();
    for _ in 0..n {
        let name = fbb.create_string("c");
        let t = arrow::ipc::NullBuilder::new(&mut fbb).finish().as_union_value();
        let mut f = arrow::ipc::FieldBuilder::new(&mut fbb);
        f.add_name(name);
        f.add_type_type(arrow::ipc::Type::Null);
        f.add_type_(t);
        children.push(f.finish());
    }
    let children = fbb.create_vector(&children);
    let name = fbb.create_string("u");
    let mut u = arrow::ipc::UnionBuilder::new(&mut fbb);
    u.add_mode(arrow::ipc::UnionMode::Sparse);
    let t = u.finish().as_union_value();
    let mut f = arrow::ipc::FieldBuilder::new(&mut fbb);
    f.add_name(name);
    f.add_type_type(arrow::ipc::Type::Union);
    f.add_type_(t);
    f.add_children(children);
    let field = f.finish();
    let fields = fbb.create_vector(&[field]);
    let mut s = arrow::ipc::SchemaBuilder::new(&mut fbb);
    s.add_fields(fields);
    let schema = s.finish().as_union_value();
    let mut m = arrow::ipc::MessageBuilder::new(&mut fbb);
    m.add_version(arrow::ipc::MetadataVersion::V5);
    m.add_header_type(arrow::ipc::MessageHeader::Schema);
    m.add_header(schema);
    let root = m.finish();
    fbb.finish(root, None);
    fbb.finished_data().to_vec()
}

#[test]
fn crowded_unions_are_refused() {
    assert_eq!(deserialize_schema(&bare_union_message(128)).unwrap().fields().len(), 1);
    assert!(matches!(deserialize_schema(&bare_union_message(129)), Err(Error::Arrow)));
}

// ---- rows ----

#[test]
fn rows_that_arrow_refuses_are_refused() {
    let mut p = pool(1024, 1 << 16, 8);
    let schema: SchemaRef = Arc::new(Schema::new(vec![Field::new("s", DataType::Utf8, false)]));
    let mut reg = seeded(&schema);
    let a = StringArray::from(vec!["ab", "c"]);
    let batch = RecordBatch::try_new(schema.clone(), vec![Arc::new(a)]).unwrap();
    let desc = write_batch(&mut p, &mut reg, &plain(&batch)).unwrap();
    let good = p.bytes(&desc).unwrap().clone();
    let at = locate_batch(&p, &desc, &reg).unwrap().columns[0].buffers.clone();
    assert_eq!(record(&read_batch(&p, &desc, &reg).unwrap()), batch);

    // Not text.
    let mut b = good.clone();
    b[at[1].offset as usize] = 0xff;
    p.write(&desc, &b).unwrap();
    assert!(matches!(read_batch(&p, &desc, &reg), Err(Error::Arrow)));

    // Offsets cut short in the middle of one: located, but no array.
    let mut b = good.clone();
    let entry = 32 + 24;
    b[entry + 8..entry + 12].copy_from_slice(&11u32.to_le_bytes());
    p.write(&desc, &b).unwrap();
    assert_eq!(locate_batch(&p, &desc, &reg).unwrap().columns[0].buffers[0].len, 11);
    assert!(matches!(read_batch(&p, &desc, &reg), Err(Error::Arrow)));

    // A null where the schema allows none.
    let other: SchemaRef = Arc::new(Schema::new(vec![Field::new("s", DataType::Utf8, true)]));
    let a = StringArray::from(vec![Some("ab"), None]);
    let nulls = RecordBatch::try_new(other, vec![Arc::new(a)]).unwrap();
    let cols: Vec<ArrayData> = nulls.columns().iter().map(|c| c.to_data()).collect();
    assert!(matches!(Batch::from_columns(schema.clone(), &cols, 2), Err(Error::Arrow)));
    let desc = write_batch(&mut p, &mut reg, &plain(&nulls)).unwrap();
    let mut b = p.bytes(&desc).unwrap().clone();
    let id = reg.id_for(&schema).unwrap();
    b[12..16].copy_from_slice(&id.to_le_bytes());
    p.write(&desc, &b).unwrap();
    let d = ChunkDesc { schema_id: id, ..desc };
    assert!(locate_batch(&p, &d, &reg).is_ok());
    assert!(matches!(read_batch(&p, &d, &reg), Err(Error::Arrow)));
}

#[test]
fn columns_must_follow_the_schema() {
    let schema: SchemaRef = Arc::new(Schema::new(vec![Field::new("i", DataType::Int64, false)]));
    let ints = Int64Array::from(vec![1, 2]).to_data();
    let some = Int64Array::from(vec![Some(1), None]).to_data();
    let make = |c: &Vec<ArrayData>, n: usize| Batch::from_columns(schema.clone(), c, n);
    assert_eq!(make(&vec![ints.clone()], 2).unwrap().num_rows, 2);
    assert!(matches!(make(&vec![], 0), Err(Error::Arrow)));
    assert!(matches!(make(&vec![ints.clone(), ints.clone()], 2), Err(Error::Arrow)));
    assert!(matches!(make(&vec![Int32Array::from(vec![1, 2]).to_data()], 2), Err(Error::Arrow)));
    assert!(matches!(make(&vec![ints], 3), Err(Error::Arrow)));
    assert!(matches!(make(&vec![some], 2), Err(Error::Arrow)));
    let none: SchemaRef = Arc::new(Schema::empty());
    assert_eq!(Batch::from_columns(none, &vec![], 5).unwrap().num_rows, 5);
}

#[test]
fn columns_with_an_idle_bitmap_are_compacted() {
    let schema: SchemaRef = Arc::new(Schema::new(vec![Field::new("i", DataType::Int64, true)]));
    let front = Int64Array::from(vec![Some(1), Some(2), None]).to_data().slice(0, 2);
    assert!(front.nulls().is_some() && front.null_count() == 0);
    let b = Batch::from_columns(schema, &vec![front], 2).unwrap();
    assert!(b.columns[0].nulls.is_none());
    assert_eq!(b.columns[0].len, 2);
}

#[test]
fn sliced_columns_of_types_that_are_not_written_are_refused() {
    for t in [keyed(DataType::Float32), struct_type(vec![keyed(DataType::Float32)])] {
        let schema = Arc::new(Schema::new(vec![Field::new("x", t.clone(), true)]));
        let d = ArrayData::new_null(&t, 2).slice(1, 1);
        assert!(d.offset() > 0 || d.child_data()[0].offset() > 0);
        assert!(matches!(
            Batch::from_columns(schema, &vec![d], 1),
            Err(Error::Unsupported("dictionary type not supported"))
        ));
    }
}

#[test]
fn list_views_are_compacted_as_they_are() {
    let item = field("item", DataType::Int32);
    let values = Int32Array::from(vec![1, 2, 3, 4]).to_data();
    let view = ArrayDataBuilder::new(DataType::LargeListView(item.clone()))
        .len(3)
        .add_buffer(Buffer::from_slice_ref([0i64, 1, 2]))
        .add_buffer(Buffer::from_slice_ref([1i64, 2, 2]))
        .add_child_data(values)
        .build()
        .unwrap()
        .slice(1, 2);
    let schema: SchemaRef =
        Arc::new(Schema::new(vec![Field::new("v", DataType::LargeListView(item), true)]));
    let b = Batch::from_columns(schema.clone(), &vec![view], 2).unwrap();
    assert_eq!((b.columns[0].offset, b.columns[0].len, b.columns[0].children[0].len), (0, 2, 4));
    assert!(is_compactable(&b.columns[0]));
    let mut wide = flat(0);
    wide.data_type = DataType::ListView(field("item", DataType::Null));
    let mut child = flat(0);
    child.data_type = DataType::Null;
    child.len = 0x8000_0000;
    wide.children = vec![child];
    assert!(!is_compactable(&wide));
    wide.data_type = DataType::LargeListView(field("item", DataType::Null));
    assert!(is_compactable(&wide));
    // List views are written and not read.
    let mut p = pool(1024, 1 << 16, 8);
    let mut reg = seeded(&schema);
    let desc = write_batch(&mut p, &mut reg, &b).unwrap();
    assert!(matches!(
        read_batch(&p, &desc, &reg),
        Err(Error::Layout("schema child count != stored child count"))
    ));
}

#[test]
fn the_schema_is_compared_before_the_tables() {
    let mut p = pool(1024, 1 << 16, 8);
    let schema = sample_schema();
    let mut reg = seeded(&schema);
    let desc = write_batch(&mut p, &mut reg, &plain(&sample_batch(&schema))).unwrap();
    let other = ChunkDesc { schema_id: 5, ..desc };
    // The header counts one chunk, and the list has two.
    assert!(matches!(
        read_batch_chunks(&p, &[other, desc], &reg),
        Err(Error::SchemaMismatch { desc: 5, header: 1 })
    ));
    // The tables overrun the chunk.
    let mut b = p.bytes(&desc).unwrap().clone();
    b[20..24].copy_from_slice(&u32::MAX.to_le_bytes());
    p.write(&desc, &b).unwrap();
    assert!(matches!(read_batch(&p, &other, &reg), Err(Error::SchemaMismatch { .. })));
    assert!(matches!(read_batch(&p, &desc, &reg), Err(Error::Layout(_))));
    // No header of a batch.
    b[0] ^= 1;
    p.write(&desc, &b).unwrap();
    assert!(matches!(read_batch(&p, &other, &reg), Err(Error::BadMagic)));
}

#[test]
fn schemas_are_serialized_up_to_a_length() {
    assert_eq!(try_serialize_schema(&schema_a()), Some(serialize_schema(&schema_a())));
    let long: SchemaRef =
        Arc::new(Schema::new(vec![Field::new("x".repeat(0x400_0000), DataType::Int8, false)]));
    assert!(!is_serializable(&long));
    assert_eq!(try_serialize_schema(&long), None);
    let mut reg = SchemaRegistry::new();
    assert_eq!(reg.try_intern(&long), None);
    assert!(!reg.try_insert(3, long.clone()));
    assert_eq!(reg.id_for(&long), None);
    assert!(reg.is_empty());
    assert_eq!(reg.try_intern(&schema_a()), Some(1));
    assert!(reg.try_insert(3, schema_b()));
    assert_eq!(reg.len(), 2);
    assert!(SchemaRegistry::try_with_schemas(&[schema_a(), long.clone()]).is_none());
    assert_eq!(SchemaRegistry::try_with_schemas(&[schema_a(), schema_b()]).unwrap().len(), 2);
    let col = arrow_array::Int8Array::from(vec![1]).to_data();
    assert!(matches!(
        Batch::from_columns(long, &vec![col], 1),
        Err(Error::Unsupported("schema text too long"))
    ));
}

#[test]
fn types_that_are_not_written_are_not_read() {
    let mut p = pool(1024, 1 << 16, 8);
    let ints: SchemaRef = Arc::new(Schema::new(vec![Field::new("i", DataType::Int32, false)]));
    let keyed = DataType::Dictionary(Box::new(DataType::Int32), Box::new(DataType::Utf8));
    let narrow = DataType::FixedSizeBinary(-1);
    let mut reg = SchemaRegistry::with_schemas(&[
        ints.clone(),
        Arc::new(Schema::new(vec![Field::new("i", keyed, false)])),
        Arc::new(Schema::new(vec![Field::new("i", narrow, false)])),
    ]);
    let a = Int32Array::from(vec![0, 1]);
    let batch = RecordBatch::try_new(ints, vec![Arc::new(a)]).unwrap();
    let desc = write_batch(&mut p, &mut reg, &plain(&batch)).unwrap();
    for id in [2u32, 3] {
        let mut b = p.bytes(&desc).unwrap().clone();
        b[12..16].copy_from_slice(&id.to_le_bytes());
        p.write(&desc, &b).unwrap();
        let d = ChunkDesc { schema_id: id, ..desc };
        assert!(matches!(read_batch(&p, &d, &reg), Err(Error::Arrow)));
    }
}

fn rows_of(b: &RecordBatch) -> Rows {
    Rows { schema: b.schema(), columns: b.columns().iter().map(|c| c.to_data()).collect() }
}

#[test]
fn rows_are_joined_in_order() {
    let item = Arc::new(Field::new("item", DataType::Int32, false));
    let schema: SchemaRef = Arc::new(Schema::new(vec![
        Field::new("i", DataType::Int64, false),
        Field::new("l", DataType::List(item.clone()), false),
    ]));
    let make = |v: Vec<i64>, lens: Vec<i32>, items: Vec<i32>| {
        let list = ListArray::new(
            item.clone(),
            OffsetBuffer::new(ScalarBuffer::from(lens)),
            Arc::new(Int32Array::from(items)),
            None,
        );
        RecordBatch::try_new(schema.clone(), vec![Arc::new(Int64Array::from(v)), Arc::new(list)])
            .unwrap()
    };
    let a = make(vec![1, 2], vec![0, 1, 3], vec![7, 8, 9]);
    let b = make(vec![3], vec![0, 2], vec![5, 6]);
    let both = join_rows(&vec![rows_of(&a), rows_of(&b)]).unwrap();
    assert_eq!(record(&both), make(vec![1, 2, 3], vec![0, 1, 3, 5], vec![7, 8, 9, 5, 6]));

    // One batch has fewer columns, or columns of another type.
    let short = Rows { schema: schema.clone(), columns: rows_of(&b).columns[..1].to_vec() };
    assert!(matches!(join_rows(&vec![rows_of(&a), short]), Err(Error::Arrow)));
    let mut swapped = rows_of(&b);
    swapped.columns.swap(0, 1);
    assert!(matches!(join_rows(&vec![rows_of(&a), swapped]), Err(Error::Arrow)));
    // A later column of a type without arrays.
    let mut bare = rows_of(&b);
    bare.columns[0] = ArrayDataBuilder::new(DataType::Time32(arrow_schema::TimeUnit::Nanosecond))
        .len(1)
        .add_buffer(Buffer::from_slice_ref([1i32]))
        .build()
        .unwrap();
    assert!(matches!(join_rows(&vec![rows_of(&a), bare]), Err(Error::Arrow)));
    // More elements than can be counted.
    let nothing: SchemaRef = Arc::new(Schema::new(vec![Field::new("n", DataType::Null, true)]));
    let many = || Rows {
        schema: nothing.clone(),
        columns: vec![ArrayDataBuilder::new(DataType::Null).len(usize::MAX).build().unwrap()],
    };
    assert_eq!(join_rows(&vec![many()]).unwrap().columns[0].len(), usize::MAX);
    assert!(matches!(join_rows(&vec![many(), many()]), Err(Error::Arrow)));
}

#[test]
fn the_first_column_at_fault_is_told() {
    let mut p = pool(1024, 1 << 16, 8);
    let schema: SchemaRef = Arc::new(Schema::new(vec![
        Field::new("s", DataType::Utf8, false),
        Field::new("i", DataType::Int64, false),
    ]));
    let mut reg = seeded(&schema);
    let batch = RecordBatch::try_new(
        schema.clone(),
        vec![Arc::new(StringArray::from(vec!["ab"])), Arc::new(Int64Array::from(vec![1i64]))],
    )
    .unwrap();
    let desc = write_batch(&mut p, &mut reg, &plain(&batch)).unwrap();
    let at = locate_batch(&p, &desc, &reg).unwrap().columns[0].buffers[1];
    let mut b = p.bytes(&desc).unwrap().clone();
    // The second node asks for 99 buffers.
    b[32 + 24 + 12..32 + 24 + 16].copy_from_slice(&99u32.to_le_bytes());
    p.write(&desc, &b).unwrap();
    assert!(matches!(read_batch(&p, &desc, &reg), Err(Error::Layout(_))));
    // And the first column is no text.
    b[at.offset as usize] = 0xff;
    p.write(&desc, &b).unwrap();
    assert!(matches!(read_batch(&p, &desc, &reg), Err(Error::Arrow)));
    assert!(matches!(locate_batch(&p, &desc, &reg), Err(Error::Layout(_))));
}

#[test]
fn lists_are_joined_as_far_as_their_offsets_count() {
    let list = |t: DataType, items: usize| {
        let mut a = flat(0);
        a.data_type = t;
        let mut child = flat(0);
        child.data_type = DataType::Null;
        child.len = items;
        a.children = vec![child];
        a
    };
    let small = DataType::List(field("item", DataType::Null));
    let large = DataType::LargeList(field("item", DataType::Null));
    for (t, most) in [(small, 0x7fff_ffff), (large, 0x7fff_ffff_ffff_ffff)] {
        let (a, b, c) = (list(t.clone(), most - 1), list(t.clone(), 1), list(t, 2));
        assert!(is_joinable(&a, &vec![&a, &b]));
        assert!(!is_joinable(&a, &vec![&a, &c]));
    }
    assert!(are_readable(&vec![flat(1)]));
    let mut view = flat(1);
    view.data_type = DataType::ListView(field("item", DataType::Null));
    assert!(!are_readable(&vec![flat(1), view]));
}

#[allow(deprecated)]
#[test]
fn types_that_arrow_takes_for_equal_are_written() {
    let inner = |id: i64| {
        let f = Field::new_dict("x", DataType::Int32, true, id, false);
        DataType::Struct(vec![Arc::new(f)].into())
    };
    let (mine, theirs) = (inner(1), inner(2));
    assert!(mine == theirs && format!("{mine:?}") != format!("{theirs:?}"));
    let schema: SchemaRef = Arc::new(Schema::new(vec![Field::new("s", mine.clone(), true)]));
    let a = ArrayData::new_null(&theirs, 3);
    let b = Batch::from_columns(schema.clone(), &vec![a.clone()], 3).unwrap();
    assert_eq!(format!("{:?}", b.columns[0].data_type), format!("{mine:?}"));
    assert_eq!(b.columns[0].children[0].len, 3);
    let mut p = pool(1024, 1 << 16, 8);
    let mut reg = seeded(&schema);
    let desc = write_batch(&mut p, &mut reg, &b).unwrap();
    assert_eq!(make_array(read_batch(&p, &desc, &reg).unwrap().columns[0].clone()).null_count(), 3);
    let rows = Rows { schema, columns: vec![a] };
    assert!(join_rows(&vec![rows]).is_ok());
}

#[test]
fn a_full_registry_still_knows_its_schemas() {
    let mut reg = SchemaRegistry::new();
    assert_eq!(reg.intern(&schema_a()), 1);
    reg.insert(u32::MAX - 1, schema_b());
    assert_eq!(reg.next_id, u32::MAX);
    assert!(reg.has_id_for(&schema_a()) && !reg.has_id_for(&sample_schema()));
    assert_eq!(reg.intern(&schema_a()), 1);
    assert_eq!(reg.try_intern(&schema_b()), Some(u32::MAX - 1));
    assert_eq!(reg.try_intern(&sample_schema()), None);
    assert_eq!(reg.len(), 2);
    let mut p = pool(1024, 1 << 16, 8);
    let batch = RecordBatch::try_new(
        schema_a(),
        vec![Arc::new(Int64Array::from(vec![1])), Arc::new(StringArray::from(vec!["a"]))],
    )
    .unwrap();
    assert!(write_batch(&mut p, &mut reg, &plain(&batch)).is_ok());
}
