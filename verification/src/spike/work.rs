//! The worker: it reads the retained input, doubles it, and retains the output
//! as a version.
use std::sync::Arc;

use arrow_data::ArrayData;
use arrow_schema::{DataType, Schema};
use vstd::prelude::*;

use crate::artifact::batches::{batch_committed, CommitError};
use crate::artifact::commit::Commit;
use crate::artifact::handle::Artifact;
use crate::artifact::head::{ArtifactHead, HeadView};
use crate::artifact::live::live;
use crate::artifact::pool::{chunk_ok, lemma_has, ChunkPool, ChunkState};
use crate::artifact::rows::schema_read;
use crate::batch::array::{byte_views, normal, tree, ArrayNode, ArrayView};
use crate::batch::column::{column_of, fits};
use crate::batch::error::Error as BatchError;
use crate::batch::laws::{reading_sees_the_bytes_only, reads_alike};
use crate::batch::outside::{
    array_tree, bitmap, field_types, made_array, make, schema_types, share, tree_of, type_plain,
};
use crate::batch::plain::{holds_int64, PlainView};
use crate::batch::read::tables_read;
use crate::batch::rows::{read_batch, rows_read, Rows};
use crate::batch::schema::{RegistryView, SchemaRegistry};
use crate::batch::write::{columns_of, columns_refusal, Batch};
use crate::chunk::{packed_ref_round_trip, ChunkDesc, PackedRef};
use crate::le::{get_u64, put_u64, u64_at};
use crate::spike::{double, encode_version, version_desc};

verus! {

// ---- integers in buffers ----

/// The signed integer with these bits.
pub open spec fn signed(u: u64) -> int {
    if u < 0x8000_0000_0000_0000 {
        u as int
    } else {
        u - 0x1_0000_0000_0000_0000
    }
}

/// The signed integer with these bits.
pub fn signed_of(u: u64) -> (v: i64)
    ensures
        v == signed(u),
{
    if u < 0x8000_0000_0000_0000 {
        u as i64
    } else {
        (u - 0x8000_0000_0000_0000) as i64 + i64::MIN
    }
}

/// The bits of a signed integer.
pub fn bits_of(v: i64) -> (u: u64)
    ensures
        signed(u) == v,
{
    if v >= 0 {
        v as u64
    } else {
        (v - i64::MIN) as u64 + 0x8000_0000_0000_0000
    }
}

/// The first `n` integers of a buffer.
pub open spec fn integers(b: Seq<u8>, n: nat) -> Seq<int> {
    Seq::new(n, |i: int| signed(u64_at(b, 8 * i)))
}

/// The first `n` integers of a buffer.
pub fn read_integers(b: &[u8], n: usize) -> (v: Vec<i64>)
    requires
        8 * n <= b@.len(),
    ensures
        v@.len() == n,
        forall|i: int| 0 <= i < n ==> #[trigger] v@[i] == integers(b@, n as nat)[i],
{
    let total: usize = b.len();
    let mut v: Vec<i64> = Vec::new();
    let mut i: usize = 0;
    while i < n
        invariant
            total == b@.len(),
            8 * n <= total,
            i <= n,
            v@.len() == i,
            forall|k: int| 0 <= k < i ==> #[trigger] v@[k] == integers(b@, n as nat)[k],
        decreases n - i,
    {
        v.push(signed_of(get_u64(b, 8 * i)));
        i = i + 1;
    }
    v
}

/// A buffer of integers.
pub fn write_integers(v: &Vec<i64>) -> (r: Option<Vec<u8>>)
    ensures
        r is Some <==> 8 * v@.len() <= usize::MAX,
        r matches Some(b) ==> {
            &&& b@.len() == 8 * v@.len()
            &&& forall|i: int| 0 <= i < v@.len() ==> #[trigger] v@[i] == integers(b@, v@.len())[i]
        },
{
    let n: usize = v.len();
    if n > usize::MAX / 8 {
        return None;
    }
    let mut b: Vec<u8> = crate::artifact::manifest::zeroed(8 * n);
    let mut i: usize = 0;
    while i < n
        invariant
            n == v@.len(),
            n <= usize::MAX / 8,
            b@.len() == 8 * n,
            i <= n,
            forall|k: int| 0 <= k < i ==> #[trigger] v@[k] == integers(b@, n as nat)[k],
        decreases n - i,
    {
        let ghost b0 = b@;
        put_u64(b.as_mut_slice(), 8 * i, bits_of(v[i]));
        proof {
            assert forall|k: int| 0 <= k < i + 1 implies #[trigger] v@[k] == integers(b@, n as nat)[k] by {
                if k < i {
                    assert(v@[k] == integers(b0, n as nat)[k]);
                    assert forall|x: int| 8 * k <= x < 8 * k + 8 implies b@[x] == b0[x] by {}
                    assert(u64_at(b@, 8 * k) == u64_at(b0, 8 * k));
                }
            }
        }
        i = i + 1;
    }
    Some(b)
}

// ---- the work ----

/// Why a worker fails.
#[derive(Clone, Debug, PartialEq, Eq)]
pub enum WorkError {
    /// The input is not retained, or held too often.
    Lease,
    /// The first column is not of 64-bit integers.
    NotInt64,
    /// Twice a value does not fit.
    Overflow,
    /// The input cannot be read, or the output not made.
    Batch(BatchError),
    /// The output cannot be committed.
    Commit(CommitError),
}

/// What a worker has done.
#[derive(Clone, Copy, Debug, PartialEq, Eq, Structural)]
pub struct Done {
    /// The descriptor that names the version of the output.
    pub result: ChunkDesc,
    pub rows: usize,
}

/// Whether a type is that of 64-bit integers.
pub open spec fn is_int64(t: DataType) -> bool {
    type_plain(t) == PlainView::Int64
}

/// Whether twice each integer fits.
pub open spec fn can_double(v: Seq<int>) -> bool {
    forall|i: int| 0 <= i < v.len() ==> i64::MIN <= 2 * (#[trigger] v[i]) <= i64::MAX
}

/// Whether `b` is a buffer of twice the integers `v`.
pub open spec fn holds_doubled(b: Seq<u8>, v: Seq<int>) -> bool {
    &&& b.len() == 8 * v.len()
    &&& forall|i: int| 0 <= i < v.len() ==> #[trigger] integers(b, v.len())[i] == 2 * v[i]
}

/// The integers of a column.
pub open spec fn column_integers(a: ArrayView) -> Seq<int> {
    integers(a.buffers[0], a.len)
}

/// Whether a column has all its integers in its first buffer.
pub open spec fn has_integers(a: ArrayView) -> bool {
    a.buffers.len() > 0 && 8 * a.len <= a.buffers[0].len()
}

/// The column of the type `t` that holds twice the integers of `a`.
pub fn double_column(t: &DataType, a: &ArrayNode) -> (r: Result<ArrayData, WorkError>)
    ensures
        ({
            let x = tree(*a);
            let v = column_integers(x);
            if !is_int64(*t) || !has_integers(x) {
                r is Err && r->Err_0 == WorkError::NotInt64
            } else if !can_double(v) || v.len() > u32::MAX || 8 * v.len() > usize::MAX {
                r is Err && r->Err_0 == WorkError::Overflow
            } else {
                exists|b: Seq<u8>| #[trigger]
                    holds_doubled(b, v) && match made_array(
                        *t,
                        a.len,
                        0,
                        None,
                        seq![b],
                        seq![],
                    ) {
                        None => r is Err && r->Err_0 == WorkError::Batch(BatchError::Arrow),
                        Some(c) => {
                            &&& r is Ok
                            &&& r->Ok_0 == c
                            &&& array_tree(c).of == *t
                            &&& array_tree(c).null_count == 0
                            &&& doubles(x, array_tree(c))
                        },
                    }
            }
        }),
{
    let ghost x = tree(*a);
    if !holds_int64(t) || a.buffers.len() == 0 {
        return Err(WorkError::NotInt64);
    }
    assert(x.buffers[0] == a.buffers@[0]@);
    let n: usize = a.len;
    if a.buffers[0].len() / 8 < n {
        return Err(WorkError::NotInt64);
    }
    if n as u64 > u32::MAX as u64 {
        return Err(WorkError::Overflow);
    }
    let v: Vec<i64> = read_integers(a.buffers[0].as_slice(), n);
    let ghost iv = column_integers(x);
    let mut i: usize = 0;
    while i < n
        invariant
            n == v@.len(),
            x == tree(*a),
            is_int64(*t),
            n <= u32::MAX,
            has_integers(x),
            iv == column_integers(x),
            iv.len() == n,
            i <= n,
            forall|k: int| 0 <= k < n ==> #[trigger] v@[k] == iv[k],
            forall|k: int| 0 <= k < i ==> i64::MIN <= 2 * (#[trigger] iv[k]) <= i64::MAX,
        decreases n - i,
    {
        let y: i64 = v[i];
        assert(y == iv[i as int]);
        if y > 0x3fff_ffff_ffff_ffff || y < -0x4000_0000_0000_0000 {
            assert(!(i64::MIN <= 2 * iv[i as int] <= i64::MAX));
            assert(!can_double(iv));
            return Err(WorkError::Overflow);
        }
        i = i + 1;
    }
    proof {
        assert forall|k: int| 0 <= k < n implies i64::MIN <= 2 * (#[trigger] v@[k]) <= i64::MAX by {
            assert(v@[k] == iv[k]);
        }
    }
    let d: Vec<i64> = double(&v);
    let bytes: Vec<u8> = match write_integers(&d) {
        Some(b) => b,
        None => {
            return Err(WorkError::Overflow);
        },
    };
    proof {
        assert forall|k: int| 0 <= k < n implies #[trigger] integers(bytes@, n as nat)[k] == 2 * iv[k] by {
            assert(d@[k] == integers(bytes@, n as nat)[k]);
            assert(d@[k] == 2 * v@[k]);
            assert(v@[k] == iv[k]);
        }
        assert(holds_doubled(bytes@, iv));
    }
    let ghost bv = bytes@;
    let mut buffers: Vec<Vec<u8>> = Vec::new();
    buffers.push(bytes);
    let none: Option<Vec<u8>> = None;
    let inner: Vec<ArrayData> = Vec::new();
    proof {
        assert(byte_views(buffers@) =~= seq![bv]);
        assert(inner@ =~= seq![]);
        assert(crate::batch::outside::array_trees(inner@) =~= seq![]);
        assert(bitmap(none) == None::<Seq<u8>>);
    }
    match make(t, n, 0, &none, &buffers, inner) {
        Ok(c) => {
            proof {
                assert(array_tree(c).buffers[0] == bv);
                assert(column_integers(array_tree(c)) == integers(bv, n as nat));
                assert(doubles(x, array_tree(c)));
            }
            Ok(c)
        },
        Err(_) => Err(WorkError::Batch(BatchError::Arrow)),
    }
}

/// Whether `b` is a column of twice the integers of the column `a`.
pub open spec fn doubles(a: ArrayView, b: ArrayView) -> bool {
    &&& b.len == a.len
    &&& b.offset == 0
    &&& b.nulls is None
    &&& b.children.len() == 0
    &&& b.buffers.len() == 1
    &&& holds_doubled(b.buffers[0], column_integers(a))
}

// ---- the task ----

/// Whether the task came to `r`: the rows `v` of the input, which have the
/// schema `schema`, with twice the integers of the first column, were committed
/// as the next version.
pub open spec fn task_done(
    art: Artifact,
    h0: HeadView,
    o0: &ChunkPool,
    reg0: RegistryView,
    h1: HeadView,
    o1: &ChunkPool,
    reg1: RegistryView,
    owner: u32,
    schema: Schema,
    v: Seq<ArrayData>,
    r: Result<Done, WorkError>,
) -> bool {
    let unchanged = h1 == h0 && o1@ == o0@ && reg1 == reg0;
    let types = schema_types(schema);
    let x = array_tree(v[0]);
    if types.len() == 0 || v.len() == 0 || !is_int64(types[0]) || !has_integers(x) {
        r is Err && r->Err_0 == WorkError::NotInt64 && unchanged
    } else if !can_double(column_integers(x)) || x.len > u32::MAX || 8 * x.len > usize::MAX {
        r is Err && r->Err_0 == WorkError::Overflow && unchanged
    } else {
        exists|b: Seq<u8>| #[trigger]
            holds_doubled(b, column_integers(x)) && match made_array(
                types[0],
                x.len as usize,
                0,
                None,
                seq![b],
                seq![],
            ) {
                None => r is Err && r->Err_0 == WorkError::Batch(BatchError::Arrow) && unchanged,
                Some(c) => {
                    &&& doubles(x, array_tree(c))
                    &&& columns_refusal(schema, seq![c], x.len) matches Some(e) ==> r is Err && r->Err_0
                        == WorkError::Batch(e) && unchanged
                    &&& columns_refusal(schema, seq![c], x.len) is None ==> exists|batch: Batch, w: Result<u64, CommitError>|
                        {
                            &&& batch.wf()
                            &&& *batch.schema == schema
                            &&& batch.cols() == seq![array_tree(c)]
                            &&& batch.num_rows == x.len
                            &&& #[trigger] batch_committed(
                                art,
                                h0,
                                o0,
                                reg0,
                                h1,
                                o1,
                                reg1,
                                h0.current,
                                owner,
                                Commit::Append,
                                &batch,
                                None,
                                w,
                            )
                            &&& r == match w {
                                Ok(n) => Ok::<Done, WorkError>(
                                    Done { result: version_desc(n), rows: batch.num_rows },
                                ),
                                Err(e) => Err(WorkError::Commit(e)),
                            }
                        }
                },
            }
    }
}

/// What taking a task comes to: it is not taken if the input is not retained or
/// held too often, or cannot be read; else it is done.
#[verifier::opaque]
pub open spec fn work_done(
    payload: &ChunkPool,
    input: ChunkDesc,
    art: Artifact,
    h0: HeadView,
    o0: &ChunkPool,
    reg0: RegistryView,
    h1: HeadView,
    o1: &ChunkPool,
    reg1: RegistryView,
    owner: u32,
    r: Result<Done, WorkError>,
) -> bool {
    let k = payload.at(input.offset);
    let unchanged = h1 == h0 && o1@ == o0@ && reg1 == reg0;
    if !payload.current(input) || payload@[k].refcount == u32::MAX {
        r is Err && r->Err_0 == WorkError::Lease && unchanged
    } else {
        match rows_read(payload, reg0, seq![input]) {
            Err(e) => r is Err && r->Err_0 == WorkError::Batch(e) && unchanged,
            Ok(v) => task_done(
                art,
                h0,
                o0,
                reg0,
                h1,
                o1,
                reg1,
                owner,
                schema_read(payload, reg0, seq![input]),
                v,
                r,
            ),
        }
    }
}

/// Take a task: hold the retained input with a reference of its own, read it,
/// double the first column, and commit that as the next version of `art`.
pub fn work(
    payload: &mut ChunkPool,
    input: &ChunkDesc,
    art: &Artifact,
    head: &mut ArtifactHead,
    out: &mut ChunkPool,
    registry: &mut SchemaRegistry,
    owner: u32,
) -> (r: Result<Done, WorkError>)
    requires
        old(payload).wf(),
        live(old(head), old(out), art.name_id),
        old(registry)@.wf(),
        old(head)@.current < u64::MAX,
    ensures
        final(payload).wf(),
        final(payload).same_place(old(payload)),
        final(payload)@ == old(payload)@,
        live(final(head), final(out), art.name_id),
        final(registry)@.wf(),
        work_done(
            old(payload),
            *input,
            *art,
            old(head)@,
            old(out),
            old(registry)@,
            final(head)@,
            final(out),
            final(registry)@,
            owner,
            r,
        ),
{
    proof {
        reveal(work_done);
    }
    let ghost p0 = *payload;
    let ghost k = p0.at(input.offset);
    match payload.find(input.segment_id, input.offset) {
        None => {
            return Err(WorkError::Lease);
        },
        Some(i) => {
            assert(payload@[i as int] == payload.chunks@[i as int]@);
            if payload.chunks[i].state != ChunkState::Published || !payload.chunks[i].validate(input) {
                return Err(WorkError::Lease);
            }
        },
    }
    let mref: PackedRef = PackedRef::from_desc(input);
    proof {
        packed_ref_round_trip(mref, input.segment_id, input.offset);
        lemma_has(p0.lay@, input.offset);
        assert(chunk_ok(p0@[k]));
    }
    match payload.borrow_at(mref) {
        Ok(_) => {},
        Err(_) => {
            return Err(WorkError::Lease);
        },
    }
    let ghost p1 = *payload;
    proof {
        assert(reads_alike(&p0, &p1));
        reading_sees_the_bytes_only(&p0, &p1, registry@, seq![*input]);
    }
    let read: Result<Rows, BatchError> = read_batch(payload, input, registry);
    payload.release_chunk(input);
    proof {
        assert(payload@ =~= p0@);
    }
    let rows: Rows = match read {
        Ok(x) => x,
        Err(e) => {
            return Err(WorkError::Batch(e));
        },
    };
    proof {
        let (h, t) = tables_read(&p0, registry@, seq![*input])->Ok_0;
        assert(registry@.by_id.contains_key(h.schema_id));
    }
    finish(&rows, art, head, out, registry, owner)
}

/// Double the first column of the input, and commit that.
fn finish(
    rows: &Rows,
    art: &Artifact,
    head: &mut ArtifactHead,
    out: &mut ChunkPool,
    registry: &mut SchemaRegistry,
    owner: u32,
) -> (r: Result<Done, WorkError>)
    requires
        live(old(head), old(out), art.name_id),
        old(registry)@.wf(),
        old(registry)@.has_room(*rows.schema),
        old(head)@.current < u64::MAX,
    ensures
        live(final(head), final(out), art.name_id),
        final(registry)@.wf(),
        task_done(
            *art,
            old(head)@,
            old(out),
            old(registry)@,
            final(head)@,
            final(out),
            final(registry)@,
            owner,
            *rows.schema,
            rows.columns@,
            r,
        ),
{
    let types: Vec<DataType> = field_types(&rows.schema);
    if types.len() == 0 || rows.columns.len() == 0 {
        return Err(WorkError::NotInt64);
    }
    let node: ArrayNode = tree_of(&rows.columns[0]);
    let ghost x = array_tree(rows.columns@[0]);
    let col: ArrayData = match double_column(&types[0], &node) {
        Ok(c) => c,
        Err(e) => {
            return Err(e);
        },
    };
    let schema: Arc<Schema> = share(&rows.schema);
    let mut cols: Vec<ArrayData> = Vec::new();
    cols.push(col);
    proof {
        assert(cols@ =~= seq![col]);
        assert(normal(array_tree(col)));
        assert(fits(array_tree(col)));
        assert(column_of(col, types@[0]) == Ok::<ArrayView, BatchError>(array_tree(col)));
        assert(columns_of(types@, cols@) =~= seq![array_tree(col)]);
    }
    let batch: Batch = match Batch::from_columns(schema, &cols, node.len) {
        Ok(b) => b,
        Err(e) => {
            return Err(WorkError::Batch(e));
        },
    };
    let expect: u64 = art.current_version(head);
    let w: Result<u64, CommitError> = art.commit_optimistic(
        head,
        out,
        owner,
        expect,
        Commit::Append,
        &batch,
        registry,
    );
    match w {
        Ok(n) => Ok(Done { result: encode_version(n), rows: node.len }),
        Err(e) => Err(WorkError::Commit(e)),
    }
}

} // verus!
