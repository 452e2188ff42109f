//! What a task's round trip promises.
use arrow_data::ArrayData;
use arrow_schema::Schema;
use vstd::prelude::*;

use crate::artifact::commit::Commit;
use crate::artifact::error::Error;
use crate::artifact::handle::Artifact;
use crate::artifact::head::HeadView;
use crate::artifact::lease::commit_outcome;
use crate::artifact::live::current_table;
use crate::artifact::pool::ChunkPool;
use crate::artifact::window::batches;
use crate::batch::array::ArrayView;
use crate::batch::error::Error as BatchError;
use crate::batch::outside::{array_tree, schema_types, type_plain};
use crate::batch::schema::RegistryView;
use crate::batch::write::{allot, batch_refusal, single_len, Batch};
use crate::batch::write_laws::{
    chunks_are_handed_out_in_turn, how_long_a_batch_is, which_chunk_is_handed_out,
};
use crate::chunk::ChunkDesc;
use crate::message::laws::{counts_to, lemma_counts_8};
use crate::spike::{desc_version, retain_done, version_desc, Mismatch};
use crate::spike::trip::{
    acknowledged, checked, comparison, output_read, wrong_row, Trip, TripError,
};
use crate::spike::work::{
    can_double, column_integers, doubles, has_integers, integers, task_done, Done, WorkError,
};

verus! {

/// What a version is as a descriptor: its lower half in the place of the offset and its
/// upper half in that of the length, of a segment that there is not.
pub proof fn versions_as_descriptors(v: u64, d: ChunkDesc)
    ensures
        version_desc(v).segment_id == 0xffff_ffff,
        version_desc(v).len * 0x1_0000_0000 + version_desc(v).offset == v,
        version_desc(v).generation == 0 && version_desc(v).schema_id == 0 && version_desc(v)._pad == 0,
        desc_version(d) == d.len * 0x1_0000_0000 + d.offset,
{
}

/// An integer is its eight bytes, the lowest first, as a number that may be below zero:
/// it is in the range of such, and is the unsigned one or that less two to the power of
/// sixty-four.
pub proof fn integers_are_their_bytes(b: Seq<u8>, n: nat, i: int)
    requires
        0 <= i < n,
        8 * n <= b.len(),
    ensures
        integers(b, n).len() == n,
        i64::MIN <= integers(b, n)[i] <= i64::MAX,
        counts_to(b.subrange(8 * i, 8 * i + 8), if integers(b, n)[i] >= 0 {
            integers(b, n)[i]
        } else {
            integers(b, n)[i] + 0x1_0000_0000_0000_0000
        }),
{
    lemma_counts_8(b, 8 * i);
}

/// Doubling a column doubles each integer in it, and it can be done if, and only if,
/// every one is still an integer then.
pub proof fn a_column_is_doubled(a: ArrayView, b: ArrayView, i: int)
    requires
        has_integers(a),
        0 <= i < a.len,
    ensures
        doubles(a, b) ==> {
            &&& has_integers(b) && b.len == a.len && b.nulls is None && b.offset == 0
            &&& column_integers(b)[i] == column_integers(a)[i] + column_integers(a)[i]
        },
        can_double(column_integers(a)) ==> -0x4000_0000_0000_0000 <= column_integers(a)[i]
            <= 0x3fff_ffff_ffff_ffff,
        !can_double(column_integers(a)) ==> exists|k: int|
            0 <= k < a.len && !(-0x4000_0000_0000_0000 <= #[trigger] column_integers(a)[k]
                <= 0x3fff_ffff_ffff_ffff),
{
    let x = column_integers(a);
    if doubles(a, b) {
        assert(integers(b.buffers[0], x.len())[i] == 2 * x[i]);
    }
    if can_double(x) {
        assert(i64::MIN <= 2 * x[i] <= i64::MAX);
    } else {
        let k = choose|k: int| 0 <= k < x.len() && !(i64::MIN <= 2 * (#[trigger] x[k]) <= i64::MAX);
        assert(!(-0x4000_0000_0000_0000 <= x[k] <= 0x3fff_ffff_ffff_ffff));
    }
}

/// What retaining a batch is refused for: that it cannot be packed, that the pool has no
/// chunks for it, or that it takes more than one. Else it is retained, under one reference
/// of its own. So it is wherever one free chunk, and the longest, is long enough for all.
pub proof fn what_retaining_is_refused_for(
    p0: &ChunkPool,
    reg0: RegistryView,
    p1: &ChunkPool,
    reg1: RegistryView,
    batch: &Batch,
    r: Result<ChunkDesc, BatchError>,
    j: int,
)
    requires
        retain_done(p0, reg0, p1, reg1, batch, r),
    ensures
        ({
            let refusal = batch_refusal(batch.cols(), batch.num_rows as int, p0.longest());
            &&& refusal is Some ==> r == Err::<ChunkDesc, BatchError>(refusal->Some_0)
            &&& refusal is None && single_len(batch.cols()) <= p0.longest() && 0 <= j < p0@.len()
                && !p0@[j].allocated && p0@[j].len >= single_len(batch.cols()) ==> r is Ok
            &&& r is Ok ==> p1.current(r->Ok_0) && p1@[p0.at(r->Ok_0.offset)].refcount == 1
            &&& r is Err ==> forall|k: int|
                0 <= k < p0@.len() && p0@[k].allocated ==> #[trigger] p1@[k] == p0@[k]
            &&& reg1 == reg0.interned(batch.schema)
        }),
{
    let n = single_len(batch.cols());
    if n <= p0.longest() && 0 <= j < p0@.len() && !p0@[j].allocated && p0@[j].len >= n {
        how_long_a_batch_is(batch.cols(), p0.longest());
        let none = Seq::<int>::empty();
        chunks_are_handed_out_in_turn(p0@, none, n);
        assert(none.push(n) =~= seq![n]);
        which_chunk_is_handed_out(p0@, n, j);
        assert(allot(p0@, seq![n]) is Some);
    }
}

/// What a task is refused for: rows whose first column is not of integers, or whose integers
/// cannot all be doubled. Then nothing changes.
pub proof fn what_a_task_is_refused_for(
    art: Artifact,
    h0: HeadView,
    o0: &ChunkPool,
    reg0: RegistryView,
    h1: HeadView,
    o1: &ChunkPool,
    reg1: RegistryView,
    owner: u32,
    schema: Schema,
    v: Seq<ArrayData>,
    r: Result<Done, WorkError>,
)
    requires
        task_done(art, h0, o0, reg0, h1, o1, reg1, owner, schema, v, r),
    ensures
        ({
            let t = schema_types(schema);
            let x = array_tree(v[0]);
            let ints = t.len() > 0 && v.len() > 0 && type_plain(t[0]) is Int64 && x.buffers.len() > 0 && 8 * x.len
                <= x.buffers[0].len();
            let fit = forall|i: int|
                0 <= i < x.len ==> -0x4000_0000_0000_0000 <= #[trigger] column_integers(x)[i]
                    <= 0x3fff_ffff_ffff_ffff;
            &&& r is Err && r->Err_0 is NotInt64 <==> !ints
            &&& r is Err && r->Err_0 is Overflow <==> ints && !(fit && x.len <= 0xffff_ffff && 8 * x.len
                <= usize::MAX)
            &&& r is Err && (r->Err_0 is NotInt64 || r->Err_0 is Overflow) ==> h1 == h0 && o1@ == o0@ && reg1
                == reg0
        }),
{
    let x = array_tree(v[0]);
    let y = column_integers(x);
    if can_double(y) {
        assert forall|i: int| 0 <= i < x.len implies -0x4000_0000_0000_0000 <= #[trigger] column_integers(x)[i]
            <= 0x3fff_ffff_ffff_ffff by {
            assert(i64::MIN <= 2 * y[i] <= i64::MAX);
        }
    } else {
        let k = choose|k: int| 0 <= k < y.len() && !(i64::MIN <= 2 * (#[trigger] y[k]) <= i64::MAX);
        assert(!(-0x4000_0000_0000_0000 <= column_integers(x)[k] <= 0x3fff_ffff_ffff_ffff));
    }
}

/// The first row that is wrong is told, if there is one.
pub proof fn the_first_wrong_row_is_told(x: Seq<int>, input: Seq<i64>, from: int)
    requires
        0 <= from <= x.len(),
        x.len() == input.len(),
    ensures
        match wrong_row(x, input, from) {
            Some(k) => {
                &&& from <= k < x.len()
                &&& x[k] != input[k] + input[k]
                &&& forall|i: int| from <= i < k ==> #[trigger] x[i] == input[i] + input[i]
            },
            None => forall|i: int| from <= i < x.len() ==> #[trigger] x[i] == input[i] + input[i],
        },
    decreases x.len() - from,
{
    if from < x.len() && x[from] == 2 * input[from] {
        the_first_wrong_row_is_told(x, input, from + 1);
    }
}

/// An output is right if, and only if, it is read and has just the rows of the input,
/// each twice what it was.
pub proof fn when_an_output_is_right(
    art: Artifact,
    h: HeadView,
    out: &ChunkPool,
    reg: RegistryView,
    result: ChunkDesc,
    input: Seq<i64>,
    x: Seq<int>,
)
    requires
        input.len() <= usize::MAX,
    ensures
        ({
            let c = comparison(art, h, out, reg, result, input);
            &&& output_read(art, h, out, reg, result) == Ok::<Seq<int>, TripError>(x) ==> {
                &&& c is Ok <==> x.len() == input.len() && forall|i: int|
                    0 <= i < x.len() ==> #[trigger] x[i] == input[i] + input[i]
                &&& c is Ok ==> c->Ok_0 == input.len()
                &&& x.len() != input.len() ==> c == Err::<usize, TripError>(TripError::Wrong(Mismatch::Rows))
            }
            &&& output_read(art, h, out, reg, result) is Err ==> c == Err::<usize, TripError>(
                output_read(art, h, out, reg, result)->Err_0,
            )
        }),
        result.segment_id != 0xffff_ffff || h.current == 0 || h.current != result.len * 0x1_0000_0000
            + result.offset || h.incarnation != art.incarnation ==> output_read(art, h, out, reg, result) is Err,
{
    reveal(comparison);
    if x.len() == input.len() {
        the_first_wrong_row_is_told(x, input, 0);
    }
}

/// A trip that comes to an end was right: the requester has read, of the version that it
/// says, just as many rows as it sent, each twice what it was.
pub proof fn a_trip_doubles_its_input(
    art: Artifact,
    p1: &ChunkPool,
    h2: HeadView,
    o2: &ChunkPool,
    reg2: RegistryView,
    p3: &ChunkPool,
    h3: HeadView,
    o3: &ChunkPool,
    d: ChunkDesc,
    w: Done,
    input: Seq<i64>,
    requester: u32,
    clear_output: bool,
    t: Trip,
)
    requires
        checked(
            art,
            p1,
            h2,
            o2,
            reg2,
            p3,
            h3,
            o3,
            d,
            w,
            input,
            requester,
            clear_output,
            Ok::<Trip, TripError>(t),
        ),
        input.len() <= usize::MAX,
    ensures
        output_read(art, h2, o2, reg2, w.result) matches Ok(x) && x.len() == input.len() && forall|i: int|
            0 <= i < x.len() ==> #[trigger] x[i] == input[i] + input[i],
        t.rows == input.len(),
        t.input == d,
        t.version == h2.current && t.version == w.result.len * 0x1_0000_0000 + w.result.offset,
{
    reveal(checked);
    reveal(comparison);
    if let Ok(x) = output_read(art, h2, o2, reg2, w.result) {
        when_an_output_is_right(art, h2, o2, reg2, w.result, input, x);
    }
}

/// What an acknowledgement does: it gives up one reference on the input, which is back in
/// the pool if that was the last, and it says so; and if it is to, it replaces the output
/// by nothing. All other chunks of the input's pool stay.
pub proof fn what_an_acknowledgement_does(
    p0: &ChunkPool,
    input: ChunkDesc,
    art: Artifact,
    h0: HeadView,
    o0: &ChunkPool,
    p1: &ChunkPool,
    h1: HeadView,
    o1: &ChunkPool,
    owner: u32,
    version: u64,
    clear_output: bool,
    r: (bool, bool),
    k: int,
    j: int,
)
    requires
        p0.wf(),
        acknowledged(p0, input, art, h0, o0, p1, h1, o1, owner, version, clear_output, r),
        0 <= k < p0@.len(),
        0 <= j < p0@.len(),
        input.segment_id == p0.segment_id,
        input.offset == p0.lay@[k],
    ensures
        ({
            let c = p0@[k];
            let good = c.state is Published && c.generation == input.generation;
            &&& r.0 <==> good && c.owner == 0 && c.refcount == 1
            &&& r.0 ==> !p1@[k].allocated && p1@[k].state is Free && p1@[k].generation != input.generation
            &&& good && !r.0 && c.refcount > 1 ==> p1@[k].refcount == c.refcount - 1 && p1@[k].state
                is Published && p1@[k].bytes == c.bytes
            &&& !good ==> p1@ == p0@
            &&& j != k ==> p1@[j] == p0@[j]
        }),
        !clear_output ==> !r.1 && h1 == h0 && o1@ == o0@,
        r.1 ==> clear_output && h0.current == version && h1.current == version + 1 && batches(
            current_table(h1, o1.lay@, o1@),
        ).len() == 0,
        !r.1 ==> h1 == h0,
{
    reveal(acknowledged);
    crate::artifact::pool::lemma_at(p0.lay@, k);
    assert(crate::artifact::pool::chunk_ok(p0@[k]));
    if !(!clear_output || version == 0 || version == u64::MAX) {
        let e = choose|e: Result<u64, Error>| #[trigger]
            commit_outcome(
                art,
                h0,
                o0,
                h1,
                o1,
                version,
                owner,
                Commit::Replace,
                seq![],
                seq![],
                h0.schema_id,
                None,
                e,
            ) && r.1 == (e is Ok);
        assert(r.1 ==> batches(current_table(h1, o1.lay@, o1@)) == crate::artifact::window::cut(
            seq![],
            seq![],
        ));
    }
}

} // verus!
