//! A task over retained data: only descriptors travel, the data stays where it
//! was written.
pub mod laws;
pub mod trip;
pub mod work;

use vstd::prelude::*;

use crate::artifact::pool::{chunk_ok, lemma_at, ChunkPool, ChunkState, ChunkView, OWNER_NONE};
use crate::artifact::staging::as_published;
use crate::batch::error::Error as BatchError;
use crate::batch::pack::clamped;
use crate::batch::schema::{RegistryView, SchemaRegistry};
use crate::batch::write::{
    allot, batch_refusal, batch_sizes, batch_written, desc_of, handed_out, single_len,
    unused_bytes_aside, write_batch, Batch,
};
use crate::chunk::ChunkDesc;

verus! {

/// Marks a descriptor that names a version, not a chunk.
pub const VERSION_MARKER: u32 = 0xFFFF_FFFF;

/// A task's input: a reference to retained data.
#[derive(Clone, Debug)]
pub struct RetainedInputRef {
    pub dataset: String,
    pub schema_id: u64,
}

/// Whether acknowledging a task clears its output.
#[derive(Clone, Copy, Debug, PartialEq, Eq, Structural)]
pub struct AckPolicy {
    pub clear_on_ack: bool,
}

/// What becomes of a task's output.
#[derive(Clone, Debug)]
pub enum OutputPolicy {
    /// Sent back.
    Stream,
    /// Retained under a name.
    Dataset { dataset: String, group: String, ack: AckPolicy },
}

/// A task.
#[derive(Clone, Debug)]
pub struct TaskRequest {
    pub task_id: String,
    pub input: RetainedInputRef,
    pub output: OutputPolicy,
    pub deadline_nanos: u64,
}

/// A task's output: a reference to a retained version.
#[derive(Clone, Debug, PartialEq, Eq)]
pub struct RetainedOutputRef {
    pub dataset: String,
    pub version: u64,
}

/// What a worker produced.
#[derive(Clone, Debug, PartialEq, Eq)]
pub struct TaskResult {
    pub output: RetainedOutputRef,
    pub rows: usize,
}

/// The descriptor that stands for a version.
pub open spec fn version_desc(version: u64) -> ChunkDesc {
    ChunkDesc {
        segment_id: VERSION_MARKER,
        generation: 0,
        offset: (version % 0x1_0000_0000) as u32,
        len: (version / 0x1_0000_0000) as u32,
        schema_id: 0,
        _pad: 0,
    }
}

/// The version a descriptor stands for.
pub open spec fn desc_version(d: ChunkDesc) -> u64 {
    (d.offset + d.len * 0x1_0000_0000) as u64
}

/// The descriptor that stands for a version.
pub fn encode_version(version: u64) -> (d: ChunkDesc)
    ensures
        d == version_desc(version),
{
    ChunkDesc {
        segment_id: VERSION_MARKER,
        generation: 0,
        offset: (version % 0x1_0000_0000) as u32,
        len: (version / 0x1_0000_0000) as u32,
        schema_id: 0,
        _pad: 0,
    }
}

/// The version a descriptor stands for.
pub fn decode_version(desc: &ChunkDesc) -> (v: u64)
    ensures
        v == desc_version(*desc),
{
    desc.offset as u64 + desc.len as u64 * 0x1_0000_0000
}

/// The version a task's result names, if it names one.
pub fn result_version(desc: &ChunkDesc) -> (v: Option<u64>)
    ensures
        v == if desc.segment_id == VERSION_MARKER {
            Some(desc_version(*desc))
        } else {
            None
        },
{
    if desc.segment_id == VERSION_MARKER {
        Some(decode_version(desc))
    } else {
        None
    }
}

/// A version survives the descriptor.
pub proof fn version_round_trip(version: u64)
    ensures
        desc_version(version_desc(version)) == version,
        version_desc(version).segment_id == VERSION_MARKER,
{
}

// ---- the work ----

/// Twice each value.
pub fn double(v: &Vec<i64>) -> (r: Vec<i64>)
    requires
        forall|i: int| 0 <= i < v@.len() ==> i64::MIN <= 2 * (#[trigger] v@[i]) <= i64::MAX,
    ensures
        doubled(v@, r@),
{
    let n: usize = v.len();
    let mut r: Vec<i64> = Vec::new();
    let mut i: usize = 0;
    while i < n
        invariant
            n == v@.len(),
            i <= n,
            r@.len() == i,
            forall|k: int| 0 <= k < v@.len() ==> i64::MIN <= 2 * (#[trigger] v@[k]) <= i64::MAX,
            forall|k: int| 0 <= k < i ==> #[trigger] r@[k] == 2 * v@[k],
        decreases n - i,
    {
        assert(i64::MIN <= 2 * v@[i as int] <= i64::MAX);
        r.push(v[i] * 2);
        i = i + 1;
    }
    r
}

/// Whether `b` is twice `a`, value for value.
pub open spec fn doubled(a: Seq<i64>, b: Seq<i64>) -> bool {
    &&& a.len() == b.len()
    &&& forall|i: int| 0 <= i < a.len() ==> #[trigger] b[i] == 2 * a[i]
}

/// Where an output is not twice the input.
#[derive(Clone, Copy, Debug, PartialEq, Eq, Structural)]
pub enum Mismatch {
    /// The number of rows changed.
    Rows,
    /// The first row that is not twice the input's.
    Row { row: usize },
}

/// Check that an output is twice the input.
pub fn verify_doubled(input: &Vec<i64>, output: &Vec<i64>) -> (r: Result<(), Mismatch>)
    ensures
        match r {
            Ok(_) => doubled(input@, output@),
            Err(Mismatch::Rows) => input@.len() != output@.len(),
            Err(Mismatch::Row { row }) => {
                &&& input@.len() == output@.len()
                &&& row < input@.len()
                &&& output@[row as int] != 2 * input@[row as int]
                &&& forall|k: int| 0 <= k < row ==> #[trigger] output@[k] == 2 * input@[k]
            },
        },
{
    let n: usize = input.len();
    if n != output.len() {
        return Err(Mismatch::Rows);
    }
    let mut i: usize = 0;
    while i < n
        invariant
            n == input@.len(),
            n == output@.len(),
            i <= n,
            forall|k: int| 0 <= k < i ==> #[trigger] output@[k] == 2 * input@[k],
        decreases n - i,
    {
        if output[i] as i128 != 2 * (input[i] as i128) {
            return Err(Mismatch::Row { row: i });
        }
        i = i + 1;
    }
    Ok(())
}

// ---- retained data ----

/// Whether `p2` is `p0` with the batch written to one chunk, published and held
/// by one reference.
pub open spec fn retained(
    p0: &ChunkPool,
    p2: &ChunkPool,
    d: ChunkDesc,
    batch: &Batch,
    schema_id: u32,
) -> bool {
    exists|p1: ChunkPool|
        #[trigger] batch_written(p0, &p1, seq![d], batch.cols(), batch.num_rows as int, schema_id)
            && p2@ == p1@.update(p0.at(d.offset), as_published(p1@[p0.at(d.offset)]))
}

/// What retaining a batch comes to.
pub open spec fn retain_done(
    p0: &ChunkPool,
    reg0: RegistryView,
    p1: &ChunkPool,
    reg1: RegistryView,
    batch: &Batch,
    r: Result<ChunkDesc, BatchError>,
) -> bool {
    let sizes = batch_sizes(batch.cols(), p0.longest());
    &&& reg1 == reg0.interned(batch.schema)
    &&& r is Err ==> unused_bytes_aside(p0@, p1@)
    &&& match batch_refusal(batch.cols(), batch.num_rows as int, p0.longest()) {
        Some(e) => r is Err && r->Err_0 == e,
        None => if allot(p0@, sizes) is None {
            r is Err && r->Err_0 == BatchError::Core(crate::artifact::error::Error::Exhausted)
        } else if sizes.len() != 1 {
            &&& r is Err
            &&& r->Err_0 == (BatchError::ChunkTooSmall {
                need: clamped(single_len(batch.cols())),
                have: p0.longest() as usize,
            })
        } else {
            let k = p0.at(r->Ok_0.offset);
            &&& r is Ok
            &&& retained(p0, p1, r->Ok_0, batch, batch.id_in(reg0))
            &&& p1.current(r->Ok_0)
            &&& p1@[k].refcount == 1
            &&& p1.held(k) == p0.held(k) + 1
        },
    }
}

/// Write a batch into one chunk and retain it: published, and held by one
/// reference until it is cleared.
pub fn retain_input_chunk(
    pool: &mut ChunkPool,
    registry: &mut SchemaRegistry,
    batch: &Batch,
    owner: u32,
) -> (r: Result<ChunkDesc, BatchError>)
    requires
        old(pool).wf(),
        old(registry)@.wf(),
        old(registry)@.has_room(*batch.schema),
        batch.wf(),
    ensures
        final(pool).wf(),
        final(pool).same_place(old(pool)),
        final(registry)@.wf(),
        retain_done(old(pool), old(registry)@, final(pool), final(registry)@, batch, r),
{
    let ghost p0 = *pool;
    let ghost id = batch.id_in(registry@);
    let d: ChunkDesc = match write_batch(pool, registry, batch) {
        Ok(d) => d,
        Err(e) => {
            return Err(e);
        },
    };
    let ghost p1 = *pool;
    let ghost k = p0.at(d.offset);
    proof {
        let (ks, q) = allot(p0@, batch_sizes(batch.cols(), p0.longest()))->Some_0;
        assert(seq![d][0] == d);
        assert(seq![d][0] == desc_of(&p0, ks[0], id));
        assert(0 <= ks[0] < p0@.len() && !p0@[ks[0]].allocated);
        lemma_at(p0.lay@, ks[0]);
        assert(p0.lay@[ks[0]] == d.offset);
        assert(k == ks[0]);
        assert(chunk_ok(p0@[k]));
        assert(q[k] == handed_out(p0@[k]));
        assert(p1@[k] == (ChunkView { bytes: p1@[k].bytes, ..q[k] }));
    }
    let r1: Result<(), crate::artifact::error::Error> = pool.loan(&d, owner);
    let r2: Result<(), crate::artifact::error::Error> = pool.publish_staged(&d);
    proof {
        assert(r1 is Ok && r2 is Ok);
        assert(pool@ =~= p1@.update(k, as_published(p1@[k])));
        assert(retained(&p0, pool, d, batch, id));
    }
    Ok(d)
}

/// Release the reference on a retained chunk; whether it was the last and the
/// chunk is back in the pool.
pub fn clear_retained_chunk(pool: &mut ChunkPool, desc: &ChunkDesc) -> (cleared: bool)
    requires
        old(pool).wf(),
        old(pool).current(*desc) ==> old(pool).held(old(pool).at(desc.offset)) >= 1,
    ensures
        final(pool).wf(),
        final(pool).same_place(old(pool)),
        !old(pool).current(*desc) ==> !cleared && final(pool)@ == old(pool)@,
        old(pool).current(*desc) ==> {
            let i = old(pool).at(desc.offset);
            &&& cleared == (old(pool)@[i].owner == OWNER_NONE && old(pool)@[i].refcount == 1)
            &&& final(pool)@ == old(pool)@.update(
                i,
                crate::artifact::pool::released(old(pool)@[i]),
            )
        },
{
    pool.release_chunk(desc)
}

/// What was retained by one reference and is cleared is back in the pool, in a
/// new generation: no descriptor of it is good any more.
pub proof fn cleared_is_back(c: ChunkView, d: ChunkDesc)
    requires
        c.state == ChunkState::Published,
        c.owner == OWNER_NONE,
        c.refcount == 1,
        c.generation == d.generation,
    ensures
        crate::artifact::pool::released(c).state == ChunkState::Free,
        !crate::artifact::pool::released(c).allocated,
        crate::artifact::pool::released(c).generation != d.generation,
{
}

/// How many times larger the retained data is than the descriptor that travels.
pub fn payload_ratio(payload_bytes: usize) -> (n: usize)
    ensures
        n == payload_bytes / 24,
{
    payload_bytes / 24
}

/// What a run measured.
#[derive(Clone, Debug, PartialEq, Eq)]
pub struct SpikeReport {
    /// The bytes of the retained input.
    pub input_payload_bytes: usize,
    /// The bytes that travelled through the queue.
    pub control_msg_bytes: usize,
    /// The bytes of a slot of the queue.
    pub queue_slot_bytes: usize,
    /// How many times larger the input is than what travelled.
    pub payload_to_control_ratio: usize,
    /// The retained output.
    pub output: RetainedOutputRef,
    pub output_rows: usize,
    /// The input was read where it lies.
    pub input_read_zero_copy: bool,
    /// The output was read where it lies.
    pub output_read_zero_copy: bool,
    /// The retained input was given back once it was acknowledged.
    pub cleared_on_ack: bool,
    /// The retained output was, too.
    pub output_cleared_on_ack: bool,
    /// How long it all took, in nanoseconds.
    pub round_trip_nanos: u64,
}

} // verus!
