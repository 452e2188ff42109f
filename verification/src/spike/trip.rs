//! The round trip of a task: its input is retained, a worker doubles it, the
//! requester reads the output back, checks it, and acknowledges.
use vstd::prelude::*;

use crate::artifact::batches::CommitError;
use crate::artifact::commit::Commit;
use crate::artifact::error::Error;
use crate::artifact::handle::Artifact;
use crate::artifact::head::{ArtifactHead, HeadView, NO_VERSION, OWNER_NONE};
use crate::artifact::laws::pin_then_unpin_is_nothing;
use crate::artifact::lease::commit_outcome;
use crate::artifact::live::{current_table, live};
use crate::artifact::pin::{current_slot, last_pin, pin_refusal, VersionPin};
use crate::artifact::pool::{released, ChunkPool};
use crate::artifact::rows::table_rows;
use crate::batch::array::{tree, ArrayNode};
use crate::batch::error::Error as BatchError;
use crate::batch::layout::BufferEntry;
use crate::batch::outside::{array_tree, tree_of};
use crate::batch::plain::holds_int64;
use crate::batch::read::{bytes_in_place, visible, ReadBatch};
use crate::batch::rows::Rows;
use crate::batch::schema::{RegistryView, SchemaRegistry};
use crate::batch::write::Batch;
use crate::chunk::ChunkDesc;
use crate::spike::{
    clear_retained_chunk, desc_version, result_version, retain_done, retain_input_chunk,
    verify_doubled, Mismatch, VERSION_MARKER,
};
use crate::spike::work::{
    column_integers, has_integers, integers, is_int64, read_integers, work, work_done, Done,
    WorkError,
};

verus! {

/// Why a round trip fails.
#[derive(Debug)]
pub enum TripError {
    /// The input cannot be retained.
    Retain(BatchError),
    /// The worker failed.
    Work(WorkError),
    /// The result names no version.
    NotAVersion,
    /// The output has as many pins as can be counted.
    Crowded,
    /// The output cannot be pinned.
    Pin(Error),
    /// The output's version is not the one the task said.
    Version { told: u64, found: u64 },
    /// The output cannot be read.
    Read(CommitError),
    /// The output is not of 64-bit integers.
    NotInt64,
    /// The output is not twice the input.
    Wrong(Mismatch),
}

/// The integers of the current version, read by whoever was told `result`, or why
/// there are none.
pub open spec fn output_read(
    art: Artifact,
    h: HeadView,
    out: &ChunkPool,
    reg: RegistryView,
    result: ChunkDesc,
) -> Result<Seq<int>, TripError> {
    if result.segment_id != VERSION_MARKER {
        Err(TripError::NotAVersion)
    } else if exists|k: usize| #[trigger] current_slot(h, k) && h.pins[k as int].pins == u32::MAX {
        Err(TripError::Crowded)
    } else if pin_refusal(art, h) is Some {
        Err(TripError::Pin(pin_refusal(art, h)->Some_0))
    } else if h.current != desc_version(result) {
        Err(TripError::Version { told: desc_version(result), found: h.current })
    } else {
        match table_rows(out, reg, current_table(h, out.lay@, out@)) {
            Err(e) => Err(TripError::Read(e)),
            Ok(v) => if v.len() == 0 || !is_int64(array_tree(v[0]).of) || !has_integers(array_tree(v[0])) {
                Err(TripError::NotInt64)
            } else {
                Ok(column_integers(array_tree(v[0])))
            },
        }
    }
}

/// The integers of the first column of some rows.
fn first_integers(rows: &Rows) -> (r: Option<Vec<i64>>)
    ensures
        r is Some <==> rows.columns@.len() > 0 && is_int64(array_tree(rows.columns@[0]).of)
            && has_integers(array_tree(rows.columns@[0])),
        r matches Some(v) ==> {
            let x = column_integers(array_tree(rows.columns@[0]));
            &&& v@.len() == x.len()
            &&& forall|i: int| 0 <= i < v@.len() ==> #[trigger] v@[i] == x[i]
        },
{
    if rows.columns.len() == 0 {
        return None;
    }
    let a: ArrayNode = tree_of(&rows.columns[0]);
    if !holds_int64(&a.data_type) || a.buffers.len() == 0 {
        return None;
    }
    assert(tree(a).buffers[0] == a.buffers@[0]@);
    if a.buffers[0].len() / 8 < a.len {
        return None;
    }
    Some(read_integers(a.buffers[0].as_slice(), a.len))
}

/// Whether the integers of a batch that was located in the chunks `s` can be read
/// where they lie.
pub open spec fn lie_in_place(pool: &ChunkPool, s: Seq<ChunkDesc>, b: ReadBatch) -> bool {
    &&& b.columns@.len() > 0
    &&& b.columns@[0].buffers@.len() > 0
    &&& visible(pool, s, b.columns@[0].buffers@[0])
    &&& 8 * b.row_count <= b.columns@[0].buffers@[0].len
}

/// Read the integers of a batch that was located where they lie. Nothing is copied
/// but the integers.
pub fn integers_in_place(pool: &ChunkPool, chunks: &[ChunkDesc], b: &ReadBatch) -> (r: Option<Vec<i64>>)
    requires
        pool.wf(),
    ensures
        r is Some <==> lie_in_place(pool, chunks@, *b),
        r matches Some(v) ==> {
            let e = b.columns@[0].buffers@[0];
            let x = integers(
                pool@[pool.at(chunks@[e.chunk_index as int].offset)].bytes.subrange(
                    e.offset as int,
                    e.offset + e.len,
                ),
                b.row_count as nat,
            );
            &&& v@.len() == x.len()
            &&& forall|i: int| 0 <= i < v@.len() ==> #[trigger] v@[i] == x[i]
        },
{
    if b.columns.len() == 0 || b.columns[0].buffers.len() == 0 {
        return None;
    }
    let e: BufferEntry = b.columns[0].buffers[0];
    if 8 * b.row_count as u64 > e.len as u64 {
        return None;
    }
    match bytes_in_place(pool, chunks, &e) {
        Some(s) => Some(read_integers(s, b.row_count as usize)),
        None => None,
    }
}

/// Read the current version's integers as the requester does: pin it, compare its
/// number with what the task said, read it, and give the pin back. The head and
/// the pool are as before.
pub fn read_output(
    art: &Artifact,
    head: &mut ArtifactHead,
    out: &mut ChunkPool,
    registry: &SchemaRegistry,
    result: &ChunkDesc,
) -> (r: Result<Vec<i64>, TripError>)
    requires
        live(old(head), old(out), art.name_id),
    ensures
        live(final(head), final(out), art.name_id),
        final(head)@ == old(head)@,
        final(out)@ == old(out)@,
        final(out).same_place(old(out)),
        match output_read(*art, old(head)@, old(out), registry@, *result) {
            Err(e) => r is Err && r->Err_0 == e,
            Ok(x) => {
                &&& r is Ok
                &&& r->Ok_0@.len() == x.len()
                &&& forall|i: int| 0 <= i < x.len() ==> #[trigger] r->Ok_0@[i] == x[i]
            },
        },
{
    let ghost h0 = head@;
    let told: u64 = match result_version(result) {
        Some(v) => v,
        None => {
            return Err(TripError::NotAVersion);
        },
    };
    if let Some(k) = head.find_slot_with_manifest(head.current, head.manifest_desc) {
        assert(current_slot(h0, k));
        if head.pins[k].pins == u32::MAX {
            return Err(TripError::Crowded);
        }
        proof {
            assert forall|j: usize| #[trigger] current_slot(h0, j) implies j == k by {
                if j < k {
                    assert(h0.pins[j as int].tracks(h0.current));
                } else if k < j {
                    assert(h0.pins[k as int].tracks(h0.current));
                }
            }
        }
    } else {
        proof {
            assert forall|j: usize| #[trigger] current_slot(h0, j) implies false by {
                assert(h0.pins[j as int].tracks(h0.current));
            }
        }
    }
    let pin: VersionPin = match art.pin(head, out) {
        Ok(p) => p,
        Err(e) => {
            return Err(TripError::Pin(e));
        },
    };
    let r: Result<Vec<i64>, TripError> = if pin.version != told {
        Err(TripError::Version { told, found: pin.version })
    } else {
        match pin.as_arrow(out, registry) {
            Err(e) => Err(TripError::Read(e)),
            Ok(rows) => match first_integers(&rows) {
                Some(v) => Ok(v),
                None => Err(TripError::NotInt64),
            },
        }
    };
    proof {
        let k = pin.slot_idx as int;
        assert(h0.pins[k].tracks(h0.current));
        pin_then_unpin_is_nothing(h0, k);
        assert(!last_pin(head@, k));
    }
    art.unpin(head, out, pin);
    r
}

/// The first row from `i` on in which `x` is not twice the input.
pub open spec fn wrong_row(x: Seq<int>, input: Seq<i64>, i: int) -> Option<int>
    decreases x.len() - i,
{
    if i >= x.len() {
        None
    } else if x[i] != 2 * input[i] {
        Some(i)
    } else {
        wrong_row(x, input, i + 1)
    }
}

proof fn lemma_wrong_row(x: Seq<int>, input: Seq<i64>, i: int, row: int)
    requires
        0 <= i <= row <= x.len(),
        forall|k: int| i <= k < row ==> #[trigger] x[k] == 2 * input[k],
        row < x.len() ==> x[row] != 2 * input[row],
    ensures
        wrong_row(x, input, i) == if row < x.len() {
            Some(row)
        } else {
            None
        },
    decreases row - i,
{
    if i < row {
        lemma_wrong_row(x, input, i + 1, row);
    }
}

/// How many rows the output has, if it is read and is twice the input.
#[verifier::opaque]
pub open spec fn comparison(
    art: Artifact,
    h: HeadView,
    out: &ChunkPool,
    reg: RegistryView,
    result: ChunkDesc,
    input: Seq<i64>,
) -> Result<usize, TripError> {
    match output_read(art, h, out, reg, result) {
        Err(e) => Err(e),
        Ok(x) => if x.len() != input.len() {
            Err(TripError::Wrong(Mismatch::Rows))
        } else {
            match wrong_row(x, input, 0) {
                Some(i) => Err(TripError::Wrong(Mismatch::Row { row: i as usize })),
                None => Ok(x.len() as usize),
            }
        },
    }
}

/// Read the output and compare it with the input. The head and the pool are as
/// before.
pub fn compare_output(
    art: &Artifact,
    head: &mut ArtifactHead,
    out: &mut ChunkPool,
    registry: &SchemaRegistry,
    result: &ChunkDesc,
    input: &Vec<i64>,
) -> (r: Result<usize, TripError>)
    requires
        live(old(head), old(out), art.name_id),
    ensures
        live(final(head), final(out), art.name_id),
        final(head)@ == old(head)@,
        final(out)@ == old(out)@,
        final(out).same_place(old(out)),
        r == comparison(*art, old(head)@, old(out), registry@, *result, input@),
{
    proof {
        reveal(comparison);
    }
    let ghost x = output_read(*art, head@, out, registry@, *result)->Ok_0;
    let output: Vec<i64> = match read_output(art, head, out, registry, result) {
        Ok(v) => v,
        Err(e) => {
            return Err(e);
        },
    };
    let n: usize = output.len();
    match verify_doubled(input, &output) {
        Ok(_) => {
            proof {
                assert forall|i: int| 0 <= i < x.len() implies #[trigger] x[i] == 2 * input@[i] by {
                    assert(output@[i] == x[i]);
                }
                lemma_wrong_row(x, input@, 0, x.len() as int);
            }
            Ok(n)
        },
        Err(m) => {
            proof {
                if let Mismatch::Row { row } = m {
                    assert(output@[row as int] == x[row as int]);
                    assert forall|i: int| 0 <= i < row implies #[trigger] x[i] == 2 * input@[i] by {
                        assert(output@[i] == x[i]);
                    }
                    lemma_wrong_row(x, input@, 0, row as int);
                }
            }
            Err(TripError::Wrong(m))
        },
    }
}

/// What the requester does once it is satisfied: it gives the retained input
/// back, and the output if the task's policy says so. Whether each is back.
pub fn acknowledge(
    payload: &mut ChunkPool,
    input: &ChunkDesc,
    art: &Artifact,
    head: &mut ArtifactHead,
    out: &mut ChunkPool,
    owner: u32,
    version: u64,
    clear_output: bool,
) -> (r: (bool, bool))
    requires
        old(payload).wf(),
        old(payload).current(*input) ==> old(payload).held(old(payload).at(input.offset)) >= 1,
        live(old(head), old(out), art.name_id),
    ensures
        final(payload).wf(),
        live(final(head), final(out), art.name_id),
        acknowledged(
            old(payload),
            *input,
            *art,
            old(head)@,
            old(out),
            final(payload),
            final(head)@,
            final(out),
            owner,
            version,
            clear_output,
            r,
        ),
{
    proof {
        reveal(acknowledged);
    }
    let cleared: bool = clear_retained_chunk(payload, input);
    if !clear_output || version == u64::MAX {
        return (cleared, false);
    }
    let evicted: Result<u64, Error> = art.evict_current_optimistic(head, out, owner, version);
    (cleared, evicted.is_ok())
}

/// What an acknowledgement does.
#[verifier::opaque]
pub open spec fn acknowledged(
    p0: &ChunkPool,
    input: ChunkDesc,
    art: Artifact,
    h0: HeadView,
    o0: &ChunkPool,
    p1: &ChunkPool,
    h1: HeadView,
    o1: &ChunkPool,
    owner: u32,
    version: u64,
    clear_output: bool,
    r: (bool, bool),
) -> bool {
    let i = p0.at(input.offset);
    &&& p1.same_place(p0)
    &&& r.0 == (p0.current(input) && p0@[i].owner == OWNER_NONE && p0@[i].refcount == 1)
    &&& p1@ == if p0.current(input) {
        p0@.update(i, released(p0@[i]))
    } else {
        p0@
    }
    &&& if !clear_output || version == NO_VERSION || version == u64::MAX {
        !r.1 && h1 == h0 && o1@ == o0@
    } else {
        exists|e: Result<u64, Error>| #[trigger]
            commit_outcome(
                art,
                h0,
                o0,
                h1,
                o1,
                version,
                owner,
                Commit::Replace,
                seq![],
                seq![],
                h0.schema_id,
                None,
                e,
            ) && r.1 == (e is Ok)
    }
}

/// What a round trip came to.
#[derive(Clone, Copy, Debug, PartialEq, Eq, Structural)]
pub struct Trip {
    /// The descriptor of the input, which is all that travelled.
    pub input: ChunkDesc,
    pub version: u64,
    pub rows: usize,
    /// The input is back in the pool.
    pub cleared: bool,
    /// The output is gone.
    pub output_cleared: bool,
}

/// Whether the round trip of a task whose input is retained came to `r`: the
/// worker took it, and the requester checked what came of it.
#[verifier::opaque]
pub open spec fn served(
    art: Artifact,
    p1: &ChunkPool,
    h0: HeadView,
    o0: &ChunkPool,
    reg1: RegistryView,
    p3: &ChunkPool,
    h3: HeadView,
    o3: &ChunkPool,
    reg2: RegistryView,
    d: ChunkDesc,
    input: Seq<i64>,
    requester: u32,
    worker: u32,
    clear_output: bool,
    r: Result<Trip, TripError>,
) -> bool {
    exists|p2: ChunkPool, h2: HeadView, o2: ChunkPool, done: Result<Done, WorkError>|
        #[trigger] same_pool(&p2, p1) && #[trigger] work_done(
            p1,
            d,
            art,
            h0,
            o0,
            reg1,
            h2,
            &o2,
            reg2,
            worker,
            done,
        ) && match done {
            Err(e) => {
                &&& r == Err::<Trip, TripError>(TripError::Work(e))
                &&& p3@ == p2@ && h3 == h2 && o3@ == o2@
            },
            Ok(w) => checked(
                art,
                &p2,
                h2,
                &o2,
                reg2,
                p3,
                h3,
                o3,
                d,
                w,
                input,
                requester,
                clear_output,
                r,
            ),
        }
}

/// Whether two pools are the same as far as contracts go.
pub open spec fn same_pool(p: &ChunkPool, q: &ChunkPool) -> bool {
    p@ == q@ && p.same_place(q)
}

/// Whether the round trip came to `r`, step by step.
pub open spec fn trip_done(
    art: Artifact,
    p0: &ChunkPool,
    h0: HeadView,
    o0: &ChunkPool,
    reg0: RegistryView,
    p3: &ChunkPool,
    h3: HeadView,
    o3: &ChunkPool,
    reg2: RegistryView,
    batch: &Batch,
    input: Seq<i64>,
    requester: u32,
    worker: u32,
    clear_output: bool,
    r: Result<Trip, TripError>,
) -> bool {
    exists|p1: ChunkPool, reg1: RegistryView, kept: Result<ChunkDesc, BatchError>| #[trigger]
        retain_done(p0, reg0, &p1, reg1, batch, kept) && match kept {
            Err(e) => {
                &&& r == Err::<Trip, TripError>(TripError::Retain(e))
                &&& p3@ == p1@ && h3 == h0 && o3@ == o0@ && reg2 == reg1
            },
            Ok(d) => served(
                art,
                &p1,
                h0,
                o0,
                reg1,
                p3,
                h3,
                o3,
                reg2,
                d,
                input,
                requester,
                worker,
                clear_output,
                r,
            ),
        }
}

/// Whether the requester's part of a round trip, once the worker is done, came to
/// `r`: the output is read and compared with the input, and acknowledged if it is
/// twice that.
#[verifier::opaque]
pub open spec fn checked(
    art: Artifact,
    p1: &ChunkPool,
    h2: HeadView,
    o2: &ChunkPool,
    reg2: RegistryView,
    p3: &ChunkPool,
    h3: HeadView,
    o3: &ChunkPool,
    d: ChunkDesc,
    w: Done,
    input: Seq<i64>,
    requester: u32,
    clear_output: bool,
    r: Result<Trip, TripError>,
) -> bool {
    match comparison(art, h2, o2, reg2, w.result, input) {
        Err(e) => r == Err::<Trip, TripError>(e) && p3@ == p1@ && h3 == h2 && o3@ == o2@,
        Ok(n) => {
            &&& r matches Ok(t) && t.input == d && t.version == h2.current && t.rows == n
            &&& exists|o: ChunkPool| #[trigger]
                same_pool(&o, o2) && acknowledged(
                    p1,
                    d,
                    art,
                    h2,
                    &o,
                    p3,
                    h3,
                    o3,
                    requester,
                    h2.current,
                    clear_output,
                    (r->Ok_0.cleared, r->Ok_0.output_cleared),
                )
        },
    }
}

/// The requester's part once the worker is done: read the output back, compare it
/// with the input, and acknowledge.
pub fn check_output(
    art: &Artifact,
    payload: &mut ChunkPool,
    head: &mut ArtifactHead,
    out: &mut ChunkPool,
    registry: &SchemaRegistry,
    d: &ChunkDesc,
    w: &Done,
    input: &Vec<i64>,
    requester: u32,
    clear_output: bool,
) -> (r: Result<Trip, TripError>)
    requires
        old(payload).wf(),
        old(payload).current(*d) ==> old(payload).held(old(payload).at(d.offset)) >= 1,
        live(old(head), old(out), art.name_id),
    ensures
        final(payload).wf(),
        live(final(head), final(out), art.name_id),
        checked(
            *art,
            old(payload),
            old(head)@,
            old(out),
            registry@,
            final(payload),
            final(head)@,
            final(out),
            *d,
            *w,
            input@,
            requester,
            clear_output,
            r,
        ),
{
    let ghost h2 = head@;
    let ghost o2 = *out;
    proof {
        reveal(checked);
    }
    let rows: usize = match compare_output(art, head, out, registry, &w.result, input) {
        Ok(n) => n,
        Err(e) => {
            return Err(e);
        },
    };
    let version: u64 = art.current_version(head);
    let ghost p1 = *payload;
    let ghost o = *out;
    let (cleared, output_cleared) = acknowledge(
        payload,
        d,
        art,
        head,
        out,
        requester,
        version,
        clear_output,
    );
    let t = Trip { input: *d, version, rows, cleared, output_cleared };
    proof {
        assert(version == h2.current);
        assert(same_pool(&o, &o2));
        assert(p1 == *old(payload));
        assert(acknowledged(
            &p1,
            *d,
            *art,
            h2,
            &o,
            payload,
            head@,
            out,
            requester,
            h2.current,
            clear_output,
            (t.cleared, t.output_cleared),
        ));
    }
    Ok(t)
}

/// The round trip of a task whose input is retained: let the worker take it, and
/// check what comes of it.
pub fn serve(
    art: &Artifact,
    payload: &mut ChunkPool,
    head: &mut ArtifactHead,
    out: &mut ChunkPool,
    registry: &mut SchemaRegistry,
    d: &ChunkDesc,
    input: &Vec<i64>,
    requester: u32,
    worker: u32,
    clear_output: bool,
) -> (r: Result<Trip, TripError>)
    requires
        old(payload).wf(),
        old(payload).current(*d) ==> old(payload).held(old(payload).at(d.offset)) >= 1,
        live(old(head), old(out), art.name_id),
        old(head)@.current < u64::MAX,
        old(registry)@.wf(),
    ensures
        final(payload).wf(),
        live(final(head), final(out), art.name_id),
        final(registry)@.wf(),
        served(
            *art,
            old(payload),
            old(head)@,
            old(out),
            old(registry)@,
            final(payload),
            final(head)@,
            final(out),
            final(registry)@,
            *d,
            input@,
            requester,
            worker,
            clear_output,
            r,
        ),
{
    proof {
        reveal(served);
    }
    let ghost p1 = *payload;
    let ghost h0 = head@;
    let ghost o0 = *out;
    let ghost reg1 = registry@;
    let done: Result<Done, WorkError> = work(payload, d, art, head, out, registry, worker);
    let ghost p2 = *payload;
    let ghost h2 = head@;
    let ghost o2 = *out;
    assert(same_pool(&p2, &p1));
    assert(work_done(&p1, *d, *art, h0, &o0, reg1, h2, &o2, registry@, worker, done));
    match done {
        Err(e) => {
            Err(TripError::Work(e))
        },
        Ok(w) => {
            assert(p2.held(p2.at(d.offset)) == p1.held(p1.at(d.offset)));
            check_output(art, payload, head, out, registry, d, &w, input, requester, clear_output)
        },
    }
}

/// The whole round trip of a task over the integers `input`, which `batch` holds:
/// retain it, let the worker double it, read the output back, check it, and
/// acknowledge.
pub fn round_trip(
    art: &Artifact,
    payload: &mut ChunkPool,
    head: &mut ArtifactHead,
    out: &mut ChunkPool,
    registry: &mut SchemaRegistry,
    batch: &Batch,
    input: &Vec<i64>,
    requester: u32,
    worker: u32,
    clear_output: bool,
) -> (r: Result<Trip, TripError>)
    requires
        old(payload).wf(),
        live(old(head), old(out), art.name_id),
        old(head)@.current < u64::MAX,
        old(registry)@.wf(),
        old(registry)@.has_room(*batch.schema),
        batch.wf(),
    ensures
        final(payload).wf(),
        live(final(head), final(out), art.name_id),
        final(registry)@.wf(),
        trip_done(
            *art,
            old(payload),
            old(head)@,
            old(out),
            old(registry)@,
            final(payload),
            final(head)@,
            final(out),
            final(registry)@,
            batch,
            input@,
            requester,
            worker,
            clear_output,
            r,
        ),
{
    let ghost p0 = *payload;
    let ghost h0 = head@;
    let ghost o0 = *out;
    let ghost reg0 = registry@;
    let kept: Result<ChunkDesc, BatchError> = retain_input_chunk(payload, registry, batch, requester);
    let ghost p1 = *payload;
    let ghost reg1 = registry@;
    assert(retain_done(&p0, reg0, &p1, reg1, batch, kept));
    let d: ChunkDesc = match kept {
        Ok(d) => d,
        Err(e) => {
            return Err(TripError::Retain(e));
        },
    };
    proof {
        assert(p0.held(p0.at(d.offset)) >= 0 || !p0.wf());
    }
    serve(art, payload, head, out, registry, &d, input, requester, worker, clear_output)
}

} // verus!
