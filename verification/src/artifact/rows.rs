//! The rows of a pinned version.
use arrow_data::ArrayData;
use arrow_schema::Schema;
use vstd::prelude::*;

use crate::artifact::batches::CommitError;
use crate::artifact::error::Error;
use crate::artifact::manifest::ManifestView;
use crate::artifact::pin::VersionPin;
use crate::artifact::pool::ChunkPool;
use crate::artifact::reading::exact_totals;
use crate::artifact::window::{batches, groups};
use crate::batch::error::Error as BatchError;
use crate::batch::join::{columns_by_batch, join_rows, rows_joined};
use crate::batch::read::batch_read;
use crate::batch::rows::{is_rows_read, read_batch_chunks, rows_read, Rows};
use crate::batch::schema::{RegistryView, SchemaRegistry};
use crate::chunk::ChunkDesc;

verus! {

/// What reading each group of chunks as rows gives: the first refusal, or the
/// columns of every batch.
pub open spec fn all_rows_read(
    pool: &ChunkPool,
    reg: RegistryView,
    g: Seq<Seq<ChunkDesc>>,
) -> Result<Seq<Seq<ArrayData>>, BatchError>
    decreases g.len(),
{
    if g.len() == 0 {
        Ok(seq![])
    } else {
        match rows_read(pool, reg, g[0]) {
            Err(e) => Err(e),
            Ok(v) => match all_rows_read(pool, reg, g.skip(1)) {
                Err(e) => Err(e),
                Ok(rest) => Ok(seq![v] + rest),
            },
        }
    }
}

/// Whether reading as a whole gives what was read so far, followed by what
/// reading on gives.
spec fn reads_on(
    all: Result<Seq<Seq<ArrayData>>, BatchError>,
    so_far: Seq<Seq<ArrayData>>,
    on: Result<Seq<Seq<ArrayData>>, BatchError>,
) -> bool {
    match on {
        Err(e) => all == Err::<Seq<Seq<ArrayData>>, BatchError>(e),
        Ok(rs) => all == Ok::<Seq<Seq<ArrayData>>, BatchError>(so_far + rs),
    }
}

/// Read each group of chunks as rows.
fn read_groups(pool: &ChunkPool, g: &Vec<Vec<ChunkDesc>>, registry: &SchemaRegistry) -> (r: Result<
    Vec<Rows>,
    BatchError,
>)
    requires
        pool.wf(),
    ensures
        match all_rows_read(pool, registry@, groups(g@)) {
            Err(e) => r is Err && r->Err_0 == e,
            Ok(v) => r is Ok && columns_by_batch(r->Ok_0@) == v,
        },
        r matches Ok(v) ==> each_rows_read(pool, registry@, groups(g@), v@),
{
    let ghost gv = groups(g@);
    let mut out: Vec<Rows> = Vec::new();
    let n: usize = g.len();
    let mut i: usize = 0;
    proof {
        assert(gv.skip(0) =~= gv);
        assert(columns_by_batch(out@) =~= seq![]);
        if let Ok(v) = all_rows_read(pool, registry@, gv) {
            assert(columns_by_batch(out@) + v =~= v);
        }
    }
    while i < n
        invariant
            pool.wf(),
            n == g@.len(),
            gv == groups(g@),
            i <= n,
            out@.len() == i,
            reads_on(
                all_rows_read(pool, registry@, gv),
                columns_by_batch(out@),
                all_rows_read(pool, registry@, gv.skip(i as int)),
            ),
            forall|k: int|
                0 <= k < i ==> is_rows_read(
                    pool,
                    registry@,
                    gv[k],
                    Ok::<Rows, BatchError>(#[trigger] out@[k]),
                ),
        decreases n - i,
    {
        let ghost o0 = columns_by_batch(out@);
        let ghost before = all_rows_read(pool, registry@, gv.skip(i as int));
        proof {
            assert(gv.skip(i as int)[0] == g@[i as int]@);
            assert(gv.skip(i as int).skip(1) =~= gv.skip(i + 1));
        }
        match read_batch_chunks(pool, g[i].as_slice(), registry) {
            Err(e) => {
                return Err(e);
            },
            Ok(b) => {
                let ghost v = b.columns@;
                out.push(b);
                proof {
                    let after = all_rows_read(pool, registry@, gv.skip(i + 1));
                    assert(columns_by_batch(out@) =~= o0.push(v));
                    if before is Ok {
                        assert(o0 + (seq![v] + after->Ok_0) =~= o0.push(v) + after->Ok_0);
                    }
                }
            },
        }
        i = i + 1;
    }
    proof {
        assert(columns_by_batch(out@) + Seq::<Seq<ArrayData>>::empty() =~= columns_by_batch(out@));
    }
    Ok(out)
}

/// Whether the rows are what reading each group of chunks gives.
pub open spec fn each_rows_read(
    pool: &ChunkPool,
    reg: RegistryView,
    g: Seq<Seq<ChunkDesc>>,
    v: Seq<Rows>,
) -> bool {
    &&& v.len() == g.len()
    &&& forall|k: int|
        0 <= k < v.len() ==> is_rows_read(pool, reg, g[k], Ok::<Rows, BatchError>(#[trigger] v[k]))
}

/// The schema of the rows that the chunks `s` hold.
pub open spec fn schema_read(pool: &ChunkPool, reg: RegistryView, s: Seq<ChunkDesc>) -> Schema {
    *reg.by_id[batch_read(pool, reg, s)->Ok_0.0.schema_id]
}

/// The columns of the table of the chain `t`, all in one, or why there are none.
pub open spec fn table_rows(pool: &ChunkPool, reg: RegistryView, t: Seq<ManifestView>) -> Result<
    Seq<ArrayData>,
    CommitError,
> {
    if !exact_totals(t) {
        Err(CommitError::Artifact(Error::VersionGone))
    } else {
        let g = batches(t);
        match all_rows_read(pool, reg, g) {
            Err(e) => Err(CommitError::Batch(e)),
            Ok(v) => if v.len() == 0 {
                Err(CommitError::Artifact(Error::VersionGone))
            } else if v.len() == 1 {
                Ok(v[0])
            } else {
                match rows_joined(schema_read(pool, reg, g[0]), v) {
                    Err(e) => Err(CommitError::Batch(e)),
                    Ok(w) => Ok(w),
                }
            },
        }
    }
}

impl VersionPin {
    /// The rows of the pinned version, batch by batch and in row order.
    pub fn as_arrow_batches(&self, pool: &ChunkPool, registry: &SchemaRegistry) -> (r: Result<
        Vec<Rows>,
        CommitError,
    >)
        requires
            self.frozen(pool),
        ensures
            if !exact_totals(self.table(pool)) {
                r is Err && r->Err_0 == CommitError::Artifact(Error::VersionGone)
            } else {
                match all_rows_read(pool, registry@, batches(self.table(pool))) {
                    Err(e) => r is Err && r->Err_0 == CommitError::Batch(e),
                    Ok(v) => {
                        &&& r is Ok
                        &&& columns_by_batch(r->Ok_0@) == v
                        &&& each_rows_read(pool, registry@, batches(self.table(pool)), r->Ok_0@)
                    },
                }
            },
    {
        let g: Vec<Vec<ChunkDesc>> = match self.batches(pool) {
            Ok(g) => g,
            Err(e) => {
                return Err(CommitError::Artifact(e));
            },
        };
        match read_groups(pool, &g, registry) {
            Ok(v) => Ok(v),
            Err(e) => Err(CommitError::Batch(e)),
        }
    }

    /// The rows of the pinned version, all in one: those of its only batch, or
    /// all batches joined. An empty version is gone.
    pub fn as_arrow(&self, pool: &ChunkPool, registry: &SchemaRegistry) -> (r: Result<Rows, CommitError>)
        requires
            self.frozen(pool),
        ensures
            match table_rows(pool, registry@, self.table(pool)) {
                Err(e) => r is Err && r->Err_0 == e,
                Ok(w) => {
                    &&& r is Ok
                    &&& *r->Ok_0.schema == schema_read(pool, registry@, batches(self.table(pool))[0])
                    &&& r->Ok_0.columns@ == w
                },
            },
    {
        let mut v: Vec<Rows> = match self.as_arrow_batches(pool, registry) {
            Ok(v) => v,
            Err(e) => {
                return Err(e);
            },
        };
        let n: usize = v.len();
        proof {
            assert(columns_by_batch(v@).len() == n);
            if n > 0 {
                let first = v@[0];
                assert(is_rows_read(
                    pool,
                    registry@,
                    batches(self.table(pool))[0],
                    Ok::<Rows, BatchError>(first),
                ));
                assert(columns_by_batch(v@)[0] == first.columns@);
            }
        }
        if n > 1 {
            return match join_rows(&v) {
                Ok(r) => Ok(r),
                Err(e) => Err(CommitError::Batch(e)),
            };
        }
        match v.pop() {
            Some(r) => Ok(r),
            None => Err(CommitError::Artifact(Error::VersionGone)),
        }
    }
}

} // verus!
