//! What a reader of a version gets.
use arrow_data::ArrayData;
use vstd::prelude::*;

use crate::artifact::batches::{all_read, CommitError};
use crate::artifact::manifest::ManifestView;
use crate::artifact::pool::ChunkPool;
use crate::artifact::reading::exact_totals;
use crate::artifact::rows::{all_rows_read, schema_read, table_rows};
use crate::artifact::window::batches;
use crate::batch::error::Error as BatchError;
use crate::batch::join::rows_joined;
use crate::batch::join_laws::{
    batches_are_joined_where_arrow_joins_them, column_by_batch, nothing_overflows, of_types_read,
};
use crate::batch::outside::{array_tree, array_trees, joined_array, schema_nullable, schema_types};
use crate::batch::plain::is_type;
use crate::batch::read::{batch_read, ReadView};
use crate::batch::rows::rows_read;
use crate::batch::schema::RegistryView;
use crate::chunk::ChunkDesc;

verus! {

/// Every batch is read, in order: wherever each can be read, so can all, and what
/// comes out is what each gives.
pub proof fn every_batch_is_read(pool: &ChunkPool, reg: RegistryView, g: Seq<Seq<ChunkDesc>>)
    requires
        forall|i: int| 0 <= i < g.len() ==> rows_read(pool, reg, #[trigger] g[i]) is Ok,
    ensures
        all_rows_read(pool, reg, g) == Ok::<Seq<Seq<ArrayData>>, BatchError>(
            Seq::new(g.len(), |i: int| rows_read(pool, reg, g[i])->Ok_0),
        ),
    decreases g.len(),
{
    let v = Seq::new(g.len(), |i: int| rows_read(pool, reg, g[i])->Ok_0);
    if g.len() > 0 {
        let r = g.skip(1);
        assert forall|i: int| 0 <= i < r.len() implies rows_read(pool, reg, #[trigger] r[i]) is Ok by {
            assert(r[i] == g[i + 1]);
        }
        every_batch_is_read(pool, reg, r);
        assert(rows_read(pool, reg, g[0]) is Ok);
        let w = Seq::new(r.len(), |i: int| rows_read(pool, reg, r[i])->Ok_0);
        assert(seq![v[0]] + w =~= v);
    } else {
        assert(v =~= Seq::<Seq<ArrayData>>::empty());
    }
}

/// The first batch that cannot be read is why the table cannot.
pub proof fn the_first_unreadable_batch_is_told(
    pool: &ChunkPool,
    reg: RegistryView,
    g: Seq<Seq<ChunkDesc>>,
    k: int,
)
    requires
        0 <= k < g.len(),
        rows_read(pool, reg, g[k]) is Err,
        forall|i: int| 0 <= i < k ==> rows_read(pool, reg, #[trigger] g[i]) is Ok,
    ensures
        all_rows_read(pool, reg, g) == Err::<Seq<Seq<ArrayData>>, BatchError>(
            rows_read(pool, reg, g[k])->Err_0,
        ),
    decreases k,
{
    if k > 0 {
        let r = g.skip(1);
        assert(rows_read(pool, reg, g[0]) is Ok);
        assert forall|i: int| 0 <= i < k - 1 implies rows_read(pool, reg, #[trigger] r[i]) is Ok by {
            assert(r[i] == g[i + 1]);
        }
        assert(r[k - 1] == g[k]);
        the_first_unreadable_batch_is_told(pool, reg, r, k - 1);
    }
}

/// Every batch is located, in order.
pub proof fn every_batch_is_located(pool: &ChunkPool, reg: RegistryView, g: Seq<Seq<ChunkDesc>>)
    requires
        forall|i: int| 0 <= i < g.len() ==> batch_read(pool, reg, #[trigger] g[i]) is Ok,
    ensures
        all_read(pool, reg, g) == Ok::<Seq<Seq<ReadView>>, BatchError>(
            Seq::new(g.len(), |i: int| batch_read(pool, reg, g[i])->Ok_0.1),
        ),
    decreases g.len(),
{
    let v = Seq::new(g.len(), |i: int| batch_read(pool, reg, g[i])->Ok_0.1);
    if g.len() > 0 {
        let r = g.skip(1);
        assert forall|i: int| 0 <= i < r.len() implies batch_read(pool, reg, #[trigger] r[i]) is Ok by {
            assert(r[i] == g[i + 1]);
        }
        every_batch_is_located(pool, reg, r);
        assert(batch_read(pool, reg, g[0]) is Ok);
        let w = Seq::new(r.len(), |i: int| batch_read(pool, reg, r[i])->Ok_0.1);
        assert(seq![v[0]] + w =~= v);
    } else {
        assert(v =~= Seq::<Seq<ReadView>>::empty());
    }
}

/// A table is read as one wherever its totals are exact and each of its batches
/// can be read: as its only batch, or as its batches joined under the schema of
/// the first. A table without batches is gone.
pub proof fn a_table_is_read_as_one(pool: &ChunkPool, reg: RegistryView, t: Seq<ManifestView>)
    requires
        exact_totals(t),
        forall|i: int|
            0 <= i < batches(t).len() ==> rows_read(pool, reg, #[trigger] batches(t)[i]) is Ok,
    ensures
        ({
            let g = batches(t);
            let v = Seq::new(g.len(), |i: int| rows_read(pool, reg, g[i])->Ok_0);
            &&& g.len() == 0 ==> table_rows(pool, reg, t) is Err
            &&& g.len() == 1 ==> table_rows(pool, reg, t) == Ok::<Seq<ArrayData>, CommitError>(
                rows_read(pool, reg, g[0])->Ok_0,
            )
            &&& g.len() > 1 ==> match rows_joined(schema_read(pool, reg, g[0]), v) {
                Ok(w) => table_rows(pool, reg, t) == Ok::<Seq<ArrayData>, CommitError>(w),
                Err(e) => table_rows(pool, reg, t) == Err::<Seq<ArrayData>, CommitError>(
                    CommitError::Batch(e),
                ),
            }
        }),
{
    every_batch_is_read(pool, reg, batches(t));
}

/// A table of several batches is read as one wherever each batch is read and Arrow joins
/// their columns: batches of as many columns each as the schema of the first has fields, of
/// types that are read, that overflow nothing, with nulls or without. Each column is then
/// what Arrow makes of that column of all batches, one batch behind the other.
pub proof fn a_table_is_read_wherever_arrow_joins_it(
    pool: &ChunkPool,
    reg: RegistryView,
    t: Seq<ManifestView>,
    w: Seq<ArrayData>,
)
    requires
        exact_totals(t),
        batches(t).len() > 1,
        forall|i: int|
            0 <= i < batches(t).len() ==> rows_read(pool, reg, #[trigger] batches(t)[i]) is Ok
                && rows_read(pool, reg, batches(t)[i])->Ok_0.len() == w.len(),
        ({
            let v = Seq::new(batches(t).len(), |i: int| rows_read(pool, reg, batches(t)[i])->Ok_0);
            let schema = schema_read(pool, reg, batches(t)[0]);
            &&& w.len() > 0 && w.len() == schema_types(schema).len()
            &&& forall|k: int|
                #![trigger w[k]]
                0 <= k < w.len() ==> {
                    let c = column_by_batch(v, k);
                    &&& joined_array(c) == Some(w[k])
                    &&& forall|i: int| 0 <= i < v.len() ==> of_types_read(array_tree((#[trigger] v[i])[k]))
                    &&& nothing_overflows(array_tree(v[0][k]), array_trees(c))
                    &&& is_type(array_tree(w[k]).of, schema_types(schema)[k])
                    &&& array_tree(w[k]).len == array_tree(w[0]).len
                    &&& schema_nullable(schema)[k] || array_tree(w[k]).null_count == 0
                }
        }),
    ensures
        table_rows(pool, reg, t) == Ok::<Seq<ArrayData>, CommitError>(w),
{
    let g = batches(t);
    let v = Seq::new(g.len(), |i: int| rows_read(pool, reg, g[i])->Ok_0);
    a_table_is_read_as_one(pool, reg, t);
    assert forall|i: int| 0 <= i < v.len() implies (#[trigger] v[i]).len() == w.len() by {
        assert(rows_read(pool, reg, g[i]) is Ok);
    }
    batches_are_joined_where_arrow_joins_them(schema_read(pool, reg, g[0]), v, w);
}

} // verus!
