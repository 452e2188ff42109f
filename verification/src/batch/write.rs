//! Writing batches.
use std::sync::Arc;

use arrow_data::ArrayData;
use arrow_schema::{DataType, Schema};
use vstd::prelude::*;

use crate::artifact::pool::{
    best_fit, chunk_ok, held, lemma_at, lemma_has, lemma_quiet, overwritten, ChunkPool, ChunkState,
    ChunkView,
};
use crate::batch::array::{
    all_normal, byte_views, flat_buffers_all, flat_nodes_all, normal, plan_batch, plans_refusal,
    tree, trees, ArrayNode, ArrayView, Plan,
};
use crate::batch::column::{
    all_fit, column_of, first_refused, fits, is_lined_up, lemma_all_fit, lemma_all_normal,
    lemma_genuine_trees, lined_up, normalize, ready,
};
use crate::batch::error::Error;
use crate::batch::layout::{
    aligned, payload_at, tables_end, BatchHeader, NodeEntry, BATCH_FORMAT, BATCH_MAGIC,
};
use crate::batch::outside::{
    field_nulls, field_types, genuine_tree, genuine_trees, schema_nullable, schema_types,
};
use crate::batch::pack::{
    clamped, header_of, holds_batch, images, lemma_used, pack, pack_refusal, used, Packing,
};
use crate::batch::schema::{is_serializable, serializable, RegistryView, SchemaRegistry};
use crate::chunk::ChunkDesc;

verus! {

/// Rows of columns that follow a schema.
pub struct Batch {
    pub schema: Arc<Schema>,
    pub columns: Vec<ArrayNode>,
    pub num_rows: usize,
}

impl Batch {
    /// What the columns are.
    pub open spec fn cols(&self) -> Seq<ArrayView> {
        trees(self.columns@)
    }

    /// The id the registry has, or will have, for the schema.
    pub open spec fn id_in(&self, r: RegistryView) -> u32 {
        r.id_of(*self.schema)
    }

    /// The columns are Arrow's and follow the schema, each starts at element `0`
    /// of its buffers and has the parts its type asks for, and the schema can be
    /// serialized.
    pub open spec fn wf(&self) -> bool {
        &&& all_normal(self.cols())
        &&& all_fit(schema_types(*self.schema), self.cols())
        &&& lined_up(schema_nullable(*self.schema), self.cols(), self.num_rows as nat)
        &&& genuine_trees(self.cols())
        &&& serializable(*self.schema)
    }
}

/// The columns as they are written.
pub open spec fn columns_of(types: Seq<DataType>, columns: Seq<ArrayData>) -> Seq<ArrayView> {
    Seq::new(columns.len(), |i: int| column_of(columns[i], types[i])->Ok_0)
}

/// Why Arrow columns make no batch.
pub open spec fn columns_refusal(schema: Schema, columns: Seq<ArrayData>, rows: nat) -> Option<Error> {
    if !serializable(schema) {
        Some(Error::Unsupported("schema text too long"))
    } else if columns.len() != schema_types(schema).len() {
        Some(Error::Arrow)
    } else if first_refused(schema_types(schema), columns) is Some {
        first_refused(schema_types(schema), columns)
    } else if !lined_up(schema_nullable(schema), columns_of(schema_types(schema), columns), rows) {
        Some(Error::Arrow)
    } else {
        None
    }
}

impl Batch {
    /// A batch of Arrow columns, each normalized. There is none if the columns do
    /// not follow the schema, if one cannot be normalized, or if the schema cannot
    /// be serialized.
    pub fn from_columns(schema: Arc<Schema>, columns: &Vec<ArrayData>, num_rows: usize) -> (r: Result<
        Batch,
        Error,
    >)
        ensures
            match columns_refusal(*schema, columns@, num_rows as nat) {
                None => {
                    &&& r is Ok
                    &&& r->Ok_0.wf()
                    &&& *r->Ok_0.schema == *schema
                    &&& r->Ok_0.num_rows == num_rows
                    &&& r->Ok_0.cols() == columns_of(schema_types(*schema), columns@)
                },
                Some(e) => r is Err && r->Err_0 == e,
            },
    {
        if !is_serializable(&schema) {
            return Err(Error::Unsupported("schema text too long"));
        }
        let types: Vec<DataType> = field_types(&schema);
        let nullable: Vec<bool> = field_nulls(&schema);
        let n: usize = columns.len();
        if n != types.len() {
            return Err(Error::Arrow);
        }
        let mut out: Vec<ArrayNode> = Vec::new();
        let mut i: usize = 0;
        proof {
            assert(columns@.skip(0) =~= columns@);
            assert(types@.skip(0) =~= types@);
        }
        while i < n
            invariant
                n == columns@.len(),
                n == types@.len(),
                types@ == schema_types(*schema),
                serializable(*schema),
                i <= n,
                out@.len() == i,
                first_refused(types@, columns@) == first_refused(
                    types@.skip(i as int),
                    columns@.skip(i as int),
                ),
                forall|k: int|
                    0 <= k < i ==> tree(#[trigger] out@[k]) == column_of(columns@[k], types@[k])->Ok_0 && ready(
                        tree(out@[k]),
                    ) && tree(out@[k]).of == types@[k] && genuine_tree(tree(out@[k])),
            decreases n - i,
        {
            proof {
                assert(columns@.skip(i as int)[0] == columns@[i as int]);
                assert(columns@.skip(i as int).skip(1) =~= columns@.skip(i + 1));
                assert(types@.skip(i as int).skip(1) =~= types@.skip(i + 1));
            }
            match normalize(&columns[i], &types[i]) {
                Ok(a) => {
                    out.push(a);
                },
                Err(e) => {
                    return Err(e);
                },
            }
            i = i + 1;
        }
        proof {
            assert(trees(out@) =~= columns_of(types@, columns@)) by {
                assert forall|k: int| 0 <= k < n implies trees(out@)[k] == column_of(
                    columns@[k],
                    types@[k],
                )->Ok_0 by {
                    assert(tree(out@[k]) == column_of(columns@[k], types@[k])->Ok_0);
                }
            }
        }
        if !is_lined_up(&nullable, &out, num_rows) {
            return Err(Error::Arrow);
        }
        let b = Batch { schema, columns: out, num_rows };
        proof {
            assert forall|k: int| 0 <= k < b.cols().len() implies normal(#[trigger] b.cols()[k]) && fits(
                b.cols()[k],
            ) && b.cols()[k].of == types@[k] && genuine_tree(b.cols()[k]) by {
                assert(ready(tree(out@[k])));
            }
            lemma_all_normal(b.cols());
            lemma_all_fit(types@, b.cols());
            lemma_genuine_trees(b.cols());
        }
        Ok(b)
    }
}

// ---- chunks for a batch ----

/// The chunk the pool hands out for `size` bytes.
pub open spec fn pick(p: Seq<ChunkView>, size: int) -> Option<int> {
    if exists|k: int| best_fit(p, k, size) {
        Some(choose|k: int| best_fit(p, k, size))
    } else {
        None
    }
}

/// The chunk marked as handed out.
pub open spec fn handed_out(c: ChunkView) -> ChunkView {
    ChunkView { allocated: true, ..c }
}

/// The chunks the pool hands out for these sizes, one after the other, and the
/// pool afterwards; `None` if it runs out.
pub open spec fn allot(p: Seq<ChunkView>, sizes: Seq<int>) -> Option<(Seq<int>, Seq<ChunkView>)>
    decreases sizes.len(),
{
    if sizes.len() == 0 {
        Some((seq![], p))
    } else {
        match allot(p, sizes.drop_last()) {
            None => None,
            Some((ks, q)) => match pick(q, sizes.last()) {
                None => None,
                Some(k) => Some((ks.push(k), q.update(k, handed_out(q[k])))),
            },
        }
    }
}

/// What the chunks handed out are: distinct, from the free ones, large enough.
pub open spec fn allotted(p: Seq<ChunkView>, sizes: Seq<int>, ks: Seq<int>, q: Seq<ChunkView>) -> bool {
    &&& ks.len() == sizes.len()
    &&& q.len() == p.len()
    &&& forall|c: int|
        0 <= c < ks.len() ==> 0 <= #[trigger] ks[c] < p.len() && !p[ks[c]].allocated && q[ks[c]]
            == handed_out(p[ks[c]]) && p[ks[c]].len >= sizes[c]
    &&& forall|c: int, d: int| 0 <= c < d < ks.len() ==> ks[c] != ks[d]
    &&& forall|j: int| 0 <= j < p.len() && !ks.contains(j) ==> #[trigger] q[j] == p[j]
}

/// If no chunk fits, none is handed out.
pub proof fn lemma_none_fits(p: Seq<ChunkView>, size: int)
    requires
        forall|j: int| 0 <= j < p.len() ==> !crate::artifact::pool::fits(#[trigger] p[j], size),
    ensures
        pick(p, size) is None,
{
    if exists|k: int| best_fit(p, k, size) {
        let k = choose|k: int| best_fit(p, k, size);
        assert(crate::artifact::pool::fits(p[k], size));
    }
}

pub proof fn lemma_pick(p: Seq<ChunkView>, k: int, size: int)
    requires
        best_fit(p, k, size),
    ensures
        pick(p, size) == Some(k),
{
    let j = choose|j: int| best_fit(p, j, size);
    assert(best_fit(p, j, size));
    assert(crate::artifact::pool::fits(p[j], size) && crate::artifact::pool::fits(p[k], size));
}

proof fn lemma_allotted_push(
    p: Seq<ChunkView>,
    sizes: Seq<int>,
    ks: Seq<int>,
    q: Seq<ChunkView>,
    size: int,
    k: int,
)
    requires
        allotted(p, sizes, ks, q),
        best_fit(q, k, size),
    ensures
        allotted(p, sizes.push(size), ks.push(k), q.update(k, handed_out(q[k]))),
{
    let ks1 = ks.push(k);
    let q1 = q.update(k, handed_out(q[k]));
    assert(crate::artifact::pool::fits(q[k], size));
    assert(!ks.contains(k)) by {
        if ks.contains(k) {
            let c = choose|c: int| 0 <= c < ks.len() && ks[c] == k;
            assert(q[ks[c]] == handed_out(p[ks[c]]));
        }
    }
    assert(q[k] == p[k]);
    assert forall|c: int| 0 <= c < ks1.len() implies 0 <= #[trigger] ks1[c] < p.len()
        && !p[ks1[c]].allocated && q1[ks1[c]] == handed_out(p[ks1[c]]) && p[ks1[c]].len
        >= sizes.push(size)[c] by {
        if c < ks.len() {
            assert(ks1[c] == ks[c]);
            assert(ks.contains(ks[c]));
        }
    }
    assert forall|j: int| 0 <= j < p.len() && !ks1.contains(j) implies #[trigger] q1[j] == p[j] by {
        assert(ks1[ks.len() as int] == k);
        if ks.contains(j) {
            let c = choose|c: int| 0 <= c < ks.len() && ks[c] == j;
            assert(ks1[c] == j);
        }
    }
    assert forall|c: int, d: int| 0 <= c < d < ks1.len() implies ks1[c] != ks1[d] by {
        if d == ks.len() {
            assert(ks.contains(ks[c]));
        }
    }
}

/// The descriptor of chunk `k`.
pub open spec fn desc_of(pool: &ChunkPool, k: int, schema_id: u32) -> ChunkDesc {
    ChunkDesc {
        segment_id: pool.segment_id,
        generation: pool@[k].generation,
        offset: pool.lay@[k],
        len: pool@[k].len,
        schema_id,
        _pad: 0,
    }
}

impl ChunkPool {
    /// The length of the longest chunk.
    pub open spec fn longest(&self) -> int {
        longest_of(self@)
    }

    /// The length of the longest chunk; `0` if there is none.
    pub fn max_chunk_size(&self) -> (n: u32)
        ensures
            n == self.longest(),
    {
        let m: usize = self.chunks.len();
        let mut n: u32 = 0;
        let mut i: usize = 0;
        while i < m
            invariant
                m == self.chunks@.len(),
                i <= m,
                n == longest_of(self@.take(i as int)),
            decreases m - i,
        {
            proof {
                assert(self@.take(i + 1).drop_last() =~= self@.take(i as int));
                assert(self@.take(i + 1).last() == self.chunks@[i as int]@);
            }
            if self.chunks[i].len > n {
                n = self.chunks[i].len;
            }
            i = i + 1;
        }
        proof {
            assert(self@.take(m as int) =~= self@);
        }
        n
    }

    /// Give a chunk back that was handed out and never loaned.
    pub fn free(&mut self, desc: &ChunkDesc)
        requires
            old(self).wf(),
        ensures
            final(self).wf(),
            final(self).same_place(old(self)),
            final(self)@ == old(self).freed(*desc),
            forall|j: int| 0 <= j < old(self)@.len() ==> #[trigger] final(self).held(j) == old(self).held(j),
    {
        let ghost p = self@;
        if let Some(k) = self.find(desc.segment_id, desc.offset) {
            proof {
                assert(p[k as int] == self.chunks@[k as int]@);
                assert(chunk_ok(p[k as int]));
            }
            if self.chunks[k].state == ChunkState::Free {
                self.chunks[k].allocated = false;
                proof {
                    let c = ChunkView { allocated: false, ..p[k as int] };
                    assert(self@ =~= p.update(k as int, c));
                    lemma_quiet(self.lay@, self.segment_id, p, k as int, c);
                }
            }
        }
    }

    /// The pool after a chunk that was never loaned was given back.
    pub open spec fn freed(&self, d: ChunkDesc) -> Seq<ChunkView> {
        let k = self.at(d.offset);
        if self.names(d.segment_id, d.offset) && self@[k].state == ChunkState::Free {
            self@.update(k, ChunkView { allocated: false, ..self@[k] })
        } else {
            self@
        }
    }
}

/// Sizes as integers.
pub open spec fn as_ints(s: Seq<usize>) -> Seq<int> {
    Seq::new(s.len(), |i: int| s[i] as int)
}

/// The chunks `p` with the bytes of `q`.
pub open spec fn with_bytes(p: Seq<ChunkView>, q: Seq<ChunkView>) -> Seq<ChunkView> {
    Seq::new(p.len(), |j: int| ChunkView { bytes: q[j].bytes, ..p[j] })
}

/// Give chunks back that were just handed out, and perhaps written to.
fn roll_back(
    pool: &mut ChunkPool,
    v: &Vec<ChunkDesc>,
    p: Ghost<Seq<ChunkView>>,
    sizes: Ghost<Seq<int>>,
    ks: Ghost<Seq<int>>,
    handed: Ghost<Seq<ChunkView>>,
)
    requires
        old(pool).wf(),
        allotted(p@, sizes@, ks@, handed@),
        old(pool)@ == with_bytes(handed@, old(pool)@),
        v@.len() == ks@.len(),
        forall|c: int|
            0 <= c < v@.len() ==> (#[trigger] v@[c]).segment_id == old(pool).segment_id && v@[c].offset
                == old(pool).lay@[ks@[c]],
        forall|j: int| 0 <= j < p@.len() ==> chunk_ok(#[trigger] p@[j]),
    ensures
        final(pool).wf(),
        final(pool).same_place(old(pool)),
        final(pool)@ == with_bytes(p@, old(pool)@),
        forall|j: int| 0 <= j < old(pool)@.len() ==> #[trigger] final(pool).held(j) == old(pool).held(j),
{
    let ghost q = pool@;
    let ghost back = with_bytes(p@, q);
    let ghost kk = ks@;
    let n: usize = v.len();
    let mut f: usize = 0;
    while f < n
        invariant
            pool.wf(),
            old(pool).wf(),
            q == old(pool)@,
            kk == ks@,
            back == with_bytes(p@, q),
            q == with_bytes(handed@, q),
            pool.same_place(old(pool)),
            allotted(p@, sizes@, kk, handed@),
            n == v@.len(),
            n == kk.len(),
            f <= n,
            forall|c: int|
                0 <= c < v@.len() ==> (#[trigger] v@[c]).segment_id == old(pool).segment_id
                    && v@[c].offset == old(pool).lay@[kk[c]],
            forall|j: int| 0 <= j < p@.len() ==> chunk_ok(#[trigger] p@[j]),
            pool@.len() == q.len(),
            forall|c: int| 0 <= c < f ==> pool@[#[trigger] kk[c]] == back[kk[c]],
            forall|c: int| f <= c < n ==> pool@[#[trigger] kk[c]] == q[kk[c]],
            forall|j: int| 0 <= j < q.len() && !kk.contains(j) ==> #[trigger] pool@[j] == q[j],
            forall|j: int| 0 <= j < q.len() ==> #[trigger] pool.held(j) == old(pool).held(j),
        decreases n - f,
    {
        let ghost p1 = pool@;
        let ghost k = kk[f as int];
        proof {
            assert(0 <= k < p@.len());
            lemma_at(pool.lay@, k);
            assert(pool.lay@[k] == v@[f as int].offset);
            assert(chunk_ok(p@[k]));
            assert(q[k] == with_bytes(handed@, q)[k]);
        }
        pool.free(&v[f]);
        proof {
            assert(pool@ =~= p1.update(k, back[k]));
            assert(kk.contains(k));
        }
        f = f + 1;
    }
    proof {
        assert forall|j: int| 0 <= j < p@.len() implies #[trigger] pool@[j] == back[j] by {
            assert(q[j] == with_bytes(handed@, q)[j]);
            if kk.contains(j) {
                let c = choose|c: int| 0 <= c < kk.len() && kk[c] == j;
                assert(pool@[kk[c]] == back[kk[c]]);
            }
        }
        assert(pool@ =~= back);
    }
}

/// Hand out one chunk for each size; none if one of them cannot be had.
pub fn allocate_all(pool: &mut ChunkPool, sizes: &Vec<usize>, schema_id: u32) -> (r: Result<
    Vec<ChunkDesc>,
    Error,
>)
    requires
        old(pool).wf(),
    ensures
        final(pool).wf(),
        final(pool).same_place(old(pool)),
        forall|j: int| 0 <= j < old(pool)@.len() ==> #[trigger] final(pool).held(j) == old(pool).held(j),
        match allot(old(pool)@, as_ints(sizes@)) {
            None => {
                &&& r is Err
                &&& r->Err_0 == Error::Core(crate::artifact::error::Error::Exhausted)
                &&& final(pool)@ == old(pool)@
            },
            Some((ks, q)) => {
                &&& r is Ok
                &&& allotted(old(pool)@, as_ints(sizes@), ks, q)
                &&& final(pool)@ == q
                &&& r->Ok_0@ == Seq::new(ks.len(), |c: int| desc_of(old(pool), ks[c], schema_id))
            },
        },
{
    let ghost p = pool@;
    let ghost s = as_ints(sizes@);
    let mut v: Vec<ChunkDesc> = Vec::new();
    let ghost mut ks: Seq<int> = seq![];
    let n: usize = sizes.len();
    let mut i: usize = 0;
    let mut short: bool = false;
    proof {
        assert(s.take(0) =~= seq![]);
        assert(v@ =~= Seq::new(ks.len(), |c: int| desc_of(pool, ks[c], schema_id)));
    }
    while i < n && !short
        invariant
            old(pool).wf(),
            pool.wf(),
            pool.same_place(old(pool)),
            p == old(pool)@,
            s == as_ints(sizes@),
            n == sizes@.len(),
            i <= n,
            forall|j: int| 0 <= j < p.len() ==> #[trigger] pool.held(j) == old(pool).held(j),
            v@ == Seq::new(ks.len(), |c: int| desc_of(old(pool), ks[c], schema_id)),
            ks.len() <= n,
            allotted(p, s.take(ks.len() as int), ks, pool@),
            allot(p, s.take(ks.len() as int)) == Some((ks, pool@)),
            !short ==> ks.len() == i,
            short ==> allot(p, s) is None,
        decreases n - i,
    {
        let ghost q = pool@;
        match pool.allocate(sizes[i]) {
            Ok(mut d) => {
                let ghost k = pool.at(d.offset);
                proof {
                    lemma_pick(q, k, s[i as int]);
                    assert(s.take(i + 1).drop_last() =~= s.take(i as int));
                    assert(s.take(i + 1) =~= s.take(i as int).push(s[i as int]));
                    lemma_allotted_push(p, s.take(i as int), ks, q, s[i as int], k);
                    lemma_has(pool.lay@, d.offset);
                    ks = ks.push(k);
                }
                d.schema_id = schema_id;
                v.push(d);
                proof {
                    assert(crate::artifact::pool::fits(q[k], s[i as int]));
                    assert(q[k].generation == p[k].generation && q[k].len == p[k].len) by {
                        if ks.drop_last().contains(k) {
                            let c = choose|c: int|
                                0 <= c < ks.drop_last().len() && ks.drop_last()[c] == k;
                            assert(ks[c] == ks[ks.len() - 1]);
                        }
                    }
                    assert(v@ =~= Seq::new(ks.len(), |c: int| desc_of(old(pool), ks[c], schema_id)));
                }
            },
            Err(_) => {
                proof {
                    assert(s.take(i + 1).drop_last() =~= s.take(i as int));
                    assert(pick(q, s[i as int]) is None) by {
                        if exists|k: int| best_fit(q, k, s[i as int]) {
                            let k = choose|k: int| best_fit(q, k, s[i as int]);
                            assert(crate::artifact::pool::fits(q[k], s[i as int]));
                        }
                    }
                    lemma_short(p, s, i + 1);
                }
                short = true;
            },
        }
        i = i + 1;
    }
    if short {
        proof {
            assert forall|j: int| 0 <= j < p.len() implies chunk_ok(#[trigger] p[j]) by {}
            assert(pool@ =~= with_bytes(pool@, pool@));
            assert forall|j: int| 0 <= j < p.len() implies with_bytes(p, pool@)[j] == p[j] by {
                if ks.contains(j) {
                    let c = choose|c: int| 0 <= c < ks.len() && ks[c] == j;
                    assert(pool@[ks[c]] == handed_out(p[ks[c]]));
                }
            }
            assert(with_bytes(p, pool@) =~= p);
        }
        let ghost q = pool@;
        roll_back(pool, &v, Ghost(p), Ghost(s.take(ks.len() as int)), Ghost(ks), Ghost(q));
        return Err(Error::Core(crate::artifact::error::Error::Exhausted));
    }
    proof {
        assert(s.take(n as int) =~= s);
    }
    Ok(v)
}

/// If the pool runs out for the first sizes, it does for all.
proof fn lemma_short(p: Seq<ChunkView>, s: Seq<int>, i: int)
    requires
        0 <= i <= s.len(),
        allot(p, s.take(i)) is None,
    ensures
        allot(p, s) is None,
    decreases s.len() - i,
{
    if i < s.len() {
        assert(s.take(i + 1).drop_last() =~= s.take(i));
        lemma_short(p, s, i + 1);
    } else {
        assert(s.take(i) =~= s);
    }
}

/// The length of the longest chunk.
pub open spec fn longest_of(p: Seq<ChunkView>) -> int
    decreases p.len(),
{
    if p.len() == 0 {
        0
    } else if p.last().len > longest_of(p.drop_last()) {
        p.last().len as int
    } else {
        longest_of(p.drop_last())
    }
}

// ---- writing ----

/// The chunk size a batch is packed for, and the buffers.
pub open spec fn batch_sizes(cols: Seq<ArrayView>, cap: int) -> Seq<int> {
    let b = flat_buffers_all(cols);
    used(b, payload_at(flat_nodes_all(cols).len() as int, b.len() as int), cap, b.len() as int)
}

/// Why a batch cannot be written, whatever is free in the pool.
pub open spec fn batch_refusal(cols: Seq<ArrayView>, rows: int, cap: int) -> Option<Error> {
    match plans_refusal(cols) {
        Some(e) => Some(e),
        None => match pack_refusal(flat_nodes_all(cols).len() as int, flat_buffers_all(cols), cap) {
            Some(e) => Some(e),
            None => if rows > u32::MAX {
                Some(Error::Unsupported("row count exceeds u32"))
            } else {
                None
            },
        },
    }
}

/// What each of the chunks holds.
pub open spec fn chunk_bytes(p: Seq<ChunkView>, ks: Seq<int>) -> Seq<Seq<u8>> {
    Seq::new(ks.len(), |c: int| p[ks[c]].bytes)
}

/// Whether the batch was written into the chunks the pool hands out for it,
/// and nothing else changed.
pub open spec fn batch_written(
    p0: &ChunkPool,
    p1: &ChunkPool,
    descs: Seq<ChunkDesc>,
    cols: Seq<ArrayView>,
    rows: int,
    schema_id: u32,
) -> bool {
    let cap = p0.longest();
    let b = flat_buffers_all(cols);
    let nodes = flat_nodes_all(cols);
    let (ks, q) = allot(p0@, batch_sizes(cols, cap))->Some_0;
    &&& allot(p0@, batch_sizes(cols, cap)) is Some
    &&& allotted(p0@, batch_sizes(cols, cap), ks, q)
    &&& descs == Seq::new(ks.len(), |c: int| desc_of(p0, ks[c], schema_id))
    &&& p1.wf()
    &&& p1.same_place(p0)
    &&& p1@.len() == p0@.len()
    &&& forall|j: int|
        0 <= j < p0@.len() ==> #[trigger] p1@[j] == (ChunkView { bytes: p1@[j].bytes, ..q[j] })
    &&& forall|j: int| 0 <= j < p0@.len() && !ks.contains(j) ==> #[trigger] p1@[j] == p0@[j]
    &&& holds_batch(chunk_bytes(p1@, ks), header_of(schema_id, rows, nodes, b, cap), nodes, b, cap)
}

/// Chunks that start with what holds a batch hold it too.
proof fn lemma_holds_longer(
    c: Seq<Seq<u8>>,
    d: Seq<Seq<u8>>,
    header: BatchHeader,
    nodes: Seq<NodeEntry>,
    b: Seq<Seq<u8>>,
    cap: int,
)
    requires
        holds_batch(c, header, nodes, b, cap),
        d.len() == c.len(),
        forall|k: int|
            0 <= k < c.len() ==> (#[trigger] d[k]).len() >= c[k].len() && d[k].take(
                c[k].len() as int,
            ) == c[k],
    ensures
        holds_batch(d, header, nodes, b, cap),
{
    let n = nodes.len() as int;
    let m = b.len() as int;
    let start = payload_at(n, m);
    assert(d[0].take(c[0].len() as int) == c[0]);
    assert forall|i: int| 0 <= i < c[0].len() implies #[trigger] d[0][i] == c[0][i] by {
        assert(d[0].take(c[0].len() as int)[i] == d[0][i]);
    }
    crate::batch::pack::lemma_tables_same(c[0], d[0], n, m);
    assert forall|i: int| 0 <= i < m implies #[trigger] crate::batch::pack::in_place(
        d,
        b,
        start,
        cap,
        i,
    ) by {
        assert(crate::batch::pack::in_place(c, b, start, cap, i));
        let p = crate::batch::pack::place(b, start, cap, i);
        assert(d[p.0].take(c[p.0].len() as int) == c[p.0]);
        assert(d[p.0].subrange(p.1, p.1 + b[i].len()) =~= d[p.0].take(c[p.0].len() as int).subrange(
            p.1,
            p.1 + b[i].len(),
        ));
    }
}

/// Copy the images of a batch into its chunks.
fn fill(pool: &mut ChunkPool, v: &Vec<ChunkDesc>, c: &Vec<Vec<u8>>, p0: Ghost<Seq<ChunkView>>, sizes: Ghost<Seq<int>>, ks: Ghost<Seq<int>>)
    requires
        old(pool).wf(),
        allotted(p0@, sizes@, ks@, old(pool)@),
        forall|j: int| 0 <= j < p0@.len() ==> chunk_ok(#[trigger] p0@[j]),
        v@.len() == ks@.len(),
        c@.len() == ks@.len(),
        forall|k: int|
            0 <= k < v@.len() ==> (#[trigger] v@[k]).segment_id == old(pool).segment_id && v@[k].offset
                == old(pool).lay@[ks@[k]],
        forall|k: int| 0 <= k < c@.len() ==> (#[trigger] c@[k])@.len() == sizes@[k],
    ensures
        final(pool).wf(),
        final(pool).same_place(old(pool)),
        final(pool)@.len() == old(pool)@.len(),
        forall|j: int| 0 <= j < old(pool)@.len() ==> #[trigger] final(pool).held(j) == old(pool).held(j),
        forall|j: int|
            0 <= j < old(pool)@.len() ==> #[trigger] final(pool)@[j] == (ChunkView {
                bytes: final(pool)@[j].bytes,
                ..old(pool)@[j]
            }),
        forall|j: int|
            0 <= j < old(pool)@.len() && !ks@.contains(j) ==> #[trigger] final(pool)@[j] == old(pool)@[j],
        forall|k: int|
            0 <= k < c@.len() ==> final(pool)@[#[trigger] ks@[k]].bytes == overwritten(
                old(pool)@[ks@[k]].bytes,
                c@[k]@,
            ),
{
    let ghost q = pool@;
    let ghost kk = ks@;
    let n: usize = v.len();
    let mut i: usize = 0;
    while i < n
        invariant
            pool.wf(),
            old(pool).wf(),
            q == old(pool)@,
            kk == ks@,
            pool.same_place(old(pool)),
            pool@.len() == q.len(),
            allotted(p0@, sizes@, kk, q),
            forall|j: int| 0 <= j < p0@.len() ==> chunk_ok(#[trigger] p0@[j]),
            n == v@.len(),
            n == kk.len(),
            n == c@.len(),
            i <= n,
            forall|k: int|
                0 <= k < v@.len() ==> (#[trigger] v@[k]).segment_id == old(pool).segment_id
                    && v@[k].offset == old(pool).lay@[kk[k]],
            forall|k: int| 0 <= k < c@.len() ==> (#[trigger] c@[k])@.len() == sizes@[k],
            forall|j: int| 0 <= j < q.len() ==> #[trigger] pool.held(j) == old(pool).held(j),
            forall|j: int|
                0 <= j < q.len() ==> #[trigger] pool@[j] == (ChunkView { bytes: pool@[j].bytes, ..q[j] }),
            forall|j: int| 0 <= j < q.len() && !kk.contains(j) ==> #[trigger] pool@[j] == q[j],
            forall|k: int|
                0 <= k < i ==> pool@[#[trigger] kk[k]].bytes == overwritten(q[kk[k]].bytes, c@[k]@),
            forall|k: int| i <= k < n ==> pool@[#[trigger] kk[k]] == q[kk[k]],
        decreases n - i,
    {
        let ghost p1 = pool@;
        let ghost k = kk[i as int];
        proof {
            assert(0 <= k < p0@.len() && !p0@[k].allocated);
            assert(chunk_ok(p0@[k]));
            lemma_at(pool.lay@, k);
            assert(pool.lay@[k] == v@[i as int].offset);
            assert(c@[i as int]@.len() == sizes@[i as int]);
            assert(kk.contains(k));
        }
        let r: Result<(), crate::artifact::error::Error> = pool.write(&v[i], c[i].as_slice());
        proof {
            assert(r is Ok);
            assert(pool@[k].bytes == overwritten(p1[k].bytes, c@[i as int]@));
            assert forall|x: int| 0 <= x < i + 1 implies pool@[#[trigger] kk[x]].bytes == overwritten(
                q[kk[x]].bytes,
                c@[x]@,
            ) by {
                if x < i {
                    assert(kk[x] != k);
                }
            }
        }
        i = i + 1;
    }
}

/// Write a batch into chunks of the pool. The first chunk holds the header and
/// the tables; buffers that do not fit behind them go to further chunks. The
/// chunks are handed out but not loaned yet.
pub fn write_batch_chunks(pool: &mut ChunkPool, registry: &mut SchemaRegistry, batch: &Batch) -> (r:
    Result<Vec<ChunkDesc>, Error>)
    requires
        old(pool).wf(),
        old(registry)@.wf(),
        old(registry)@.has_room(*batch.schema),
        batch.wf(),
    ensures
        final(pool).wf(),
        final(pool).same_place(old(pool)),
        forall|j: int| 0 <= j < old(pool)@.len() ==> #[trigger] final(pool).held(j) == old(pool).held(j),
        final(registry)@ == old(registry)@.interned(batch.schema),
        final(registry)@.wf(),
        r is Err ==> final(pool)@ == old(pool)@,
        match batch_refusal(batch.cols(), batch.num_rows as int, old(pool).longest()) {
            Some(e) => r is Err && r->Err_0 == e,
            None => if allot(old(pool)@, batch_sizes(batch.cols(), old(pool).longest())) is None {
                r is Err && r->Err_0 == Error::Core(crate::artifact::error::Error::Exhausted)
            } else {
                r is Ok && batch_written(
                    old(pool),
                    final(pool),
                    r->Ok_0@,
                    batch.cols(),
                    batch.num_rows as int,
                    batch.id_in(old(registry)@),
                )
            },
        },
{
    let schema_id: u32 = registry.intern(&batch.schema);
    let ghost cols = batch.cols();
    let plan: Plan = match plan_batch(&batch.columns) {
        Ok(p) => p,
        Err(e) => {
            return Err(e);
        },
    };
    let ghost b = byte_views(plan.buffers@);
    let cap: u32 = pool.max_chunk_size();
    let packing: Packing = match pack(&plan, cap) {
        Ok(p) => p,
        Err(e) => {
            return Err(e);
        },
    };
    if batch.num_rows as u64 > u32::MAX as u64 {
        return Err(Error::Unsupported("row count exceeds u32"));
    }
    let parts: usize = packing.chunk_used.len();
    let ghost start = payload_at(plan.nodes@.len() as int, b.len() as int);
    proof {
        let e = tables_end(plan.nodes@.len() as int, b.len() as int);
        assert(e <= aligned(e));
        lemma_used(b, start, cap as int, b.len() as int);
        assert(as_ints(packing.chunk_used@) =~= batch_sizes(cols, cap as int));
    }
    let header = BatchHeader {
        magic: BATCH_MAGIC,
        format: BATCH_FORMAT,
        schema_id,
        row_count: batch.num_rows as u32,
        node_count: plan.nodes.len() as u32,
        buffer_count: plan.buffers.len() as u32,
        chunk_count: parts as u32,
    };
    let v: Vec<ChunkDesc> = match allocate_all(pool, &packing.chunk_used, schema_id) {
        Ok(v) => v,
        Err(e) => {
            return Err(e);
        },
    };
    let ghost sizes = batch_sizes(cols, cap as int);
    let ghost ks = allot(old(pool)@, sizes)->Some_0.0;
    let ghost q = pool@;
    let c: Vec<Vec<u8>> = images(&header, &plan, &packing, cap);
    proof {
        assert forall|j: int| 0 <= j < old(pool)@.len() implies chunk_ok(#[trigger] old(pool)@[j]) by {}
    }
    fill(pool, &v, &c, Ghost(old(pool)@), Ghost(sizes), Ghost(ks));
    proof {
        let d = chunk_bytes(pool@, ks);
        let img = byte_views(c@);
        assert forall|k: int| 0 <= k < img.len() implies (#[trigger] d[k]).len() >= img[k].len()
            && d[k].take(img[k].len() as int) == img[k] by {
            let x = ks[k];
            assert(chunk_ok(old(pool)@[x]));
            assert(q[x] == handed_out(old(pool)@[x]));
            assert(pool@[x].bytes == overwritten(q[x].bytes, c@[k]@));
            assert(d[k].take(img[k].len() as int) =~= img[k]);
        }
        lemma_holds_longer(img, d, header, plan.nodes@, b, cap as int);
    }
    Ok(v)
}

/// Where the first `i` buffers end if all lie in one chunk.
pub open spec fn end_in_one(b: Seq<Seq<u8>>, start: int, i: int) -> int
    decreases i,
{
    if i <= 0 {
        start
    } else {
        aligned(end_in_one(b, start, i - 1)) + b[i - 1].len()
    }
}

/// The bytes a batch takes in one chunk.
pub open spec fn single_len(cols: Seq<ArrayView>) -> int {
    let b = flat_buffers_all(cols);
    end_in_one(b, payload_at(flat_nodes_all(cols).len() as int, b.len() as int), b.len() as int)
}

proof fn lemma_end_grows(b: Seq<Seq<u8>>, start: int, i: int, j: int)
    requires
        0 <= i <= j <= b.len(),
        start >= 0,
    ensures
        0 <= end_in_one(b, start, i) <= end_in_one(b, start, j),
    decreases j,
{
    if i < j {
        lemma_end_grows(b, start, i, j - 1);
        let x = end_in_one(b, start, j - 1);
        assert(x <= aligned(x));
    } else if i > 0 {
        lemma_end_grows(b, start, i - 1, j - 1);
        let x = end_in_one(b, start, j - 1);
        assert(x <= aligned(x));
    }
}

/// The bytes a batch takes if it is written into one chunk; `None` if it is
/// not supported.
pub fn serialized_len(columns: &Vec<ArrayNode>) -> (r: Option<usize>)
    ensures
        r == if plans_refusal(trees(columns@)) is Some {
            None::<usize>
        } else {
            Some(clamped(single_len(trees(columns@))))
        },
{
    let plan: Plan = match plan_batch(columns) {
        Ok(p) => p,
        Err(_) => {
            return None;
        },
    };
    let ghost b = byte_views(plan.buffers@);
    let n: usize = plan.buffers.len();
    let count: usize = plan.nodes.len();
    let raw: u128 = 32 + 24 * (count as u128) + 12 * (n as u128);
    let ghost start = payload_at(count as int, n as int);
    let first: u128 = (raw + 63) / 64 * 64;
    let mut end: u128 = first;
    let mut i: usize = 0;
    while i < n && end <= usize::MAX as u128
        invariant
            n == plan.buffers@.len(),
            b == byte_views(plan.buffers@),
            start >= 0,
            i <= n,
            end == end_in_one(b, start, i as int),
        decreases n - i,
    {
        assert(b[i as int] == plan.buffers@[i as int]@);
        let len: usize = plan.buffers[i].len();
        end = (end + 63) / 64 * 64 + len as u128;
        i = i + 1;
    }
    proof {
        lemma_end_grows(b, start, i as int, n as int);
    }
    if end > usize::MAX as u128 {
        Some(usize::MAX)
    } else {
        Some(end as usize)
    }
}

proof fn lemma_longest_same(p: Seq<ChunkView>, q: Seq<ChunkView>)
    requires
        p.len() == q.len(),
        forall|j: int| 0 <= j < p.len() ==> (#[trigger] q[j]).len == p[j].len,
    ensures
        longest_of(p) == longest_of(q),
    decreases p.len(),
{
    if p.len() > 0 {
        lemma_longest_same(p.drop_last(), q.drop_last());
    }
}

/// Whether nothing changed but the bytes of chunks nobody has.
pub open spec fn unused_bytes_aside(p: Seq<ChunkView>, q: Seq<ChunkView>) -> bool {
    &&& q == with_bytes(p, q)
    &&& forall|j: int| 0 <= j < p.len() && p[j].allocated ==> #[trigger] q[j] == p[j]
}

/// Write a batch into exactly one chunk.
pub fn write_batch(pool: &mut ChunkPool, registry: &mut SchemaRegistry, batch: &Batch) -> (r: Result<
    ChunkDesc,
    Error,
>)
    requires
        old(pool).wf(),
        old(registry)@.wf(),
        old(registry)@.has_room(*batch.schema),
        batch.wf(),
    ensures
        final(pool).wf(),
        final(pool).same_place(old(pool)),
        forall|j: int| 0 <= j < old(pool)@.len() ==> #[trigger] final(pool).held(j) == old(pool).held(j),
        final(registry)@ == old(registry)@.interned(batch.schema),
        final(registry)@.wf(),
        r is Err ==> unused_bytes_aside(old(pool)@, final(pool)@),
        match batch_refusal(batch.cols(), batch.num_rows as int, old(pool).longest()) {
            Some(e) => r is Err && r->Err_0 == e,
            None => {
                let sizes = batch_sizes(batch.cols(), old(pool).longest());
                if allot(old(pool)@, sizes) is None {
                    r is Err && r->Err_0 == Error::Core(crate::artifact::error::Error::Exhausted)
                } else if sizes.len() != 1 {
                    &&& r is Err
                    &&& r->Err_0 == (Error::ChunkTooSmall {
                        need: clamped(single_len(batch.cols())),
                        have: old(pool).longest() as usize,
                    })
                } else {
                    r is Ok && batch_written(
                        old(pool),
                        final(pool),
                        seq![r->Ok_0],
                        batch.cols(),
                        batch.num_rows as int,
                        batch.id_in(old(registry)@),
                    )
                }
            },
        },
{
    let ghost p0 = pool@;
    let ghost cols = batch.cols();
    let chunks: Vec<ChunkDesc> = match write_batch_chunks(pool, registry, batch) {
        Ok(v) => v,
        Err(e) => {
            proof {
                assert(pool@ =~= with_bytes(p0, pool@));
            }
            return Err(e);
        },
    };
    let ghost sizes = batch_sizes(cols, old(pool).longest());
    let ghost ks = allot(p0, sizes)->Some_0.0;
    if chunks.len() == 1 {
        assert(chunks@ =~= seq![chunks@[0]]);
        return Ok(chunks[0]);
    }
    proof {
        assert forall|j: int| 0 <= j < p0.len() implies chunk_ok(#[trigger] p0[j]) by {}
    }
    let ghost q = pool@;
    let ghost handed = allot(p0, sizes)->Some_0.1;
    proof {
        assert(q =~= with_bytes(handed, q));
    }
    roll_back(pool, &chunks, Ghost(p0), Ghost(sizes), Ghost(ks), Ghost(handed));
    proof {
        assert(pool@ =~= with_bytes(p0, pool@));
        assert forall|j: int| 0 <= j < p0.len() && p0[j].allocated implies #[trigger] pool@[j]
            == p0[j] by {
            if ks.contains(j) {
                let c = choose|c: int| 0 <= c < ks.len() && ks[c] == j;
                assert(!p0[ks[c]].allocated);
            }
            assert(q[j] == p0[j]);
        }
        lemma_longest_same(p0, pool@);
    }
    let need: usize = match serialized_len(&batch.columns) {
        Some(n) => n,
        None => usize::MAX,
    };
    Err(Error::ChunkTooSmall { need, have: pool.max_chunk_size() as usize })
}

} // verus!
