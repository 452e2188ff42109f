//! Rows, made of what was located.
use std::sync::Arc;

use arrow_data::ArrayData;
use arrow_schema::{DataType, Schema};
use vstd::prelude::*;

use crate::artifact::pool::{chunk_ok, ChunkPool};
use crate::batch::array::{
    all_normal, byte_views, is_whole, makeable, makeable_tree, makeable_trees, nested, normal,
    plan_refusal, plans_refusal, readable, readable_tree, readable_trees, ArrayView, Kind,
};
use crate::batch::column::{all_fit, fits, lined_up};
use crate::batch::error::Error;
use crate::batch::laws::{bytes_at, mirror, mirrors};
use crate::batch::layout::{entries_refusal, entry_refusal, BufferEntry, NodeEntry};
use crate::batch::outside::{
    array_tree, array_trees, bitmap, field_nulls, field_types, genuine, genuine_tree, genuine_trees,
    len_of, made_array, make, nulls_of, parts_view, schema_nullable, schema_types, type_of,
};
use crate::batch::plain::{
    child_types, has_type, inner_of, is_type, kind_of, plain_of, type_kind, ArrowType,
};
use crate::batch::read::{
    batch_read, built, built_all, chunk_refusal, chunks_refusal, desc_lens, lemma_built_uses,
    own_count, read_tables, rest_from, tables_read, ReadView, Rest, Tables,
};
use crate::batch::schema::{RegistryView, SchemaRegistry};
use crate::batch::write::Batch;
use crate::chunk::ChunkDesc;

verus! {

/// Rows: columns that follow a schema.
pub struct Rows {
    pub schema: Arc<Schema>,
    pub columns: Vec<ArrayData>,
}

/// The bytes of the chunks of a batch.
pub open spec fn group_bytes(pool: &ChunkPool, g: Seq<ChunkDesc>) -> Seq<Seq<u8>> {
    Seq::new(g.len(), |i: int| pool@[pool.at(g[i].offset)].bytes)
}

/// The bytes that each entry names among the chunks `c`.
pub open spec fn each_at(c: Seq<Seq<u8>>, e: Seq<BufferEntry>) -> Seq<Seq<u8>> {
    Seq::new(e.len(), |i: int| bytes_at(c, e[i]))
}

/// The bytes of a bitmap among the chunks `c`, if there is one.
pub open spec fn bits_at(c: Seq<Seq<u8>>, e: Option<BufferEntry>) -> Option<Seq<u8>> {
    match e {
        Some(e) => Some(bytes_at(c, e)),
        None => None,
    }
}

// ---- what the tables name ----

/// Whether every entry lies inside its chunk, whose lengths are `lens`.
pub open spec fn all_inside(e: Seq<BufferEntry>, lens: Seq<usize>) -> bool {
    forall|i: int| 0 <= i < e.len() ==> entry_refusal(#[trigger] e[i], lens) is None
}

proof fn lemma_all_inside(e: Seq<BufferEntry>, lens: Seq<usize>)
    requires
        entries_refusal(e, lens) is None,
    ensures
        all_inside(e, lens),
    decreases e.len(),
{
    if e.len() > 0 {
        lemma_all_inside(e.skip(1), lens);
        assert forall|i: int| 0 <= i < e.len() implies entry_refusal(#[trigger] e[i], lens) is None by {
            if i > 0 {
                assert(e.skip(1)[i - 1] == e[i]);
            }
        }
    }
}

/// Whether the pool has all the chunks of a batch.
pub open spec fn has_chunks(pool: &ChunkPool, s: Seq<ChunkDesc>) -> bool {
    forall|i: int|
        0 <= i < s.len() ==> pool.names((#[trigger] s[i]).segment_id, s[i].offset) && s[i].len
            <= pool@[pool.at(s[i].offset)].len
}

pub proof fn lemma_has_chunks(pool: &ChunkPool, s: Seq<ChunkDesc>, i: int)
    requires
        chunks_refusal(pool, s) is None,
        0 <= i < s.len(),
    ensures
        chunk_refusal(pool, s[i]) is None,
    decreases s.len(),
{
    if i > 0 {
        lemma_has_chunks(pool, s.skip(1), i - 1);
        assert(s.skip(1)[i - 1] == s[i]);
    }
}

/// What the tables name lies inside of the chunks.
pub proof fn lemma_tables_sound(pool: &ChunkPool, reg: RegistryView, s: Seq<ChunkDesc>)
    requires
        tables_read(pool, reg, s) is Ok,
    ensures
        has_chunks(pool, s),
        all_inside(tables_read(pool, reg, s)->Ok_0.1.entries, desc_lens(s)),
{
    let (h, t) = tables_read(pool, reg, s)->Ok_0;
    lemma_all_inside(t.entries, desc_lens(s));
    assert forall|i: int| 0 <= i < s.len() implies pool.names((#[trigger] s[i]).segment_id, s[i].offset)
        && s[i].len <= pool@[pool.at(s[i].offset)].len by {
        lemma_has_chunks(pool, s, i);
    }
}

// ---- arrays ----

/// The array of type `t` at the front of the tables, made of what lies in the
/// chunks `c`, and what is left of the tables.
pub open spec fn made(c: Seq<Seq<u8>>, t: DataType, u: Rest) -> Result<(ArrayData, Rest), Error>
    decreases u.nodes.len(), 0nat,
{
    if u.nodes.len() == 0 {
        Err(Error::Layout("node table underrun"))
    } else {
        let n = u.nodes[0];
        let v = if n.has_validity != 0 {
            1int
        } else {
            0
        };
        if u.entries.len() < own_count(n) {
            Err(Error::Layout("schema demands more buffers than the buffer table holds"))
        } else if child_types(t).len() != n.child_count {
            Err(Error::Layout("schema child count != stored child count"))
        } else {
            let below = Rest { nodes: u.nodes.skip(1), entries: u.entries.skip(own_count(n)) };
            match all_made(c, child_types(t), below) {
                Err(e) => Err(e),
                Ok((children, rest)) => {
                    let b = each_at(c, u.entries.subrange(v, own_count(n)));
                    let bits = if n.has_validity != 0 {
                        Some(bytes_at(c, u.entries[0]))
                    } else {
                        None
                    };
                    if !makeable(type_kind(t), n.len as nat, b, children.len()) {
                        Err(Error::Arrow)
                    } else {
                        match made_array(
                            t,
                            n.len as usize,
                            n.null_count as usize,
                            bits,
                            b,
                            children,
                        ) {
                            None => Err(Error::Arrow),
                            Some(a) => Ok((a, rest)),
                        }
                    }
                },
            }
        }
    }
}

/// The arrays of the types `t` at the front of the tables, and what is left.
pub open spec fn all_made(c: Seq<Seq<u8>>, t: Seq<DataType>, u: Rest) -> Result<
    (Seq<ArrayData>, Rest),
    Error,
>
    decreases u.nodes.len(), 1 + t.len(),
{
    if t.len() == 0 {
        Ok((seq![], u))
    } else {
        match made(c, t[0], u) {
            Err(e) => Err(e),
            Ok((a, u1)) => if u1.nodes.len() > u.nodes.len() {
                arbitrary()
            } else {
                match all_made(c, t.skip(1), u1) {
                    Err(e) => Err(e),
                    Ok((rest, u2)) => Ok((seq![a] + rest, u2)),
                }
            },
        }
    }
}

/// What the array of type `t` holds that was located among the chunks `c`.
pub open spec fn held_at(c: Seq<Seq<u8>>, t: DataType, r: ReadView) -> ArrayView
    decreases r,
{
    parts_view(
        t,
        r.len as nat,
        r.null_count as nat,
        bits_at(c, r.validity),
        each_at(c, r.buffers),
        all_held_at(c, child_types(t), r.children),
    )
}

/// What the arrays of the types `t` hold that were located among the chunks `c`.
pub open spec fn all_held_at(c: Seq<Seq<u8>>, t: Seq<DataType>, r: Seq<ReadView>) -> Seq<ArrayView>
    decreases r, r.len(),
{
    if r.len() == 0 {
        seq![]
    } else {
        seq![held_at(c, t[0], r[0])] + all_held_at(c, t.skip(1), r.skip(1))
    }
}

/// Whether an array of type `t` is certain to be made of what was located: there
/// is one that holds just that, and so for all inside.
pub open spec fn certain(c: Seq<Seq<u8>>, t: DataType, r: ReadView) -> bool
    decreases r,
{
    &&& makeable(type_kind(t), r.len as nat, each_at(c, r.buffers), r.children.len())
    &&& r.validity is Some ==> r.null_count > 0
    &&& genuine(held_at(c, t, r))
    &&& all_certain(c, child_types(t), r.children)
}

/// Whether the arrays of the types `t` are certain to be made of what was
/// located.
pub open spec fn all_certain(c: Seq<Seq<u8>>, t: Seq<DataType>, r: Seq<ReadView>) -> bool
    decreases r, r.len(),
{
    r.len() > 0 ==> certain(c, t[0], r[0]) && all_certain(c, t.skip(1), r.skip(1))
}

/// The bytes an entry names.
fn bytes_of(pool: &ChunkPool, chunks: &[ChunkDesc], e: &BufferEntry) -> (b: Vec<u8>)
    requires
        pool.wf(),
        has_chunks(pool, chunks@),
        entry_refusal(*e, desc_lens(chunks@)) is None,
    ensures
        b@ == bytes_at(group_bytes(pool, chunks@), *e),
{
    let d: ChunkDesc = chunks[e.chunk_index as usize];
    let mut b: Vec<u8> = Vec::new();
    assert(pool.names(d.segment_id, d.offset));
    if let Some(j) = pool.find(d.segment_id, d.offset) {
        proof {
            assert(pool@[j as int] == pool.chunks@[j as int]@);
            assert(chunk_ok(pool@[j as int]));
        }
        let from: usize = e.offset as usize;
        let n: usize = e.len as usize;
        let all: &Vec<u8> = &pool.chunks[j].bytes;
        let total: usize = all.len();
        let mut i: usize = 0;
        while i < n
            invariant
                i <= n,
                from + n <= total,
                total == all@.len(),
                b@ == all@.subrange(from as int, from + i),
            decreases n - i,
        {
            b.push(all[from + i]);
            proof {
                assert(all@.subrange(from as int, from + i + 1) =~= all@.subrange(
                    from as int,
                    from + i,
                ).push(all@[from + i]));
            }
            i = i + 1;
        }
    }
    b
}

/// The bytes each entry names.
fn all_bytes_of(pool: &ChunkPool, chunks: &[ChunkDesc], e: &Vec<BufferEntry>) -> (b: Vec<Vec<u8>>)
    requires
        pool.wf(),
        has_chunks(pool, chunks@),
        all_inside(e@, desc_lens(chunks@)),
    ensures
        byte_views(b@) == each_at(group_bytes(pool, chunks@), e@),
{
    let n: usize = e.len();
    let mut b: Vec<Vec<u8>> = Vec::new();
    let mut i: usize = 0;
    while i < n
        invariant
            pool.wf(),
            has_chunks(pool, chunks@),
            all_inside(e@, desc_lens(chunks@)),
            n == e@.len(),
            i <= n,
            b@.len() == i,
            forall|k: int|
                0 <= k < i ==> (#[trigger] b@[k])@ == bytes_at(group_bytes(pool, chunks@), e@[k]),
        decreases n - i,
    {
        b.push(bytes_of(pool, chunks, &e[i]));
        i = i + 1;
    }
    proof {
        assert(byte_views(b@) =~= each_at(group_bytes(pool, chunks@), e@));
    }
    b
}

/// An array or arrays, and how far the tables were used.
pub struct Made<T> {
    pub what: T,
    pub ni: usize,
    pub bi: usize,
}

/// Make the array of type `t` from node `ni` and buffer entry `bi` on.
pub fn make_one(
    pool: &ChunkPool,
    chunks: &[ChunkDesc],
    t: &DataType,
    nodes: &Vec<NodeEntry>,
    entries: &Vec<BufferEntry>,
    ni: usize,
    bi: usize,
) -> (r: Result<Made<ArrayData>, Error>)
    requires
        pool.wf(),
        has_chunks(pool, chunks@),
        all_inside(entries@, desc_lens(chunks@)),
        ni <= nodes@.len(),
        bi <= entries@.len(),
    ensures
        match made(
            group_bytes(pool, chunks@),
            *t,
            rest_from(nodes@, entries@, ni as int, bi as int),
        ) {
            Err(e) => r is Err && r->Err_0 == e,
            Ok((a, u)) => {
                &&& r is Ok
                &&& r->Ok_0.what == a
                &&& ni < r->Ok_0.ni <= nodes@.len()
                &&& bi <= r->Ok_0.bi <= entries@.len()
                &&& u == rest_from(nodes@, entries@, r->Ok_0.ni as int, r->Ok_0.bi as int)
            },
        },
        r matches Ok(m) ==> {
            let b = built(*t, rest_from(nodes@, entries@, ni as int, bi as int));
            &&& b is Ok
            &&& b->Ok_0.1 == rest_from(nodes@, entries@, m.ni as int, m.bi as int)
            &&& array_tree(m.what) == held_at(group_bytes(pool, chunks@), *t, b->Ok_0.0)
            &&& makeable_tree(array_tree(m.what))
        },
        built(*t, rest_from(nodes@, entries@, ni as int, bi as int)) matches Ok((v, _)) && certain(
            group_bytes(pool, chunks@),
            *t,
            v,
        ) ==> r is Ok,
    decreases nodes@.len() - ni, 0nat,
{
    let ghost c = group_bytes(pool, chunks@);
    let ghost u = rest_from(nodes@, entries@, ni as int, bi as int);
    let node_total: usize = nodes.len();
    let entry_total: usize = entries.len();
    if ni >= node_total {
        return Err(Error::Layout("node table underrun"));
    }
    let n: NodeEntry = nodes[ni];
    assert(u.nodes[0] == n);
    let mut b: usize = bi;
    let validity: Option<Vec<u8>> = if n.has_validity != 0 {
        if b >= entry_total {
            return Err(Error::Layout("schema demands more buffers than the buffer table holds"));
        }
        b = b + 1;
        Some(bytes_of(pool, chunks, &entries[b - 1]))
    } else {
        None
    };
    let ghost v = b - bi;
    let mut own: Vec<BufferEntry> = Vec::new();
    let mut k: u32 = 0;
    while k < n.data_buffers
        invariant
            k <= n.data_buffers,
            entry_total == entries@.len(),
            bi <= entries@.len(),
            0 <= v <= 1,
            v == (if n.has_validity != 0 {
                1int
            } else {
                0
            }),
            b == bi + v + k,
            b <= entry_total,
            c == group_bytes(pool, chunks@),
            u == rest_from(nodes@, entries@, ni as int, bi as int),
            u.nodes.len() > 0,
            u.nodes[0] == n,
            own@ == u.entries.subrange(v, v + k),
        decreases n.data_buffers - k,
    {
        if b >= entry_total {
            return Err(Error::Layout("schema demands more buffers than the buffer table holds"));
        }
        own.push(entries[b]);
        proof {
            assert(u.entries[v + k] == entries@[b as int]);
            assert(u.entries.subrange(v, v + k + 1) =~= u.entries.subrange(v, v + k).push(
                u.entries[v + k],
            ));
        }
        b = b + 1;
        k = k + 1;
    }
    let p: ArrowType = plain_of(t);
    let kind: Kind = kind_of(&p);
    let inner: Vec<DataType> = inner_of(p);
    let ghost below = Rest { nodes: u.nodes.skip(1), entries: u.entries.skip(own_count(n)) };
    proof {
        assert(inner@ == child_types(*t));
        assert(below.nodes =~= nodes@.skip(ni + 1));
        assert(below.entries =~= entries@.skip(b as int));
        assert(below == rest_from(nodes@, entries@, ni + 1, b as int));
        assert forall|i: int| 0 <= i < own@.len() implies entry_refusal(
            #[trigger] own@[i],
            desc_lens(chunks@),
        ) is None by {
            assert(own@[i] == entries@[bi + v + i]);
        }
    }
    if inner.len() as u64 != n.child_count as u64 {
        return Err(Error::Layout("schema child count != stored child count"));
    }
    let m: Made<Vec<ArrayData>> = match make_all(pool, chunks, &inner, nodes, entries, ni + 1, b) {
        Ok(m) => m,
        Err(e) => {
            return Err(e);
        },
    };
    let buffers: Vec<Vec<u8>> = all_bytes_of(pool, chunks, &own);
    let Made { what: children, ni: ni2, bi: bi2 } = m;
    let ghost rv = built(*t, u)->Ok_0.0;
    proof {
        assert(bitmap(validity) == if n.has_validity != 0 {
            Some(bytes_at(c, u.entries[0]))
        } else {
            None
        });
        assert(built(*t, u) is Ok);
        assert(rv.buffers == own@);
        assert(array_trees(children@) == all_held_at(c, child_types(*t), rv.children));
        assert(bitmap(validity) == bits_at(c, rv.validity));
        lemma_held_len(c, child_types(*t), rv.children);
        assert(children@.len() == array_trees(children@).len());
    }
    if !kind.is_readable() || !is_whole(kind, &buffers) || (!kind.is_nested() && children.len() != 0) {
        return Err(Error::Arrow);
    }
    match make(t, n.len as usize, n.null_count as usize, &validity, &buffers, children) {
        Ok(a) => Ok(Made { what: a, ni: ni2, bi: bi2 }),
        Err(_) => Err(Error::Arrow),
    }
}

proof fn lemma_held_len(c: Seq<Seq<u8>>, t: Seq<DataType>, r: Seq<ReadView>)
    ensures
        all_held_at(c, t, r).len() == r.len(),
    decreases r.len(),
{
    if r.len() > 0 {
        lemma_held_len(c, t.skip(1), r.skip(1));
    }
}

/// Whether making arrays as a whole gives what was made so far, followed by what
/// making on gives.
spec fn makes_on(
    all: Result<(Seq<ArrayData>, Rest), Error>,
    so_far: Seq<ArrayData>,
    on: Result<(Seq<ArrayData>, Rest), Error>,
) -> bool {
    match on {
        Err(e) => all == Err::<(Seq<ArrayData>, Rest), Error>(e),
        Ok((rs, t)) => all == Ok::<(Seq<ArrayData>, Rest), Error>((so_far + rs, t)),
    }
}

/// Whether reading as a whole gives what was read so far, followed by what
/// reading on gives.
spec fn reads_on(
    all: Result<(Seq<ReadView>, Rest), Error>,
    so_far: Seq<ReadView>,
    on: Result<(Seq<ReadView>, Rest), Error>,
) -> bool {
    on matches Ok((rs, t)) ==> all == Ok::<(Seq<ReadView>, Rest), Error>((so_far + rs, t))
}

/// Make the arrays of the types `types` from node `ni` and buffer entry `bi` on.
pub fn make_all(
    pool: &ChunkPool,
    chunks: &[ChunkDesc],
    types: &Vec<DataType>,
    nodes: &Vec<NodeEntry>,
    entries: &Vec<BufferEntry>,
    ni: usize,
    bi: usize,
) -> (r: Result<Made<Vec<ArrayData>>, Error>)
    requires
        pool.wf(),
        has_chunks(pool, chunks@),
        all_inside(entries@, desc_lens(chunks@)),
        ni <= nodes@.len(),
        bi <= entries@.len(),
    ensures
        match all_made(
            group_bytes(pool, chunks@),
            types@,
            rest_from(nodes@, entries@, ni as int, bi as int),
        ) {
            Err(e) => r is Err && r->Err_0 == e,
            Ok((v, u)) => {
                &&& r is Ok
                &&& r->Ok_0.what@ == v
                &&& ni <= r->Ok_0.ni <= nodes@.len()
                &&& bi <= r->Ok_0.bi <= entries@.len()
                &&& u == rest_from(nodes@, entries@, r->Ok_0.ni as int, r->Ok_0.bi as int)
            },
        },
        r matches Ok(m) ==> {
            let b = built_all(types@, rest_from(nodes@, entries@, ni as int, bi as int));
            &&& b is Ok
            &&& b->Ok_0.1 == rest_from(nodes@, entries@, m.ni as int, m.bi as int)
            &&& array_trees(m.what@) == all_held_at(group_bytes(pool, chunks@), types@, b->Ok_0.0)
            &&& makeable_trees(array_trees(m.what@))
        },
        built_all(types@, rest_from(nodes@, entries@, ni as int, bi as int)) matches Ok((v, _))
            && all_certain(group_bytes(pool, chunks@), types@, v) ==> r is Ok,
    decreases nodes@.len() - ni, 1nat,
{
    let ghost c = group_bytes(pool, chunks@);
    let ghost tv = types@;
    let ghost u0 = rest_from(nodes@, entries@, ni as int, bi as int);
    let mut out: Vec<ArrayData> = Vec::new();
    let mut nx: usize = ni;
    let mut bx: usize = bi;
    let n: usize = types.len();
    let mut i: usize = 0;
    let ghost mut rs: Seq<ReadView> = seq![];
    let ghost all_was = built_all(tv, u0) matches Ok((w, _)) && all_certain(c, tv, w);
    proof {
        assert(tv.skip(0) =~= tv);
        if let Ok((v, u)) = all_made(c, tv, u0) {
            assert(out@ + v =~= v);
        }
        if let Ok((v, u)) = built_all(tv, u0) {
            assert(rs + v =~= v);
        }
        assert(array_trees(out@) =~= seq![]);
    }
    while i < n
        invariant
            pool.wf(),
            has_chunks(pool, chunks@),
            all_inside(entries@, desc_lens(chunks@)),
            c == group_bytes(pool, chunks@),
            n == types@.len(),
            tv == types@,
            u0 == rest_from(nodes@, entries@, ni as int, bi as int),
            i <= n,
            ni <= nx <= nodes@.len(),
            bi <= bx <= entries@.len(),
            out@.len() == i,
            rs.len() == i,
            makes_on(
                all_made(c, tv, u0),
                out@,
                all_made(
                    c,
                    tv.skip(i as int),
                    rest_from(nodes@, entries@, nx as int, bx as int),
                ),
            ),
            reads_on(
                built_all(tv, u0),
                rs,
                built_all(
                    tv.skip(i as int),
                    rest_from(nodes@, entries@, nx as int, bx as int),
                ),
            ),
            forall|k: int|
                0 <= k < i ==> array_tree(#[trigger] out@[k]) == held_at(c, tv[k], rs[k])
                    && makeable_tree(array_tree(out@[k])),
            all_was == (built_all(tv, u0) matches Ok((w, _)) && all_certain(c, tv, w)),
            all_was ==> {
                let on = built_all(
                    tv.skip(i as int),
                    rest_from(nodes@, entries@, nx as int, bx as int),
                );
                on is Ok && all_certain(c, tv.skip(i as int), on->Ok_0.0)
            },
        decreases n - i,
    {
        let ghost o0 = out@;
        let ghost r0 = rs;
        let ghost u = rest_from(nodes@, entries@, nx as int, bx as int);
        let ghost before = all_made(c, tv.skip(i as int), u);
        proof {
            assert(tv.skip(i as int)[0] == tv[i as int]);
            assert(tv.skip(i as int).skip(1) =~= tv.skip(i + 1));
        }
        proof {
            let on = built_all(tv.skip(i as int), u);
            lemma_built_uses(tv[i as int], u);
            if on is Ok {
                let x = built(tv[i as int], u)->Ok_0.0;
                assert(on->Ok_0.0[0] == x);
            }
        }
        match make_one(pool, chunks, &types[i], nodes, entries, nx, bx) {
            Err(e) => {
                return Err(e);
            },
            Ok(m) => {
                let Made { what: a, ni: n1, bi: b1 } = m;
                nx = n1;
                bx = b1;
                out.push(a);
                proof {
                    let u1 = rest_from(nodes@, entries@, nx as int, bx as int);
                    let x = built(tv[i as int], u)->Ok_0.0;
                    rs = rs.push(x);
                    let after = all_made(c, tv.skip(i + 1), u1);
                    if before is Ok {
                        assert(o0 + (seq![a] + after->Ok_0.0) =~= out@ + after->Ok_0.0);
                    }
                    if let Ok((w, u2)) = built_all(tv.skip(i + 1), u1) {
                        assert(r0 + (seq![x] + w) =~= rs + w);
                        assert((seq![x] + w).skip(1) =~= w);
                        assert((seq![x] + w)[0] == x);
                    }
                    assert forall|k: int| 0 <= k < i + 1 implies array_tree(#[trigger] out@[k])
                        == held_at(c, tv[k], rs[k]) && makeable_tree(array_tree(out@[k])) by {
                        if k < i {
                            assert(out@[k] == o0[k] && rs[k] == r0[k]);
                        }
                    }
                }
            },
        }
        i = i + 1;
    }
    proof {
        assert(out@ + Seq::<ArrayData>::empty() =~= out@);
        assert(rs + Seq::<ReadView>::empty() =~= rs);
        assert(tv.skip(n as int) =~= seq![]);
        lemma_all_held_at(c, tv, rs, array_trees(out@));
        assert forall|k: int| 0 <= k < array_trees(out@).len() implies makeable_tree(
            #[trigger] array_trees(out@)[k],
        ) by {
            assert(makeable_tree(array_tree(out@[k])));
        }
        lemma_makeable_trees(array_trees(out@));
    }
    Ok(Made { what: out, ni: nx, bi: bx })
}

proof fn lemma_makeable_trees(s: Seq<ArrayView>)
    requires
        forall|k: int| 0 <= k < s.len() ==> makeable_tree(#[trigger] s[k]),
    ensures
        makeable_trees(s),
    decreases s.len(),
{
    if s.len() > 0 {
        assert forall|k: int| 0 <= k < s.skip(1).len() implies makeable_tree(#[trigger] s.skip(1)[k]) by {
            assert(s.skip(1)[k] == s[k + 1]);
        }
        lemma_makeable_trees(s.skip(1));
    }
}

proof fn lemma_all_held_at(c: Seq<Seq<u8>>, t: Seq<DataType>, r: Seq<ReadView>, a: Seq<ArrayView>)
    requires
        t.len() == r.len(),
        a.len() == r.len(),
        forall|k: int| 0 <= k < r.len() ==> #[trigger] a[k] == held_at(c, t[k], r[k]),
    ensures
        all_held_at(c, t, r) == a,
    decreases r.len(),
{
    if r.len() > 0 {
        let (t1, r1, a1) = (t.skip(1), r.skip(1), a.skip(1));
        assert forall|k: int| 0 <= k < r1.len() implies #[trigger] a1[k] == held_at(c, t1[k], r1[k]) by {
            assert(a1[k] == a[k + 1]);
        }
        lemma_all_held_at(c, t1, r1, a1);
        assert(seq![a[0]] + a1 =~= a);
    } else {
        assert(all_held_at(c, t, r) =~= a);
    }
}

// ---- rows ----

/// Whether columns follow a schema: there is at least one, they have the types of
/// the fields, one for one, equally many elements, and no nulls where the field
/// may not be null.
pub open spec fn follows(schema: Schema, cols: Seq<ArrayView>) -> bool {
    &&& cols.len() > 0
    &&& cols.len() == schema_types(schema).len()
    &&& forall|i: int| 0 <= i < cols.len() ==> is_type((#[trigger] cols[i]).of, schema_types(schema)[i])
    &&& lined_up(schema_nullable(schema), cols, cols[0].len)
}

/// Whether columns follow a schema.
pub fn is_following(schema: &Schema, columns: &Vec<ArrayData>) -> (ok: bool)
    ensures
        ok == follows(*schema, array_trees(columns@)),
{
    let types: Vec<DataType> = field_types(schema);
    let nullable: Vec<bool> = field_nulls(schema);
    let n: usize = columns.len();
    if n == 0 || n != types.len() {
        return false;
    }
    let ghost cols = array_trees(columns@);
    let rows: usize = len_of(&columns[0]);
    let mut i: usize = 0;
    while i < n
        invariant
            n == columns@.len(),
            n == types@.len(),
            n == nullable@.len(),
            cols == array_trees(columns@),
            types@ == schema_types(*schema),
            nullable@ == schema_nullable(*schema),
            n > 0,
            rows == cols[0].len,
            i <= n,
            forall|k: int|
                0 <= k < i ==> is_type((#[trigger] cols[k]).of, types@[k]) && cols[k].len == rows && (nullable@[k]
                    || cols[k].null_count == 0),
        decreases n - i,
    {
        assert(cols[i as int] == array_tree(columns@[i as int]));
        if !has_type(type_of(&columns[i]), &types[i]) {
            return false;
        }
        if len_of(&columns[i]) != rows || (!nullable[i] && nulls_of(&columns[i]) != 0) {
            return false;
        }
        i = i + 1;
    }
    true
}

/// What reading rows out of the chunks `s` gives: the columns, or why it is
/// refused.
pub open spec fn rows_read(pool: &ChunkPool, reg: RegistryView, s: Seq<ChunkDesc>) -> Result<
    Seq<ArrayData>,
    Error,
> {
    match tables_read(pool, reg, s) {
        Err(e) => Err(e),
        Ok((h, t)) => {
            let schema = *reg.by_id[h.schema_id];
            match all_made(group_bytes(pool, s), schema_types(schema), t) {
                Err(e) => Err(e),
                Ok((v, rest)) => if rest.nodes.len() != 0 || rest.entries.len() != 0 {
                    Err(Error::Layout("node/buffer table not fully consumed by schema"))
                } else if follows(schema, array_trees(v)) {
                    Ok(v)
                } else {
                    Err(Error::Arrow)
                },
            }
        },
    }
}

/// Whether `r` is what reading rows out of the chunks `s` gives. The rows hold
/// what lies in the chunks, and they are read wherever that is certain.
pub open spec fn is_rows_read(
    pool: &ChunkPool,
    reg: RegistryView,
    s: Seq<ChunkDesc>,
    r: Result<Rows, Error>,
) -> bool {
    &&& match rows_read(pool, reg, s) {
        Err(e) => r is Err && r->Err_0 == e,
        Ok(v) => {
            let (h, rs) = batch_read(pool, reg, s)->Ok_0;
            &&& r is Ok
            &&& batch_read(pool, reg, s) is Ok
            &&& *r->Ok_0.schema == *reg.by_id[h.schema_id]
            &&& r->Ok_0.columns@ == v
            &&& array_trees(v) == all_held_at(group_bytes(pool, s), reg.types_of_id(h.schema_id), rs)
        },
    }
    &&& certain_rows(pool, reg, s) ==> r is Ok
}

/// Whether rows are certain to be read out of the chunks `s`: each array is
/// certain to be made, and together they follow the schema.
pub open spec fn certain_rows(pool: &ChunkPool, reg: RegistryView, s: Seq<ChunkDesc>) -> bool {
    batch_read(pool, reg, s) matches Ok((h, rs)) && {
        let c = group_bytes(pool, s);
        let t = reg.types_of_id(h.schema_id);
        all_certain(c, t, rs) && follows(*reg.by_id[h.schema_id], all_held_at(c, t, rs))
    }
}

/// Read rows out of the chunks of a batch. `chunks[0]` is the primary one.
pub fn read_batch_chunks(pool: &ChunkPool, chunks: &[ChunkDesc], registry: &SchemaRegistry) -> (r: Result<
    Rows,
    Error,
>)
    requires
        pool.wf(),
    ensures
        is_rows_read(pool, registry@, chunks@, r),
{
    let Tables { schema, header, nodes, entries } = match read_tables(pool, chunks, registry) {
        Ok(t) => t,
        Err(e) => {
            return Err(e);
        },
    };
    let types: Vec<DataType> = field_types(&schema);
    proof {
        lemma_tables_sound(pool, registry@, chunks@);
        assert(nodes@.skip(0) =~= nodes@);
        assert(entries@.skip(0) =~= entries@);
    }
    let m: Made<Vec<ArrayData>> = match make_all(pool, chunks, &types, &nodes, &entries, 0, 0) {
        Ok(m) => m,
        Err(e) => {
            return Err(e);
        },
    };
    if m.ni != nodes.len() || m.bi != entries.len() {
        return Err(Error::Layout("node/buffer table not fully consumed by schema"));
    }
    if is_following(&schema, &m.what) {
        Ok(Rows { schema, columns: m.what })
    } else {
        Err(Error::Arrow)
    }
}

/// Read rows out of the one chunk they were written to.
pub fn read_batch(pool: &ChunkPool, desc: &ChunkDesc, registry: &SchemaRegistry) -> (r: Result<
    Rows,
    Error,
>)
    requires
        pool.wf(),
    ensures
        is_rows_read(pool, registry@, seq![*desc], r),
{
    let mut one: Vec<ChunkDesc> = Vec::new();
    one.push(*desc);
    proof {
        assert(one@ =~= seq![*desc]);
    }
    read_batch_chunks(pool, one.as_slice(), registry)
}

// ---- what was written ----

proof fn lemma_held(c: Seq<Seq<u8>>, t: DataType, r: ReadView, a: ArrayView)
    requires
        mirrors(r, a, c),
        normal(a),
        fits(a),
        readable_tree(a),
        genuine_tree(a),
        plan_refusal(a) is None,
        a.of == t,
    ensures
        held_at(c, t, r) == a,
        certain(c, t, r),
    decreases a,
{
    all_held(c, child_types(t), r.children, a.children);
    let h = held_at(c, t, r);
    assert(h.buffers =~= a.buffers);
    assert(h.nulls == a.nulls);
    assert(h == a);
    assert(child_types(t).len() == a.children.len());
    lemma_no_children(t);
}

proof fn lemma_no_children(t: DataType)
    ensures
        readable(type_kind(t)) && !nested(type_kind(t)) ==> child_types(t).len() == 0,
{
}

proof fn all_held(c: Seq<Seq<u8>>, t: Seq<DataType>, r: Seq<ReadView>, a: Seq<ArrayView>)
    requires
        mirror(r, a, c),
        all_normal(a),
        all_fit(t, a),
        readable_trees(a),
        genuine_trees(a),
        plans_refusal(a) is None,
    ensures
        all_held_at(c, t, r) == a,
        all_certain(c, t, r),
    decreases a, a.len(),
{
    if a.len() > 0 {
        lemma_held(c, t[0], r[0], a[0]);
        all_held(c, t.skip(1), r.skip(1), a.skip(1));
        assert(seq![a[0]] + a.skip(1) =~= a);
    } else {
        assert(all_held_at(c, t, r) =~= a);
    }
}

/// Rows are certain to be read wherever what lies in the chunks mirrors the
/// columns of a batch of a schema with at least one field, and they are those
/// columns.
pub proof fn rows_hold_what_was_written(
    pool: &ChunkPool,
    reg: RegistryView,
    s: Seq<ChunkDesc>,
    batch: &Batch,
    r: Result<Rows, Error>,
)
    requires
        is_rows_read(pool, reg, s, r),
        batch.wf(),
        batch.cols().len() > 0,
        readable_trees(batch.cols()),
        plans_refusal(batch.cols()) is None,
        batch_read(pool, reg, s) is Ok,
        ({
            let (h, rs) = batch_read(pool, reg, s)->Ok_0;
            &&& mirror(rs, batch.cols(), group_bytes(pool, s))
            &&& *reg.by_id[h.schema_id] == *batch.schema
        }),
    ensures
        certain_rows(pool, reg, s),
        r is Ok,
        *r->Ok_0.schema == *batch.schema,
        array_trees(r->Ok_0.columns@) == batch.cols(),
{
    let (h, rs) = batch_read(pool, reg, s)->Ok_0;
    let cols = batch.cols();
    all_held(group_bytes(pool, s), reg.types_of_id(h.schema_id), rs, cols);
    lemma_fit_types(reg.types_of_id(h.schema_id), cols);
    assert(cols[0].len == batch.num_rows);
}

proof fn lemma_fit_types(t: Seq<DataType>, a: Seq<ArrayView>)
    requires
        all_fit(t, a),
    ensures
        t.len() == a.len(),
        forall|i: int| 0 <= i < a.len() ==> (#[trigger] a[i]).of == t[i],
    decreases a.len(),
{
    if a.len() > 0 {
        lemma_fit_types(t.skip(1), a.skip(1));
        assert forall|i: int| 0 <= i < a.len() implies (#[trigger] a[i]).of == t[i] by {
            if i > 0 {
                assert(a.skip(1)[i - 1] == a[i]);
            }
        }
    }
}

} // verus!
