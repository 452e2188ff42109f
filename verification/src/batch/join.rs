//! Rows, one batch behind the other.
use std::sync::Arc;

use arrow_data::ArrayData;
use arrow_schema::Schema;
use vstd::prelude::*;

use crate::batch::array::{
    all_joinable, elements, items, joinable, lemma_children, nth_children, readable_tree,
    readable_trees, tree, trees, ArrayNode, ArrayView, Kind,
};
use crate::batch::error::Error;
use crate::batch::outside::{array_tree, array_trees, join, joined_array, named, share, tree_of};
use crate::batch::plain::sort_of;
use crate::batch::rows::{follows, is_following, Rows};

verus! {

/// What the arrays are that references name.
pub open spec fn named_trees(s: Seq<&ArrayNode>) -> Seq<ArrayView> {
    Seq::new(s.len(), |i: int| tree(*s[i]))
}

/// The `k`th child of each array that has one.
fn nth<'a>(s: &Vec<&'a ArrayNode>, k: usize) -> (r: Vec<&'a ArrayNode>)
    ensures
        named_trees(r@) == nth_children(named_trees(s@), k as nat),
{
    let ghost sv = named_trees(s@);
    let n: usize = s.len();
    let mut r: Vec<&'a ArrayNode> = Vec::new();
    let mut i: usize = 0;
    proof {
        assert(sv.take(0) =~= seq![]);
        assert(named_trees(r@) =~= seq![]);
    }
    while i < n
        invariant
            n == s@.len(),
            sv == named_trees(s@),
            i <= n,
            named_trees(r@) == nth_children(sv.take(i as int), k as nat),
        decreases n - i,
    {
        let a: &'a ArrayNode = s[i];
        proof {
            lemma_children(*a);
            assert(sv.take(i + 1).drop_last() =~= sv.take(i as int));
            assert(sv.take(i + 1).last() == tree(*a));
        }
        let ghost r0 = r@;
        if k < a.children.len() {
            r.push(&a.children[k]);
            proof {
                assert(tree(*a).children[k as int] == tree(a.children@[k as int]));
                assert(named_trees(r@) =~= named_trees(r0).push(tree(a.children@[k as int])));
            }
        }
        i = i + 1;
    }
    proof {
        assert(sv.take(n as int) =~= sv);
    }
    r
}

proof fn lemma_items_grow(s: Seq<ArrayView>, i: int)
    requires
        0 <= i <= s.len(),
    ensures
        items(s.take(i)) <= items(s),
    decreases s.len(),
{
    if i == s.len() {
        assert(s.take(i) =~= s);
    } else {
        lemma_items_grow(s.drop_last(), i);
        assert(s.drop_last().take(i) =~= s.take(i));
    }
}

/// Whether the lists have at most `most` items.
fn few_items(s: &Vec<&ArrayNode>, most: u64) -> (ok: bool)
    ensures
        ok == (items(named_trees(s@)) <= most),
{
    let ghost sv = named_trees(s@);
    let n: usize = s.len();
    let mut total: u64 = 0;
    let mut i: usize = 0;
    proof {
        assert(sv.take(0) =~= seq![]);
    }
    while i < n
        invariant
            n == s@.len(),
            sv == named_trees(s@),
            i <= n,
            total == items(sv.take(i as int)),
            total <= most,
        decreases n - i,
    {
        let a: &ArrayNode = s[i];
        proof {
            lemma_children(*a);
            assert(sv.take(i + 1).drop_last() =~= sv.take(i as int));
            assert(sv.take(i + 1).last() == tree(*a));
            lemma_items_grow(sv, i + 1);
        }
        if a.children.len() > 0 {
            assert(tree(*a).children[0] == tree(a.children@[0]));
            let m: u64 = a.children[0].len as u64;
            if m > most - total {
                return false;
            }
            total = total + m;
        }
        i = i + 1;
    }
    proof {
        assert(sv.take(n as int) =~= sv);
    }
    true
}

proof fn lemma_elements_grow(s: Seq<ArrayView>, i: int)
    requires
        0 <= i <= s.len(),
    ensures
        elements(s.take(i)) <= elements(s),
    decreases s.len(),
{
    if i == s.len() {
        assert(s.take(i) =~= s);
    } else {
        lemma_elements_grow(s.drop_last(), i);
        assert(s.drop_last().take(i) =~= s.take(i));
    }
}

/// Whether the arrays have no more elements than can be counted.
fn few_elements(s: &Vec<&ArrayNode>) -> (ok: bool)
    ensures
        ok == (elements(named_trees(s@)) <= usize::MAX),
{
    let ghost sv = named_trees(s@);
    let n: usize = s.len();
    let mut total: usize = 0;
    let mut i: usize = 0;
    proof {
        assert(sv.take(0) =~= seq![]);
    }
    while i < n
        invariant
            n == s@.len(),
            sv == named_trees(s@),
            i <= n,
            total == elements(sv.take(i as int)),
        decreases n - i,
    {
        let a: &ArrayNode = s[i];
        proof {
            assert(sv.take(i + 1).drop_last() =~= sv.take(i as int));
            assert(sv.take(i + 1).last() == tree(*a));
            lemma_elements_grow(sv, i + 1);
        }
        match total.checked_add(a.len) {
            Some(t) => {
                total = t;
            },
            None => {
                return false;
            },
        }
        i = i + 1;
    }
    proof {
        assert(sv.take(n as int) =~= sv);
    }
    true
}

/// Whether an array and all inside are of kinds that are read.
pub fn is_readable_tree(a: &ArrayNode) -> (ok: bool)
    ensures
        ok == readable_tree(tree(*a)),
    decreases a,
{
    if !sort_of(&a.data_type).is_readable() {
        return false;
    }
    proof {
        lemma_children(*a);
    }
    are_readable(&a.children)
}

/// Whether arrays and all inside are of kinds that are read.
pub fn are_readable(s: &Vec<ArrayNode>) -> (ok: bool)
    ensures
        ok == readable_trees(trees(s@)),
    decreases s,
{
    let ghost sv = trees(s@);
    let n: usize = s.len();
    let mut i: usize = 0;
    proof {
        assert(sv.skip(0) =~= sv);
    }
    while i < n
        invariant
            n == s@.len(),
            sv == trees(s@),
            i <= n,
            readable_trees(sv) == readable_trees(sv.skip(i as int)),
        decreases n - i,
    {
        proof {
            assert(sv.skip(i as int)[0] == tree(s@[i as int]));
            assert(sv.skip(i as int).skip(1) =~= sv.skip(i + 1));
        }
        if !is_readable_tree(&s[i]) {
            return false;
        }
        i = i + 1;
    }
    true
}

/// Whether arrays that are all like `x` can be put one behind the other.
pub fn is_joinable(x: &ArrayNode, s: &Vec<&ArrayNode>) -> (ok: bool)
    ensures
        ok == joinable(tree(*x), named_trees(s@)),
    decreases x,
{
    let k: Kind = sort_of(&x.data_type);
    proof {
        lemma_children(*x);
    }
    if !few_elements(s) || (k == Kind::Flat && x.children.len() != 0) {
        return false;
    }
    if k == Kind::List && !few_items(s, 0x7fff_ffff) {
        return false;
    }
    if k == Kind::LargeList && !few_items(s, 0x7fff_ffff_ffff_ffff) {
        return false;
    }
    are_joinable(&x.children, s)
}

/// Whether the children of `s` can be, which are like `c`.
fn are_joinable(c: &Vec<ArrayNode>, s: &Vec<&ArrayNode>) -> (ok: bool)
    ensures
        ok == all_joinable(trees(c@), named_trees(s@), 0),
    decreases c,
{
    let ghost cv = trees(c@);
    let ghost sv = named_trees(s@);
    let n: usize = c.len();
    let mut k: usize = 0;
    proof {
        assert(cv.skip(0) =~= cv);
    }
    while k < n
        invariant
            n == c@.len(),
            cv == trees(c@),
            sv == named_trees(s@),
            k <= n,
            all_joinable(cv, sv, 0) == all_joinable(cv.skip(k as int), sv, k as nat),
        decreases n - k,
    {
        proof {
            assert(cv.skip(k as int)[0] == tree(c@[k as int]));
            assert(cv.skip(k as int).skip(1) =~= cv.skip(k + 1));
        }
        let below: Vec<&ArrayNode> = nth(s, k);
        if !is_joinable(&c[k], &below) {
            return false;
        }
        k = k + 1;
    }
    true
}

// ---- rows ----

/// The columns of some rows, batch by batch.
pub open spec fn columns_by_batch(s: Seq<Rows>) -> Seq<Seq<ArrayData>> {
    Seq::new(s.len(), |i: int| s[i].columns@)
}

/// The `k`th column of each batch.
pub open spec fn nth_column(s: Seq<Seq<ArrayData>>, k: int) -> Seq<ArrayData> {
    Seq::new(s.len(), |i: int| s[i][k])
}

/// The `k`th column of all batches together; `None` if one has no such column,
/// or if they cannot be joined.
pub open spec fn column_joined(s: Seq<Seq<ArrayData>>, k: int) -> Option<ArrayData> {
    let col = nth_column(s, k);
    if s.len() == 0 || exists|i: int| 0 <= i < s.len() && (#[trigger] s[i]).len() <= k {
        None
    } else if !readable_trees(array_trees(col)) || !joinable(array_tree(col[0]), array_trees(col)) {
        None
    } else {
        joined_array(col)
    }
}

/// The first `n` columns of all batches together.
pub open spec fn columns_joined(s: Seq<Seq<ArrayData>>, n: nat) -> Option<Seq<ArrayData>>
    decreases n,
{
    if n == 0 {
        Some(seq![])
    } else {
        match columns_joined(s, (n - 1) as nat) {
            None => None,
            Some(v) => match column_joined(s, n - 1) {
                None => None,
                Some(a) => Some(v.push(a)),
            },
        }
    }
}

/// The batches together: rows of the first one's schema.
pub open spec fn rows_joined(schema: Schema, s: Seq<Seq<ArrayData>>) -> Result<Seq<ArrayData>, Error> {
    match columns_joined(s, s[0].len()) {
        None => Err(Error::Arrow),
        Some(v) => if follows(schema, array_trees(v)) {
            Ok(v)
        } else {
            Err(Error::Arrow)
        },
    }
}

/// The `k`th column of each batch, if all have one.
fn column<'a>(s: &'a Vec<Rows>, k: usize) -> (r: Option<Vec<&'a ArrayData>>)
    ensures
        r is None <==> exists|i: int|
            0 <= i < s@.len() && (#[trigger] columns_by_batch(s@)[i]).len() <= k,
        r matches Some(v) ==> named(v@) == nth_column(columns_by_batch(s@), k as int),
{
    let ghost sv = columns_by_batch(s@);
    let n: usize = s.len();
    let mut v: Vec<&'a ArrayData> = Vec::new();
    let mut i: usize = 0;
    while i < n
        invariant
            n == s@.len(),
            sv == columns_by_batch(s@),
            i <= n,
            v@.len() == i,
            forall|j: int| 0 <= j < i ==> (#[trigger] sv[j]).len() > k && *v@[j] == sv[j][k as int],
        decreases n - i,
    {
        assert(sv[i as int] == s@[i as int].columns@);
        if k >= s[i].columns.len() {
            return None;
        }
        v.push(&s[i].columns[k]);
        i = i + 1;
    }
    proof {
        assert(named(v@) =~= nth_column(sv, k as int));
    }
    Some(v)
}

/// What each array holds, as plain values.
fn outlines(s: &Vec<&ArrayData>) -> (r: Vec<ArrayNode>)
    ensures
        trees(r@) == array_trees(named(s@)),
{
    let n: usize = s.len();
    let mut r: Vec<ArrayNode> = Vec::new();
    let mut i: usize = 0;
    while i < n
        invariant
            n == s@.len(),
            i <= n,
            r@.len() == i,
            forall|j: int| 0 <= j < i ==> tree(#[trigger] r@[j]) == array_tree(*s@[j]),
        decreases n - i,
    {
        r.push(tree_of(s[i]));
        i = i + 1;
    }
    proof {
        assert(trees(r@) =~= array_trees(named(s@)));
    }
    r
}

fn references<'a>(s: &'a Vec<ArrayNode>) -> (r: Vec<&'a ArrayNode>)
    ensures
        named_trees(r@) == trees(s@),
{
    let n: usize = s.len();
    let mut r: Vec<&'a ArrayNode> = Vec::new();
    let mut i: usize = 0;
    while i < n
        invariant
            n == s@.len(),
            i <= n,
            r@.len() == i,
            forall|j: int| 0 <= j < i ==> *(#[trigger] r@[j]) == s@[j],
        decreases n - i,
    {
        r.push(&s[i]);
        i = i + 1;
    }
    proof {
        assert(named_trees(r@) =~= trees(s@));
    }
    r
}

/// The batches together: rows of the first one's schema, with every element.
pub fn join_rows(s: &Vec<Rows>) -> (r: Result<Rows, Error>)
    requires
        s@.len() > 0,
    ensures
        match rows_joined(*s@[0].schema, columns_by_batch(s@)) {
            Err(e) => r is Err && r->Err_0 == e,
            Ok(v) => {
                &&& r is Ok
                &&& *r->Ok_0.schema == *s@[0].schema
                &&& r->Ok_0.columns@ == v
                &&& forall|k: int|
                    0 <= k < v.len() ==> array_tree(#[trigger] v[k]).len == elements(
                        array_trees(nth_column(columns_by_batch(s@), k)),
                    )
            },
        },
{
    let ghost sv = columns_by_batch(s@);
    let n: usize = s[0].columns.len();
    assert(sv[0] == s@[0].columns@);
    let mut out: Vec<ArrayData> = Vec::new();
    let mut k: usize = 0;
    proof {
        assert(out@ =~= seq![]);
    }
    while k < n
        invariant
            s@.len() > 0,
            sv == columns_by_batch(s@),
            sv[0].len() == n,
            k <= n,
            out@.len() == k,
            columns_joined(sv, k as nat) == Some(out@),
            forall|j: int|
                0 <= j < k ==> array_tree(#[trigger] out@[j]).len == elements(array_trees(nth_column(sv, j))),
        decreases n - k,
    {
        let col: Vec<&ArrayData> = match column(s, k) {
            Some(c) => c,
            None => {
                proof {
                    lemma_refused(sv, k as int, n as nat);
                }
                return Err(Error::Arrow);
            },
        };
        let nodes: Vec<ArrayNode> = outlines(&col);
        let refs: Vec<&ArrayNode> = references(&nodes);
        proof {
            assert(named(col@).len() == sv.len());
            assert(trees(nodes@).len() == nodes@.len());
            assert(array_trees(named(col@)).len() == named(col@).len());
            assert(named(col@)[0] == *col@[0]);
            assert(trees(nodes@)[0] == tree(nodes@[0]));
        }
        if !are_readable(&nodes) || !is_joinable(&nodes[0], &refs) {
            proof {
                lemma_refused(sv, k as int, n as nat);
            }
            return Err(Error::Arrow);
        }
        match join(&col) {
            Ok(a) => {
                let ghost o0 = out@;
                out.push(a);
                proof {
                    assert(column_joined(sv, k as int) == Some(a));
                    assert(out@ =~= o0.push(a));
                }
            },
            Err(_) => {
                proof {
                    lemma_refused(sv, k as int, n as nat);
                }
                return Err(Error::Arrow);
            },
        }
        k = k + 1;
    }
    let schema: Arc<Schema> = share(&s[0].schema);
    if is_following(&schema, &out) {
        Ok(Rows { schema, columns: out })
    } else {
        Err(Error::Arrow)
    }
}

/// If one column cannot be joined, more columns cannot.
proof fn lemma_refused(s: Seq<Seq<ArrayData>>, k: int, n: nat)
    requires
        0 <= k < n,
        column_joined(s, k) is None,
    ensures
        columns_joined(s, n) is None,
    decreases n,
{
    if k < n - 1 {
        lemma_refused(s, k, (n - 1) as nat);
    }
}

} // verus!
