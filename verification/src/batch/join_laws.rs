//! When batches are joined, and what comes out.
use arrow_data::ArrayData;
use arrow_schema::Schema;
use vstd::prelude::*;

use crate::batch::array::{
    all_joinable, elements, items, joinable, nth_children, readable_tree, readable_trees, ArrayView,
};
use crate::batch::error::Error;
use crate::batch::join::{column_joined, columns_joined, nth_column, rows_joined};
use crate::batch::outside::{
    array_tree, array_trees, joined_array, schema_nullable, schema_types, type_plain,
};
use crate::batch::plain::is_type;
use crate::batch::rows::follows;
use crate::batch::type_laws::{has_no_arrays, is_refused, what_is_read_back};

verus! {

// ---- counting ----

/// Elements add up.
pub proof fn elements_add_up(s: Seq<ArrayView>, t: Seq<ArrayView>)
    ensures
        elements(s + t) == elements(s) + elements(t),
        s.len() == 1 ==> elements(s) == s[0].len,
        s.len() == 0 ==> elements(s) == 0,
    decreases t.len(),
{
    if t.len() == 0 {
        assert(s + t =~= s);
    } else {
        assert((s + t).drop_last() =~= s + t.drop_last());
        elements_add_up(s, t.drop_last());
    }
    if s.len() == 1 {
        assert(s.drop_last() =~= Seq::<ArrayView>::empty());
        assert(elements(s.drop_last()) == 0);
    }
}

/// Items add up: a list's are the elements of its first child.
pub proof fn items_add_up(s: Seq<ArrayView>, t: Seq<ArrayView>)
    ensures
        items(s + t) == items(s) + items(t),
        s.len() == 1 && s[0].children.len() > 0 ==> items(s) == s[0].children[0].len,
        s.len() == 1 && s[0].children.len() == 0 ==> items(s) == 0,
        s.len() == 0 ==> items(s) == 0,
    decreases t.len(),
{
    if t.len() == 0 {
        assert(s + t =~= s);
    } else {
        assert((s + t).drop_last() =~= s + t.drop_last());
        items_add_up(s, t.drop_last());
    }
    if s.len() == 1 {
        assert(s.drop_last() =~= Seq::<ArrayView>::empty());
        assert(items(s.drop_last()) == 0);
    }
}

/// The children of arrays that all have them are in the order of the arrays.
pub proof fn children_keep_their_order(s: Seq<ArrayView>, k: nat)
    requires
        forall|i: int| 0 <= i < s.len() ==> k < (#[trigger] s[i]).children.len(),
    ensures
        nth_children(s, k) == Seq::new(s.len(), |i: int| s[i].children[k as int]),
    decreases s.len(),
{
    let v = Seq::new(s.len(), |i: int| s[i].children[k as int]);
    if s.len() > 0 {
        let p = s.drop_last();
        assert forall|i: int| 0 <= i < p.len() implies k < (#[trigger] p[i]).children.len() by {
            assert(p[i] == s[i]);
        }
        assert(k < s[s.len() - 1].children.len());
        children_keep_their_order(p, k);
        assert(nth_children(s, k) =~= v);
    } else {
        assert(nth_children(s, k) =~= v);
    }
}

// ---- when arrays are joined ----

/// The array inside of `x` that a path of child numbers leads to, if it leads to
/// one.
pub open spec fn inside(x: ArrayView, path: Seq<nat>) -> Option<ArrayView>
    decreases path.len(),
{
    if path.len() == 0 {
        Some(x)
    } else if path[0] < x.children.len() {
        inside(x.children[path[0] as int], path.skip(1))
    } else {
        None
    }
}

/// The arrays inside of each of `s` that a path leads to.
pub open spec fn all_inside_of(s: Seq<ArrayView>, path: Seq<nat>) -> Seq<ArrayView>
    decreases path.len(),
{
    if path.len() == 0 {
        s
    } else {
        all_inside_of(nth_children(s, path[0]), path.skip(1))
    }
}

/// Whether arrays `s`, all like `x`, overflow nothing: their elements can be
/// counted, and the items of lists by their offsets.
pub open spec fn overflows_nothing(x: ArrayView, s: Seq<ArrayView>) -> bool {
    &&& elements(s) <= usize::MAX
    &&& type_plain(x.of) is List ==> items(s) <= i32::MAX
    &&& type_plain(x.of) is LargeList ==> items(s) <= i64::MAX
}

proof fn lemma_children_joinable(
    x: ArrayView,
    c: Seq<ArrayView>,
    s: Seq<ArrayView>,
    k: nat,
)
    requires
        k + c.len() == x.children.len(),
        forall|i: int| 0 <= i < c.len() ==> #[trigger] c[i] == x.children[k + i],
        forall|i: int|
            #![trigger x.children[i]]
            k <= i < x.children.len() ==> joinable(x.children[i], nth_children(s, i as nat)),
    ensures
        all_joinable(c, s, k),
    decreases c.len(),
{
    if c.len() > 0 {
        assert(c[0] == x.children[k as int]);
        let d = c.skip(1);
        assert forall|i: int| 0 <= i < d.len() implies #[trigger] d[i] == x.children[k + 1 + i] by {
            assert(d[i] == c[i + 1]);
        }
        lemma_children_joinable(x, d, s, k + 1);
    }
}

/// Whether nothing overflows when arrays `s`, all like `x`, are joined, at any depth, and
/// arrays of types without arrays inside have none.
pub open spec fn nothing_overflows(x: ArrayView, s: Seq<ArrayView>) -> bool {
    forall|path: Seq<nat>|
        (#[trigger] inside(x, path)) matches Some(y) ==> {
            &&& overflows_nothing(y, all_inside_of(s, path))
            &&& !(type_plain(y.of) is Struct || type_plain(y.of) is List || type_plain(y.of) is LargeList
                || type_plain(y.of) is FixedSizeList) ==> y.children.len() == 0
        }
}

/// Whether an array and all inside, at any depth, are of types that are read.
pub open spec fn of_types_read(x: ArrayView) -> bool {
    forall|path: Seq<nat>|
        (#[trigger] inside(x, path)) matches Some(y) ==> {
            let p = type_plain(y.of);
            !is_refused(p) && !has_no_arrays(p) && !(p is ListView) && !(p is LargeListView)
        }
}

/// An array is read if it and all inside, at any depth, are of types that are.
pub proof fn what_is_readable(x: ArrayView)
    requires
        of_types_read(x),
    ensures
        readable_tree(x),
    decreases x,
{
    assert(inside(x, Seq::<nat>::empty()) == Some(x));
    assert forall|i: int| 0 <= i < x.children.len() implies readable_tree(#[trigger] x.children[i]) by {
        let y = x.children[i];
        assert forall|path: Seq<nat>| (#[trigger] inside(y, path)) matches Some(z) implies {
            let p = type_plain(inside(y, path)->Some_0.of);
            !is_refused(p) && !has_no_arrays(p) && !(p is ListView) && !(p is LargeListView)
        } by {
            let long = seq![i as nat] + path;
            assert(long.skip(1) =~= path);
            assert(long[0] == i as nat);
            assert(inside(x, long) == inside(y, path));
        }
        what_is_readable(y);
    }
    what_is_read_back(x);
}

/// Arrays are joined wherever nothing overflows, at any depth, and arrays without
/// entries in them have none inside. Whether there are nulls, and of which types
/// they are, does not matter.
pub proof fn what_is_joined(x: ArrayView, s: Seq<ArrayView>)
    requires
        nothing_overflows(x, s),
    ensures
        joinable(x, s),
    decreases x,
{
    let empty = Seq::<nat>::empty();
    assert(inside(x, empty) == Some(x));
    assert(all_inside_of(s, empty) == s);
    assert forall|i: int| #![trigger x.children[i]] 0 <= i < x.children.len() implies joinable(
        x.children[i],
        nth_children(s, i as nat),
    ) by {
        let y = x.children[i];
        let t = nth_children(s, i as nat);
        assert forall|path: Seq<nat>| (#[trigger] inside(y, path)) matches Some(z) implies {
            let z = inside(y, path)->Some_0;
            &&& overflows_nothing(z, all_inside_of(t, path))
            &&& !(type_plain(z.of) is Struct || type_plain(z.of) is List || type_plain(z.of) is LargeList
                || type_plain(z.of) is FixedSizeList) ==> z.children.len() == 0
        } by {
            let long = seq![i as nat] + path;
            assert(long.skip(1) =~= path);
            assert(long[0] == i as nat);
            assert(inside(x, long) == inside(y, path));
            assert(all_inside_of(s, long) == all_inside_of(t, path));
        }
        what_is_joined(y, t);
    }
    lemma_children_joinable(x, x.children, s, 0);
}

// ---- when batches are joined ----

/// The columns with the number `k` of all batches, in the order of the batches.
pub open spec fn column_by_batch(s: Seq<Seq<ArrayData>>, k: int) -> Seq<ArrayData> {
    Seq::new(s.len(), |i: int| s[i][k])
}

proof fn lemma_columns_joined(s: Seq<Seq<ArrayData>>, n: nat, w: Seq<ArrayData>)
    requires
        w.len() >= n,
        forall|k: int| 0 <= k < n ==> column_joined(s, k) == Some(#[trigger] w[k]),
    ensures
        columns_joined(s, n) == Some(w.take(n as int)),
    decreases n,
{
    if n > 0 {
        lemma_columns_joined(s, (n - 1) as nat, w);
        assert(column_joined(s, n - 1) == Some(w[n - 1]));
        assert(w.take(n - 1).push(w[n - 1]) =~= w.take(n as int));
    } else {
        assert(w.take(0) =~= Seq::<ArrayData>::empty());
    }
}

proof fn lemma_columns_joined_back(s: Seq<Seq<ArrayData>>, n: nat, k: int)
    requires
        columns_joined(s, n) is Some,
        0 <= k < n,
    ensures
        columns_joined(s, n)->Some_0.len() == n,
        column_joined(s, k) == Some(columns_joined(s, n)->Some_0[k]),
    decreases n,
{
    lemma_columns_len(s, (n - 1) as nat);
    if k < n - 1 {
        lemma_columns_joined_back(s, (n - 1) as nat, k);
    }
}

proof fn lemma_columns_len(s: Seq<Seq<ArrayData>>, n: nat)
    requires
        columns_joined(s, n) is Some,
    ensures
        columns_joined(s, n)->Some_0.len() == n,
    decreases n,
{
    if n > 0 {
        lemma_columns_len(s, (n - 1) as nat);
    }
}

proof fn lemma_readable_trees(s: Seq<ArrayView>)
    requires
        forall|i: int| 0 <= i < s.len() ==> readable_tree(#[trigger] s[i]),
    ensures
        readable_trees(s),
    decreases s.len(),
{
    if s.len() > 0 {
        let r = s.skip(1);
        assert forall|i: int| 0 <= i < r.len() implies readable_tree(#[trigger] r[i]) by {
            assert(r[i] == s[i + 1]);
        }
        lemma_readable_trees(r);
    }
}

/// Joining succeeds wherever Arrow's does. Batches of as many columns each, all of
/// types that are read, whose counts overflow nothing, and whose columns Arrow
/// joins to `w`, one column behind the other in the order of the batches, are
/// joined to `w`, as long as that follows the schema: a column for each field, of
/// its type, all equally long, and without nulls where there may be none.
pub proof fn batches_are_joined_where_arrow_joins_them(
    schema: Schema,
    s: Seq<Seq<ArrayData>>,
    w: Seq<ArrayData>,
)
    requires
        s.len() > 0,
        w.len() > 0,
        w.len() == schema_types(schema).len(),
        forall|i: int| 0 <= i < s.len() ==> (#[trigger] s[i]).len() == w.len(),
        forall|k: int|
            #![trigger w[k]]
            0 <= k < w.len() ==> {
                let c = column_by_batch(s, k);
                &&& joined_array(c) == Some(w[k])
                &&& forall|i: int| 0 <= i < s.len() ==> of_types_read(array_tree((#[trigger] s[i])[k]))
                &&& nothing_overflows(array_tree(s[0][k]), array_trees(c))
                &&& is_type(array_tree(w[k]).of, schema_types(schema)[k])
                &&& array_tree(w[k]).len == array_tree(w[0]).len
                &&& schema_nullable(schema)[k] || array_tree(w[k]).null_count == 0
            },
    ensures
        rows_joined(schema, s) == Ok::<Seq<ArrayData>, Error>(w),
{
    assert(s[0].len() == w.len());
    assert forall|k: int| 0 <= k < w.len() implies column_joined(s, k) == Some(#[trigger] w[k]) by {
        assert(nth_column(s, k) =~= column_by_batch(s, k));
        assert(nth_column(s, k)[0] == s[0][k]);
        assert forall|i: int| 0 <= i < s.len() implies (#[trigger] s[i]).len() > k by {}
        let c = column_by_batch(s, k);
        assert(joined_array(c) == Some(w[k]));
        what_is_joined(array_tree(s[0][k]), array_trees(c));
        let a = array_trees(c);
        assert forall|i: int| 0 <= i < a.len() implies readable_tree(#[trigger] a[i]) by {
            assert(a[i] == array_tree(s[i][k]));
            assert(of_types_read(array_tree(s[i][k])));
            what_is_readable(a[i]);
        }
        lemma_readable_trees(a);
    }
    lemma_columns_joined(s, w.len(), w);
    assert(w.take(w.len() as int) =~= w);
    let t = array_trees(w);
    assert forall|k: int| 0 <= k < t.len() implies is_type(
        (#[trigger] t[k]).of,
        schema_types(schema)[k],
    ) && t[k].len == t[0].len && (schema_nullable(schema)[k] || t[k].null_count == 0) by {
        assert(t[k] == array_tree(w[k]));
    }
    assert(follows(schema, t));
}

/// What comes out is what Arrow joins the columns to, in the order of the batches:
/// no column of another number, no other order, nothing left out.
pub proof fn joined_rows_are_arrows(schema: Schema, s: Seq<Seq<ArrayData>>, k: int)
    requires
        s.len() > 0,
        rows_joined(schema, s) is Ok,
        0 <= k < s[0].len(),
    ensures
        rows_joined(schema, s)->Ok_0.len() == s[0].len(),
        joined_array(column_by_batch(s, k)) == Some(rows_joined(schema, s)->Ok_0[k]),
        forall|i: int| 0 <= i < s.len() ==> (#[trigger] s[i]).len() > k,
{
    lemma_columns_joined_back(s, s[0].len(), k);
    assert(nth_column(s, k) =~= column_by_batch(s, k));
}

} // verus!
