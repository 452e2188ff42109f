//! Columns as they are written.
use arrow_data::ArrayData;
use arrow_schema::DataType;
use vstd::prelude::*;

use crate::batch::array::{
    all_normal, byte_views, compactable, ensure_supported, is_compactable, is_normalized, is_whole,
    kind_refusal, lemma_children, normal, readable, tree, trees, whole, ArrayNode, ArrayView, Kind,
};
use crate::batch::error::Error;
use crate::batch::outside::{
    array_tree, compacted, compacted_tree, genuine_tree, same_type, tree_of,
};
use crate::batch::plain::{
    child_types, has_type, inner_of, is_type, kind_of, plain_of, sort_of, type_kind, ArrowType,
};

verus! {

/// Whether an array has the parts its type asks for: if it is of a kind that is
/// read, it has a bitmap just if it has nulls, a first buffer that is not cut
/// short, and children of the types inside of its own.
pub open spec fn fits(a: ArrayView) -> bool
    decreases a,
{
    readable(type_kind(a.of)) ==> {
        &&& a.nulls is Some <==> a.null_count > 0
        &&& whole(type_kind(a.of), a.buffers)
        &&& all_fit(child_types(a.of), a.children)
    }
}

/// Whether the arrays are of these types, one for one, and have the parts they
/// ask for.
pub open spec fn all_fit(types: Seq<DataType>, s: Seq<ArrayView>) -> bool
    decreases s, s.len(),
{
    &&& types.len() == s.len()
    &&& s.len() > 0 ==> s[0].of == types[0] && fits(s[0]) && all_fit(types.skip(1), s.skip(1))
}

/// Why an array, by its type or by one inside, is never written.
pub open spec fn never_written(a: ArrayView) -> Option<Error>
    decreases a,
{
    match kind_refusal(type_kind(a.of)) {
        Some(e) => Some(e),
        None => any_never_written(a.children),
    }
}

/// Why the first array of a type that is never written is not.
pub open spec fn any_never_written(s: Seq<ArrayView>) -> Option<Error>
    decreases s, s.len(),
{
    if s.len() == 0 {
        None
    } else {
        match never_written(s[0]) {
            Some(e) => Some(e),
            None => any_never_written(s.skip(1)),
        }
    }
}

/// Whether an array has the parts its type asks for.
pub fn is_fit(a: &ArrayNode) -> (ok: bool)
    ensures
        ok == fits(tree(*a)),
    decreases a,
{
    let p: ArrowType = plain_of(&a.data_type);
    let k: Kind = kind_of(&p);
    if !k.is_readable() {
        return true;
    }
    if a.nulls.is_some() != (a.null_count > 0) {
        return false;
    }
    if !is_whole(k, &a.buffers) {
        return false;
    }
    let types: Vec<DataType> = inner_of(p);
    let n: usize = a.children.len();
    if types.len() != n {
        return false;
    }
    proof {
        lemma_children(*a);
        assert(tree(*a).children.skip(0) =~= tree(*a).children);
        assert(types@.skip(0) =~= types@);
        assert(tree(*a).buffers == byte_views(a.buffers@));
    }
    let mut i: usize = 0;
    while i < n
        invariant
            n == a.children@.len(),
            n == types@.len(),
            i <= n,
            tree(*a).children == trees(a.children@),
            fits(tree(*a)) == all_fit(types@.skip(i as int), tree(*a).children.skip(i as int)),
        decreases n - i,
    {
        proof {
            let c = tree(*a).children;
            assert(c.skip(i as int)[0] == tree(a.children@[i as int]));
            assert(c.skip(i as int).skip(1) =~= c.skip(i + 1));
            assert(types@.skip(i as int).skip(1) =~= types@.skip(i + 1));
        }
        if !same_type(&a.children[i].data_type, &types[i]) {
            return false;
        }
        if !is_fit(&a.children[i]) {
            return false;
        }
        i = i + 1;
    }
    true
}

/// Refuse an array whose type, or one inside, is never written.
pub fn ensure_written(a: &ArrayNode) -> (r: Result<(), Error>)
    ensures
        match never_written(tree(*a)) {
            None => r is Ok,
            Some(e) => r is Err && r->Err_0 == e,
        },
    decreases a,
{
    match ensure_supported(sort_of(&a.data_type)) {
        Ok(_) => {},
        Err(e) => {
            return Err(e);
        },
    }
    proof {
        lemma_children(*a);
        assert(tree(*a).children.skip(0) =~= tree(*a).children);
    }
    let n: usize = a.children.len();
    let mut i: usize = 0;
    while i < n
        invariant
            n == a.children@.len(),
            i <= n,
            tree(*a).children == trees(a.children@),
            never_written(tree(*a)) == any_never_written(tree(*a).children.skip(i as int)),
        decreases n - i,
    {
        proof {
            let c = tree(*a).children;
            assert(c.skip(i as int)[0] == tree(a.children@[i as int]));
            assert(c.skip(i as int).skip(1) =~= c.skip(i + 1));
        }
        match ensure_written(&a.children[i]) {
            Ok(_) => {},
            Err(e) => {
                return Err(e);
            },
        }
        i = i + 1;
    }
    Ok(())
}

/// Whether an array can be written as it is: it starts at element `0` of its
/// buffers and has the parts its type asks for.
pub open spec fn ready(a: ArrayView) -> bool {
    normal(a) && fits(a)
}

/// The column as it is written under the type `t`: as it is, or, if it is a slice
/// or its type is another that Arrow takes for `t`, compacted. `None` stands for
/// a compaction that fails.
pub open spec fn normalized(a: ArrayView, t: DataType, compact: Option<ArrayView>) -> Result<
    ArrayView,
    Error,
> {
    if a.of == t && ready(a) {
        Ok(a)
    } else if !is_type(a.of, t) {
        Err(Error::Arrow)
    } else if never_written(a) is Some {
        Err(never_written(a)->Some_0)
    } else if !compactable(a) {
        Err(Error::Unsupported("column cannot be normalized"))
    } else {
        match compact {
            None => Err(Error::Arrow),
            Some(c) => if c.of == t && ready(c) {
                Ok(c)
            } else {
                Err(Error::Unsupported("column cannot be normalized"))
            },
        }
    }
}

/// The column as it is written under the type `t`.
pub open spec fn column_of(d: ArrayData, t: DataType) -> Result<ArrayView, Error> {
    normalized(array_tree(d), t, compacted_tree(d, t))
}

/// The column as a plain value that can be written as it is under the type `t`. A
/// slice is compacted first.
pub fn normalize(d: &ArrayData, t: &DataType) -> (r: Result<ArrayNode, Error>)
    ensures
        match column_of(*d, *t) {
            Ok(a) => r is Ok && tree(r->Ok_0) == a,
            Err(e) => r is Err && r->Err_0 == e,
        },
        r matches Ok(a) ==> ready(tree(a)) && tree(a).of == *t && genuine_tree(tree(a)),
{
    let a: ArrayNode = tree_of(d);
    if same_type(&a.data_type, t) && is_normalized(&a) && is_fit(&a) {
        return Ok(a);
    }
    if !has_type(&a.data_type, t) {
        return Err(Error::Arrow);
    }
    match ensure_written(&a) {
        Ok(_) => {},
        Err(e) => {
            return Err(e);
        },
    }
    if !is_compactable(&a) {
        return Err(Error::Unsupported("column cannot be normalized"));
    }
    match compacted(d, t) {
        Err(_) => Err(Error::Arrow),
        Ok(c) => normalized_or_refused(tree_of(&c), t),
    }
}

/// A compacted column, if it is of the type and can be written as it is.
pub fn normalized_or_refused(a: ArrayNode, of: &DataType) -> (r: Result<ArrayNode, Error>)
    ensures
        tree(a).of == *of && ready(tree(a)) ==> r is Ok && r->Ok_0 == a,
        !(tree(a).of == *of && ready(tree(a))) ==> r is Err && r->Err_0 == Error::Unsupported(
            "column cannot be normalized",
        ),
{
    if same_type(&a.data_type, of) && is_normalized(&a) && is_fit(&a) {
        Ok(a)
    } else {
        Err(Error::Unsupported("column cannot be normalized"))
    }
}

/// Why the first column that cannot be written under its type cannot be.
pub open spec fn first_refused(types: Seq<DataType>, columns: Seq<ArrayData>) -> Option<Error>
    decreases columns.len(),
{
    if columns.len() == 0 {
        None
    } else {
        match column_of(columns[0], types[0]) {
            Err(e) => Some(e),
            Ok(_) => first_refused(types.skip(1), columns.skip(1)),
        }
    }
}

/// Whether the columns have as many elements as there are rows, and no nulls
/// where there may be none.
pub open spec fn lined_up(nullable: Seq<bool>, cols: Seq<ArrayView>, rows: nat) -> bool {
    forall|i: int|
        0 <= i < cols.len() ==> (#[trigger] cols[i]).len == rows && (nullable[i] || cols[i].null_count == 0)
}

/// Whether the columns have as many elements as there are rows, and no nulls
/// where there may be none.
pub fn is_lined_up(nullable: &Vec<bool>, cols: &Vec<ArrayNode>, rows: usize) -> (ok: bool)
    requires
        nullable@.len() == cols@.len(),
    ensures
        ok == lined_up(nullable@, trees(cols@), rows as nat),
{
    let n: usize = cols.len();
    let mut i: usize = 0;
    while i < n
        invariant
            n == cols@.len(),
            n == nullable@.len(),
            i <= n,
            forall|k: int|
                0 <= k < i ==> (#[trigger] trees(cols@)[k]).len == rows && (nullable@[k] || trees(
                    cols@,
                )[k].null_count == 0),
        decreases n - i,
    {
        assert(trees(cols@)[i as int] == tree(cols@[i as int]));
        if cols[i].len != rows || (!nullable[i] && cols[i].null_count != 0) {
            return false;
        }
        i = i + 1;
    }
    true
}

pub proof fn lemma_all_normal(s: Seq<ArrayView>)
    requires
        forall|i: int| 0 <= i < s.len() ==> normal(#[trigger] s[i]),
    ensures
        all_normal(s),
    decreases s.len(),
{
    if s.len() > 0 {
        assert forall|i: int| 0 <= i < s.skip(1).len() implies normal(#[trigger] s.skip(1)[i]) by {
            assert(s.skip(1)[i] == s[i + 1]);
        }
        lemma_all_normal(s.skip(1));
    }
}

pub proof fn lemma_all_fit(types: Seq<DataType>, s: Seq<ArrayView>)
    requires
        types.len() == s.len(),
        forall|i: int| 0 <= i < s.len() ==> fits(#[trigger] s[i]) && s[i].of == types[i],
    ensures
        all_fit(types, s),
    decreases s.len(),
{
    if s.len() > 0 {
        assert forall|i: int| 0 <= i < s.skip(1).len() implies fits(#[trigger] s.skip(1)[i]) && s.skip(
            1,
        )[i].of == types.skip(1)[i] by {
            assert(s.skip(1)[i] == s[i + 1]);
        }
        lemma_all_fit(types.skip(1), s.skip(1));
    }
}

pub proof fn lemma_genuine_trees(s: Seq<ArrayView>)
    requires
        forall|i: int| 0 <= i < s.len() ==> genuine_tree(#[trigger] s[i]),
    ensures
        crate::batch::outside::genuine_trees(s),
    decreases s.len(),
{
    if s.len() > 0 {
        assert forall|i: int| 0 <= i < s.skip(1).len() implies genuine_tree(#[trigger] s.skip(1)[i]) by {
            assert(s.skip(1)[i] == s[i + 1]);
        }
        lemma_genuine_trees(s.skip(1));
    }
}

} // verus!
