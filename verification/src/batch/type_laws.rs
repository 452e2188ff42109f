//! Which types are written, which are read, and how they are laid out.
use arrow_data::ArrayData;
use arrow_schema::{DataType, Schema};
use vstd::prelude::*;

use crate::batch::array::{
    all_compactable, all_normal, compactable, entry_width, kind_refusal, nested, normal,
    plan_refusal, plans_refusal, readable, readable_tree, readable_trees, ArrayView,
};
use crate::batch::column::{
    all_fit, any_never_written, column_of, first_refused, never_written, ready,
};
use crate::batch::error::Error;
use crate::batch::outside::{
    array_tree, array_trees, compacted_tree, schema_nullable, schema_types, type_plain, types_alike,
};
use crate::batch::plain::{child_types, is_type, type_kind, PlainView};
use crate::batch::schema::serializable;
use crate::batch::write::{columns_of, columns_refusal};

verus! {

/// Just these types are refused for what they are: dictionaries, unions, maps and
/// run-end encoded ones.
pub open spec fn is_refused(p: PlainView) -> bool {
    p is Dictionary || p is Union || p is KeyValue || p is RunEndEncoded
}

/// Types that Arrow has no arrays of: a negative width or size, and a time of day
/// in a unit that its width cannot count.
pub open spec fn has_no_arrays(p: PlainView) -> bool {
    match p {
        PlainView::FixedSizeBinary(n) => n < 0,
        PlainView::FixedSizeList(_, n) => n < 0,
        PlainView::Time32(u) => u >= 2,
        PlainView::Time64(u) => u < 2,
        _ => false,
    }
}

/// The layout refuses a type for what it is just if it is a dictionary, a union,
/// a map or run-end encoded, and says which.
pub proof fn which_types_are_refused(t: DataType)
    ensures
        kind_refusal(type_kind(t)) is Some <==> is_refused(type_plain(t)),
        type_plain(t) is Dictionary ==> kind_refusal(type_kind(t)) == Some(
            Error::Unsupported("dictionary type not supported"),
        ),
        type_plain(t) is Union ==> kind_refusal(type_kind(t)) == Some(
            Error::Unsupported("union type not supported"),
        ),
        type_plain(t) is KeyValue ==> kind_refusal(type_kind(t)) == Some(
            Error::Unsupported("map type not supported"),
        ),
        type_plain(t) is RunEndEncoded ==> kind_refusal(type_kind(t)) == Some(
            Error::Unsupported("run-end-encoded type not supported"),
        ),
{
}

/// Every type that is not refused, that Arrow has arrays of, and that is no list
/// view is read back; no other is.
pub proof fn which_types_are_read(t: DataType)
    ensures
        readable(type_kind(t)) <==> {
            let p = type_plain(t);
            !is_refused(p) && !has_no_arrays(p) && !(p is ListView) && !(p is LargeListView)
        },
{
}

/// Structs have the children their fields say, and lists one, of their items'
/// type; no other type that is read has any.
pub proof fn which_types_have_children(t: DataType)
    ensures
        match type_plain(t) {
            PlainView::Struct(v) => child_types(t) == v && nested(type_kind(t)),
            PlainView::List(x) => child_types(t) == seq![x] && nested(type_kind(t)),
            PlainView::LargeList(x) => child_types(t) == seq![x] && nested(type_kind(t)),
            PlainView::FixedSizeList(x, n) => child_types(t) == seq![x] && (nested(type_kind(t))
                <==> n >= 0),
            _ => child_types(t).len() == 0 && !nested(type_kind(t)),
        },
{
}

/// How wide the entries of a type's first buffer are: offsets of four bytes or of
/// eight, views of sixteen; what is no entry is not looked at.
pub proof fn how_wide_entries_are(t: DataType)
    requires
        readable(type_kind(t)),
    ensures
        ({
            let p = type_plain(t);
            let four = p is Binary || p is Utf8 || p is List;
            let eight = p is LargeBinary || p is LargeUtf8 || p is LargeList;
            let sixteen = p is BinaryView || p is Utf8View;
            &&& entry_width(type_kind(t)) == 4 <==> four
            &&& entry_width(type_kind(t)) == 8 <==> eight
            &&& entry_width(type_kind(t)) == 16 <==> sixteen
            &&& entry_width(type_kind(t)) == 1 <==> !four && !eight && !sixteen
        }),
{
}

// ---- what is asked of a column ----

/// Whether an array starts at element `0` of its buffers, by itself.
pub open spec fn starts_at_zero(a: ArrayView) -> bool {
    a.offset == 0 && (a.nulls matches Some(n) ==> n.0 == 0)
}

/// Whether the first buffer of a type with entries holds a whole number of them.
pub open spec fn has_whole_entries(a: ArrayView) -> bool {
    let p = type_plain(a.of);
    let n = a.buffers[0].len();
    a.buffers.len() > 0 ==> {
        &&& p is Binary || p is Utf8 || p is List ==> n % 4 == 0
        &&& p is LargeBinary || p is LargeUtf8 || p is LargeList ==> n % 8 == 0
        &&& p is BinaryView || p is Utf8View ==> n % 16 == 0
    }
}

proof fn lemma_all_ready(types: Seq<DataType>, s: Seq<ArrayView>)
    requires
        types.len() == s.len(),
        forall|i: int| 0 <= i < s.len() ==> ready(#[trigger] s[i]) && s[i].of == types[i],
    ensures
        all_normal(s),
        all_fit(types, s),
    decreases s.len(),
{
    if s.len() > 0 {
        assert forall|i: int| 0 <= i < s.skip(1).len() implies ready(#[trigger] s.skip(1)[i]) && s.skip(
            1,
        )[i].of == types.skip(1)[i] by {
            assert(s.skip(1)[i] == s[i + 1]);
        }
        assert(ready(s[0]));
        lemma_all_ready(types.skip(1), s.skip(1));
    }
}

proof fn lemma_each_normal(s: Seq<ArrayView>)
    requires
        forall|i: int| 0 <= i < s.len() ==> normal(#[trigger] s[i]),
    ensures
        all_normal(s),
    decreases s.len(),
{
    if s.len() > 0 {
        assert forall|i: int| 0 <= i < s.skip(1).len() implies normal(#[trigger] s.skip(1)[i]) by {
            assert(s.skip(1)[i] == s[i + 1]);
        }
        assert(normal(s[0]));
        lemma_each_normal(s.skip(1));
    }
}

/// An array of a type that is read can be written as it is wherever it starts at
/// element `0` of its buffers, has a bitmap just if it has nulls, and has the
/// children its type says, which can be written as they are. An array of another
/// type can wherever it and all inside start at `0`. Nothing else matters: not
/// how many elements or nulls it has, nor what is in the buffers, but that their
/// entries are whole.
pub proof fn what_is_written_as_it_is(a: ArrayView)
    requires
        starts_at_zero(a),
        readable(type_kind(a.of)) ==> {
            &&& a.nulls is Some <==> a.null_count > 0
            &&& has_whole_entries(a)
            &&& a.children.len() == child_types(a.of).len()
            &&& forall|i: int|
                0 <= i < a.children.len() ==> ready(#[trigger] a.children[i]) && a.children[i].of
                    == child_types(a.of)[i]
        },
        !readable(type_kind(a.of)) ==> forall|i: int|
            0 <= i < a.children.len() ==> normal(#[trigger] a.children[i]),
    ensures
        ready(a),
{
    if readable(type_kind(a.of)) {
        how_wide_entries_are(a.of);
        lemma_all_ready(child_types(a.of), a.children);
    } else {
        lemma_each_normal(a.children);
    }
}

proof fn lemma_each_normal_back(s: Seq<ArrayView>, i: int)
    requires
        all_normal(s),
        0 <= i < s.len(),
    ensures
        normal(s[i]),
    decreases s.len(),
{
    if i > 0 {
        lemma_each_normal_back(s.skip(1), i - 1);
        assert(s.skip(1)[i - 1] == s[i]);
    }
}

/// And no other array is: a slice never is written as it is.
pub proof fn a_slice_is_not_written_as_it_is(a: ArrayView, i: int)
    requires
        ready(a),
    ensures
        starts_at_zero(a),
        0 <= i < a.children.len() ==> starts_at_zero(a.children[i]),
{
    if 0 <= i < a.children.len() {
        lemma_each_normal_back(a.children, i);
    }
}

proof fn lemma_compactable_all(s: Seq<ArrayView>)
    requires
        forall|i: int| 0 <= i < s.len() ==> compactable(#[trigger] s[i]),
    ensures
        all_compactable(s),
    decreases s.len(),
{
    if s.len() > 0 {
        assert forall|i: int| 0 <= i < s.skip(1).len() implies compactable(#[trigger] s.skip(1)[i]) by {
            assert(s.skip(1)[i] == s[i + 1]);
        }
        assert(compactable(s[0]));
        lemma_compactable_all(s.skip(1));
    }
}

/// And no array of a type that is read is, but with the parts it asks for: a bitmap just
/// if there are nulls, whole entries, and the children its type says, each of which can be
/// written as it is.
pub proof fn what_is_written_is_whole(a: ArrayView, i: int)
    requires
        ready(a),
        readable(type_kind(a.of)),
    ensures
        a.nulls is Some <==> a.null_count > 0,
        has_whole_entries(a),
        a.children.len() == child_types(a.of).len(),
        0 <= i < a.children.len() ==> ready(a.children[i]) && a.children[i].of == child_types(a.of)[i],
{
    how_wide_entries_are(a.of);
    if 0 <= i < a.children.len() {
        lemma_ready_child(child_types(a.of), a.children, i);
    }
    lemma_fit_len(child_types(a.of), a.children);
}

proof fn lemma_fit_len(types: Seq<DataType>, s: Seq<ArrayView>)
    requires
        all_fit(types, s),
    ensures
        types.len() == s.len(),
{
}

proof fn lemma_ready_child(types: Seq<DataType>, s: Seq<ArrayView>, i: int)
    requires
        all_fit(types, s),
        all_normal(s),
        0 <= i < s.len(),
    ensures
        ready(s[i]),
        s[i].of == types[i],
    decreases s.len(),
{
    if i > 0 {
        lemma_ready_child(types.skip(1), s.skip(1), i - 1);
    }
}

/// Any array is compacted that Arrow can compact: of a type that is not refused
/// and has arrays, with children that can be compacted, and, for a list view, no
/// more items than its offsets count.
pub proof fn what_can_be_compacted(a: ArrayView)
    requires
        !is_refused(type_plain(a.of)),
        !has_no_arrays(type_plain(a.of)),
        forall|i: int| 0 <= i < a.children.len() ==> compactable(#[trigger] a.children[i]),
        type_plain(a.of) is ListView ==> forall|i: int|
            0 <= i < a.children.len() ==> (#[trigger] a.children[i]).len <= i32::MAX,
        type_plain(a.of) is LargeListView ==> forall|i: int|
            0 <= i < a.children.len() ==> (#[trigger] a.children[i]).len <= i64::MAX,
    ensures
        compactable(a),
{
    lemma_compactable_all(a.children);
}

proof fn lemma_none_never_written(s: Seq<ArrayView>)
    requires
        forall|i: int| 0 <= i < s.len() ==> never_written(#[trigger] s[i]) is None,
    ensures
        any_never_written(s) is None,
    decreases s.len(),
{
    if s.len() > 0 {
        assert forall|i: int| 0 <= i < s.skip(1).len() implies never_written(#[trigger] s.skip(1)[i]) is None by {
            assert(s.skip(1)[i] == s[i + 1]);
        }
        assert(never_written(s[0]) is None);
        lemma_none_never_written(s.skip(1));
    }
}

proof fn lemma_some_never_written(s: Seq<ArrayView>, i: int)
    requires
        0 <= i < s.len(),
        never_written(s[i]) is Some,
    ensures
        any_never_written(s) is Some,
    decreases s.len(),
{
    if i > 0 {
        assert(s.skip(1)[i - 1] == s[i]);
        lemma_some_never_written(s.skip(1), i - 1);
    }
}

/// An array is never written just if its type is refused, or that of an array
/// inside.
pub proof fn what_is_never_written(a: ArrayView)
    ensures
        is_refused(type_plain(a.of)) ==> never_written(a) is Some,
        (exists|i: int| 0 <= i < a.children.len() && never_written(#[trigger] a.children[i]) is Some)
            ==> never_written(a) is Some,
        !is_refused(type_plain(a.of)) && (forall|i: int|
            0 <= i < a.children.len() ==> never_written(#[trigger] a.children[i]) is None)
            ==> never_written(a) is None,
{
    if exists|i: int| 0 <= i < a.children.len() && never_written(#[trigger] a.children[i]) is Some {
        let i = choose|i: int|
            0 <= i < a.children.len() && never_written(#[trigger] a.children[i]) is Some;
        lemma_some_never_written(a.children, i);
    }
    if forall|i: int| 0 <= i < a.children.len() ==> never_written(#[trigger] a.children[i]) is None {
        lemma_none_never_written(a.children);
    }
}

/// What becomes of a column. One of another type is refused. One that can be
/// written as it is, is. Any other becomes what Arrow compacts it to, as long as
/// it is of no refused type and Arrow can compact it and what comes out can be
/// written as it is; and then it is of the schema's type.
pub proof fn what_becomes_of_a_column(d: ArrayData, t: DataType)
    ensures
        ({
            let a = array_tree(d);
            &&& a.of == t && ready(a) ==> column_of(d, t) == Ok::<ArrayView, Error>(a)
            &&& !is_type(a.of, t) ==> column_of(d, t) == Err::<ArrayView, Error>(Error::Arrow)
            &&& is_type(a.of, t) && !(a.of == t && ready(a)) && never_written(a) is None && compactable(a)
                ==> match compacted_tree(d, t) {
                Some(c) => c.of == t && ready(c) ==> column_of(d, t) == Ok::<ArrayView, Error>(c),
                None => column_of(d, t) == Err::<ArrayView, Error>(Error::Arrow),
            }
            &&& column_of(d, t) matches Ok(c) ==> c.of == t && ready(c) && (c == a || compacted_tree(
                d,
                t,
            ) == Some(c))
        }),
{
}

proof fn lemma_none_refused(types: Seq<DataType>, columns: Seq<ArrayData>)
    requires
        types.len() == columns.len(),
        forall|i: int|
            0 <= i < columns.len() ==> column_of(#[trigger] columns[i], types[i]) is Ok,
    ensures
        first_refused(types, columns) is None,
    decreases columns.len(),
{
    if columns.len() > 0 {
        assert(column_of(columns[0], types[0]) is Ok);
        assert forall|i: int| 0 <= i < columns.skip(1).len() implies column_of(
            #[trigger] columns.skip(1)[i],
            types.skip(1)[i],
        ) is Ok by {
            assert(columns.skip(1)[i] == columns[i + 1]);
        }
        lemma_none_refused(types.skip(1), columns.skip(1));
    }
}

/// Columns make a batch wherever there is one for each field of a schema that can
/// be serialized, each becomes something, and each has as many elements as there
/// are rows, and nulls only where its field may be null. If each can be written
/// as it is, the batch holds just the columns.
pub proof fn columns_make_a_batch(schema: Schema, columns: Seq<ArrayData>, rows: nat)
    requires
        serializable(schema),
        columns.len() == schema_types(schema).len(),
        forall|i: int|
            0 <= i < columns.len() ==> {
                let c = column_of(#[trigger] columns[i], schema_types(schema)[i]);
                &&& c is Ok
                &&& c->Ok_0.len == rows
                &&& schema_nullable(schema)[i] || c->Ok_0.null_count == 0
            },
    ensures
        columns_refusal(schema, columns, rows) is None,
        (forall|i: int|
            0 <= i < columns.len() ==> {
                let a = array_tree(#[trigger] columns[i]);
                a.of == schema_types(schema)[i] && ready(a)
            }) ==> columns_of(schema_types(schema), columns) == array_trees(columns),
{
    let types = schema_types(schema);
    lemma_none_refused(types, columns);
    let v = columns_of(types, columns);
    assert forall|i: int| 0 <= i < v.len() implies (#[trigger] v[i]).len == rows && (schema_nullable(
        schema,
    )[i] || v[i].null_count == 0) by {
        assert(column_of(columns[i], types[i]) is Ok);
    }
    if forall|i: int|
        0 <= i < columns.len() ==> {
            let a = array_tree(#[trigger] columns[i]);
            a.of == types[i] && ready(a)
        } {
        assert forall|i: int| 0 <= i < v.len() implies v[i] == array_trees(columns)[i] by {
            assert(ready(array_tree(columns[i])));
        }
        assert(v =~= array_trees(columns));
    }
}

/// And nothing else does: a column too many or too few, of another length, or with
/// nulls where there may be none, makes no batch.
pub proof fn what_makes_no_batch(schema: Schema, columns: Seq<ArrayData>, rows: nat, i: int)
    requires
        columns_refusal(schema, columns, rows) is None,
        0 <= i < columns.len(),
    ensures
        columns.len() == schema_types(schema).len(),
        columns_of(schema_types(schema), columns)[i].len == rows,
        schema_nullable(schema)[i] || columns_of(schema_types(schema), columns)[i].null_count == 0,
{
    assert(columns_of(schema_types(schema), columns)[i].len == rows);
}

// ---- what is asked of a batch ----

proof fn lemma_no_plan_refusal(s: Seq<ArrayView>)
    requires
        forall|i: int| 0 <= i < s.len() ==> plan_refusal(#[trigger] s[i]) is None,
    ensures
        plans_refusal(s) is None,
    decreases s.len(),
{
    if s.len() > 0 {
        assert forall|i: int| 0 <= i < s.skip(1).len() implies plan_refusal(#[trigger] s.skip(1)[i]) is None by {
            assert(s.skip(1)[i] == s[i + 1]);
        }
        assert(plan_refusal(s[0]) is None);
        lemma_no_plan_refusal(s.skip(1));
    }
}

/// An array is planned wherever its type is not refused, its counts fit their
/// words, and the arrays inside are planned.
pub proof fn what_is_planned(a: ArrayView)
    requires
        !is_refused(type_plain(a.of)),
        a.len <= u32::MAX,
        a.null_count <= u32::MAX,
        a.buffers.len() <= u32::MAX,
        a.children.len() <= u32::MAX,
        forall|i: int| 0 <= i < a.children.len() ==> plan_refusal(#[trigger] a.children[i]) is None,
    ensures
        plan_refusal(a) is None,
{
    lemma_no_plan_refusal(a.children);
}

proof fn lemma_readable_all(s: Seq<ArrayView>)
    requires
        forall|i: int| 0 <= i < s.len() ==> readable_tree(#[trigger] s[i]),
    ensures
        readable_trees(s),
    decreases s.len(),
{
    if s.len() > 0 {
        assert forall|i: int| 0 <= i < s.skip(1).len() implies readable_tree(#[trigger] s.skip(1)[i]) by {
            assert(s.skip(1)[i] == s[i + 1]);
        }
        assert(readable_tree(s[0]));
        lemma_readable_all(s.skip(1));
    }
}

/// An array is read back wherever its type is, and the arrays inside are.
pub proof fn what_is_read_back(a: ArrayView)
    requires
        !is_refused(type_plain(a.of)),
        !has_no_arrays(type_plain(a.of)),
        !(type_plain(a.of) is ListView) && !(type_plain(a.of) is LargeListView),
        forall|i: int| 0 <= i < a.children.len() ==> readable_tree(#[trigger] a.children[i]),
    ensures
        readable_tree(a),
{
    which_types_are_read(a.of);
    lemma_readable_all(a.children);
}

/// Columns are refused for the first of them that cannot be written under its type.
pub proof fn the_first_bad_column_is_told(schema: Schema, columns: Seq<ArrayData>, rows: nat, i: int)
    requires
        serializable(schema),
        columns.len() == schema_types(schema).len(),
        0 <= i < columns.len(),
        column_of(columns[i], schema_types(schema)[i]) is Err,
        forall|k: int| 0 <= k < i ==> column_of(#[trigger] columns[k], schema_types(schema)[k]) is Ok,
    ensures
        columns_refusal(schema, columns, rows) == Some(
            column_of(columns[i], schema_types(schema)[i])->Err_0,
        ),
{
    lemma_first_refused(schema_types(schema), columns, i);
}

proof fn lemma_first_refused(types: Seq<DataType>, columns: Seq<ArrayData>, i: int)
    requires
        types.len() == columns.len(),
        0 <= i < columns.len(),
        column_of(columns[i], types[i]) is Err,
        forall|k: int| 0 <= k < i ==> column_of(#[trigger] columns[k], types[k]) is Ok,
    ensures
        crate::batch::column::first_refused(types, columns) == Some(column_of(columns[i], types[i])->Err_0),
    decreases columns.len(),
{
    if i > 0 {
        let (t, c) = (types.skip(1), columns.skip(1));
        assert(column_of(columns[0], types[0]) is Ok);
        assert forall|k: int| 0 <= k < i - 1 implies column_of(#[trigger] c[k], t[k]) is Ok by {
            assert(column_of(columns[k + 1], types[k + 1]) is Ok);
        }
        lemma_first_refused(t, c, i - 1);
    }
}

/// Values are of a type if theirs is the same, or one that Arrow takes for equal, and only
/// then.
pub proof fn which_types_are_taken_for_another(a: DataType, t: DataType)
    ensures
        is_type(t, t),
        types_alike(a, t) ==> is_type(a, t),
        is_type(a, t) && a != t ==> types_alike(a, t),
{
}

} // verus!
