//! What is taken from the Arrow crates.
//!
//! Schemas, types and arrays are Arrow's own values. Nothing here looks inside
//! them: the functions below hand out as plain values what the rest of the
//! library reads.
use std::sync::Arc;

use arrow_buffer::Buffer;
use arrow_data::{ArrayData, ArrayDataBuilder};
use arrow_schema::{ArrowError, DataType, Schema};
use vstd::prelude::*;

use crate::batch::array::{
    byte_views, compactable, elements, joinable, makeable, makeable_trees, readable_trees, tree,
    ArrayNode, ArrayView, Nulls,
};
use crate::batch::plain::{
    is_integer, is_list, is_number, is_text, is_time, is_type, plain, type_kind, ArrowType,
    PlainView,
};
use crate::batch::schema::{any_crowded, outlines, Outline, OutlineView, MAX_SCHEMA_TEXT};

verus! {

/// An Arrow schema.
#[verifier::external_type_specification]
#[verifier::external_body]
pub struct ExSchema(Schema);

/// An Arrow type.
#[verifier::external_type_specification]
#[verifier::external_body]
pub struct ExDataType(DataType);

/// An array as Arrow holds it.
#[verifier::external_type_specification]
#[verifier::external_body]
pub struct ExArrayData(ArrayData);

/// Why an Arrow call failed.
#[verifier::external_type_specification]
#[verifier::external_body]
pub struct ExArrowError(ArrowError);

// ---- types ----

/// What a type is.
pub uninterp spec fn type_plain(t: DataType) -> PlainView;

/// The type, if it is that of integers.
///
/// Tells the variants of `DataType` apart. Claimed: which one it is.
#[verifier::external_body]
pub(crate) fn integer_type(t: &DataType) -> (r: Option<ArrowType>)
    ensures
        match r {
            Some(p) => plain(p) == type_plain(*t),
            None => !is_integer(type_plain(*t)),
        },
{
    Some(match t {
        DataType::Int8 => ArrowType::Int8,
        DataType::Int16 => ArrowType::Int16,
        DataType::Int32 => ArrowType::Int32,
        DataType::Int64 => ArrowType::Int64,
        DataType::UInt8 => ArrowType::UInt8,
        DataType::UInt16 => ArrowType::UInt16,
        DataType::UInt32 => ArrowType::UInt32,
        DataType::UInt64 => ArrowType::UInt64,
        _ => return None,
    })
}

/// The type, if it is nothing, a truth value or a number with a fraction.
///
/// Tells the variants of `DataType` apart. Claimed: which one it is.
#[verifier::external_body]
pub(crate) fn number_type(t: &DataType) -> (r: Option<ArrowType>)
    ensures
        match r {
            Some(p) => plain(p) == type_plain(*t),
            None => !is_number(type_plain(*t)),
        },
{
    Some(match t {
        DataType::Null => ArrowType::Null,
        DataType::Boolean => ArrowType::Boolean,
        DataType::Float16 => ArrowType::Float16,
        DataType::Float32 => ArrowType::Float32,
        DataType::Float64 => ArrowType::Float64,
        _ => return None,
    })
}

/// The type, if it is a time or a decimal.
///
/// Tells the variants of `DataType` apart, and moves the unit of a time of day.
/// Claimed: which one it is.
#[verifier::external_body]
pub(crate) fn time_type(t: &DataType) -> (r: Option<ArrowType>)
    ensures
        match r {
            Some(p) => plain(p) == type_plain(*t),
            None => !is_time(type_plain(*t)),
        },
{
    Some(match t {
        DataType::Timestamp(..) => ArrowType::Timestamp,
        DataType::Date32 => ArrowType::Date32,
        DataType::Date64 => ArrowType::Date64,
        DataType::Time32(u) => ArrowType::Time32(*u as u8),
        DataType::Time64(u) => ArrowType::Time64(*u as u8),
        DataType::Duration(_) => ArrowType::Duration,
        DataType::Interval(_) => ArrowType::Interval,
        DataType::Decimal32(..) => ArrowType::Decimal32,
        DataType::Decimal64(..) => ArrowType::Decimal64,
        DataType::Decimal128(..) => ArrowType::Decimal128,
        DataType::Decimal256(..) => ArrowType::Decimal256,
        _ => return None,
    })
}

/// The type, if it is text or bytes.
///
/// Tells the variants of `DataType` apart, and moves the width of bytes of equal
/// width. Claimed: which one it is.
#[verifier::external_body]
pub(crate) fn text_type(t: &DataType) -> (r: Option<ArrowType>)
    ensures
        match r {
            Some(p) => plain(p) == type_plain(*t),
            None => !is_text(type_plain(*t)),
        },
{
    Some(match t {
        DataType::Binary => ArrowType::Binary,
        DataType::FixedSizeBinary(n) => ArrowType::FixedSizeBinary(*n),
        DataType::LargeBinary => ArrowType::LargeBinary,
        DataType::BinaryView => ArrowType::BinaryView,
        DataType::Utf8 => ArrowType::Utf8,
        DataType::LargeUtf8 => ArrowType::LargeUtf8,
        DataType::Utf8View => ArrowType::Utf8View,
        _ => return None,
    })
}

/// The type, if it is a list.
///
/// Tells the variants of `DataType` apart, and moves the type of the items
/// (`Field::data_type`) and their number where it is fixed. Claimed: which one
/// it is.
#[verifier::external_body]
pub(crate) fn list_type(t: &DataType) -> (r: Option<ArrowType>)
    ensures
        match r {
            Some(p) => plain(p) == type_plain(*t),
            None => !is_list(type_plain(*t)),
        },
{
    Some(match t {
        DataType::List(f) => ArrowType::List(f.data_type().clone()),
        DataType::ListView(f) => ArrowType::ListView(f.data_type().clone()),
        DataType::FixedSizeList(f, n) => ArrowType::FixedSizeList(f.data_type().clone(), *n),
        DataType::LargeList(f) => ArrowType::LargeList(f.data_type().clone()),
        DataType::LargeListView(f) => ArrowType::LargeListView(f.data_type().clone()),
        _ => return None,
    })
}

/// The type, if it is none of the others.
///
/// Tells the variants of `DataType` apart, and moves the types inside
/// (`Field::data_type`). Claimed: which one it is.
#[verifier::external_body]
pub(crate) fn tree_type(t: &DataType) -> (r: Option<ArrowType>)
    ensures
        match r {
            Some(p) => plain(p) == type_plain(*t),
            None => is_integer(type_plain(*t)) || is_number(type_plain(*t)) || is_time(type_plain(*t))
                || is_text(type_plain(*t)) || is_list(type_plain(*t)),
        },
{
    Some(match t {
        DataType::Struct(fs) => ArrowType::Struct(fs.iter().map(|f| f.data_type().clone()).collect()),
        DataType::Union(fs, _) => {
            ArrowType::Union(fs.iter().map(|(_, f)| f.data_type().clone()).collect())
        },
        DataType::Dictionary(k, v) => ArrowType::Dictionary((**k).clone(), (**v).clone()),
        DataType::Map(f, _) => ArrowType::KeyValue(f.data_type().clone()),
        DataType::RunEndEncoded(r, v) => {
            ArrowType::RunEndEncoded(r.data_type().clone(), v.data_type().clone())
        },
        _ => return None,
    })
}

/// Whether two types are the same.
///
/// Calls `DataType::fmt` through `Debug`, which prints all that a type is made
/// of. Claimed: types that print alike are the same.
#[verifier::external_body]
pub(crate) fn same_type(a: &DataType, b: &DataType) -> (r: bool)
    ensures
        r == (*a == *b),
{
    format!("{a:?}") == format!("{b:?}")
}

/// Whether Arrow takes two types for equal. It passes over the dictionary ids of
/// the fields inside.
pub uninterp spec fn types_alike(a: DataType, b: DataType) -> bool;

/// Whether Arrow takes two types for equal.
///
/// Calls `DataType::eq`. Claimed: the answer is a function of the types.
#[verifier::external_body]
pub(crate) fn alike(a: &DataType, b: &DataType) -> (r: bool)
    ensures
        r == types_alike(*a, *b),
{
    a == b
}

// ---- schemas ----

/// What a schema says, as the bytes of its IPC schema message.
pub uninterp spec fn schema_message(s: Schema) -> Seq<u8>;

/// The types of a schema's fields, in order.
pub uninterp spec fn schema_types(s: Schema) -> Seq<DataType>;

/// Whether each of a schema's fields may be null, in order.
pub uninterp spec fn schema_nullable(s: Schema) -> Seq<bool>;

/// How long a schema is as text.
pub uninterp spec fn schema_text(s: Schema) -> nat;

/// What decoding a schema message gives, as the message of the decoded schema;
/// `None` if the bytes are refused.
pub uninterp spec fn decoded_message(b: Seq<u8>) -> Option<Seq<u8>>;

/// The fields of an IPC schema message; none if the bytes are refused.
pub uninterp spec fn message_fields(b: Seq<u8>) -> Seq<OutlineView>;

/// How long a schema is as text.
///
/// Calls `Schema::fmt` through `Debug`, which prints every name, type and
/// metadata entry. Claimed: the length is a function of the schema.
#[verifier::external_body]
pub(crate) fn text_len(schema: &Schema) -> (n: usize)
    ensures
        n == schema_text(*schema),
{
    format!("{schema:?}").len()
}

/// Serialize a schema as an IPC schema message.
///
/// Calls `IpcDataGenerator::schema_to_bytes_with_dictionary_tracker` with the
/// default options and a fresh tracker. Its builder panics where a message grows
/// past two gigabytes, which is not asked for: a message takes no more than some
/// thirty bytes for each byte of the schema's text. Claimed: the bytes are a
/// function of the schema. Fields are written in order and metadata in key order.
#[verifier::external_body]
pub fn serialize_schema(schema: &Schema) -> (b: Vec<u8>)
    requires
        schema_text(*schema) <= MAX_SCHEMA_TEXT,
    ensures
        b@ == schema_message(*schema),
{
    let generator = arrow::ipc::writer::IpcDataGenerator::default();
    let mut tracker = arrow::ipc::writer::DictionaryTracker::new(false);
    let options = arrow::ipc::writer::IpcWriteOptions::default();
    generator.schema_to_bytes_with_dictionary_tracker(schema, &mut tracker, &options).ipc_message
}

/// A field of an IPC schema message.
#[verifier::external_type_specification]
#[verifier::external_body]
pub struct ExIpcField<'a>(arrow::ipc::Field<'a>);

/// What a field of a message is.
pub uninterp spec fn field_outline(f: arrow::ipc::Field) -> OutlineView;

/// A field of a message as a plain value.
///
/// Calls `Field::type_as_union`, `Union::typeIds` and `Field::children`, for the
/// field and every field inside. Claimed: the result is a function of the field.
#[verifier::external_body]
pub(crate) fn outline_of<'a>(f: &arrow::ipc::Field<'a>) -> (o: Outline)
    ensures
        crate::batch::schema::outline(o) == field_outline(*f),
{
    Outline {
        bare: f.type_as_union().map(|u| u.typeIds().is_none()),
        children: f.children().iter().flatten().map(|c| outline_of(&c)).collect(),
    }
}

/// The fields of an IPC schema message, as plain values.
///
/// Calls `root_as_message`, `Message::header_as_schema` and `Schema::fields`.
/// Claimed: the result is a function of the bytes.
#[verifier::external_body]
pub(crate) fn fields_of_message(bytes: &[u8]) -> (v: Vec<Outline>)
    ensures
        outlines(v@) == message_fields(bytes@),
{
    let header = arrow::ipc::root_as_message(bytes).ok().and_then(|m| m.header_as_schema());
    let fields = header.and_then(|s| s.fields());
    fields.iter().flatten().map(|f| outline_of(&f)).collect()
}

/// Decode an IPC schema message.
///
/// Calls `root_as_message`, `Message::header_as_schema` and `try_fb_to_schema`,
/// the last of which panics on a crowded union. Claimed: whether the bytes are
/// accepted, and what the decoded schema says, are functions of the bytes; and a
/// message that a schema was serialized to, if it is accepted, decodes to a
/// schema with the same message. That every such message is accepted is not
/// claimed: the decoder's verifier refuses messages nested deeper or holding
/// more tables than its limits.
#[verifier::external_body]
pub(crate) fn decode_message(bytes: &[u8]) -> (r: Result<Schema, ArrowError>)
    requires
        !any_crowded(message_fields(bytes@)),
    ensures
        decoded_message(bytes@) == match r {
            Ok(s) => Some(schema_message(s)),
            Err(_) => None,
        },
        r matches Ok(d) ==> forall|s: Schema| #[trigger]
            schema_message(s) == bytes@ ==> schema_message(d) == bytes@,
{
    let message = arrow::ipc::root_as_message(bytes)
        .map_err(|e| ArrowError::ParseError(format!("invalid schema IPC message: {e}")))?;
    let header = message.header_as_schema().ok_or_else(|| {
        ArrowError::ParseError(format!("IPC message header is not a Schema"))
    })?;
    arrow::ipc::convert::try_fb_to_schema(header)
}

/// Another handle on the same schema.
///
/// Calls `Arc::clone`. Claimed: it names the same value.
#[verifier::external_body]
pub(crate) fn share(schema: &Arc<Schema>) -> (r: Arc<Schema>)
    ensures
        *r == **schema,
{
    Arc::clone(schema)
}

/// The types of a schema's fields.
///
/// Calls `Schema::fields`, `Field::data_type` and `DataType::clone`. Claimed:
/// the types, in field order.
#[verifier::external_body]
pub(crate) fn field_types(schema: &Schema) -> (v: Vec<DataType>)
    ensures
        v@ == schema_types(*schema),
{
    schema.fields().iter().map(|f| f.data_type().clone()).collect()
}

/// Whether each of a schema's fields may be null.
///
/// Calls `Schema::fields` and `Field::is_nullable`. Claimed: the answers, in
/// field order, one for each type.
#[verifier::external_body]
pub(crate) fn field_nulls(schema: &Schema) -> (v: Vec<bool>)
    ensures
        v@ == schema_nullable(*schema),
        v@.len() == schema_types(*schema).len(),
{
    schema.fields().iter().map(|f| f.is_nullable()).collect()
}

// ---- arrays ----

/// What an array holds.
pub uninterp spec fn array_tree(d: ArrayData) -> ArrayView;

/// What an array holds once its values are moved to the start of fresh buffers
/// under a type that Arrow takes for its own; `None` if they cannot be.
pub uninterp spec fn compacted_tree(d: ArrayData, t: DataType) -> Option<ArrayView>;

/// The array that is made of a type, a length, a number of nulls, a bitmap, the
/// bytes of the buffers and the arrays inside; `None` if these do not make one.
pub uninterp spec fn made_array(
    t: DataType,
    len: usize,
    null_count: usize,
    validity: Option<Seq<u8>>,
    buffers: Seq<Seq<u8>>,
    children: Seq<ArrayData>,
) -> Option<ArrayData>;

/// Arrays of one type, one behind the other; `None` if that does not work.
pub uninterp spec fn joined_array(s: Seq<ArrayData>) -> Option<ArrayData>;

/// What each array holds.
pub open spec fn array_trees(s: Seq<ArrayData>) -> Seq<ArrayView> {
    Seq::new(s.len(), |i: int| array_tree(s[i]))
}

/// Whether there is an array that holds this.
pub open spec fn genuine(a: ArrayView) -> bool {
    exists|d: ArrayData| #[trigger] array_tree(d) == a
}

/// Whether there are arrays that hold this and what is inside of it.
pub open spec fn genuine_tree(a: ArrayView) -> bool
    decreases a,
{
    genuine(a) && genuine_trees(a.children)
}

/// Whether there are arrays that hold these and what is inside of them.
pub open spec fn genuine_trees(s: Seq<ArrayView>) -> bool
    decreases s, s.len(),
{
    s.len() > 0 ==> genuine_tree(s[0]) && genuine_trees(s.skip(1))
}

/// An array as a plain value.
///
/// Calls the accessors of `ArrayData`: `data_type`, `offset`, `len`,
/// `null_count`, `nulls`, `buffers` and `child_data`, the last for every
/// descendant, and copies each buffer's bytes. Claimed: the result is a
/// function of the array, and what is inside of an array are arrays.
#[verifier::external_body]
pub(crate) fn tree_of(d: &ArrayData) -> (a: ArrayNode)
    ensures
        tree(a) == array_tree(*d),
        genuine_tree(tree(a)),
{
    ArrayNode {
        data_type: d.data_type().clone(),
        offset: d.offset(),
        len: d.len(),
        null_count: d.null_count(),
        nulls: d.nulls().map(|n| Nulls { offset: n.offset(), buffer: n.buffer().to_vec() }),
        buffers: d.buffers().iter().map(|b| b.to_vec()).collect(),
        children: d.child_data().iter().map(tree_of).collect(),
    }
}

/// The type of an array.
///
/// Calls `ArrayData::data_type`.
#[verifier::external_body]
pub(crate) fn type_of(d: &ArrayData) -> (t: &DataType)
    ensures
        *t == array_tree(*d).of,
{
    d.data_type()
}

/// How many elements an array has.
///
/// Calls `ArrayData::len`.
#[verifier::external_body]
pub(crate) fn len_of(d: &ArrayData) -> (n: usize)
    ensures
        n == array_tree(*d).len,
{
    d.len()
}

/// How many nulls an array has.
///
/// Calls `ArrayData::null_count`.
#[verifier::external_body]
pub(crate) fn nulls_of(d: &ArrayData) -> (n: usize)
    ensures
        n == array_tree(*d).null_count,
{
    d.null_count()
}

/// The array with its values moved to the start of fresh buffers, as an array of
/// the type `t`.
///
/// Calls `make_array`, `new_empty_array`, `concat` and `Array::to_data`. The
/// array is appended to an empty one of the type, which what comes out takes its
/// type from. `make_array` and `new_empty_array` panic on a type without arrays,
/// and `concat` on a list view of more items than its offsets can count; neither
/// is asked for. Claimed: whether it works, and what the result holds, are
/// functions of the array and the type. That every part of it starts at `0` and
/// has the type is not claimed but looked at afterwards.
#[verifier::external_body]
pub(crate) fn compacted(d: &ArrayData, t: &DataType) -> (r: Result<ArrayData, ArrowError>)
    requires
        compactable(array_tree(*d)),
        is_type(array_tree(*d).of, *t),
    ensures
        compacted_tree(*d, *t) == match r {
            Ok(c) => Some(array_tree(c)),
            Err(_) => None,
        },
{
    let a = arrow_array::make_array(d.clone());
    let none = arrow_array::new_empty_array(t);
    Ok(arrow_select::concat::concat(&[none.as_ref(), a.as_ref()])?.to_data())
}

/// What a bitmap holds, if there is one.
pub open spec fn bitmap(v: Option<Vec<u8>>) -> Option<Seq<u8>> {
    match v {
        Some(b) => Some(b@),
        None => None,
    }
}

/// What an array made of these parts holds: just these, from element `0` on,
/// without the bitmap if that has no nulls.
pub open spec fn parts_view(
    t: DataType,
    len: nat,
    null_count: nat,
    validity: Option<Seq<u8>>,
    buffers: Seq<Seq<u8>>,
    children: Seq<ArrayView>,
) -> ArrayView {
    ArrayView {
        of: t,
        offset: 0,
        len,
        null_count: if validity is Some {
            null_count
        } else {
            0
        },
        nulls: if validity is Some && null_count > 0 {
            Some((0, validity->Some_0))
        } else {
            None
        },
        buffers,
        children,
    }
}

/// The array that is made of these parts.
///
/// Calls `ArrayDataBuilder::new`, `len`, `null_count`, `null_bit_buffer`,
/// `buffers`, `child_data` and `build`, and `Buffer::from_slice_ref` for the
/// bitmap and for each buffer, which it copies to where it is aligned. `build`
/// panics on a negative width, where a first buffer of entries is cut short, and
/// where a length overflows, in the array or in one inside, which it looks at
/// again; none of it is asked for. Claimed: whether it works
/// and what comes out are functions of the parts; the array holds just these
/// parts; and `build`, which checks the parts and nothing else, works where some
/// array holds them.
#[verifier::external_body]
pub(crate) fn make(
    t: &DataType,
    len: usize,
    null_count: usize,
    validity: &Option<Vec<u8>>,
    buffers: &Vec<Vec<u8>>,
    children: Vec<ArrayData>,
) -> (r: Result<ArrayData, ArrowError>)
    requires
        makeable(
            type_kind(*t),
            len as nat,
            byte_views(buffers@),
            children@.len(),
        ),
        makeable_trees(array_trees(children@)),
    ensures
        made_array(*t, len, null_count, bitmap(*validity), byte_views(buffers@), children@) == match r {
            Ok(a) => Some(a),
            Err(_) => None,
        },
        r matches Ok(a) ==> array_tree(a) == parts_view(
            *t,
            len as nat,
            null_count as nat,
            bitmap(*validity),
            byte_views(buffers@),
            array_trees(children@),
        ),
        (validity is Some ==> null_count > 0) && genuine(
            parts_view(
                *t,
                len as nat,
                null_count as nat,
                bitmap(*validity),
                byte_views(buffers@),
                array_trees(children@),
            ),
        ) ==> r is Ok,
{
    ArrayDataBuilder::new(t.clone())
        .len(len)
        .null_count(null_count)
        .null_bit_buffer(validity.as_ref().map(Buffer::from_slice_ref))
        .buffers(buffers.iter().map(Buffer::from_slice_ref).collect())
        .child_data(children)
        .build()
}

/// The arrays that references name.
pub open spec fn named(s: Seq<&ArrayData>) -> Seq<ArrayData> {
    Seq::new(s.len(), |i: int| *s[i])
}

/// Arrays of one type, one behind the other.
///
/// Calls `make_array` for each, `concat` and `Array::to_data`. `make_array`
/// panics on a type without arrays, and `concat` where the offsets of a list or
/// a length overflow; none of it is asked for. Claimed: whether it works and what
/// comes out are functions of the arrays; what comes out has the type of the
/// first, and all their elements.
#[verifier::external_body]
pub(crate) fn join(arrays: &Vec<&ArrayData>) -> (r: Result<ArrayData, ArrowError>)
    requires
        arrays@.len() > 0,
        readable_trees(array_trees(named(arrays@))),
        joinable(array_tree(*arrays@[0]), array_trees(named(arrays@))),
    ensures
        joined_array(named(arrays@)) == match r {
            Ok(a) => Some(a),
            Err(_) => None,
        },
        r matches Ok(a) ==> array_tree(a).of == array_tree(*arrays@[0]).of && array_tree(a).len
            == elements(array_trees(named(arrays@))),
{
    let made: Vec<_> = arrays.iter().map(|d| arrow_array::make_array((*d).clone())).collect();
    let each: Vec<_> = made.iter().map(|a| a.as_ref()).collect();
    Ok(arrow_select::concat::concat(&each)?.to_data())
}

} // verus!
