//! Types as plain values, and what is decided by them.
use arrow_schema::DataType;
use vstd::prelude::*;

use crate::batch::array::Kind;
use crate::batch::outside::{
    alike, integer_type, list_type, number_type, same_type, text_type, time_type, tree_type,
    type_plain, types_alike,
};

verus! {

/// An Arrow type, with the types inside of it. A unit of time is counted from
/// seconds, `0`, to nanoseconds, `3`.
#[derive(Debug)]
pub enum ArrowType {
    Null,
    Boolean,
    Int8,
    Int16,
    Int32,
    Int64,
    UInt8,
    UInt16,
    UInt32,
    UInt64,
    Float16,
    Float32,
    Float64,
    Timestamp,
    Date32,
    Date64,
    Time32(u8),
    Time64(u8),
    Duration,
    Interval,
    Decimal32,
    Decimal64,
    Decimal128,
    Decimal256,
    Binary,
    FixedSizeBinary(i32),
    LargeBinary,
    BinaryView,
    Utf8,
    LargeUtf8,
    Utf8View,
    List(DataType),
    ListView(DataType),
    FixedSizeList(DataType, i32),
    LargeList(DataType),
    LargeListView(DataType),
    Struct(Vec<DataType>),
    Union(Vec<DataType>),
    Dictionary(DataType, DataType),
    KeyValue(DataType),
    RunEndEncoded(DataType, DataType),
}

/// What a plain type is.
pub enum PlainView {
    Null,
    Boolean,
    Int8,
    Int16,
    Int32,
    Int64,
    UInt8,
    UInt16,
    UInt32,
    UInt64,
    Float16,
    Float32,
    Float64,
    Timestamp,
    Date32,
    Date64,
    Time32(u8),
    Time64(u8),
    Duration,
    Interval,
    Decimal32,
    Decimal64,
    Decimal128,
    Decimal256,
    Binary,
    FixedSizeBinary(i32),
    LargeBinary,
    BinaryView,
    Utf8,
    LargeUtf8,
    Utf8View,
    List(DataType),
    ListView(DataType),
    FixedSizeList(DataType, i32),
    LargeList(DataType),
    LargeListView(DataType),
    Struct(Seq<DataType>),
    Union(Seq<DataType>),
    Dictionary(DataType, DataType),
    KeyValue(DataType),
    RunEndEncoded(DataType, DataType),
}

/// What the plain type `p` is.
pub open spec fn plain(p: ArrowType) -> PlainView {
    match p {
        ArrowType::Null => PlainView::Null,
        ArrowType::Boolean => PlainView::Boolean,
        ArrowType::Int8 => PlainView::Int8,
        ArrowType::Int16 => PlainView::Int16,
        ArrowType::Int32 => PlainView::Int32,
        ArrowType::Int64 => PlainView::Int64,
        ArrowType::UInt8 => PlainView::UInt8,
        ArrowType::UInt16 => PlainView::UInt16,
        ArrowType::UInt32 => PlainView::UInt32,
        ArrowType::UInt64 => PlainView::UInt64,
        ArrowType::Float16 => PlainView::Float16,
        ArrowType::Float32 => PlainView::Float32,
        ArrowType::Float64 => PlainView::Float64,
        ArrowType::Timestamp => PlainView::Timestamp,
        ArrowType::Date32 => PlainView::Date32,
        ArrowType::Date64 => PlainView::Date64,
        ArrowType::Time32(u) => PlainView::Time32(u),
        ArrowType::Time64(u) => PlainView::Time64(u),
        ArrowType::Duration => PlainView::Duration,
        ArrowType::Interval => PlainView::Interval,
        ArrowType::Decimal32 => PlainView::Decimal32,
        ArrowType::Decimal64 => PlainView::Decimal64,
        ArrowType::Decimal128 => PlainView::Decimal128,
        ArrowType::Decimal256 => PlainView::Decimal256,
        ArrowType::Binary => PlainView::Binary,
        ArrowType::FixedSizeBinary(n) => PlainView::FixedSizeBinary(n),
        ArrowType::LargeBinary => PlainView::LargeBinary,
        ArrowType::BinaryView => PlainView::BinaryView,
        ArrowType::Utf8 => PlainView::Utf8,
        ArrowType::LargeUtf8 => PlainView::LargeUtf8,
        ArrowType::Utf8View => PlainView::Utf8View,
        ArrowType::List(t) => PlainView::List(t),
        ArrowType::ListView(t) => PlainView::ListView(t),
        ArrowType::FixedSizeList(t, n) => PlainView::FixedSizeList(t, n),
        ArrowType::LargeList(t) => PlainView::LargeList(t),
        ArrowType::LargeListView(t) => PlainView::LargeListView(t),
        ArrowType::Struct(v) => PlainView::Struct(v@),
        ArrowType::Union(v) => PlainView::Union(v@),
        ArrowType::Dictionary(k, v) => PlainView::Dictionary(k, v),
        ArrowType::KeyValue(t) => PlainView::KeyValue(t),
        ArrowType::RunEndEncoded(r, v) => PlainView::RunEndEncoded(r, v),
    }
}

/// Integers.
pub open spec fn is_integer(p: PlainView) -> bool {
    match p {
        PlainView::Int8
        | PlainView::Int16
        | PlainView::Int32
        | PlainView::Int64
        | PlainView::UInt8
        | PlainView::UInt16
        | PlainView::UInt32
        | PlainView::UInt64 => true,
        _ => false,
    }
}

/// Nothing, truth values and other numbers.
pub open spec fn is_number(p: PlainView) -> bool {
    match p {
        PlainView::Null
        | PlainView::Boolean
        | PlainView::Float16
        | PlainView::Float32
        | PlainView::Float64 => true,
        _ => false,
    }
}

/// Times and decimals.
pub open spec fn is_time(p: PlainView) -> bool {
    match p {
        PlainView::Timestamp
        | PlainView::Date32
        | PlainView::Date64
        | PlainView::Time32(_)
        | PlainView::Time64(_)
        | PlainView::Duration
        | PlainView::Interval
        | PlainView::Decimal32
        | PlainView::Decimal64
        | PlainView::Decimal128
        | PlainView::Decimal256 => true,
        _ => false,
    }
}

/// Text and bytes.
pub open spec fn is_text(p: PlainView) -> bool {
    match p {
        PlainView::Binary
        | PlainView::FixedSizeBinary(_)
        | PlainView::LargeBinary
        | PlainView::BinaryView
        | PlainView::Utf8
        | PlainView::LargeUtf8
        | PlainView::Utf8View => true,
        _ => false,
    }
}

/// Lists.
pub open spec fn is_list(p: PlainView) -> bool {
    match p {
        PlainView::List(_)
        | PlainView::ListView(_)
        | PlainView::FixedSizeList(..)
        | PlainView::LargeList(_)
        | PlainView::LargeListView(_) => true,
        _ => false,
    }
}

/// A type as a plain value.
pub fn plain_of(t: &DataType) -> (p: ArrowType)
    ensures
        plain(p) == type_plain(*t),
{
    if let Some(p) = integer_type(t) {
        return p;
    }
    if let Some(p) = number_type(t) {
        return p;
    }
    if let Some(p) = time_type(t) {
        return p;
    }
    if let Some(p) = text_type(t) {
        return p;
    }
    if let Some(p) = list_type(t) {
        return p;
    }
    match tree_type(t) {
        Some(p) => p,
        None => {
            assert(false);
            ArrowType::Null
        },
    }
}

/// What sort of type a type is, as far as the layout cares.
pub open spec fn kind(p: PlainView) -> Kind {
    match p {
        PlainView::Binary | PlainView::Utf8 => Kind::Bytes,
        PlainView::LargeBinary | PlainView::LargeUtf8 => Kind::LargeBytes,
        PlainView::BinaryView | PlainView::Utf8View => Kind::ByteView,
        PlainView::List(_) => Kind::List,
        PlainView::ListView(_) => Kind::ListView,
        PlainView::LargeList(_) => Kind::LargeList,
        PlainView::LargeListView(_) => Kind::LargeListView,
        PlainView::Struct(_) => Kind::Struct,
        PlainView::Union(_) => Kind::Union,
        PlainView::Dictionary(..) => Kind::Dictionary,
        PlainView::KeyValue(_) => Kind::KeyValue,
        PlainView::RunEndEncoded(..) => Kind::RunEndEncoded,
        PlainView::FixedSizeList(_, n) => if n < 0 {
            Kind::Bare
        } else {
            Kind::FixedList
        },
        PlainView::FixedSizeBinary(n) => if n < 0 {
            Kind::Bare
        } else {
            Kind::Flat
        },
        PlainView::Time32(u) => if u >= 2 {
            Kind::Bare
        } else {
            Kind::Flat
        },
        PlainView::Time64(u) => if u < 2 {
            Kind::Bare
        } else {
            Kind::Flat
        },
        _ => Kind::Flat,
    }
}

/// The types of the children of a value: those of a struct's fields, that of a
/// list's items; none for any other.
pub open spec fn inner(p: PlainView) -> Seq<DataType> {
    match p {
        PlainView::Struct(v) => v,
        PlainView::List(t) | PlainView::LargeList(t) | PlainView::FixedSizeList(t, _) => seq![t],
        _ => seq![],
    }
}

/// What sort of type a type is.
pub open spec fn type_kind(t: DataType) -> Kind {
    kind(type_plain(t))
}

/// The types of the children of a value of a type.
pub open spec fn child_types(t: DataType) -> Seq<DataType> {
    inner(type_plain(t))
}

/// What sort of type a type is.
pub fn kind_of(t: &ArrowType) -> (k: Kind)
    ensures
        k == kind(plain(*t)),
{
    match t {
        ArrowType::Binary | ArrowType::Utf8 => Kind::Bytes,
        ArrowType::LargeBinary | ArrowType::LargeUtf8 => Kind::LargeBytes,
        ArrowType::BinaryView | ArrowType::Utf8View => Kind::ByteView,
        ArrowType::List(_) => Kind::List,
        ArrowType::ListView(_) => Kind::ListView,
        ArrowType::LargeList(_) => Kind::LargeList,
        ArrowType::LargeListView(_) => Kind::LargeListView,
        ArrowType::Struct(_) => Kind::Struct,
        ArrowType::Union(_) => Kind::Union,
        ArrowType::Dictionary(_, _) => Kind::Dictionary,
        ArrowType::KeyValue(_) => Kind::KeyValue,
        ArrowType::RunEndEncoded(_, _) => Kind::RunEndEncoded,
        ArrowType::FixedSizeList(_, n) => if *n < 0 {
            Kind::Bare
        } else {
            Kind::FixedList
        },
        ArrowType::FixedSizeBinary(n) => if *n < 0 {
            Kind::Bare
        } else {
            Kind::Flat
        },
        ArrowType::Time32(u) => if *u >= 2 {
            Kind::Bare
        } else {
            Kind::Flat
        },
        ArrowType::Time64(u) => if *u < 2 {
            Kind::Bare
        } else {
            Kind::Flat
        },
        _ => Kind::Flat,
    }
}

/// The types of the children of a value.
pub fn inner_of(t: ArrowType) -> (v: Vec<DataType>)
    ensures
        v@ == inner(plain(t)),
{
    match t {
        ArrowType::Struct(v) => v,
        ArrowType::List(x) | ArrowType::LargeList(x) | ArrowType::FixedSizeList(x, _) => {
            let mut v: Vec<DataType> = Vec::new();
            v.push(x);
            assert(v@ =~= seq![x]);
            v
        },
        _ => {
            let v: Vec<DataType> = Vec::new();
            assert(v@ =~= seq![]);
            v
        },
    }
}

/// What sort of type a type is.
pub fn sort_of(t: &DataType) -> (k: Kind)
    ensures
        k == type_kind(*t),
{
    let p: ArrowType = plain_of(t);
    kind_of(&p)
}

/// Whether a type is that of 64-bit integers.
pub fn holds_int64(t: &DataType) -> (b: bool)
    ensures
        b == (type_plain(*t) == PlainView::Int64),
{
    match plain_of(t) {
        ArrowType::Int64 => true,
        _ => false,
    }
}

/// Whether values of the type `a` are of the type `t`: the types are the same,
/// or Arrow takes them for equal.
pub open spec fn is_type(a: DataType, t: DataType) -> bool {
    a == t || types_alike(a, t)
}

/// Whether values of the type `a` are of the type `t`.
pub fn has_type(a: &DataType, t: &DataType) -> (b: bool)
    ensures
        b == is_type(*a, *t),
{
    alike(a, t) || same_type(a, t)
}

} // verus!
