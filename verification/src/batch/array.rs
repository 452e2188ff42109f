//! Arrays as trees, and how a tree is flattened for writing.
use arrow_schema::DataType;
use vstd::prelude::*;

use crate::artifact::chain::copy_vec;
use crate::batch::error::Error;
use crate::batch::layout::NodeEntry;
use crate::batch::plain::{sort_of, type_kind};

verus! {

/// What sort of type an array has, as far as the layout cares.
#[derive(Clone, Copy, Debug, PartialEq, Eq, Structural)]
pub enum Kind {
    /// No children, and nothing special about its buffers.
    Flat,
    /// Text or bytes behind 32-bit offsets.
    Bytes,
    /// Text or bytes behind 64-bit offsets.
    LargeBytes,
    /// Text or bytes behind views of 16 bytes each.
    ByteView,
    Struct,
    /// A list with 32-bit offsets.
    List,
    /// A list with 64-bit offsets.
    LargeList,
    /// A list whose items are of equal number.
    FixedList,
    /// A list with 32-bit offsets and lengths.
    ListView,
    /// A list with 64-bit offsets and lengths.
    LargeListView,
    Dictionary,
    Union,
    /// A map from keys to values.
    KeyValue,
    RunEndEncoded,
    /// A type without children of which Arrow has no arrays: a time of day in a
    /// unit that its width is not used with, or values of a negative width.
    Bare,
}

/// Whether values of this kind are read with children: structs and lists are.
pub open spec fn nested(k: Kind) -> bool {
    k == Kind::Struct || k == Kind::List || k == Kind::LargeList || k == Kind::FixedList
}

impl Kind {
    /// Whether values of this kind are read with children.
    pub fn is_nested(self) -> (n: bool)
        ensures
            n == nested(self),
    {
        self == Kind::Struct || self == Kind::List || self == Kind::LargeList || self
            == Kind::FixedList
    }

    /// Whether values of this kind are read.
    pub fn is_readable(self) -> (r: bool)
        ensures
            r == readable(self),
    {
        match self {
            Kind::Flat | Kind::Bytes | Kind::LargeBytes | Kind::ByteView => true,
            _ => self.is_nested(),
        }
    }
}

/// Whether values of this kind are read.
pub open spec fn readable(k: Kind) -> bool {
    k == Kind::Flat || k == Kind::Bytes || k == Kind::LargeBytes || k == Kind::ByteView || nested(k)
}

/// A validity bitmap, with the bit its array starts at.
#[derive(Debug)]
pub struct Nulls {
    pub offset: usize,
    pub buffer: Vec<u8>,
}

/// An array: its own buffers and its children.
#[derive(Debug)]
pub struct ArrayNode {
    pub data_type: DataType,
    /// The element of the buffers the array starts at.
    pub offset: usize,
    pub len: usize,
    pub null_count: usize,
    pub nulls: Option<Nulls>,
    pub buffers: Vec<Vec<u8>>,
    pub children: Vec<ArrayNode>,
}

/// What an array is.
pub struct ArrayView {
    pub of: DataType,
    pub offset: nat,
    pub len: nat,
    pub null_count: nat,
    pub nulls: Option<(nat, Seq<u8>)>,
    pub buffers: Seq<Seq<u8>>,
    pub children: Seq<ArrayView>,
}

/// What the array `a` is.
pub open spec fn tree(a: ArrayNode) -> ArrayView
    decreases a,
{
    ArrayView {
        of: a.data_type,
        offset: a.offset as nat,
        len: a.len as nat,
        null_count: a.null_count as nat,
        nulls: match a.nulls {
            Some(n) => Some((n.offset as nat, n.buffer@)),
            None => None,
        },
        buffers: byte_views(a.buffers@),
        children: Seq::new(
            a.children@.len(),
            |i: int|
                if 0 <= i < a.children@.len() {
                    tree(a.children@[i])
                } else {
                    arbitrary()
                },
        ),
    }
}

/// What each buffer holds.
pub open spec fn byte_views(s: Seq<Vec<u8>>) -> Seq<Seq<u8>> {
    Seq::new(s.len(), |i: int| s[i]@)
}

/// What each array is.
pub open spec fn trees(s: Seq<ArrayNode>) -> Seq<ArrayView> {
    Seq::new(s.len(), |i: int| tree(s[i]))
}

pub proof fn lemma_children(a: ArrayNode)
    ensures
        tree(a).children == trees(a.children@),
{
    assert(tree(a).children =~= trees(a.children@));
}

/// Whether the array and all its descendants start at element `0` of their
/// buffers and at bit `0` of their bitmaps.
pub open spec fn normal(a: ArrayView) -> bool
    decreases a,
{
    &&& a.offset == 0
    &&& a.nulls matches Some(n) ==> n.0 == 0
    &&& all_normal(a.children)
}

pub open spec fn all_normal(s: Seq<ArrayView>) -> bool
    decreases s, s.len(),
{
    s.len() > 0 ==> normal(s[0]) && all_normal(s.skip(1))
}

/// Whether the array and all its descendants start at element `0` of their
/// buffers and at bit `0` of their bitmaps.
pub fn is_normalized(a: &ArrayNode) -> (ok: bool)
    ensures
        ok == normal(tree(*a)),
    decreases a,
{
    if a.offset != 0 {
        return false;
    }
    if let Some(n) = &a.nulls {
        if n.offset != 0 {
            return false;
        }
    }
    proof {
        lemma_children(*a);
        assert(tree(*a).children.skip(0) =~= tree(*a).children);
    }
    let n: usize = a.children.len();
    let mut i: usize = 0;
    while i < n
        invariant
            n == a.children@.len(),
            i <= n,
            tree(*a).children == trees(a.children@),
            normal(tree(*a)) == all_normal(tree(*a).children.skip(i as int)),
        decreases n - i,
    {
        proof {
            let c = tree(*a).children;
            assert(c.skip(i as int)[0] == tree(a.children@[i as int]));
            assert(c.skip(i as int).skip(1) =~= c.skip(i + 1));
        }
        if !is_normalized(&a.children[i]) {
            return false;
        }
        i = i + 1;
    }
    true
}

// ---- what Arrow can do ----

/// Whether Arrow can compact the array: there are arrays of all the types, and
/// list views have no more items than their offsets can count.
pub open spec fn compactable(a: ArrayView) -> bool
    decreases a,
{
    let k = type_kind(a.of);
    &&& k != Kind::Bare
    &&& kind_refusal(k) is None
    &&& k == Kind::ListView ==> few(a.children, 0x7fff_ffff)
    &&& k == Kind::LargeListView ==> few(a.children, 0x7fff_ffff_ffff_ffff)
    &&& all_compactable(a.children)
}

/// Whether each array has at most `n` elements.
pub open spec fn few(s: Seq<ArrayView>, n: nat) -> bool {
    forall|i: int| 0 <= i < s.len() ==> (#[trigger] s[i]).len <= n
}

pub open spec fn all_compactable(s: Seq<ArrayView>) -> bool
    decreases s, s.len(),
{
    s.len() > 0 ==> compactable(s[0]) && all_compactable(s.skip(1))
}

fn is_few(s: &Vec<ArrayNode>, n: u64) -> (ok: bool)
    ensures
        ok == few(trees(s@), n as nat),
{
    let m: usize = s.len();
    let mut i: usize = 0;
    while i < m
        invariant
            m == s@.len(),
            i <= m,
            forall|k: int| 0 <= k < i ==> (#[trigger] trees(s@)[k]).len <= n,
        decreases m - i,
    {
        assert(trees(s@)[i as int] == tree(s@[i as int]));
        if s[i].len as u64 > n {
            return false;
        }
        i = i + 1;
    }
    true
}

/// Whether Arrow can compact the array.
pub fn is_compactable(a: &ArrayNode) -> (ok: bool)
    ensures
        ok == compactable(tree(*a)),
    decreases a,
{
    let k: Kind = sort_of(&a.data_type);
    proof {
        lemma_children(*a);
        assert(tree(*a).children.skip(0) =~= tree(*a).children);
    }
    if k == Kind::Bare || ensure_supported(k).is_err() {
        return false;
    }
    if k == Kind::ListView && !is_few(&a.children, 0x7fff_ffff) {
        return false;
    }
    if k == Kind::LargeListView && !is_few(&a.children, 0x7fff_ffff_ffff_ffff) {
        return false;
    }
    let n: usize = a.children.len();
    let mut i: usize = 0;
    while i < n
        invariant
            n == a.children@.len(),
            i <= n,
            tree(*a).children == trees(a.children@),
            compactable(tree(*a)) == all_compactable(tree(*a).children.skip(i as int)),
        decreases n - i,
    {
        proof {
            let c = tree(*a).children;
            assert(c.skip(i as int)[0] == tree(a.children@[i as int]));
            assert(c.skip(i as int).skip(1) =~= c.skip(i + 1));
        }
        if !is_compactable(&a.children[i]) {
            return false;
        }
        i = i + 1;
    }
    true
}

/// How many bytes each entry of an array's first buffer takes, if that buffer is
/// read as entries when the array is made.
pub open spec fn entry_width(k: Kind) -> int {
    match k {
        Kind::Bytes | Kind::List => 4,
        Kind::LargeBytes | Kind::LargeList => 8,
        Kind::ByteView => 16,
        _ => 1,
    }
}

/// Whether the first buffer, if it is read as entries, is not cut short in the
/// middle of one.
pub open spec fn whole(k: Kind, buffers: Seq<Seq<u8>>) -> bool {
    buffers.len() > 0 ==> buffers[0].len() % (entry_width(k) as nat) == 0
}

/// Whether the first buffer is not cut short in the middle of an entry.
pub fn is_whole(k: Kind, buffers: &Vec<Vec<u8>>) -> (ok: bool)
    ensures
        ok == whole(k, byte_views(buffers@)),
{
    let width: usize = match k {
        Kind::Bytes | Kind::List => 4,
        Kind::LargeBytes | Kind::LargeList => 8,
        Kind::ByteView => 16,
        _ => 1,
    };
    proof {
        assert(width == entry_width(k));
        if buffers@.len() > 0 {
            assert(byte_views(buffers@)[0] == buffers@[0]@);
        }
    }
    buffers.len() == 0 || buffers[0].len() % width == 0
}

/// Whether an array of this kind can be made without panic.
pub open spec fn makeable(k: Kind, len: nat, buffers: Seq<Seq<u8>>, children: nat) -> bool {
    &&& readable(k)
    &&& whole(k, buffers)
    &&& len <= u32::MAX
    &&& !nested(k) ==> children == 0
}

/// Whether an array and all inside can be made without panic.
pub open spec fn makeable_tree(a: ArrayView) -> bool
    decreases a,
{
    makeable(type_kind(a.of), a.len, a.buffers, a.children.len()) && makeable_trees(a.children)
}

/// Whether arrays and all inside can be made without panic.
pub open spec fn makeable_trees(s: Seq<ArrayView>) -> bool
    decreases s, s.len(),
{
    s.len() > 0 ==> makeable_tree(s[0]) && makeable_trees(s.skip(1))
}

/// Whether an array and all inside are of kinds that are read.
pub open spec fn readable_tree(a: ArrayView) -> bool
    decreases a,
{
    readable(type_kind(a.of)) && readable_trees(a.children)
}

/// Whether arrays and all inside are of kinds that are read.
pub open spec fn readable_trees(s: Seq<ArrayView>) -> bool
    decreases s, s.len(),
{
    s.len() > 0 ==> readable_tree(s[0]) && readable_trees(s.skip(1))
}

/// Whether arrays that are all like `x` can be put one behind the other without
/// panic: they have no more elements than can be counted, and the items of lists
/// are not more than their offsets can count.
pub open spec fn joinable(x: ArrayView, s: Seq<ArrayView>) -> bool
    decreases x,
{
    &&& elements(s) <= usize::MAX
    &&& type_kind(x.of) == Kind::Flat ==> x.children.len() == 0
    &&& type_kind(x.of) == Kind::List ==> items(s) <= 0x7fff_ffff
    &&& type_kind(x.of) == Kind::LargeList ==> items(s) <= 0x7fff_ffff_ffff_ffff
    &&& all_joinable(x.children, s, 0)
}

/// Whether the children of `s` from the `k`th on can be, which are like those of
/// `c`.
pub open spec fn all_joinable(c: Seq<ArrayView>, s: Seq<ArrayView>, k: nat) -> bool
    decreases c, c.len(),
{
    c.len() > 0 ==> joinable(c[0], nth_children(s, k)) && all_joinable(c.skip(1), s, k + 1)
}

/// How many items the lists `s` have together.
pub open spec fn items(s: Seq<ArrayView>) -> nat
    decreases s.len(),
{
    if s.len() == 0 {
        0
    } else {
        items(s.drop_last()) + if s.last().children.len() > 0 {
            s.last().children[0].len
        } else {
            0
        }
    }
}

/// How many elements the arrays have together.
pub open spec fn elements(s: Seq<ArrayView>) -> nat
    decreases s.len(),
{
    if s.len() == 0 {
        0
    } else {
        elements(s.drop_last()) + s.last().len
    }
}

/// The `k`th child of each of the arrays `s` that has one.
pub open spec fn nth_children(s: Seq<ArrayView>, k: nat) -> Seq<ArrayView>
    decreases s.len(),
{
    if s.len() == 0 {
        seq![]
    } else if k < s.last().children.len() {
        nth_children(s.drop_last(), k).push(s.last().children[k as int])
    } else {
        nth_children(s.drop_last(), k)
    }
}

// ---- flattening ----

/// Why the layout does not take a type of this kind.
pub open spec fn kind_refusal(k: Kind) -> Option<Error> {
    match k {
        Kind::Dictionary => Some(Error::Unsupported("dictionary type not supported")),
        Kind::Union => Some(Error::Unsupported("union type not supported")),
        Kind::KeyValue => Some(Error::Unsupported("map type not supported")),
        Kind::RunEndEncoded => Some(Error::Unsupported("run-end-encoded type not supported")),
        _ => None,
    }
}

/// Refuse the kinds the layout does not take.
pub fn ensure_supported(k: Kind) -> (r: Result<(), Error>)
    ensures
        r == match kind_refusal(k) {
            Some(e) => Err::<(), Error>(e),
            None => Ok(()),
        },
{
    match k {
        Kind::Dictionary => Err(Error::Unsupported("dictionary type not supported")),
        Kind::Union => Err(Error::Unsupported("union type not supported")),
        Kind::KeyValue => Err(Error::Unsupported("map type not supported")),
        Kind::RunEndEncoded => Err(Error::Unsupported("run-end-encoded type not supported")),
        _ => Ok(()),
    }
}

/// Why one node is refused, its children aside.
pub open spec fn node_refusal(a: ArrayView) -> Option<Error> {
    match kind_refusal(type_kind(a.of)) {
        Some(e) => Some(e),
        None => if a.len > u32::MAX {
            Some(Error::Unsupported("array length exceeds u32"))
        } else if a.null_count > u32::MAX {
            Some(Error::Unsupported("null count exceeds u32"))
        } else if a.buffers.len() > u32::MAX {
            Some(Error::Unsupported("too many data buffers in a node"))
        } else if a.children.len() > u32::MAX {
            Some(Error::Unsupported("too many children in a node"))
        } else {
            None
        },
    }
}

/// Why an array is refused: the first reason in pre-order.
pub open spec fn plan_refusal(a: ArrayView) -> Option<Error>
    decreases a,
{
    match node_refusal(a) {
        Some(e) => Some(e),
        None => plans_refusal(a.children),
    }
}

pub open spec fn plans_refusal(s: Seq<ArrayView>) -> Option<Error>
    decreases s, s.len(),
{
    if s.len() == 0 {
        None
    } else {
        match plan_refusal(s[0]) {
            Some(e) => Some(e),
            None => plans_refusal(s.skip(1)),
        }
    }
}

/// The table entry of one node.
pub open spec fn node_of(a: ArrayView) -> NodeEntry {
    NodeEntry {
        len: a.len as u32,
        null_count: a.null_count as u32,
        has_validity: if a.nulls is Some {
            1
        } else {
            0
        },
        data_buffers: a.buffers.len() as u32,
        child_count: a.children.len() as u32,
        _pad: 0,
    }
}

/// The buffers of one node: the bitmap, if there is one, then the data.
pub open spec fn own_buffers(a: ArrayView) -> Seq<Seq<u8>> {
    match a.nulls {
        Some(n) => seq![n.1] + a.buffers,
        None => a.buffers,
    }
}

/// The nodes of an array in pre-order.
pub open spec fn flat_nodes(a: ArrayView) -> Seq<NodeEntry>
    decreases a,
{
    seq![node_of(a)] + flat_nodes_all(a.children)
}

pub open spec fn flat_nodes_all(s: Seq<ArrayView>) -> Seq<NodeEntry>
    decreases s, s.len(),
{
    if s.len() == 0 {
        seq![]
    } else {
        flat_nodes(s[0]) + flat_nodes_all(s.skip(1))
    }
}

/// The buffers of an array in pre-order.
pub open spec fn flat_buffers(a: ArrayView) -> Seq<Seq<u8>>
    decreases a,
{
    own_buffers(a) + flat_buffers_all(a.children)
}

pub open spec fn flat_buffers_all(s: Seq<ArrayView>) -> Seq<Seq<u8>>
    decreases s, s.len(),
{
    if s.len() == 0 {
        seq![]
    } else {
        flat_buffers(s[0]) + flat_buffers_all(s.skip(1))
    }
}

/// A batch flattened: its nodes and its buffers in pre-order.
#[derive(Debug)]
pub struct Plan {
    pub nodes: Vec<NodeEntry>,
    pub buffers: Vec<Vec<u8>>,
}

impl Plan {
    /// Whether the plan is that of the arrays `s`.
    pub open spec fn is_of(&self, s: Seq<ArrayView>) -> bool {
        &&& self.nodes@ == flat_nodes_all(s)
        &&& byte_views(self.buffers@) == flat_buffers_all(s)
    }
}

/// Append the own buffers of a node.
fn push_buffers(a: &ArrayNode, out: &mut Vec<Vec<u8>>)
    ensures
        byte_views(final(out)@) == byte_views(old(out)@) + own_buffers(tree(*a)),
{
    let ghost b0 = byte_views(out@);
    let ghost own = tree(*a).buffers;
    if let Some(n) = &a.nulls {
        out.push(copy_vec(&n.buffer));
    }
    let ghost b1 = byte_views(out@);
    proof {
        if a.nulls is Some {
            assert(b1 =~= b0.push(tree(*a).nulls->Some_0.1));
        }
        assert(b1 + own.take(0) =~= b1);
    }
    let n: usize = a.buffers.len();
    let mut i: usize = 0;
    while i < n
        invariant
            n == a.buffers@.len(),
            i <= n,
            own == byte_views(a.buffers@),
            byte_views(out@) == b1 + own.take(i as int),
        decreases n - i,
    {
        let ghost o0 = out@;
        out.push(copy_vec(&a.buffers[i]));
        proof {
            assert(byte_views(out@) =~= byte_views(o0).push(own[i as int]));
            assert(own.take(i + 1) =~= own.take(i as int).push(own[i as int]));
            assert(byte_views(out@) =~= b1 + own.take(i + 1));
        }
        i = i + 1;
    }
    proof {
        assert(own.take(n as int) =~= own);
        assert(byte_views(out@) =~= b0 + own_buffers(tree(*a)));
    }
}

/// Append one array and its descendants, in pre-order.
pub fn plan_node(a: &ArrayNode, plan: &mut Plan) -> (r: Result<(), Error>)
    ensures
        match plan_refusal(tree(*a)) {
            Some(e) => r == Err::<(), Error>(e),
            None => {
                &&& r == Ok::<(), Error>(())
                &&& final(plan).nodes@ == old(plan).nodes@ + flat_nodes(tree(*a))
                &&& byte_views(final(plan).buffers@) == byte_views(old(plan).buffers@)
                    + flat_buffers(tree(*a))
            },
        },
    decreases a,
{
    let ghost n0 = plan.nodes@;
    let ghost b0 = byte_views(plan.buffers@);
    let ghost t = tree(*a);
    match ensure_supported(sort_of(&a.data_type)) {
        Ok(_) => {},
        Err(e) => {
            return Err(e);
        },
    }
    proof {
        lemma_children(*a);
    }
    if a.len as u64 > u32::MAX as u64 {
        return Err(Error::Unsupported("array length exceeds u32"));
    }
    if a.null_count as u64 > u32::MAX as u64 {
        return Err(Error::Unsupported("null count exceeds u32"));
    }
    if a.buffers.len() as u64 > u32::MAX as u64 {
        return Err(Error::Unsupported("too many data buffers in a node"));
    }
    if a.children.len() as u64 > u32::MAX as u64 {
        return Err(Error::Unsupported("too many children in a node"));
    }
    plan.nodes.push(
        NodeEntry {
            len: a.len as u32,
            null_count: a.null_count as u32,
            has_validity: if a.nulls.is_some() {
                1
            } else {
                0
            },
            data_buffers: a.buffers.len() as u32,
            child_count: a.children.len() as u32,
            _pad: 0,
        },
    );
    push_buffers(a, &mut plan.buffers);
    let ghost n1 = plan.nodes@;
    let ghost b1 = byte_views(plan.buffers@);
    proof {
        assert(n1 =~= n0.push(node_of(t)));
    }
    let r: Result<(), Error> = plan_all(&a.children, plan);
    proof {
        if r is Ok {
            assert(n1 + flat_nodes_all(t.children) =~= n0 + flat_nodes(t));
            assert(b1 + flat_buffers_all(t.children) =~= b0 + flat_buffers(t));
        }
    }
    r
}

/// Append arrays and their descendants, in pre-order.
pub fn plan_all(list: &Vec<ArrayNode>, plan: &mut Plan) -> (r: Result<(), Error>)
    ensures
        match plans_refusal(trees(list@)) {
            Some(e) => r == Err::<(), Error>(e),
            None => {
                &&& r == Ok::<(), Error>(())
                &&& final(plan).nodes@ == old(plan).nodes@ + flat_nodes_all(trees(list@))
                &&& byte_views(final(plan).buffers@) == byte_views(old(plan).buffers@)
                    + flat_buffers_all(trees(list@))
            },
        },
    decreases list,
{
    let ghost s = trees(list@);
    let ghost n0 = plan.nodes@;
    let ghost b0 = byte_views(plan.buffers@);
    let n: usize = list.len();
    let mut i: usize = 0;
    proof {
        assert(s.skip(0) =~= s);
    }
    while i < n
        invariant
            n == list@.len(),
            i <= n,
            s == trees(list@),
            plans_refusal(s) == plans_refusal(s.skip(i as int)),
            plan.nodes@ + flat_nodes_all(s.skip(i as int)) == n0 + flat_nodes_all(s),
            byte_views(plan.buffers@) + flat_buffers_all(s.skip(i as int)) == b0 + flat_buffers_all(s),
        decreases n - i,
    {
        let ghost n1 = plan.nodes@;
        let ghost b1 = byte_views(plan.buffers@);
        proof {
            assert(s.skip(i as int).skip(1) =~= s.skip(i + 1));
            assert(s.skip(i as int)[0] == tree(list@[i as int]));
        }
        match plan_node(&list[i], plan) {
            Ok(_) => {},
            Err(e) => {
                return Err(e);
            },
        }
        proof {
            let t = tree(list@[i as int]);
            assert(plan.nodes@ + flat_nodes_all(s.skip(i + 1)) =~= n1 + (flat_nodes(t)
                + flat_nodes_all(s.skip(i + 1))));
            assert(byte_views(plan.buffers@) + flat_buffers_all(s.skip(i + 1)) =~= b1 + (flat_buffers(t)
                + flat_buffers_all(s.skip(i + 1))));
        }
        i = i + 1;
    }
    proof {
        assert(plan.nodes@ + flat_nodes_all(s.skip(n as int)) =~= plan.nodes@);
        assert(byte_views(plan.buffers@) + flat_buffers_all(s.skip(n as int)) =~= byte_views(
            plan.buffers@,
        ));
    }
    Ok(())
}

/// Flatten the columns of a batch.
pub fn plan_batch(columns: &Vec<ArrayNode>) -> (r: Result<Plan, Error>)
    ensures
        match plans_refusal(trees(columns@)) {
            Some(e) => r is Err && r->Err_0 == e,
            None => r is Ok && r->Ok_0.is_of(trees(columns@)),
        },
{
    let mut plan = Plan { nodes: Vec::new(), buffers: Vec::new() };
    let ghost n0 = plan.nodes@;
    let ghost b0 = byte_views(plan.buffers@);
    match plan_all(columns, &mut plan) {
        Ok(_) => {
            proof {
                assert(n0 + flat_nodes_all(trees(columns@)) =~= flat_nodes_all(trees(columns@)));
                assert(b0 + flat_buffers_all(trees(columns@)) =~= flat_buffers_all(trees(columns@)));
            }
            Ok(plan)
        },
        Err(e) => Err(e),
    }
}

} // verus!
