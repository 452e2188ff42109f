//! What a message is on the wire, byte by byte.
use vstd::prelude::*;

use crate::chunk::PackedRef;
use crate::message::envelope::{
    body_room, envelope_of, message_of, name_hash, ActorId, Envelope, MessageKind,
};
use crate::message::error::Error;

verus! {

// ---- kinds, flags, ids ----

/// The kinds are numbered on the wire: a tell is `1`, an ask `2`, a reply `3`, and
/// a failed ask `4`.
pub proof fn kinds_on_the_wire(k: MessageKind)
    ensures
        k is Tell <==> k.number() == 1,
        k is Ask <==> k.number() == 2,
        k is Reply <==> k.number() == 3,
        k is Failed <==> k.number() == 4,
{
}

/// The flags are bits on the wire: the lowest says that the body is inline, the
/// next that the payload is a reference, the third that no reply is wanted. Others
/// say nothing.
pub proof fn flags_on_the_wire(e: Envelope)
    ensures
        e.spec_is_inline() <==> e.flags % 2 == 1,
        e.spec_has_ref() <==> (e.flags / 2) % 2 == 1,
        e.spec_no_reply() <==> (e.flags / 4) % 2 == 1,
{
    let f: u16 = e.flags;
    assert((f & 1u16 != 0) == (f % 2 == 1)) by (bit_vector);
    assert((f & 2u16 != 0) == ((f / 2) % 2 == 1)) by (bit_vector);
    assert((f & 4u16 != 0) == ((f / 4) % 2 == 1)) by (bit_vector);
}

/// Ids are ordered by host, and on a host by the local number. So are references,
/// by segment and by offset.
pub proof fn ids_are_ordered(a: u32, b: u32, c: u32, d: u32)
    ensures
        ActorId::spec_new(a, b).0 < ActorId::spec_new(c, d).0 <==> a < c || (a == c && b < d),
        ActorId::spec_new(a, b) == ActorId::spec_new(c, d) <==> a == c && b == d,
        PackedRef::spec_pack(a, b).0 < PackedRef::spec_pack(c, d).0 <==> a < c || (a == c && b < d),
        PackedRef::spec_pack(a, b) == PackedRef::spec_pack(c, d) <==> a == c && b == d,
        ActorId::spec_new(0, b).0 == b,
        PackedRef::spec_pack(0, b).0 == b,
{
}

// ---- names ----

proof fn lemma_odd_factor(x: int, y: int)
    requires
        0 <= x < 0x1_0000_0000,
        0 <= y < 0x1_0000_0000,
        (x * 0x0100_0193) % 0x1_0000_0000 == (y * 0x0100_0193) % 0x1_0000_0000,
    ensures
        x == y,
{
    let a = (x * 16777619) / 4294967296;
    let b = (y * 16777619) / 4294967296;
    assert(x * 16777619 == 4294967296 * a + (x * 16777619) % 4294967296);
    assert(y * 16777619 == 4294967296 * b + (y * 16777619) % 4294967296);
    assert((x - y) * 16777619 == 4294967296 * (a - b));
    // `16777619 * 899433627` is one more than `4294967296 * 3513497`
    let z = (a - b) * 899433627 - (x - y) * 3513497;
    assert((x - y) * 15090354709594113 == 3863038012887662592 * (a - b));
    assert(x - y == 4294967296 * z);
    assert(z == 0);
}

/// Every byte of a name counts: names that differ in their last byte alone have
/// different hashes, and so have names that end with the same byte, unless what
/// stands before it has the same.
pub proof fn every_byte_of_a_name_counts(a: Seq<u8>, b: Seq<u8>, x: u8, y: u8)
    ensures
        name_hash(a.push(x)) == name_hash(a.push(y)) ==> x == y,
        name_hash(a.push(x)) == name_hash(b.push(x)) ==> name_hash(a) == name_hash(b),
        name_hash(Seq::empty()) == 0x811c_9dc5,
{
    assert(a.push(x).drop_last() =~= a);
    assert(a.push(y).drop_last() =~= a);
    assert(b.push(x).drop_last() =~= b);
    let (h, g) = (name_hash(a), name_hash(b));
    let (u, v) = (x as u32, y as u32);
    if name_hash(a.push(x)) == name_hash(a.push(y)) {
        lemma_odd_factor((h ^ u) as int, (h ^ v) as int);
        assert(h ^ u == h ^ v ==> u == v) by (bit_vector);
    }
    if name_hash(a.push(x)) == name_hash(b.push(x)) {
        lemma_odd_factor((h ^ u) as int, (g ^ u) as int);
        assert(h ^ u == g ^ u ==> h == g) by (bit_vector);
    }
}

// ---- messages ----

/// What the envelope of an inline message says: who it is from and for, its number, schema
/// and the length of its body, and of which kind it is; that the body is inline, and if it
/// is a tell, that no reply is wanted. It says nothing else, and is accepted.
pub proof fn what_an_envelope_says(
    e: Envelope,
    kind: MessageKind,
    to: ActorId,
    from: ActorId,
    corr: u64,
    schema_id: u32,
    body_len: u16,
)
    requires
        e.is_inline_of(kind, to, from, corr, schema_id, body_len),
    ensures
        e.to == to.0 && e.from == from.0 && e.corr == corr && e.schema_id == schema_id && e.body_len
            == body_len,
        e.kind == 1 <==> kind is Tell,
        e.kind == 2 <==> kind is Ask,
        e.kind == 3 <==> kind is Reply,
        e.kind == 4 <==> kind is Failed,
        kind is Tell ==> e.flags == 5,
        !(kind is Tell) ==> e.flags == 1,
        e.payload == 0 && e.version == 0 && e.deadline == 0 && e.epoch == 0,
        crate::message::envelope::envelope_refusal(e) is None,
{
}

/// The room for a body is what is left behind the envelope.
pub proof fn the_room_for_a_body(n: nat)
    requires
        64 + n <= usize::MAX,
    ensures
        body_room(64 + n as int) == n,
        n < 64 ==> body_room(n as int) == 0,
{
}

/// Whether the bytes are those of an envelope that is not foreign: the four bytes
/// of the mark, version one of the format, and four reserved bytes that are zero.
pub open spec fn is_marked(b: Seq<u8>) -> bool {
    &&& b.len() >= 64
    &&& b[52] == 0x4e && b[53] == 0x4c && b[54] == 0x4f && b[55] == 0x48
    &&& b[56] == 1 && b[57] == 0
    &&& b[60] == 0 && b[61] == 0 && b[62] == 0 && b[63] == 0
}

proof fn lemma_word(b: Seq<u8>, at: int, p: u8, q: u8, r: u8, s: u8)
    ensures
        crate::le::u32_at(b, at) == p + 0x100 * q + 0x1_0000 * r + 0x100_0000 * s <==> b[at] == p && b[at + 1]
            == q && b[at + 2] == r && b[at + 3] == s,
{
    let n = crate::le::u32_at(b, at);
    assert(n == b[at] + 0x100 * b[at + 1] + 0x1_0000 * b[at + 2] + 0x100_0000 * b[at + 3]);
}

proof fn lemma_half(b: Seq<u8>, at: int, p: u8, q: u8)
    ensures
        crate::le::u16_at(b, at) == p + 0x100 * q <==> b[at] == p && b[at + 1] == q,
{
    let n = crate::le::u16_at(b, at);
    assert(n == b[at] + 0x100 * b[at + 1]);
}

/// Which bytes are a message. They are marked as one, their kind is one of the
/// four, and the body that they announce is there, unless none is inline. The
/// body is just that. Bytes of another kind are refused by their kind, all others
/// as no envelope.
pub proof fn which_bytes_are_a_message(b: Seq<u8>)
    ensures
        ({
            let kind = b[40] + 0x100 * b[41];
            let n = b[58] + 0x100 * b[59];
            let inline = b[42] % 2 == 1;
            let r = message_of(b);
            &&& r is Ok <==> is_marked(b) && 1 <= kind <= 4 && (inline ==> 64 + n <= b.len())
            &&& r == Err::<(Envelope, Seq<u8>), Error>(Error::BadKind(kind as u16)) <==> is_marked(b)
                && !(1 <= kind <= 4)
            &&& r is Err && !(is_marked(b) && !(1 <= kind <= 4)) ==> r == Err::<
                (Envelope, Seq<u8>),
                Error,
            >(Error::BadEnvelope)
            &&& r matches Ok((e, body)) ==> {
                &&& e.spec_is_inline() == inline
                &&& body.len() == if inline {
                    n as int
                } else {
                    0
                }
                &&& forall|i: int| 0 <= i < body.len() ==> #[trigger] body[i] == b[64 + i]
            }
        }),
{
    if b.len() >= 64 {
        let f: u16 = envelope_of(b, 0).flags;
        assert((f & 1u16 != 0) == (f % 2 == 1)) by (bit_vector);
        assert(f == b[42] + 0x100 * b[43]);
        lemma_word(b, 52, 0x4e, 0x4c, 0x4f, 0x48);
        lemma_word(b, 60, 0, 0, 0, 0);
        lemma_half(b, 56, 1, 0);
    }
}

/// Whether bytes are those of a number, the lowest first.
pub open spec fn counts_to(b: Seq<u8>, n: int) -> bool
    decreases b.len(),
{
    if b.len() == 0 {
        n == 0
    } else {
        n % 0x100 == b[0] && counts_to(b.skip(1), n / 0x100)
    }
}

/// Where the parts of an envelope are, each with its lowest byte first.
pub proof fn where_parts_of_an_envelope_are(b: Seq<u8>)
    requires
        b.len() >= 64,
    ensures
        ({
            let e = envelope_of(b, 0);
            &&& counts_to(b.subrange(0, 8), e.to as int)
            &&& counts_to(b.subrange(8, 16), e.from as int)
            &&& counts_to(b.subrange(16, 24), e.corr as int)
            &&& counts_to(b.subrange(24, 32), e.payload as int)
            &&& counts_to(b.subrange(32, 36), e.schema_id as int)
            &&& counts_to(b.subrange(36, 40), e.version as int)
            &&& counts_to(b.subrange(40, 42), e.kind as int)
            &&& counts_to(b.subrange(42, 44), e.flags as int)
            &&& counts_to(b.subrange(44, 48), e.deadline as int)
            &&& counts_to(b.subrange(48, 52), e.epoch as int)
            &&& counts_to(b.subrange(52, 56), e.magic as int)
            &&& counts_to(b.subrange(56, 58), e.abi_version as int)
            &&& counts_to(b.subrange(58, 60), e.body_len as int)
            &&& counts_to(b.subrange(60, 64), e._reserved as int)
        }),
{
    lemma_counts_8(b, 0);
    lemma_counts_8(b, 8);
    lemma_counts_8(b, 16);
    lemma_counts_8(b, 24);
    lemma_counts_4(b, 32);
    lemma_counts_4(b, 36);
    lemma_counts_2(b, 40);
    lemma_counts_2(b, 42);
    lemma_counts_4(b, 44);
    lemma_counts_4(b, 48);
    lemma_counts_4(b, 52);
    lemma_counts_2(b, 56);
    lemma_counts_2(b, 58);
    lemma_counts_4(b, 60);
}

/// A number that was read is the one its bytes count to.
pub proof fn lemma_counts_2(b: Seq<u8>, at: int)
    requires
        0 <= at <= b.len() - 2,
    ensures
        counts_to(b.subrange(at, at + 2), crate::le::u16_at(b, at) as int),
{
    let s = b.subrange(at, at + 2);
    let n = crate::le::u16_at(b, at) as int;
    reveal_with_fuel(counts_to, 3);
    assert(s.skip(1)[0] == b[at + 1]);
    assert(n == b[at] + 0x100 * b[at + 1]);
}

/// A number that was read is the one its bytes count to.
pub proof fn lemma_counts_4(b: Seq<u8>, at: int)
    requires
        0 <= at <= b.len() - 4,
    ensures
        counts_to(b.subrange(at, at + 4), crate::le::u32_at(b, at) as int),
{
    let s = b.subrange(at, at + 4);
    let n = crate::le::u32_at(b, at) as int;
    assert(n == b[at] + 0x100 * b[at + 1] + 0x1_0000 * b[at + 2] + 0x100_0000 * b[at + 3]);
    lemma_counts(s, n, b[at + 1] + 0x100 * b[at + 2] + 0x1_0000 * b[at + 3]);
    let s1 = s.skip(1);
    let n1 = n / 0x100;
    lemma_counts(s1, n1, b[at + 2] + 0x100 * b[at + 3]);
    let s2 = s1.skip(1);
    let n2 = n1 / 0x100;
    lemma_counts(s2, n2, b[at + 3] as int);
    let s3 = s2.skip(1);
    let n3 = n2 / 0x100;
    lemma_counts(s3, n3, 0);
    assert(counts_to(s3.skip(1), n3 / 0x100));
}

/// A number that was read is the one its bytes count to.
pub proof fn lemma_counts_8(b: Seq<u8>, at: int)
    requires
        0 <= at <= b.len() - 8,
    ensures
        counts_to(b.subrange(at, at + 8), crate::le::u64_at(b, at) as int),
{
    let s = b.subrange(at, at + 8);
    let low = crate::le::u32_at(b, at) as int;
    let high = crate::le::u32_at(b, at + 4) as int;
    lemma_counts_4(b, at);
    lemma_counts_4(b, at + 4);
    assert(s.take(4) =~= b.subrange(at, at + 4));
    assert(s.skip(4) =~= b.subrange(at + 4, at + 8));
    assert(crate::le::u64_at(b, at) == low + 0x1_0000_0000 * high);
    lemma_counts_join(s, low, high);
}

proof fn lemma_counts(s: Seq<u8>, n: int, rest: int)
    requires
        s.len() > 0,
        n == s[0] + 0x100 * rest,
    ensures
        n / 0x100 == rest,
        counts_to(s, n) == counts_to(s.skip(1), rest),
{
}

/// The numbers of two halves make one.
pub proof fn lemma_counts_join(s: Seq<u8>, low: int, high: int)
    requires
        s.len() == 8,
        counts_to(s.take(4), low),
        counts_to(s.skip(4), high),
    ensures
        counts_to(s, low + 0x1_0000_0000 * high),
{
    let n = low + 0x1_0000_0000 * high;
    let t = s.take(4);
    let (t1, s1) = (t.skip(1), s.skip(1));
    let (t2, s2) = (t1.skip(1), s1.skip(1));
    let (t3, s3) = (t2.skip(1), s2.skip(1));
    let (l1, l2, l3) = (low / 0x100, low / 0x100 / 0x100, low / 0x100 / 0x100 / 0x100);
    assert(counts_to(t1, l1));
    assert(counts_to(t2, l2));
    assert(counts_to(t3, l3));
    assert(counts_to(t3.skip(1), l3 / 0x100));
    assert(t[0] == s[0] && t1[0] == s1[0] && t2[0] == s2[0] && t3[0] == s3[0]);
    assert(s3.skip(1) =~= s.skip(4));
    assert(low == s[0] + 0x100 * l1 && l1 == s1[0] + 0x100 * l2 && l2 == s2[0] + 0x100 * l3 && l3
        == s3[0]);
    lemma_counts(s3, l3 + 0x100 * high, high);
    lemma_counts(s2, l2 + 0x1_0000 * high, l3 + 0x100 * high);
    lemma_counts(s1, l1 + 0x100_0000 * high, l2 + 0x1_0000 * high);
    lemma_counts(s, n, l1 + 0x100_0000 * high);
}

} // verus!
