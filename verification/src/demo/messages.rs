//! The messages of the demo. A price, a rate or a tenor travels as the bits of
//! a double.
use vstd::arithmetic::div_mod::{
    lemma_div_denominator, lemma_fundamental_div_mod, lemma_fundamental_div_mod_converse,
};
use vstd::prelude::*;

use crate::le::{get_u32, get_u64, put_u32, put_u64, u32_at, u64_at};
use crate::message::payload::Payload;

verus! {

pub const PRICE_REQUEST_SCHEMA: u32 = 1001;

pub const PRICE_REPLY_SCHEMA: u32 = 1002;

pub const RISK_REQUEST_SCHEMA: u32 = 1003;

pub const RISK_REPLY_SCHEMA: u32 = 1004;

/// `n` zero bytes.
fn zeros(n: usize) -> (v: Vec<u8>)
    ensures
        v@.len() == n,
{
    let mut v: Vec<u8> = Vec::new();
    let mut i: usize = 0;
    while i < n
        invariant
            i <= n,
            v@.len() == i,
        decreases n - i,
    {
        v.push(0);
        i = i + 1;
    }
    v
}

/// The four bytes of `x`, least significant first.
#[verifier::opaque]
pub open spec fn le32(x: u32) -> Seq<u8> {
    seq![
        (x % 0x100) as u8,
        (x / 0x100 % 0x100) as u8,
        (x / 0x1_0000 % 0x100) as u8,
        (x / 0x100_0000) as u8,
    ]
}

/// The eight bytes of `x`, least significant first.
#[verifier::opaque]
pub open spec fn le64(x: u64) -> Seq<u8> {
    le32((x % 0x1_0000_0000) as u32) + le32((x / 0x1_0000_0000) as u32)
}

proof fn lemma_lens32(x: u32)
    ensures
        le32(x).len() == 4,
{
    reveal(le32);
}

proof fn lemma_lens64(x: u64)
    ensures
        le64(x).len() == 8,
{
    reveal(le64);
    lemma_lens32((x % 0x1_0000_0000) as u32);
    lemma_lens32((x / 0x1_0000_0000) as u32);
}

proof fn lemma_four(a: int, b: int, c: int, d: int)
    requires
        0 <= a < 256,
        0 <= b < 256,
        0 <= c < 256,
        0 <= d < 256,
    ensures
        ({
            let x = a + 256 * b + 65536 * c + 16777216 * d;
            &&& x % 256 == a
            &&& x / 256 % 256 == b
            &&& x / 65536 % 256 == c
            &&& x / 16777216 == d
        }),
{
    let x = a + 256 * b + 65536 * c + 16777216 * d;
    let q1 = b + 256 * c + 65536 * d;
    let q2 = c + 256 * d;
    lemma_fundamental_div_mod_converse(x, 256, q1, a);
    lemma_fundamental_div_mod_converse(q1, 256, q2, b);
    lemma_fundamental_div_mod_converse(x, 65536, q2, a + 256 * b);
    lemma_fundamental_div_mod_converse(q2, 256, d, c);
    lemma_fundamental_div_mod_converse(x, 16777216, d, a + 256 * b + 65536 * c);
}

proof fn lemma_le32(b: Seq<u8>, at: int)
    requires
        0 <= at,
        at + 4 <= b.len(),
    ensures
        b.subrange(at, at + 4) == le32(u32_at(b, at)),
{
    reveal(le32);
    lemma_four(b[at] as int, b[at + 1] as int, b[at + 2] as int, b[at + 3] as int);
    let s = b.subrange(at, at + 4);
    let t = le32(u32_at(b, at));
    assert(s[0] == t[0] && s[1] == t[1] && s[2] == t[2] && s[3] == t[3]);
    assert(s =~= t);
}

proof fn lemma_le64(b: Seq<u8>, at: int)
    requires
        0 <= at,
        at + 8 <= b.len(),
    ensures
        b.subrange(at, at + 8) == le64(u64_at(b, at)),
{
    reveal(le64);
    let lo = u32_at(b, at);
    let hi = u32_at(b, at + 4);
    let x = u64_at(b, at);
    lemma_fundamental_div_mod_converse(x as int, 0x1_0000_0000, hi as int, lo as int);
    assert((x % 0x1_0000_0000) as u32 == lo);
    assert((x / 0x1_0000_0000) as u32 == hi);
    lemma_le32(b, at);
    lemma_le32(b, at + 4);
    assert(b.subrange(at, at + 8) =~= b.subrange(at, at + 4) + b.subrange(at + 4, at + 8));
}

/// Price `notional` at `tenor` years off the current curve.
#[derive(Clone, Copy, Debug, PartialEq, Eq, Structural)]
pub struct PriceRequest {
    pub tenor_bits: u64,
    pub notional_bits: u64,
    pub seq: u64,
}

/// The discounted price and where it came from.
#[derive(Clone, Copy, Debug, PartialEq, Eq, Structural)]
pub struct PriceReply {
    pub px_bits: u64,
    /// The version of the curve the price was computed from.
    pub curve_version: u64,
    /// The process that answered.
    pub incarnation: u32,
    /// How often the ask was delivered before.
    pub attempt: u32,
}

/// The DV01 of `notional` at `tenor` years off the current curve.
#[derive(Clone, Copy, Debug, PartialEq, Eq, Structural)]
pub struct RiskRequest {
    pub tenor_bits: u64,
    pub notional_bits: u64,
    pub seq: u64,
}

/// The DV01, and the price it was bumped around.
#[derive(Clone, Copy, Debug, PartialEq, Eq, Structural)]
pub struct RiskReply {
    pub dv01_bits: u64,
    pub px_bits: u64,
    pub curve_version: u64,
    pub incarnation: u32,
    pub attempt: u32,
}

impl Payload for PriceRequest {
    open spec fn spec_schema_id() -> u32 {
        PRICE_REQUEST_SCHEMA
    }

    open spec fn spec_size() -> nat {
        24
    }

    open spec fn wire(&self) -> Seq<u8> {
        le64(self.tenor_bits) + le64(self.notional_bits) + le64(self.seq)
    }

    fn schema_id() -> (id: u32) {
        PRICE_REQUEST_SCHEMA
    }

    fn size() -> (n: usize) {
        24
    }

    fn as_bytes(&self) -> (b: Vec<u8>) {
        let mut b: Vec<u8> = zeros(24);
        put_u64(b.as_mut_slice(), 0, self.tenor_bits);
        put_u64(b.as_mut_slice(), 8, self.notional_bits);
        put_u64(b.as_mut_slice(), 16, self.seq);
        proof {
            lemma_le64(b@, 0);
            lemma_le64(b@, 8);
            lemma_le64(b@, 16);
            assert(b@ =~= b@.subrange(0, 8) + b@.subrange(8, 16) + b@.subrange(16, 24));
        }
        b
    }

    fn read(b: &[u8]) -> (p: PriceRequest) {
        proof {
            lemma_le64(b@, 0);
            lemma_le64(b@, 8);
            lemma_le64(b@, 16);
            assert(b@ =~= b@.subrange(0, 8) + b@.subrange(8, 16) + b@.subrange(16, 24));
        }
        PriceRequest {
            tenor_bits: get_u64(b, 0),
            notional_bits: get_u64(b, 8),
            seq: get_u64(b, 16),
        }
    }
}

impl Payload for RiskRequest {
    open spec fn spec_schema_id() -> u32 {
        RISK_REQUEST_SCHEMA
    }

    open spec fn spec_size() -> nat {
        24
    }

    open spec fn wire(&self) -> Seq<u8> {
        le64(self.tenor_bits) + le64(self.notional_bits) + le64(self.seq)
    }

    fn schema_id() -> (id: u32) {
        RISK_REQUEST_SCHEMA
    }

    fn size() -> (n: usize) {
        24
    }

    fn as_bytes(&self) -> (b: Vec<u8>) {
        let mut b: Vec<u8> = zeros(24);
        put_u64(b.as_mut_slice(), 0, self.tenor_bits);
        put_u64(b.as_mut_slice(), 8, self.notional_bits);
        put_u64(b.as_mut_slice(), 16, self.seq);
        proof {
            lemma_le64(b@, 0);
            lemma_le64(b@, 8);
            lemma_le64(b@, 16);
            assert(b@ =~= b@.subrange(0, 8) + b@.subrange(8, 16) + b@.subrange(16, 24));
        }
        b
    }

    fn read(b: &[u8]) -> (p: RiskRequest) {
        proof {
            lemma_le64(b@, 0);
            lemma_le64(b@, 8);
            lemma_le64(b@, 16);
            assert(b@ =~= b@.subrange(0, 8) + b@.subrange(8, 16) + b@.subrange(16, 24));
        }
        RiskRequest {
            tenor_bits: get_u64(b, 0),
            notional_bits: get_u64(b, 8),
            seq: get_u64(b, 16),
        }
    }
}

impl Payload for PriceReply {
    open spec fn spec_schema_id() -> u32 {
        PRICE_REPLY_SCHEMA
    }

    open spec fn spec_size() -> nat {
        24
    }

    open spec fn wire(&self) -> Seq<u8> {
        le64(self.px_bits) + le64(self.curve_version) + le32(self.incarnation) + le32(self.attempt)
    }

    fn schema_id() -> (id: u32) {
        PRICE_REPLY_SCHEMA
    }

    fn size() -> (n: usize) {
        24
    }

    fn as_bytes(&self) -> (b: Vec<u8>) {
        let mut b: Vec<u8> = zeros(24);
        put_u64(b.as_mut_slice(), 0, self.px_bits);
        put_u64(b.as_mut_slice(), 8, self.curve_version);
        put_u32(b.as_mut_slice(), 16, self.incarnation);
        put_u32(b.as_mut_slice(), 20, self.attempt);
        proof {
            lemma_le64(b@, 0);
            lemma_le64(b@, 8);
            lemma_le32(b@, 16);
            lemma_le32(b@, 20);
            assert(b@ =~= b@.subrange(0, 8) + b@.subrange(8, 16) + b@.subrange(16, 20) + b@.subrange(
                20,
                24,
            ));
        }
        b
    }

    fn read(b: &[u8]) -> (p: PriceReply) {
        proof {
            lemma_le64(b@, 0);
            lemma_le64(b@, 8);
            lemma_le32(b@, 16);
            lemma_le32(b@, 20);
            assert(b@ =~= b@.subrange(0, 8) + b@.subrange(8, 16) + b@.subrange(16, 20) + b@.subrange(
                20,
                24,
            ));
        }
        PriceReply {
            px_bits: get_u64(b, 0),
            curve_version: get_u64(b, 8),
            incarnation: get_u32(b, 16),
            attempt: get_u32(b, 20),
        }
    }
}

impl Payload for RiskReply {
    open spec fn spec_schema_id() -> u32 {
        RISK_REPLY_SCHEMA
    }

    open spec fn spec_size() -> nat {
        32
    }

    open spec fn wire(&self) -> Seq<u8> {
        le64(self.dv01_bits) + le64(self.px_bits) + le64(self.curve_version) + le32(
            self.incarnation,
        ) + le32(self.attempt)
    }

    fn schema_id() -> (id: u32) {
        RISK_REPLY_SCHEMA
    }

    fn size() -> (n: usize) {
        32
    }

    fn as_bytes(&self) -> (b: Vec<u8>) {
        let mut b: Vec<u8> = zeros(32);
        put_u64(b.as_mut_slice(), 0, self.dv01_bits);
        put_u64(b.as_mut_slice(), 8, self.px_bits);
        put_u64(b.as_mut_slice(), 16, self.curve_version);
        put_u32(b.as_mut_slice(), 24, self.incarnation);
        put_u32(b.as_mut_slice(), 28, self.attempt);
        proof {
            lemma_le64(b@, 0);
            lemma_le64(b@, 8);
            lemma_le64(b@, 16);
            lemma_le32(b@, 24);
            lemma_le32(b@, 28);
            assert(b@ =~= b@.subrange(0, 8) + b@.subrange(8, 16) + b@.subrange(16, 24) + b@.subrange(
                24,
                28,
            ) + b@.subrange(28, 32));
        }
        b
    }

    fn read(b: &[u8]) -> (p: RiskReply) {
        proof {
            lemma_le64(b@, 0);
            lemma_le64(b@, 8);
            lemma_le64(b@, 16);
            lemma_le32(b@, 24);
            lemma_le32(b@, 28);
            assert(b@ =~= b@.subrange(0, 8) + b@.subrange(8, 16) + b@.subrange(16, 24) + b@.subrange(
                24,
                28,
            ) + b@.subrange(28, 32));
        }
        RiskReply {
            dv01_bits: get_u64(b, 0),
            px_bits: get_u64(b, 8),
            curve_version: get_u64(b, 16),
            incarnation: get_u32(b, 24),
            attempt: get_u32(b, 28),
        }
    }
}

proof fn lemma_le32_unique(a: u32, b: u32)
    requires
        le32(a) == le32(b),
    ensures
        a == b,
{
    reveal(le32);
    let x = le32(a);
    let y = le32(b);
    assert(x[0] == y[0] && x[1] == y[1] && x[2] == y[2] && x[3] == y[3]);
    lemma_sum32(a);
    lemma_sum32(b);
}

/// A number is the sum of its bytes.
proof fn lemma_sum32(x: u32)
    ensures
        x == le32(x)[0] + 256 * le32(x)[1] + 65536 * le32(x)[2] + 16777216 * le32(x)[3],
{
    reveal(le32);
    let v = x as int;
    lemma_fundamental_div_mod(v, 256);
    lemma_fundamental_div_mod(v / 256, 256);
    lemma_fundamental_div_mod(v / 65536, 256);
    lemma_div_denominator(v, 256, 256);
    lemma_div_denominator(v, 65536, 256);
}

proof fn lemma_le64_unique(a: u64, b: u64)
    requires
        le64(a) == le64(b),
    ensures
        a == b,
{
    reveal(le64);
    lemma_lens32((a % 0x1_0000_0000) as u32);
    lemma_lens32((a / 0x1_0000_0000) as u32);
    lemma_lens32((b % 0x1_0000_0000) as u32);
    lemma_lens32((b / 0x1_0000_0000) as u32);
    let x = le64(a);
    let y = le64(b);
    let al = (a % 0x1_0000_0000) as u32;
    let ah = (a / 0x1_0000_0000) as u32;
    let bl = (b % 0x1_0000_0000) as u32;
    let bh = (b / 0x1_0000_0000) as u32;
    assert(x.subrange(0, 4) =~= le32(al) && x.subrange(4, 8) =~= le32(ah));
    assert(y.subrange(0, 4) =~= le32(bl) && y.subrange(4, 8) =~= le32(bh));
    lemma_le32_unique(al, bl);
    lemma_le32_unique(ah, bh);
    lemma_fundamental_div_mod(a as int, 0x1_0000_0000);
    lemma_fundamental_div_mod(b as int, 0x1_0000_0000);
}

/// A price reply is its bytes: what is decoded from them is the reply.
pub proof fn price_reply_is_its_bytes(a: PriceReply, b: PriceReply)
    requires
        a.wire() == b.wire(),
    ensures
        a == b,
{
    lemma_lens64(a.px_bits);
    lemma_lens64(b.px_bits);
    lemma_lens64(a.curve_version);
    lemma_lens64(b.curve_version);
    lemma_lens32(a.incarnation);
    lemma_lens32(b.incarnation);
    lemma_lens32(a.attempt);
    lemma_lens32(b.attempt);
    let x = a.wire();
    let y = b.wire();
    assert(x.subrange(0, 8) =~= le64(a.px_bits) && y.subrange(0, 8) =~= le64(b.px_bits));
    assert(x.subrange(8, 16) =~= le64(a.curve_version) && y.subrange(8, 16) =~= le64(b.curve_version));
    assert(x.subrange(16, 20) =~= le32(a.incarnation) && y.subrange(16, 20) =~= le32(b.incarnation));
    assert(x.subrange(20, 24) =~= le32(a.attempt) && y.subrange(20, 24) =~= le32(b.attempt));
    lemma_le64_unique(a.px_bits, b.px_bits);
    lemma_le64_unique(a.curve_version, b.curve_version);
    lemma_le32_unique(a.incarnation, b.incarnation);
    lemma_le32_unique(a.attempt, b.attempt);
}

/// A price request is its bytes.
pub proof fn price_request_is_its_bytes(a: PriceRequest, b: PriceRequest)
    requires
        a.wire() == b.wire(),
    ensures
        a == b,
{
    lemma_lens64(a.tenor_bits);
    lemma_lens64(b.tenor_bits);
    lemma_lens64(a.notional_bits);
    lemma_lens64(b.notional_bits);
    lemma_lens64(a.seq);
    lemma_lens64(b.seq);
    let x = a.wire();
    let y = b.wire();
    assert(x.subrange(0, 8) =~= le64(a.tenor_bits) && y.subrange(0, 8) =~= le64(b.tenor_bits));
    assert(x.subrange(8, 16) =~= le64(a.notional_bits) && y.subrange(8, 16) =~= le64(b.notional_bits));
    assert(x.subrange(16, 24) =~= le64(a.seq) && y.subrange(16, 24) =~= le64(b.seq));
    lemma_le64_unique(a.tenor_bits, b.tenor_bits);
    lemma_le64_unique(a.notional_bits, b.notional_bits);
    lemma_le64_unique(a.seq, b.seq);
}

/// A risk request is its bytes.
pub proof fn risk_request_is_its_bytes(a: RiskRequest, b: RiskRequest)
    requires
        a.wire() == b.wire(),
    ensures
        a == b,
{
    lemma_lens64(a.tenor_bits);
    lemma_lens64(b.tenor_bits);
    lemma_lens64(a.notional_bits);
    lemma_lens64(b.notional_bits);
    lemma_lens64(a.seq);
    lemma_lens64(b.seq);
    let x = a.wire();
    let y = b.wire();
    assert(x.subrange(0, 8) =~= le64(a.tenor_bits) && y.subrange(0, 8) =~= le64(b.tenor_bits));
    assert(x.subrange(8, 16) =~= le64(a.notional_bits) && y.subrange(8, 16) =~= le64(b.notional_bits));
    assert(x.subrange(16, 24) =~= le64(a.seq) && y.subrange(16, 24) =~= le64(b.seq));
    lemma_le64_unique(a.tenor_bits, b.tenor_bits);
    lemma_le64_unique(a.notional_bits, b.notional_bits);
    lemma_le64_unique(a.seq, b.seq);
}

/// A risk reply is its bytes.
pub proof fn risk_reply_is_its_bytes(a: RiskReply, b: RiskReply)
    requires
        a.wire() == b.wire(),
    ensures
        a == b,
{
    lemma_lens64(a.dv01_bits);
    lemma_lens64(b.dv01_bits);
    lemma_lens64(a.px_bits);
    lemma_lens64(b.px_bits);
    lemma_lens64(a.curve_version);
    lemma_lens64(b.curve_version);
    lemma_lens32(a.incarnation);
    lemma_lens32(b.incarnation);
    lemma_lens32(a.attempt);
    lemma_lens32(b.attempt);
    let x = a.wire();
    let y = b.wire();
    assert(x.subrange(0, 8) =~= le64(a.dv01_bits) && y.subrange(0, 8) =~= le64(b.dv01_bits));
    assert(x.subrange(8, 16) =~= le64(a.px_bits) && y.subrange(8, 16) =~= le64(b.px_bits));
    assert(x.subrange(16, 24) =~= le64(a.curve_version) && y.subrange(16, 24) =~= le64(b.curve_version));
    assert(x.subrange(24, 28) =~= le32(a.incarnation) && y.subrange(24, 28) =~= le32(b.incarnation));
    assert(x.subrange(28, 32) =~= le32(a.attempt) && y.subrange(28, 32) =~= le32(b.attempt));
    lemma_le64_unique(a.dv01_bits, b.dv01_bits);
    lemma_le64_unique(a.px_bits, b.px_bits);
    lemma_le64_unique(a.curve_version, b.curve_version);
    lemma_le32_unique(a.incarnation, b.incarnation);
    lemma_le32_unique(a.attempt, b.attempt);
}

} // verus!
