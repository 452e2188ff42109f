//! Little-endian integers inside byte buffers.
//!
//! Every record this crate places in a chunk is a run of little-endian
//! integers at fixed offsets. The spec functions here read such an integer out
//! of a byte sequence; the executable ones read and write it in place.
use vstd::prelude::*;

verus! {

/// The `u16` whose little-endian bytes start at `at`.
pub open spec fn u16_at(b: Seq<u8>, at: int) -> u16 {
    (b[at] + 0x100 * b[at + 1]) as u16
}

/// The `u32` whose little-endian bytes start at `at`.
pub open spec fn u32_at(b: Seq<u8>, at: int) -> u32 {
    (b[at] + 0x100 * b[at + 1] + 0x1_0000 * b[at + 2] + 0x100_0000 * b[at + 3]) as u32
}

/// The `u64` whose little-endian bytes start at `at`.
pub open spec fn u64_at(b: Seq<u8>, at: int) -> u64 {
    (u32_at(b, at) + 0x1_0000_0000 * u32_at(b, at + 4)) as u64
}

/// `a` and `b` agree everywhere outside the `n` bytes from `at`.
pub open spec fn same_outside(a: Seq<u8>, b: Seq<u8>, at: int, n: int) -> bool {
    &&& a.len() == b.len()
    &&& forall|i: int| 0 <= i < a.len() && !(at <= i < at + n) ==> #[trigger] b[i] == a[i]
}

pub fn get_u16(b: &[u8], at: usize) -> (x: u16)
    requires
        at + 2 <= b@.len(),
    ensures
        x == u16_at(b@, at as int),
{
    b[at] as u16 + 0x100u16 * (b[at + 1] as u16)
}

pub fn get_u32(b: &[u8], at: usize) -> (x: u32)
    requires
        at + 4 <= b@.len(),
    ensures
        x == u32_at(b@, at as int),
{
    b[at] as u32 + 0x100u32 * (b[at + 1] as u32) + 0x1_0000u32 * (b[at + 2] as u32) + 0x100_0000u32
        * (b[at + 3] as u32)
}

pub fn get_u64(b: &[u8], at: usize) -> (x: u64)
    requires
        at + 8 <= b@.len(),
    ensures
        x == u64_at(b@, at as int),
{
    let n: usize = b.len();
    assert(at + 8 <= n);
    get_u32(b, at) as u64 + 0x1_0000_0000u64 * (get_u32(b, at + 4) as u64)
}

pub fn put_u16(b: &mut [u8], at: usize, x: u16)
    requires
        at + 2 <= old(b)@.len(),
    ensures
        same_outside(old(b)@, final(b)@, at as int, 2),
        u16_at(final(b)@, at as int) == x,
{
    b[at] = (x % 0x100) as u8;
    b[at + 1] = (x / 0x100) as u8;
}

pub fn put_u32(b: &mut [u8], at: usize, x: u32)
    requires
        at + 4 <= old(b)@.len(),
    ensures
        same_outside(old(b)@, final(b)@, at as int, 4),
        u32_at(final(b)@, at as int) == x,
{
    b[at] = (x % 0x100) as u8;
    b[at + 1] = (x / 0x100 % 0x100) as u8;
    b[at + 2] = (x / 0x1_0000 % 0x100) as u8;
    b[at + 3] = (x / 0x100_0000) as u8;
}

pub fn put_u64(b: &mut [u8], at: usize, x: u64)
    requires
        at + 8 <= old(b)@.len(),
    ensures
        same_outside(old(b)@, final(b)@, at as int, 8),
        u64_at(final(b)@, at as int) == x,
{
    let n: usize = b.len();
    assert(at + 8 <= n);
    put_u32(b, at, (x % 0x1_0000_0000) as u32);
    put_u32(b, at + 4, (x / 0x1_0000_0000) as u32);
}

} // verus!
