//! Which measurements to run, and how large their segments are.
use vstd::prelude::*;
use vstd::string::StringSliceAdditionalSpecFns;

use crate::artifact::config::{PoolConfig, SizeClass};
use crate::text::same;

verus! {

/// A measurement.
#[derive(Clone, Copy, Debug, PartialEq, Eq, Structural)]
pub enum Suite {
    Xproc,
    Ring,
    Pool,
    Artifact,
    Arrow,
    Task,
}

impl Suite {
    pub open spec fn name(self) -> Seq<u8> {
        match self {
            Suite::Xproc => "xproc".spec_bytes(),
            Suite::Ring => "ring".spec_bytes(),
            Suite::Pool => "pool".spec_bytes(),
            Suite::Artifact => "artifact".spec_bytes(),
            Suite::Arrow => "arrow".spec_bytes(),
            Suite::Task => "task".spec_bytes(),
        }
    }
}

/// All measurements, in the order in which they run: the one that forks comes
/// before any that starts a thread.
pub open spec fn every_suite() -> Seq<Suite> {
    seq![Suite::Xproc, Suite::Ring, Suite::Pool, Suite::Artifact, Suite::Arrow, Suite::Task]
}

/// The measurements a name stands for: one, or all of them in order.
pub fn suites(name: &str) -> (r: Option<Vec<Suite>>)
    ensures
        name.spec_bytes() == "all".spec_bytes() ==> r is Some && r->Some_0@ == every_suite(),
        name.spec_bytes() != "all".spec_bytes() && r is Some ==> r->Some_0@.len() == 1
            && r->Some_0@[0].name() == name.spec_bytes(),
        r is None ==> forall|s: Suite| #[trigger] s.name() != name.spec_bytes(),
{
    let b: &[u8] = name.as_bytes();
    let mut v: Vec<Suite> = Vec::new();
    if same(b, "all".as_bytes()) {
        v.push(Suite::Xproc);
        v.push(Suite::Ring);
        v.push(Suite::Pool);
        v.push(Suite::Artifact);
        v.push(Suite::Arrow);
        v.push(Suite::Task);
        proof {
            assert(v@ =~= every_suite());
        }
        return Some(v);
    }
    if same(b, "xproc".as_bytes()) {
        v.push(Suite::Xproc);
    } else if same(b, "ring".as_bytes()) {
        v.push(Suite::Ring);
    } else if same(b, "pool".as_bytes()) {
        v.push(Suite::Pool);
    } else if same(b, "artifact".as_bytes()) {
        v.push(Suite::Artifact);
    } else if same(b, "arrow".as_bytes()) {
        v.push(Suite::Arrow);
    } else if same(b, "task".as_bytes()) {
        v.push(Suite::Task);
    } else {
        return None;
    }
    Some(v)
}

/// `2` to the `k`.
pub open spec fn pow2(k: nat) -> int
    decreases k,
{
    if k == 0 {
        1
    } else {
        2 * pow2((k - 1) as nat)
    }
}

/// The smallest power of two that is at least `n`.
pub fn next_power_of_two(n: u64) -> (r: u64)
    requires
        n <= 0x8000_0000_0000_0000,
    ensures
        exists|k: nat| r == #[trigger] pow2(k),
        r >= n,
        r > 1 ==> r < 2 * n,
{
    let mut r: u64 = 1;
    proof {
        assert(pow2(0) == 1);
    }
    while r < n
        invariant
            n <= 0x8000_0000_0000_0000,
            exists|k: nat| r == #[trigger] pow2(k),
            r >= 1,
            r > 1 ==> r < 2 * n,
        decreases 2 * n - r,
    {
        proof {
            let k = choose|k: nat| r == #[trigger] pow2(k);
            assert(pow2((k + 1) as nat) == 2 * r);
        }
        r = r * 2;
    }
    r
}

/// The bytes of a segment for `count` chunks of `chunk` bytes, with room for
/// their control words and some slack.
pub fn pool_segment_bytes(count: u32, chunk: u32) -> (n: u64)
    requires
        count * (chunk + 64) + 65536 <= 0x8000_0000_0000_0000,
    ensures
        n >= count * (chunk + 64) + 65536,
        n < 2 * (count * (chunk + 64) + 65536),
        exists|k: nat| n == #[trigger] pow2(k),
{
    assert(count * (chunk + 64) >= 0) by (nonlinear_arith);
    next_power_of_two(count as u64 * (chunk as u64 + 64) + 65536)
}

// ---- streams under a window ----

/// The bytes that a windowed root of `keep + max_depth + 1` batches of one chunk
/// each takes at most: a descriptor, a span and a kept member for each.
pub open spec fn root_bytes(keep: int, max_depth: int) -> int {
    64 + 44 * (keep + max_depth + 1)
}

/// A pool for a stream that keeps `keep` batches and makes a window of every
/// `max_depth` commits: chunks for the batches and their manifests, and larger
/// ones for the roots.
pub fn stream_pool(keep: u32, max_depth: u32) -> (c: PoolConfig)
    requires
        4 * keep + 4 * max_depth + 256 <= u32::MAX,
        root_bytes(keep as int, max_depth as int) <= 0x8000_0000,
    ensures
        c.classes@.len() == 2,
        c.classes@[0] == (SizeClass {
            chunk_size: 256,
            chunk_count: (4 * keep + 4 * max_depth + 256) as u32,
        }),
        c.classes@[1].chunk_count == 8,
        c.classes@[1].chunk_size >= 512,
        exists|k: nat| c.classes@[1].chunk_size == #[trigger] pow2(k),
        c.classes@[1].chunk_size >= root_bytes(keep as int, max_depth as int),
        c.classes@[1].chunk_size > 512 ==> c.classes@[1].chunk_size < 2 * root_bytes(
            keep as int,
            max_depth as int,
        ),
{
    let need: u64 = 64 + 44 * (keep as u64 + max_depth as u64 + 1);
    let root: u64 = next_power_of_two(need);
    let size: u32 = if root < 512 {
        512
    } else {
        root as u32
    };
    proof {
        assert(pow2(9) == 512) by {
            reveal_with_fuel(pow2, 10);
        }
    }
    let mut classes: Vec<SizeClass> = Vec::new();
    classes.push(SizeClass { chunk_size: 256, chunk_count: 4 * keep + 4 * max_depth + 256 });
    classes.push(SizeClass { chunk_size: size, chunk_count: 8 });
    PoolConfig { classes }
}

/// How many chunks such a stream holds at most: its batches, a manifest for
/// each link of the chain, and one commit more on its way.
pub fn live_bound(keep: u32, max_depth: u32) -> (n: u64)
    ensures
        n == 2 * keep + 2 * max_depth + 2,
{
    2 * keep as u64 + 2 * max_depth as u64 + 2
}

} // verus!
