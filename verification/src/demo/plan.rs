//! What the bench runs, and what a command line asks for.
use vstd::prelude::*;
use vstd::string::StringSliceAdditionalSpecFns;

use crate::demo::crash::ClientOpts;
use crate::demo::opts::{args_bytes, last_value, pairs, Opts};
use crate::text::parsed;

verus! {

/// The number given for an option, if there is one and it is at most `max`.
pub open spec fn number(o: Opts, key: Seq<u8>, max: nat) -> Option<nat> {
    match last_value(pairs(o.values@), key) {
        Some(v) => parsed(v, max),
        None => None,
    }
}

/// The number given for an option, or else `otherwise`.
pub open spec fn number_or(o: Opts, key: Seq<u8>, max: nat, otherwise: nat) -> nat {
    match number(o, key, max) {
        Some(n) => n,
        None => otherwise,
    }
}

/// Whether a flag was given.
pub open spec fn has_flag(o: Opts, key: Seq<u8>) -> bool {
    args_bytes(o.flags@).contains(key)
}

impl ClientOpts {
    /// What a client's command line asks for: a thousand asks of one client,
    /// unless it says otherwise, and never of none.
    pub fn from_opts(o: &Opts) -> (c: ClientOpts)
        ensures
            c.n == number_or(*o, "n".spec_bytes(), u64::MAX as nat, 1000),
            ({
                let k = number_or(*o, "clients".spec_bytes(), u32::MAX as nat, 1);
                c.clients == if k == 0 {
                    1
                } else {
                    k
                }
            }),
            c.spin == has_flag(*o, "--spin".spec_bytes()),
            c.bare == has_flag(*o, "--bare".spec_bytes()),
            c.mix == has_flag(*o, "--mix".spec_bytes()),
    {
        let n: u64 = match o.num_u64("n") {
            Some(n) => n,
            None => 1000,
        };
        let k: u32 = match o.num_u32("clients") {
            Some(k) => k,
            None => 1,
        };
        ClientOpts {
            n,
            clients: if k == 0 {
                1
            } else {
                k
            },
            spin: o.flag("--spin"),
            bare: o.flag("--bare"),
            mix: o.flag("--mix"),
        }
    }
}

/// What a bench runs.
#[derive(Clone, Copy, Debug, PartialEq, Eq, Structural)]
pub struct BenchOpts {
    /// Asks of each run.
    pub n: u64,
    /// How often it all runs.
    pub runs: u32,
    /// Asks of the run in which the pricer dies.
    pub crash_n: u64,
    /// The message it dies on.
    pub kill_after: u64,
}

impl BenchOpts {
    /// What the command line asks for.
    pub fn from_opts(o: &Opts) -> (b: BenchOpts)
        ensures
            b.n == number_or(*o, "n".spec_bytes(), u64::MAX as nat, 100_000),
            b.runs == number_or(*o, "runs".spec_bytes(), u32::MAX as nat, 2),
            b.crash_n == number_or(*o, "crash-n".spec_bytes(), u64::MAX as nat, 2_000),
            b.kill_after == number_or(*o, "kill-after".spec_bytes(), u64::MAX as nat, 50),
    {
        BenchOpts {
            n: match o.num_u64("n") {
                Some(n) => n,
                None => 100_000,
            },
            runs: match o.num_u32("runs") {
                Some(n) => n,
                None => 2,
            },
            crash_n: match o.num_u64("crash-n") {
                Some(n) => n,
                None => 2_000,
            },
            kill_after: match o.num_u64("kill-after") {
                Some(n) => n,
                None => 50,
            },
        }
    }
}

/// One run: so many pricers, which spin or are bare as their clients are.
#[derive(Clone, Copy, Debug, PartialEq, Eq, Structural)]
pub struct Run {
    pub pricers: u32,
    pub client: ClientOpts,
}

/// A run of `pricers` and `clients`.
pub open spec fn run_of(n: u64, pricers: u32, clients: u32, spin: bool, bare: bool, mix: bool) -> Run {
    Run { pricers, client: ClientOpts { n, clients, spin, bare, mix } }
}

/// The runs of a bench of `n` asks: one client that waits, and one that spins;
/// four clients at one pricer and at four; four that ask two actors in turn;
/// and the two single clients again without envelopes.
pub open spec fn all_runs(n: u64) -> Seq<Run> {
    seq![
        run_of(n, 1, 1, false, false, false),
        run_of(n, 1, 1, true, false, false),
        run_of(n, 1, 4, false, false, false),
        run_of(n, 4, 4, false, false, false),
        run_of(n, 1, 4, false, false, true),
        run_of(n, 1, 1, false, true, false),
        run_of(n, 1, 1, true, true, false),
    ]
}

fn run(n: u64, pricers: u32, clients: u32, spin: bool, bare: bool, mix: bool) -> (r: Run)
    ensures
        r == run_of(n, pricers, clients, spin, bare, mix),
{
    Run { pricers, client: ClientOpts { n, clients, spin, bare, mix } }
}

/// The runs of a bench of `n` asks.
pub fn bench_runs(n: u64) -> (v: Vec<Run>)
    ensures
        v@ == all_runs(n),
{
    let mut v: Vec<Run> = Vec::new();
    v.push(run(n, 1, 1, false, false, false));
    v.push(run(n, 1, 1, true, false, false));
    v.push(run(n, 1, 4, false, false, false));
    v.push(run(n, 4, 4, false, false, false));
    v.push(run(n, 1, 4, false, false, true));
    v.push(run(n, 1, 1, false, true, false));
    v.push(run(n, 1, 1, true, true, false));
    proof {
        assert(v@ =~= all_runs(n));
    }
    v
}

/// How much longer an ask takes than a bare round trip, in nanoseconds.
pub fn detour(full: u64, bare: u64) -> (d: i128)
    ensures
        d == full - bare,
{
    full as i128 - bare as i128
}

} // verus!
