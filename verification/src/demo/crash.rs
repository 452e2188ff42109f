//! The crash scenario: command lines, the supervisor, and what the logs say.
use vstd::prelude::*;
use vstd::string::StringSliceAdditionalSpecFns;

use crate::text::{
    append, decimal, digits, lines, parse_u64, parsed, part, split_lines, starts, starts_with,
    texts, trim, trimmed,
};

verus! {

/// A base for segment ids that concurrent runs are unlikely to share.
pub fn seg_base(pid: u64, nanos: u64) -> (b: u32)
    ensures
        b == 100_000 + (((pid * 2_654_435_761) % 0x1_0000_0000_0000_0000) as u64 ^ nanos) % 2_000_000,
        100_000 <= b < 2_100_000,
{
    let x: u64 = pid.wrapping_mul(2_654_435_761) ^ nanos;
    (100_000 + x % 2_000_000) as u32
}

// ---- command lines ----

/// Options for a pricer.
#[derive(Debug)]
pub struct PricerOpts {
    pub spin: bool,
    pub bare: bool,
    pub parent_watch: bool,
    pub lease_ms: Option<u64>,
    pub kill_after: Option<u64>,
    pub result: Option<Vec<u8>>,
}

/// A flag, if it is set.
pub open spec fn flag_arg(name: Seq<u8>, on: bool) -> Seq<Seq<u8>> {
    if on {
        seq![name]
    } else {
        seq![]
    }
}

/// A number, if there is one.
pub open spec fn num_arg(name: Seq<u8>, x: Option<u64>) -> Seq<Seq<u8>> {
    match x {
        Some(n) => seq![name, digits(n as nat)],
        None => seq![],
    }
}

/// A text, if there is one.
pub open spec fn text_arg(name: Seq<u8>, x: Option<Seq<u8>>) -> Seq<Seq<u8>> {
    match x {
        Some(t) => seq![name, t],
        None => seq![],
    }
}

/// What a text holds, if there is one.
pub open spec fn text_view(x: Option<Vec<u8>>) -> Option<Seq<u8>> {
    match x {
        Some(t) => Some(t@),
        None => None,
    }
}

fn copied(b: &[u8]) -> (r: Vec<u8>)
    ensures
        r@ == b@,
{
    let mut r: Vec<u8> = Vec::new();
    append(&mut r, b);
    proof {
        assert(r@ =~= b@);
    }
    r
}

fn push_text(out: &mut Vec<Vec<u8>>, b: &[u8])
    ensures
        texts(final(out)@) == texts(old(out)@) + seq![b@],
{
    let c: Vec<u8> = copied(b);
    out.push(c);
    proof {
        assert(texts(out@) =~= texts(old(out)@) + seq![b@]);
    }
}

fn push_flag(out: &mut Vec<Vec<u8>>, name: &[u8], on: bool)
    ensures
        texts(final(out)@) == texts(old(out)@) + flag_arg(name@, on),
{
    if on {
        push_text(out, name);
    } else {
        proof {
            assert(texts(out@) + flag_arg(name@, on) =~= texts(out@));
        }
    }
}

fn push_num(out: &mut Vec<Vec<u8>>, name: &[u8], x: Option<u64>)
    ensures
        texts(final(out)@) == texts(old(out)@) + num_arg(name@, x),
{
    match x {
        Some(n) => {
            push_text(out, name);
            let d: Vec<u8> = decimal(n);
            push_text(out, d.as_slice());
            proof {
                assert(texts(out@) =~= texts(old(out)@) + num_arg(name@, x));
            }
        },
        None => {
            proof {
                assert(texts(out@) + num_arg(name@, x) =~= texts(out@));
            }
        },
    }
}

fn push_opt(out: &mut Vec<Vec<u8>>, name: &[u8], x: &Option<Vec<u8>>)
    ensures
        texts(final(out)@) == texts(old(out)@) + text_arg(name@, text_view(*x)),
{
    match x {
        Some(t) => {
            push_text(out, name);
            push_text(out, t.as_slice());
            proof {
                assert(texts(out@) =~= texts(old(out)@) + text_arg(name@, text_view(*x)));
            }
        },
        None => {
            proof {
                assert(texts(out@) + text_arg(name@, text_view(*x)) =~= texts(out@));
            }
        },
    }
}

impl PricerOpts {
    /// The command line of a pricer.
    pub open spec fn spec_args(&self, uds: Seq<u8>) -> Seq<Seq<u8>> {
        seq!["pricer".spec_bytes(), "--uds".spec_bytes(), uds] + flag_arg(
            "--parent-watch".spec_bytes(),
            self.parent_watch,
        ) + flag_arg("--spin".spec_bytes(), self.spin) + flag_arg("--bare".spec_bytes(), self.bare)
            + num_arg("--lease-ms".spec_bytes(), self.lease_ms) + num_arg(
            "--kill-after".spec_bytes(),
            self.kill_after,
        ) + text_arg("--result".spec_bytes(), text_view(self.result))
    }

    /// The command line of a pricer.
    pub fn args(&self, uds: &[u8]) -> (a: Vec<Vec<u8>>)
        ensures
            texts(a@) == self.spec_args(uds@),
    {
        let mut a: Vec<Vec<u8>> = Vec::new();
        proof {
            assert(texts(a@) =~= seq![]);
        }
        push_text(&mut a, "pricer".as_bytes());
        push_text(&mut a, "--uds".as_bytes());
        push_text(&mut a, uds);
        proof {
            assert(texts(a@) =~= seq!["pricer".spec_bytes(), "--uds".spec_bytes(), uds@]);
        }
        push_flag(&mut a, "--parent-watch".as_bytes(), self.parent_watch);
        push_flag(&mut a, "--spin".as_bytes(), self.spin);
        push_flag(&mut a, "--bare".as_bytes(), self.bare);
        push_num(&mut a, "--lease-ms".as_bytes(), self.lease_ms);
        push_num(&mut a, "--kill-after".as_bytes(), self.kill_after);
        push_opt(&mut a, "--result".as_bytes(), &self.result);
        a
    }
}

/// Options for a client run.
#[derive(Clone, Copy, Debug, PartialEq, Eq, Structural)]
pub struct ClientOpts {
    pub n: u64,
    pub clients: u32,
    pub spin: bool,
    pub bare: bool,
    pub mix: bool,
}

impl ClientOpts {
    /// `n` asks from one client that waits.
    pub fn parked(n: u64) -> (o: ClientOpts)
        ensures
            o == (ClientOpts { n, clients: 1, spin: false, bare: false, mix: false }),
    {
        ClientOpts { n, clients: 1, spin: false, bare: false, mix: false }
    }

    /// The command line of a client.
    pub open spec fn spec_args(&self, uds: Seq<u8>, result: Seq<u8>) -> Seq<Seq<u8>> {
        seq!["client".spec_bytes(), "--uds".spec_bytes(), uds] + num_arg(
            "--n".spec_bytes(),
            Some(self.n),
        ) + num_arg("--clients".spec_bytes(), Some(self.clients as u64)) + seq![
            "--result".spec_bytes(),
        ] + seq![result] + flag_arg("--spin".spec_bytes(), self.spin) + flag_arg(
            "--bare".spec_bytes(),
            self.bare,
        ) + flag_arg("--mix".spec_bytes(), self.mix)
    }

    /// The command line of a client.
    pub fn args(&self, uds: &[u8], result: &[u8]) -> (a: Vec<Vec<u8>>)
        ensures
            texts(a@) == self.spec_args(uds@, result@),
    {
        let mut a: Vec<Vec<u8>> = Vec::new();
        proof {
            assert(texts(a@) =~= seq![]);
        }
        push_text(&mut a, "client".as_bytes());
        push_text(&mut a, "--uds".as_bytes());
        push_text(&mut a, uds);
        proof {
            assert(texts(a@) =~= seq!["client".spec_bytes(), "--uds".spec_bytes(), uds@]);
        }
        push_num(&mut a, "--n".as_bytes(), Some(self.n));
        push_num(&mut a, "--clients".as_bytes(), Some(self.clients as u64));
        push_text(&mut a, "--result".as_bytes());
        push_text(&mut a, result);
        push_flag(&mut a, "--spin".as_bytes(), self.spin);
        push_flag(&mut a, "--bare".as_bytes(), self.bare);
        push_flag(&mut a, "--mix".as_bytes(), self.mix);
        a
    }
}

// ---- the supervisor ----

/// A supervisor: which incarnation of its child runs.
#[derive(Debug)]
pub struct Supervisor {
    pub incarnation: u32,
    pub spin: bool,
    pub lease_ms: Option<u64>,
    /// Where the crash is to happen. Only the first incarnation is told.
    pub kill_after: Option<u64>,
    pub pricer_result: Option<Vec<u8>>,
}

/// What a supervisor hears.
#[derive(Clone, Copy, Debug, PartialEq, Eq, Structural)]
pub enum Heard {
    /// The child was started.
    Started { pid: u32, now: u64 },
    /// The child could not be started.
    StartFailed,
    /// The child still runs.
    Running,
    /// The child is gone.
    Exited { pid: u32, code: i32, now: u64 },
    /// The child cannot be waited for.
    WaitFailed,
    /// The supervisor is told to stop.
    Term { now: u64 },
}

/// What a supervisor does next.
#[derive(Debug)]
pub enum Act {
    /// Log a line and wait a little.
    LogAndWait { line: Vec<u8> },
    /// Wait a little.
    Wait,
    /// Log a line and start the next incarnation.
    LogAndStart { line: Vec<u8> },
    /// Kill the child, log a line and return `0`.
    KillAndStop { line: Vec<u8> },
    /// Return `1`.
    GiveUp,
}

/// A line of numbers behind a word.
pub open spec fn log_line(word: Seq<u8>, x: Seq<Seq<u8>>) -> Seq<u8>
    decreases x.len(),
{
    if x.len() == 0 {
        word
    } else {
        log_line(word, x.drop_last()) + seq![32u8] + x.last()
    }
}

/// An exit code as text.
pub open spec fn code_text(c: i32) -> Seq<u8> {
    if c < 0 {
        seq![45u8] + digits((-c) as nat)
    } else {
        digits(c as nat)
    }
}

fn code_bytes(c: i32) -> (b: Vec<u8>)
    ensures
        b@ == code_text(c),
{
    if c < 0 {
        let mut b: Vec<u8> = Vec::new();
        b.push(45);
        let d: Vec<u8> = decimal((-(c as i64)) as u64);
        append(&mut b, d.as_slice());
        proof {
            assert(b@ =~= code_text(c));
        }
        b
    } else {
        decimal(c as u64)
    }
}

fn push_field(line: &mut Vec<u8>, b: &[u8])
    ensures
        final(line)@ == old(line)@ + seq![32u8] + b@,
{
    line.push(32);
    append(line, b);
    proof {
        assert(line@ =~= old(line)@ + seq![32u8] + b@);
    }
}

/// Which incarnation is next: another one once the child is gone.
pub open spec fn next_incarnation(i: u32, h: Heard) -> u32 {
    if h is Exited {
        (i + 1) as u32
    } else {
        i
    }
}

/// The line that is logged about what incarnation `i` of a child did.
pub open spec fn said(i: u32, h: Heard) -> Option<Seq<u8>> {
    match h {
        Heard::Started { pid, now } => Some(
            log_line(
                if i == 0 {
                    "START".spec_bytes()
                } else {
                    "RESTART".spec_bytes()
                },
                seq![digits(i as nat), digits(pid as nat), digits(now as nat)],
            ),
        ),
        Heard::Exited { pid, code, now } => Some(
            log_line(
                "EXIT".spec_bytes(),
                seq![digits(i as nat), digits(pid as nat), code_text(code), digits(now as nat)],
            ),
        ),
        Heard::Term { now } => Some(log_line("TERM".spec_bytes(), seq![digits(now as nat)])),
        _ => None,
    }
}

impl Supervisor {
    /// What the next incarnation is started with.
    pub open spec fn child(self) -> PricerOpts {
        PricerOpts {
            spin: self.spin,
            bare: false,
            parent_watch: true,
            lease_ms: self.lease_ms,
            kill_after: if self.incarnation == 0 {
                self.kill_after
            } else {
                None
            },
            result: self.pricer_result,
        }
    }

    /// The command line of the next incarnation.
    pub fn child_args(&self, uds: &[u8]) -> (a: Vec<Vec<u8>>)
        ensures
            texts(a@) == self.child().spec_args(uds@),
    {
        let result: Option<Vec<u8>> = match &self.pricer_result {
            Some(p) => Some(copied(p.as_slice())),
            None => None,
        };
        let o = PricerOpts {
            spin: self.spin,
            bare: false,
            parent_watch: true,
            lease_ms: self.lease_ms,
            kill_after: if self.incarnation == 0 {
                self.kill_after
            } else {
                None
            },
            result,
        };
        proof {
            assert(text_view(o.result) == text_view(self.pricer_result));
        }
        o.args(uds)
    }

    /// What to do about what was heard.
    pub fn hear(&mut self, h: Heard) -> (a: Act)
        requires
            old(self).incarnation < u32::MAX,
        ensures
            *final(self) == (Supervisor {
                incarnation: next_incarnation(old(self).incarnation, h),
                ..*old(self)
            }),
            match h {
                Heard::Started { .. } => a is LogAndWait && said(old(self).incarnation, h) == Some(
                    a->LogAndWait_line@,
                ),
                Heard::StartFailed => a is GiveUp,
                Heard::Running => a is Wait,
                Heard::Exited { .. } => a is LogAndStart && said(old(self).incarnation, h) == Some(
                    a->LogAndStart_line@,
                ),
                Heard::WaitFailed => a is GiveUp,
                Heard::Term { .. } => a is KillAndStop && said(old(self).incarnation, h) == Some(
                    a->KillAndStop_line@,
                ),
            },
    {
        let inc: Vec<u8> = decimal(self.incarnation as u64);
        match h {
            Heard::StartFailed => Act::GiveUp,
            Heard::WaitFailed => Act::GiveUp,
            Heard::Running => Act::Wait,
            Heard::Started { pid, now } => {
                let mut line: Vec<u8> = if self.incarnation == 0 {
                    copied("START".as_bytes())
                } else {
                    copied("RESTART".as_bytes())
                };
                let p: Vec<u8> = decimal(pid as u64);
                let t: Vec<u8> = decimal(now);
                let ghost word = line@;
                push_field(&mut line, inc.as_slice());
                push_field(&mut line, p.as_slice());
                push_field(&mut line, t.as_slice());
                proof {
                    lemma_log3(word, inc@, p@, t@);
                }
                Act::LogAndWait { line }
            },
            Heard::Exited { pid, code, now } => {
                let mut line: Vec<u8> = copied("EXIT".as_bytes());
                let p: Vec<u8> = decimal(pid as u64);
                let c: Vec<u8> = code_bytes(code);
                let t: Vec<u8> = decimal(now);
                let ghost word = line@;
                push_field(&mut line, inc.as_slice());
                push_field(&mut line, p.as_slice());
                push_field(&mut line, c.as_slice());
                push_field(&mut line, t.as_slice());
                proof {
                    lemma_log3(word, inc@, p@, c@);
                    lemma_log_push(word, seq![inc@, p@, c@], t@);
                    assert(seq![inc@, p@, c@].push(t@) =~= seq![inc@, p@, c@, t@]);
                }
                self.incarnation = self.incarnation + 1;
                Act::LogAndStart { line }
            },
            Heard::Term { now } => {
                let mut line: Vec<u8> = copied("TERM".as_bytes());
                let t: Vec<u8> = decimal(now);
                let ghost word = line@;
                push_field(&mut line, t.as_slice());
                proof {
                    lemma_log_push(word, seq![], t@);
                    assert(Seq::<Seq<u8>>::empty().push(t@) =~= seq![t@]);
                }
                Act::KillAndStop { line }
            },
        }
    }
}

proof fn lemma_log_push(word: Seq<u8>, x: Seq<Seq<u8>>, y: Seq<u8>)
    ensures
        log_line(word, x.push(y)) == log_line(word, x) + seq![32u8] + y,
{
    assert(x.push(y).drop_last() =~= x);
}

proof fn lemma_log3(word: Seq<u8>, a: Seq<u8>, b: Seq<u8>, c: Seq<u8>)
    ensures
        log_line(word, seq![a, b, c]) == word + seq![32u8] + a + seq![32u8] + b + seq![32u8] + c,
{
    lemma_log_push(word, seq![], a);
    lemma_log_push(word, seq![a], b);
    lemma_log_push(word, seq![a, b], c);
    assert(Seq::<Seq<u8>>::empty().push(a) =~= seq![a]);
    assert(seq![a].push(b) =~= seq![a, b]);
    assert(seq![a, b].push(c) =~= seq![a, b, c]);
}

// ---- what the logs say ----

/// How many lines start with `word`.
pub open spec fn count_starting(ls: Seq<Seq<u8>>, word: Seq<u8>) -> nat
    decreases ls.len(),
{
    if ls.len() == 0 {
        0
    } else {
        count_starting(ls.drop_last(), word) + if starts(ls.last(), word) {
            1nat
        } else {
            0
        }
    }
}

/// How often the supervisor restarted its child.
pub fn restarts(log: &[u8]) -> (n: usize)
    ensures
        n == count_starting(lines(log@), "RESTART".spec_bytes()),
{
    let ls: Vec<Vec<u8>> = split_lines(log);
    let ghost lv = texts(ls@);
    let m: usize = ls.len();
    let mut n: usize = 0;
    let mut i: usize = 0;
    proof {
        assert(lv.take(0) =~= seq![]);
    }
    while i < m
        invariant
            m == ls@.len(),
            lv == texts(ls@),
            i <= m,
            n <= i,
            n == count_starting(lv.take(i as int), "RESTART".spec_bytes()),
        decreases m - i,
    {
        proof {
            assert(lv.take(i + 1).drop_last() =~= lv.take(i as int));
            assert(lv.take(i + 1).last() == ls@[i as int]@);
        }
        if starts_with(ls[i].as_slice(), "RESTART".as_bytes()) {
            n = n + 1;
        }
        i = i + 1;
    }
    proof {
        assert(lv.take(m as int) =~= lv);
    }
    n
}

/// The first line that starts with `word`.
pub open spec fn first_starting(ls: Seq<Seq<u8>>, word: Seq<u8>) -> Option<Seq<u8>>
    decreases ls.len(),
{
    if ls.len() == 0 {
        None
    } else if starts(ls[0], word) {
        Some(ls[0])
    } else {
        first_starting(ls.skip(1), word)
    }
}

/// When the pricer died, as its log says.
pub fn kill_time(log: &[u8]) -> (r: Option<u64>)
    ensures
        match first_starting(lines(log@), "KILL ".spec_bytes()) {
            None => r is None,
            Some(l) => match parsed(trimmed(l.skip(5)), u64::MAX as nat) {
                Some(x) => r == Some(x as u64),
                None => r is None,
            },
        },
{
    let ls: Vec<Vec<u8>> = split_lines(log);
    let ghost lv = texts(ls@);
    let ghost word = "KILL ".spec_bytes();
    let m: usize = ls.len();
    let mut i: usize = 0;
    proof {
        assert(lv.skip(0) =~= lv);
        reveal_strlit("KILL ");
        vstd::string::is_ascii_spec_bytes("KILL ");
    }
    while i < m
        invariant
            m == ls@.len(),
            lv == texts(ls@),
            lv == lines(log@),
            word == "KILL ".spec_bytes(),
            word.len() == 5,
            i <= m,
            first_starting(lv, word) == first_starting(lv.skip(i as int), word),
        decreases m - i,
    {
        proof {
            assert(lv.skip(i as int)[0] == ls@[i as int]@);
            assert(lv.skip(i as int).skip(1) =~= lv.skip(i + 1));
        }
        if starts_with(ls[i].as_slice(), "KILL ".as_bytes()) {
            let n: usize = ls[i].len();
            let rest: Vec<u8> = part(ls[i].as_slice(), 5, n);
            proof {
                assert(rest@ =~= ls@[i as int]@.skip(5));
            }
            let t: Vec<u8> = trim(rest.as_slice());
            return parse_u64(t.as_slice());
        }
        i = i + 1;
    }
    None
}

/// The time from `k` to `f`, if both were seen and in that order.
pub open spec fn time_from(k: Option<u64>, f: Option<u64>) -> Option<u64> {
    if k is Some && f is Some && k->Some_0 <= f->Some_0 {
        Some((f->Some_0 - k->Some_0) as u64)
    } else {
        None
    }
}

/// How long after the crash the successor first answered, in nanoseconds, if
/// both were seen and in that order.
pub fn kill_to_first_reply(kill_ns: Option<u64>, first_successor_reply_ns: Option<u64>) -> (d: Option<u64>)
    ensures
        d == time_from(kill_ns, first_successor_reply_ns),
{
    match (kill_ns, first_successor_reply_ns) {
        (Some(k), Some(f)) => if f >= k {
            Some(f - k)
        } else {
            None
        },
        _ => None,
    }
}

} // verus!
