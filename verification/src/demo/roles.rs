//! The decisions of the demo's roles.
use vstd::prelude::*;
use vstd::string::StringSliceAdditionalSpecFns;

use crate::demo::messages::{PriceReply, RiskReply};
use crate::demo::report::{order, ordered, ClientReport, Incarnation, ReportView};
use crate::text::same;

verus! {

/// The name of the pricer.
pub const PRICER_NAME: &'static str = "pricer";

/// The name of the risk actor.
pub const RISK_NAME: &'static str = "risk";

/// The key of the curve cell.
pub const CURVE_KEY: &'static str = "curve";

/// How many points the curve has.
pub const CURVE_TENORS: usize = 64;

/// What a process of the demo does.
#[derive(Clone, Copy, Debug, PartialEq, Eq, Structural)]
pub enum Role {
    Coordinator,
    CurvePublish,
    Pricer,
    Client,
    Supervisor,
    Bench,
}

impl Role {
    pub open spec fn name(self) -> Seq<u8> {
        match self {
            Role::Coordinator => "coordinator".spec_bytes(),
            Role::CurvePublish => "curve-publish".spec_bytes(),
            Role::Pricer => "pricer".spec_bytes(),
            Role::Client => "client".spec_bytes(),
            Role::Supervisor => "supervisor".spec_bytes(),
            Role::Bench => "bench".spec_bytes(),
        }
    }

    /// The role of that name.
    pub fn parse(name: &str) -> (r: Option<Role>)
        ensures
            r matches Some(x) ==> x.name() == name.spec_bytes(),
            r is None ==> forall|x: Role| #[trigger] x.name() != name.spec_bytes(),
    {
        let b: &[u8] = name.as_bytes();
        if same(b, "coordinator".as_bytes()) {
            Some(Role::Coordinator)
        } else if same(b, "curve-publish".as_bytes()) {
            Some(Role::CurvePublish)
        } else if same(b, "pricer".as_bytes()) {
            Some(Role::Pricer)
        } else if same(b, "client".as_bytes()) {
            Some(Role::Client)
        } else if same(b, "supervisor".as_bytes()) {
            Some(Role::Supervisor)
        } else if same(b, "bench".as_bytes()) {
            Some(Role::Bench)
        } else {
            None
        }
    }
}

// ---- clients ----

/// How many of `n` asks client `i` of `clients` issues: an equal part, the last
/// one also what is left over.
pub open spec fn share_of(n: int, clients: int, i: int) -> int {
    n / clients + if i == clients - 1 {
        n % clients
    } else {
        0
    }
}

/// How many of `n` asks client `i` of `clients` issues.
pub fn share(n: u64, clients: u32, i: u32) -> (k: u64)
    requires
        i < clients,
    ensures
        k == share_of(n as int, clients as int, i as int),
{
    let c: u64 = clients as u64;
    proof {
        vstd::arithmetic::div_mod::lemma_fundamental_div_mod(n as int, c as int);
        assert(n as int / c as int + n as int % c as int <= n) by (nonlinear_arith)
            requires
                c >= 1,
                n as int == c as int * (n as int / c as int) + n as int % c as int,
                n as int / c as int >= 0,
        ;
    }
    n / c + if i == clients - 1 {
        n % c
    } else {
        0
    }
}

/// The asks of the first `i` clients.
pub open spec fn shares(n: int, clients: int, i: int) -> int
    decreases i,
{
    if i <= 0 {
        0
    } else {
        shares(n, clients, i - 1) + share_of(n, clients, i - 1)
    }
}

proof fn lemma_shares(n: int, clients: int, i: int)
    requires
        0 <= i < clients,
    ensures
        shares(n, clients, i) == i * (n / clients),
    decreases i,
{
    if i > 0 {
        lemma_shares(n, clients, i - 1);
        assert(i * (n / clients) == (i - 1) * (n / clients) + n / clients) by (nonlinear_arith);
    } else {
        assert(0 * (n / clients) == 0) by (nonlinear_arith);
    }
}

/// The clients together issue every ask.
pub proof fn shares_cover_everything(n: int, clients: int)
    requires
        clients > 0,
        n >= 0,
    ensures
        shares(n, clients, clients) == n,
{
    lemma_shares(n, clients, clients - 1);
    vstd::arithmetic::div_mod::lemma_fundamental_div_mod(n, clients);
    assert((clients - 1) * (n / clients) + n / clients == clients * (n / clients)) by (nonlinear_arith);
}

/// Whether ask `seq` goes to the risk actor.
pub open spec fn goes_to_risk(mix: bool, seq: u64) -> bool {
    mix && seq % 2 == 1
}

/// Whether ask `seq` goes to the risk actor.
pub fn to_risk(mix: bool, seq: u64) -> (b: bool)
    ensures
        b == goes_to_risk(mix, seq),
{
    mix && seq % 2 == 1
}

/// How many hundredths of a year ask `seq`'s tenor is past the first.
pub fn tenor_step(seq: u64) -> (k: u64)
    ensures
        k == ((seq * 7919) % 0x1_0000_0000_0000_0000) % 2975,
        k < 2975,
{
    seq.wrapping_mul(7919) % 2975
}

/// What a client counted.
#[derive(Debug)]
pub struct Tally {
    pub replies: u64,
    pub errors: u64,
    pub redelivered: u64,
    pub risk_replies: u64,
    pub version_changes: u64,
    pub last_version: Option<u64>,
    pub incarnations: Vec<Incarnation>,
}

/// What a client counted.
#[verifier::ext_equal]
pub struct TallyView {
    pub replies: int,
    pub errors: int,
    pub redelivered: int,
    pub risk_replies: int,
    pub version_changes: int,
    pub last_version: Option<u64>,
    pub incarnations: Seq<Incarnation>,
}

impl View for Tally {
    type V = TallyView;

    open spec fn view(&self) -> TallyView {
        TallyView {
            replies: self.replies as int,
            errors: self.errors as int,
            redelivered: self.redelivered as int,
            risk_replies: self.risk_replies as int,
            version_changes: self.version_changes as int,
            last_version: self.last_version,
            incarnations: self.incarnations@,
        }
    }
}

/// Where `pid` is among those that answered.
pub open spec fn place_of(s: Seq<Incarnation>, pid: u32) -> int
    decreases s.len(),
{
    if s.len() == 0 || s[0].pid == pid {
        0
    } else {
        1 + place_of(s.skip(1), pid)
    }
}

proof fn lemma_place_of(s: Seq<Incarnation>, pid: u32, k: int)
    requires
        0 <= k <= s.len(),
        forall|i: int| 0 <= i < k ==> (#[trigger] s[i]).pid != pid,
        k < s.len() ==> s[k].pid == pid,
    ensures
        place_of(s, pid) == k,
    decreases k,
{
    if k > 0 {
        let r = s.skip(1);
        assert forall|i: int| 0 <= i < k - 1 implies (#[trigger] r[i]).pid != pid by {
            assert(s[i + 1].pid != pid);
        }
        assert(s[0].pid != pid);
        lemma_place_of(r, pid, k - 1);
    }
}

/// Those that answered, with what `x` adds.
pub open spec fn joined(s: Seq<Incarnation>, x: Incarnation) -> Seq<Incarnation> {
    let k = place_of(s, x.pid);
    if k < s.len() {
        s.update(
            k,
            Incarnation {
                pid: x.pid,
                replies: (s[k].replies + x.replies) as u64,
                first: if x.first < s[k].first {
                    x.first
                } else {
                    s[k].first
                },
            },
        )
    } else {
        s.push(x)
    }
}

/// All replies of those that answered.
pub open spec fn all_replies(s: Seq<Incarnation>) -> int
    decreases s.len(),
{
    if s.len() == 0 {
        0
    } else {
        all_replies(s.drop_last()) + s.last().replies
    }
}

proof fn lemma_replies_update(s: Seq<Incarnation>, k: int, x: Incarnation)
    requires
        0 <= k < s.len(),
    ensures
        all_replies(s.update(k, x)) == all_replies(s) - s[k].replies + x.replies,
        s[k].replies <= all_replies(s),
    decreases s.len(),
{
    lemma_replies_positive(s.drop_last());
    if k == s.len() - 1 {
        assert(s.update(k, x).drop_last() =~= s.drop_last());
    } else {
        lemma_replies_update(s.drop_last(), k, x);
        assert(s.update(k, x).drop_last() =~= s.drop_last().update(k, x));
    }
}

proof fn lemma_replies_positive(s: Seq<Incarnation>)
    ensures
        all_replies(s) >= 0,
    decreases s.len(),
{
    if s.len() > 0 {
        lemma_replies_positive(s.drop_last());
    }
}

/// Joining keeps count of every reply.
pub proof fn joining_keeps_count(s: Seq<Incarnation>, x: Incarnation)
    requires
        all_replies(s) + x.replies <= u64::MAX,
    ensures
        all_replies(joined(s, x)) == all_replies(s) + x.replies,
{
    let k = place_of(s, x.pid);
    lemma_place_bounds(s, x.pid);
    if k < s.len() {
        lemma_replies_update(
            s,
            k,
            Incarnation {
                pid: x.pid,
                replies: (s[k].replies + x.replies) as u64,
                first: if x.first < s[k].first {
                    x.first
                } else {
                    s[k].first
                },
            },
        );
        lemma_replies_update(s, k, s[k]);
    } else {
        assert(s.push(x).drop_last() =~= s);
    }
}

proof fn lemma_place_bounds(s: Seq<Incarnation>, pid: u32)
    ensures
        0 <= place_of(s, pid) <= s.len(),
        place_of(s, pid) < s.len() ==> s[place_of(s, pid)].pid == pid,
    decreases s.len(),
{
    if s.len() > 0 && s[0].pid != pid {
        lemma_place_bounds(s.skip(1), pid);
    }
}

/// Add what `x` answered to those that answered.
pub fn join(s: &mut Vec<Incarnation>, x: Incarnation)
    requires
        all_replies(old(s)@) + x.replies <= u64::MAX,
    ensures
        final(s)@ == joined(old(s)@, x),
{
    let n: usize = s.len();
    let mut i: usize = 0;
    while i < n
        invariant
            n == s@.len(),
            s@ == old(s)@,
            i <= n,
            all_replies(s@) + x.replies <= u64::MAX,
            forall|k: int| 0 <= k < i ==> (#[trigger] s@[k]).pid != x.pid,
        decreases n - i,
    {
        let y: Incarnation = s[i];
        if y.pid == x.pid {
            proof {
                lemma_place_of(s@, x.pid, i as int);
                lemma_replies_update(s@, i as int, y);
            }
            s.set(
                i,
                Incarnation {
                    pid: x.pid,
                    replies: y.replies + x.replies,
                    first: if x.first < y.first {
                        x.first
                    } else {
                        y.first
                    },
                },
            );
            return;
        }
        i = i + 1;
    }
    proof {
        lemma_place_of(s@, x.pid, n as int);
    }
    s.push(x);
}

/// A reply, as far as the client counts it.
#[derive(Clone, Copy, Debug, PartialEq, Eq, Structural)]
pub struct Counted {
    pub risk: bool,
    pub curve_version: u64,
    pub incarnation: u32,
    pub attempt: u32,
    /// When it came.
    pub now: u64,
}

impl TallyView {
    /// After one more reply.
    pub open spec fn replied(self, c: Counted) -> TallyView {
        TallyView {
            replies: self.replies + 1,
            risk_replies: self.risk_replies + if c.risk {
                1int
            } else {
                0
            },
            redelivered: self.redelivered + if c.attempt > 0 {
                1int
            } else {
                0
            },
            version_changes: self.version_changes + if self.last_version is Some
                && self.last_version->Some_0 != c.curve_version {
                1int
            } else {
                0
            },
            last_version: Some(c.curve_version),
            incarnations: joined_now(self.incarnations, c.incarnation, c.now),
            ..self
        }
    }

    /// What holds of every tally.
    pub open spec fn wf(self) -> bool {
        &&& self.risk_replies <= self.replies
        &&& self.redelivered <= self.replies
        &&& self.version_changes <= self.replies
        &&& all_replies(self.incarnations) == self.replies
    }
}

/// Those that answered, after one more reply of `pid`. When a process first
/// answered stays.
pub open spec fn joined_now(s: Seq<Incarnation>, pid: u32, now: u64) -> Seq<Incarnation> {
    let k = place_of(s, pid);
    if k < s.len() {
        s.update(k, Incarnation { replies: (s[k].replies + 1) as u64, ..s[k] })
    } else {
        s.push(Incarnation { pid, replies: 1, first: now })
    }
}

/// Nothing counted yet.
pub open spec fn no_tally() -> TallyView {
    TallyView {
        replies: 0,
        errors: 0,
        redelivered: 0,
        risk_replies: 0,
        version_changes: 0,
        last_version: None,
        incarnations: seq![],
    }
}

impl Tally {
    /// Nothing counted yet.
    pub fn new() -> (t: Tally)
        ensures
            t@ == no_tally(),
            t@.wf(),
    {
        let t = Tally {
            replies: 0,
            errors: 0,
            redelivered: 0,
            risk_replies: 0,
            version_changes: 0,
            last_version: None,
            incarnations: Vec::new(),
        };
        proof {
            assert(t.incarnations@ =~= seq![]);
        }
        t
    }

    /// Count a reply.
    pub fn reply(&mut self, c: Counted)
        requires
            old(self)@.wf(),
            old(self).replies < u64::MAX,
        ensures
            final(self)@ == old(self)@.replied(c),
            final(self)@.wf(),
    {
        let ghost t0 = self@;
        self.replies = self.replies + 1;
        if c.risk {
            self.risk_replies = self.risk_replies + 1;
        }
        if c.attempt > 0 {
            self.redelivered = self.redelivered + 1;
        }
        match self.last_version {
            Some(v) => {
                if v != c.curve_version {
                    self.version_changes = self.version_changes + 1;
                }
            },
            None => {},
        }
        self.last_version = Some(c.curve_version);
        let n: usize = self.incarnations.len();
        let ghost s = self.incarnations@;
        let mut i: usize = 0;
        while i < n && self.incarnations[i].pid != c.incarnation
            invariant
                n == self.incarnations@.len(),
                s == self.incarnations@,
                i <= n,
                forall|k: int| 0 <= k < i ==> (#[trigger] s[k]).pid != c.incarnation,
            decreases n - i,
        {
            i = i + 1;
        }
        proof {
            lemma_place_of(s, c.incarnation, i as int);
        }
        if i < n {
            let y: Incarnation = self.incarnations[i];
            proof {
                lemma_replies_update(
                    s,
                    i as int,
                    Incarnation { replies: (y.replies + 1) as u64, ..y },
                );
            }
            self.incarnations.set(i, Incarnation { pid: y.pid, replies: y.replies + 1, first: y.first });
        } else {
            self.incarnations.push(Incarnation { pid: c.incarnation, replies: 1, first: c.now });
            proof {
                assert(self.incarnations@.drop_last() =~= s);
            }
        }
        proof {
            assert(self@ =~= t0.replied(c));
        }
    }

    /// Count an error.
    pub fn error(&mut self)
        requires
            old(self).errors < u64::MAX,
        ensures
            final(self)@ == (TallyView { errors: old(self)@.errors + 1, ..old(self)@ }),
    {
        self.errors = self.errors + 1;
    }
}

/// The rank of the sample at `permille` thousandths among `n`: the smallest
/// rank, counted from `1`, that is at least that part of `n`.
pub open spec fn rank_at(n: int, permille: int) -> int {
    (permille * n + 999) / 1000
}

/// The sample at `permille` thousandths of the ascending `sorted`, by nearest
/// rank; `0` if there is none.
pub fn percentile(sorted: &Vec<u64>, permille: u32) -> (x: u64)
    requires
        permille <= 1000,
    ensures
        x == sample_at(sorted@, permille as int),
        0 <= rank_at(sorted@.len() as int, permille as int) <= sorted@.len(),
{
    let n: usize = sorted.len();
    if n == 0 {
        return 0;
    }
    proof {
        assert(permille as int * n as int <= 1000 * n) by (nonlinear_arith)
            requires
                permille <= 1000,
                n >= 0,
        ;
    }
    let r: u128 = (permille as u128 * n as u128 + 999) / 1000;
    let i: usize = if r == 0 {
        0
    } else {
        (r - 1) as usize
    };
    sorted[i]
}

/// Those that answered, with what each of `x` adds.
pub open spec fn joined_all(s: Seq<Incarnation>, x: Seq<Incarnation>) -> Seq<Incarnation>
    decreases x.len(),
{
    if x.len() == 0 {
        s
    } else {
        joined(joined_all(s, x.drop_last()), x.last())
    }
}

/// What two clients counted together.
pub open spec fn merged(a: TallyView, b: TallyView) -> TallyView {
    TallyView {
        replies: a.replies + b.replies,
        errors: a.errors + b.errors,
        redelivered: a.redelivered + b.redelivered,
        risk_replies: a.risk_replies + b.risk_replies,
        version_changes: a.version_changes + b.version_changes,
        last_version: b.last_version,
        incarnations: joined_all(a.incarnations, b.incarnations),
    }
}

/// What all clients counted together.
pub open spec fn total(t: Seq<Tally>) -> TallyView
    decreases t.len(),
{
    if t.len() == 0 {
        no_tally()
    } else {
        merged(total(t.drop_last()), t.last()@)
    }
}

proof fn lemma_joined_all(s: Seq<Incarnation>, x: Seq<Incarnation>)
    requires
        all_replies(s) + all_replies(x) <= u64::MAX,
    ensures
        all_replies(joined_all(s, x)) == all_replies(s) + all_replies(x),
    decreases x.len(),
{
    if x.len() > 0 {
        lemma_joined_all(s, x.drop_last());
        joining_keeps_count(joined_all(s, x.drop_last()), x.last());
    }
}

proof fn lemma_replies_prefix(x: Seq<Incarnation>, i: int)
    requires
        0 <= i <= x.len(),
    ensures
        all_replies(x.take(i)) <= all_replies(x),
    decreases x.len(),
{
    if i == x.len() {
        assert(x.take(i) =~= x);
    } else {
        lemma_replies_prefix(x.drop_last(), i);
        assert(x.drop_last().take(i) =~= x.take(i));
    }
}

proof fn lemma_total_prefix(t: Seq<Tally>, i: int)
    requires
        forall|j: int| 0 <= j < t.len() ==> (#[trigger] t[j])@.wf(),
        0 <= i <= t.len(),
    ensures
        total(t.take(i)).replies <= total(t).replies,
        total(t.take(i)).errors <= total(t).errors,
    decreases t.len(),
{
    if i == t.len() {
        assert(t.take(i) =~= t);
    } else {
        lemma_total_prefix(t.drop_last(), i);
        assert(t.drop_last().take(i) =~= t.take(i));
        assert(t.last()@.wf());
    }
}

impl Tally {
    /// Add what another client counted.
    pub fn merge(&mut self, other: &Tally)
        requires
            old(self)@.wf(),
            other@.wf(),
            old(self).replies + other.replies <= u64::MAX,
            old(self).errors + other.errors <= u64::MAX,
        ensures
            final(self)@ == merged(old(self)@, other@),
            final(self)@.wf(),
    {
        let ghost t0 = self@;
        let ghost x = other.incarnations@;
        let n: usize = other.incarnations.len();
        let mut i: usize = 0;
        while i < n
            invariant
                n == x.len(),
                x == other.incarnations@,
                i <= n,
                all_replies(t0.incarnations) + all_replies(x) <= u64::MAX,
                self@ == (TallyView {
                    incarnations: joined_all(t0.incarnations, x.take(i as int)),
                    ..t0
                }),
            decreases n - i,
        {
            proof {
                lemma_replies_prefix(x, i as int);
                lemma_replies_prefix(x, i + 1);
                lemma_joined_all(t0.incarnations, x.take(i as int));
                assert(x.take(i + 1).drop_last() =~= x.take(i as int));
                assert(x.take(i + 1).last() == x[i as int]);
            }
            join(&mut self.incarnations, other.incarnations[i]);
            i = i + 1;
        }
        proof {
            assert(x.take(n as int) =~= x);
            lemma_joined_all(t0.incarnations, x);
        }
        self.replies = self.replies + other.replies;
        self.errors = self.errors + other.errors;
        self.redelivered = self.redelivered + other.redelivered;
        self.risk_replies = self.risk_replies + other.risk_replies;
        self.version_changes = self.version_changes + other.version_changes;
        self.last_version = other.last_version;
        proof {
            assert(self@ =~= merged(t0, other@));
        }
    }
}

/// The sample at `permille` thousandths; `0` if there is none.
pub open spec fn sample_at(s: Seq<u64>, permille: int) -> u64 {
    if s.len() == 0 {
        0
    } else {
        let r = rank_at(s.len() as int, permille);
        s[if r == 0 {
            0
        } else {
            r - 1
        }]
    }
}

/// What a run of clients reports that counted `t` together, with the latencies
/// `sorted`, which ascend.
pub open spec fn run_report(
    asks: u64,
    t: TallyView,
    sorted: Seq<u64>,
    elapsed_ns: u64,
    throughput: Seq<u8>,
) -> ReportView {
    ReportView {
        asks,
        replies: t.replies as u64,
        errors: t.errors as u64,
        redelivered: t.redelivered as u64,
        risk_replies: t.risk_replies as u64,
        p50_ns: sample_at(sorted, 500),
        p99_ns: sample_at(sorted, 990),
        max_ns: if sorted.len() == 0 {
            0
        } else {
            sorted.last()
        },
        elapsed_ns,
        throughput,
        version_changes: t.version_changes as u64,
        incarnations: ordered(t.incarnations),
    }
}

/// What a run of clients reports: what they counted together, who answered by
/// when they first did, and the latencies `sorted`, which ascend.
pub fn summarize(
    asks: u64,
    tallies: &Vec<Tally>,
    sorted: &Vec<u64>,
    elapsed_ns: u64,
    throughput: Vec<u8>,
) -> (r: ClientReport)
    requires
        forall|i: int| 0 <= i < tallies@.len() ==> (#[trigger] tallies@[i])@.wf(),
        total(tallies@).replies <= u64::MAX,
        total(tallies@).errors <= u64::MAX,
    ensures
        r@ == run_report(asks, total(tallies@), sorted@, elapsed_ns, throughput@),
        // every reply is of someone who answered
        all_replies(total(tallies@).incarnations) == r.replies,
{
    let n: usize = tallies.len();
    let mut t: Tally = Tally::new();
    let mut i: usize = 0;
    proof {
        assert(tallies@.take(0) =~= seq![]);
    }
    while i < n
        invariant
            n == tallies@.len(),
            i <= n,
            forall|j: int| 0 <= j < tallies@.len() ==> (#[trigger] tallies@[j])@.wf(),
            total(tallies@).replies <= u64::MAX,
            total(tallies@).errors <= u64::MAX,
            t@ == total(tallies@.take(i as int)),
            t@.wf(),
        decreases n - i,
    {
        proof {
            lemma_total_prefix(tallies@, i + 1);
            assert(tallies@.take(i + 1).drop_last() =~= tallies@.take(i as int));
            assert(tallies@.take(i + 1).last() == tallies@[i as int]);
        }
        t.merge(&tallies[i]);
        i = i + 1;
    }
    proof {
        assert(tallies@.take(n as int) =~= tallies@);
    }
    let m: usize = sorted.len();
    ClientReport {
        asks,
        replies: t.replies,
        errors: t.errors,
        redelivered: t.redelivered,
        risk_replies: t.risk_replies,
        p50_ns: percentile(sorted, 500),
        p99_ns: percentile(sorted, 990),
        max_ns: if m == 0 {
            0
        } else {
            sorted[m - 1]
        },
        elapsed_ns,
        throughput,
        version_changes: t.version_changes,
        incarnations: order(&t.incarnations),
    }
}

// ---- the pricer ----

/// What a pricer process keeps of its own: how much it handled, and when it is
/// to die.
#[derive(Clone, Copy, Debug, PartialEq, Eq, Structural)]
pub struct Pricer {
    pub handled: u64,
    /// Die while handling this message.
    pub kill_after: Option<u64>,
    pub incarnation: u32,
}

impl Pricer {
    pub fn new(kill_after: Option<u64>, incarnation: u32) -> (p: Pricer)
        ensures
            p == (Pricer { handled: 0, kill_after, incarnation }),
    {
        Pricer { handled: 0, kill_after, incarnation }
    }

    /// How much this process handled.
    pub fn handled(&self) -> (n: u64)
        ensures
            n == self.handled,
    {
        self.handled
    }

    /// Count a message that is about to be answered; whether the process dies
    /// instead.
    pub fn count(&mut self) -> (dies: bool)
        requires
            old(self).handled < u64::MAX,
        ensures
            *final(self) == (Pricer { handled: (old(self).handled + 1) as u64, ..*old(self) }),
            dies == (old(self).kill_after == Some((old(self).handled + 1) as u64)),
    {
        self.handled = self.handled + 1;
        match self.kill_after {
            Some(k) => k == self.handled,
            None => false,
        }
    }

    /// The reply to a price request.
    pub fn answer(&self, px_bits: u64, curve_version: u64, attempt: u32) -> (r: PriceReply)
        ensures
            r == (PriceReply { px_bits, curve_version, incarnation: self.incarnation, attempt }),
    {
        PriceReply { px_bits, curve_version, incarnation: self.incarnation, attempt }
    }
}

/// A risk process.
#[derive(Clone, Copy, Debug, PartialEq, Eq, Structural)]
pub struct Risk {
    pub handled: u64,
    pub incarnation: u32,
}

impl Risk {
    pub fn new(incarnation: u32) -> (r: Risk)
        ensures
            r == (Risk { handled: 0, incarnation }),
    {
        Risk { handled: 0, incarnation }
    }

    pub fn handled(&self) -> (n: u64)
        ensures
            n == self.handled,
    {
        self.handled
    }

    /// Count a message and answer it.
    pub fn answer(&mut self, dv01_bits: u64, px_bits: u64, curve_version: u64, attempt: u32) -> (r:
        RiskReply)
        requires
            old(self).handled < u64::MAX,
        ensures
            *final(self) == (Risk { handled: (old(self).handled + 1) as u64, ..*old(self) }),
            r == (RiskReply {
                dv01_bits,
                px_bits,
                curve_version,
                incarnation: old(self).incarnation,
                attempt,
            }),
    {
        self.handled = self.handled + 1;
        RiskReply { dv01_bits, px_bits, curve_version, incarnation: self.incarnation, attempt }
    }
}

/// A process dies at most once by plan: on the one message it is to die on.
pub proof fn a_pricer_dies_once(p: Pricer, k: u64)
    requires
        p.kill_after == Some(k),
        p.handled >= k,
        p.handled < u64::MAX,
    ensures
        p.kill_after != Some((p.handled + 1) as u64),
{
}

} // verus!
