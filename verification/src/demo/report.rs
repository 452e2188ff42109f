//! What a client run reports, and the file it reports it in.
use vstd::prelude::*;
use vstd::string::StringSliceAdditionalSpecFns;

use crate::text::{
    append, decimal, digits, find, first_at, lines, parse_u32, parse_u64, parsed, part, parts,
    pieces, same, split, split_all, split_lines, texts, trim, trimmed,
};

verus! {

pub const EQUALS: u8 = 61;

pub const COLON: u8 = 58;

pub const SEMICOLON: u8 = 59;

// ---- key=value files ----

/// The key and value of a line, if it has any: what stands before and after the
/// first equals sign, without blanks around.
pub open spec fn kv_of(line: Seq<u8>) -> Option<(Seq<u8>, Seq<u8>)> {
    let i = first_at(line, EQUALS);
    if i >= line.len() {
        None
    } else {
        Some((trimmed(line.take(i)), trimmed(line.skip(i + 1))))
    }
}

/// The value of `key`: that of the last line with it.
pub open spec fn kv_value(ls: Seq<Seq<u8>>, key: Seq<u8>) -> Option<Seq<u8>>
    decreases ls.len(),
{
    if ls.len() == 0 {
        None
    } else {
        match kv_of(ls.last()) {
            Some((k, v)) => if k == key {
                Some(v)
            } else {
                kv_value(ls.drop_last(), key)
            },
            None => kv_value(ls.drop_last(), key),
        }
    }
}

/// The keys and values of a file.
pub struct Kv {
    pub keys: Vec<Vec<u8>>,
    pub values: Vec<Vec<u8>>,
}

/// The keys and values of the lines, in order.
pub open spec fn kv_list(ls: Seq<Seq<u8>>) -> Seq<(Seq<u8>, Seq<u8>)>
    decreases ls.len(),
{
    if ls.len() == 0 {
        seq![]
    } else {
        match kv_of(ls.last()) {
            Some(kv) => kv_list(ls.drop_last()).push(kv),
            None => kv_list(ls.drop_last()),
        }
    }
}

/// The value of the last `key`.
pub open spec fn last_of(l: Seq<(Seq<u8>, Seq<u8>)>, key: Seq<u8>) -> Option<Seq<u8>>
    decreases l.len(),
{
    if l.len() == 0 {
        None
    } else if l.last().0 == key {
        Some(l.last().1)
    } else {
        last_of(l.drop_last(), key)
    }
}

impl Kv {
    pub open spec fn wf(&self) -> bool {
        self.keys@.len() == self.values@.len()
    }

    /// The keys and values, in order.
    pub open spec fn list(&self) -> Seq<(Seq<u8>, Seq<u8>)> {
        Seq::new(self.keys@.len(), |i: int| (self.keys@[i]@, self.values@[i]@))
    }

    /// The value of the last `key`.
    pub fn get(&self, key: &[u8]) -> (r: Option<&Vec<u8>>)
        requires
            self.wf(),
        ensures
            match last_of(self.list(), key@) {
                Some(v) => r is Some && r->Some_0@ == v,
                None => r is None,
            },
    {
        let ghost l = self.list();
        let mut i: usize = self.keys.len();
        proof {
            assert(l.take(i as int) =~= l);
        }
        while i > 0
            invariant
                self.wf(),
                l == self.list(),
                i <= self.keys@.len(),
                last_of(l, key@) == last_of(l.take(i as int), key@),
            decreases i,
        {
            proof {
                assert(l.take(i as int).drop_last() =~= l.take(i - 1));
                assert(l.take(i as int).last() == l[i - 1]);
            }
            if same(self.keys[i - 1].as_slice(), key) {
                return Some(&self.values[i - 1]);
            }
            i = i - 1;
        }
        None
    }

    /// The number under `key`; `0` if there is none.
    pub fn num(&self, key: &[u8]) -> (x: u64)
        requires
            self.wf(),
        ensures
            x == num_of(self.list(), key@),
    {
        match self.get(key) {
            None => 0,
            Some(v) => match parse_u64(v.as_slice()) {
                Some(x) => x,
                None => 0,
            },
        }
    }
}

/// The number under `key`; `0` if there is none.
pub open spec fn num_of(l: Seq<(Seq<u8>, Seq<u8>)>, key: Seq<u8>) -> u64 {
    match last_of(l, key) {
        None => 0,
        Some(v) => match parsed(v, u64::MAX as nat) {
            Some(x) => x as u64,
            None => 0,
        },
    }
}

/// Read a file of `key=value` lines; other lines are skipped.
pub fn read_kv(text: &[u8]) -> (kv: Kv)
    ensures
        kv.wf(),
        kv.list() == kv_list(lines(text@)),
{
    let ls: Vec<Vec<u8>> = split_lines(text);
    let ghost lv = texts(ls@);
    let mut kv = Kv { keys: Vec::new(), values: Vec::new() };
    let n: usize = ls.len();
    let mut i: usize = 0;
    proof {
        assert(kv.list() =~= seq![]);
        assert(lv.take(0) =~= seq![]);
    }
    while i < n
        invariant
            n == ls@.len(),
            lv == texts(ls@),
            i <= n,
            kv.wf(),
            kv.list() == kv_list(lv.take(i as int)),
        decreases n - i,
    {
        let ghost l0 = kv.list();
        let line: &Vec<u8> = &ls[i];
        proof {
            assert(lv.take(i + 1).drop_last() =~= lv.take(i as int));
            assert(lv.take(i + 1).last() == line@);
            assert(line@.skip(0) =~= line@);
        }
        let at: usize = find(line.as_slice(), 0, EQUALS);
        if at < line.len() {
            let before: Vec<u8> = part(line.as_slice(), 0, at);
            let after: Vec<u8> = part(line.as_slice(), at + 1, line.len());
            proof {
                assert(before@ =~= line@.take(at as int));
                assert(after@ =~= line@.skip(at + 1));
            }
            kv.keys.push(trim(before.as_slice()));
            kv.values.push(trim(after.as_slice()));
            proof {
                assert(kv.list() =~= l0.push(kv_of(line@)->Some_0));
            }
        }
        i = i + 1;
    }
    proof {
        assert(lv.take(n as int) =~= lv);
    }
    kv
}

// ---- the report ----

/// One process that answered: its id, how often, and when first.
#[derive(Clone, Copy, Debug, PartialEq, Eq, Structural)]
pub struct Incarnation {
    pub pid: u32,
    pub replies: u64,
    pub first: u64,
}

/// What a client run reports. The throughput is kept as the text of a decimal
/// number.
#[derive(Debug)]
pub struct ClientReport {
    pub asks: u64,
    pub replies: u64,
    pub errors: u64,
    /// Replies that were delivered before.
    pub redelivered: u64,
    pub risk_replies: u64,
    pub p50_ns: u64,
    pub p99_ns: u64,
    pub max_ns: u64,
    pub elapsed_ns: u64,
    pub throughput: Vec<u8>,
    /// How often the curve's version changed from one reply to the next.
    pub version_changes: u64,
    /// Who answered, by when they first did.
    pub incarnations: Vec<Incarnation>,
}

/// What a report says.
#[verifier::ext_equal]
pub struct ReportView {
    pub asks: u64,
    pub replies: u64,
    pub errors: u64,
    pub redelivered: u64,
    pub risk_replies: u64,
    pub p50_ns: u64,
    pub p99_ns: u64,
    pub max_ns: u64,
    pub elapsed_ns: u64,
    pub throughput: Seq<u8>,
    pub version_changes: u64,
    pub incarnations: Seq<Incarnation>,
}

impl View for ClientReport {
    type V = ReportView;

    open spec fn view(&self) -> ReportView {
        ReportView {
            asks: self.asks,
            replies: self.replies,
            errors: self.errors,
            redelivered: self.redelivered,
            risk_replies: self.risk_replies,
            p50_ns: self.p50_ns,
            p99_ns: self.p99_ns,
            max_ns: self.max_ns,
            elapsed_ns: self.elapsed_ns,
            throughput: self.throughput@,
            version_changes: self.version_changes,
            incarnations: self.incarnations@,
        }
    }
}

/// One line of the file.
pub open spec fn kv_line(key: Seq<u8>, value: Seq<u8>) -> Seq<u8> {
    key + seq![EQUALS] + value + seq![10u8]
}

/// One process that answered, as text.
pub open spec fn inc_item(i: Incarnation) -> Seq<u8> {
    digits(i.pid as nat) + seq![COLON] + digits(i.replies as nat) + seq![COLON] + digits(
        i.first as nat,
    )
}

/// The processes that answered, as text.
pub open spec fn inc_text(s: Seq<Incarnation>) -> Seq<u8>
    decreases s.len(),
{
    if s.len() == 0 {
        seq![]
    } else if s.len() == 1 {
        inc_item(s[0])
    } else {
        inc_item(s[0]) + seq![SEMICOLON] + inc_text(s.skip(1))
    }
}

/// The keys and values of a report, in the order of the file.
pub open spec fn report_pairs(r: ReportView) -> Seq<(Seq<u8>, Seq<u8>)> {
    seq![
        ("asks".spec_bytes(), digits(r.asks as nat)),
        ("replies".spec_bytes(), digits(r.replies as nat)),
        ("errors".spec_bytes(), digits(r.errors as nat)),
        ("redelivered".spec_bytes(), digits(r.redelivered as nat)),
        ("risk_replies".spec_bytes(), digits(r.risk_replies as nat)),
        ("p50_ns".spec_bytes(), digits(r.p50_ns as nat)),
        ("p99_ns".spec_bytes(), digits(r.p99_ns as nat)),
        ("max_ns".spec_bytes(), digits(r.max_ns as nat)),
        ("elapsed_ns".spec_bytes(), digits(r.elapsed_ns as nat)),
        ("throughput".spec_bytes(), r.throughput),
        ("version_changes".spec_bytes(), digits(r.version_changes as nat)),
        ("incarnations".spec_bytes(), inc_text(r.incarnations)),
    ]
}

/// The file that holds these keys and values.
pub open spec fn kv_text(p: Seq<(Seq<u8>, Seq<u8>)>) -> Seq<u8>
    decreases p.len(),
{
    if p.len() == 0 {
        seq![]
    } else {
        kv_line(p[0].0, p[0].1) + kv_text(p.skip(1))
    }
}

/// Append one line of the file.
fn push_line(out: &mut Vec<u8>, key: &[u8], value: &[u8])
    ensures
        final(out)@ == old(out)@ + kv_line(key@, value@),
{
    append(out, key);
    out.push(EQUALS);
    append(out, value);
    out.push(10);
    proof {
        assert(out@ =~= old(out)@ + kv_line(key@, value@));
    }
}

fn push_number(out: &mut Vec<u8>, key: &[u8], x: u64)
    ensures
        final(out)@ == old(out)@ + kv_line(key@, digits(x as nat)),
{
    let d: Vec<u8> = decimal(x);
    push_line(out, key, d.as_slice());
}

fn inc_bytes(s: &Vec<Incarnation>) -> (r: Vec<u8>)
    ensures
        r@ == inc_text(s@),
{
    let n: usize = s.len();
    let mut r: Vec<u8> = Vec::new();
    let mut i: usize = 0;
    proof {
        assert(s@.skip(0) =~= s@);
        assert(r@ + inc_text(s@) =~= inc_text(s@));
    }
    while i < n
        invariant
            n == s@.len(),
            i <= n,
            r@ + inc_text(s@.skip(i as int)) == inc_text(s@),
        decreases n - i,
    {
        let ghost r0 = r@;
        let x: Incarnation = s[i];
        let a: Vec<u8> = decimal(x.pid as u64);
        let b: Vec<u8> = decimal(x.replies);
        let c: Vec<u8> = decimal(x.first);
        append(&mut r, a.as_slice());
        r.push(COLON);
        append(&mut r, b.as_slice());
        r.push(COLON);
        append(&mut r, c.as_slice());
        proof {
            assert(s@.skip(i as int)[0] == x);
            assert(r@ =~= r0 + inc_item(x));
        }
        if i + 1 < n {
            r.push(SEMICOLON);
            proof {
                assert(s@.skip(i as int).skip(1) =~= s@.skip(i + 1));
                assert(r@ + inc_text(s@.skip(i + 1)) =~= r0 + (inc_item(x) + seq![SEMICOLON] + inc_text(
                    s@.skip(i + 1),
                )));
            }
        } else {
            proof {
                assert(s@.skip(n as int) =~= seq![]);
                assert(r@ + inc_text(s@.skip(n as int)) =~= r0 + inc_item(x));
            }
        }
        i = i + 1;
    }
    proof {
        assert(s@.skip(n as int) =~= seq![]);
        assert(r@ + inc_text(s@.skip(n as int)) =~= r@);
    }
    r
}

// ---- ordering ----

/// Whether `s` ascends by first reply.
pub open spec fn by_first(s: Seq<Incarnation>) -> bool {
    forall|i: int, j: int| 0 <= i < j < s.len() ==> s[i].first <= s[j].first
}

/// Where `x` belongs among `s`: behind all that are not later.
pub open spec fn rank(s: Seq<Incarnation>, x: Incarnation) -> int
    decreases s.len(),
{
    if s.len() == 0 || s.last().first <= x.first {
        s.len() as int
    } else {
        rank(s.drop_last(), x)
    }
}

/// `s` ordered by first reply; those of the same time stay in their order.
pub open spec fn ordered(s: Seq<Incarnation>) -> Seq<Incarnation>
    decreases s.len(),
{
    if s.len() == 0 {
        seq![]
    } else {
        let t = ordered(s.drop_last());
        t.insert(rank(t, s.last()), s.last())
    }
}

/// Where an item belongs.
pub proof fn lemma_rank(s: Seq<Incarnation>, x: Incarnation)
    requires
        by_first(s),
    ensures
        0 <= rank(s, x) <= s.len(),
        forall|i: int| 0 <= i < rank(s, x) ==> (#[trigger] s[i]).first <= x.first,
        forall|i: int| rank(s, x) <= i < s.len() ==> (#[trigger] s[i]).first > x.first,
        by_first(s.insert(rank(s, x), x)),
    decreases s.len(),
{
    if s.len() > 0 && s.last().first > x.first {
        let d = s.drop_last();
        assert(by_first(d));
        lemma_rank(d, x);
        assert forall|i: int| 0 <= i < rank(s, x) implies (#[trigger] s[i]).first <= x.first by {
            assert(d[i] == s[i]);
        }
        assert forall|i: int| rank(s, x) <= i < s.len() implies (#[trigger] s[i]).first > x.first by {
            if i < d.len() {
                assert(d[i] == s[i]);
            }
        }
    } else if s.len() > 0 {
        assert forall|i: int| 0 <= i < rank(s, x) implies (#[trigger] s[i]).first <= x.first by {
            if i < s.len() - 1 {
                assert(s[i].first <= s[s.len() - 1].first);
            }
        }
    }
    let k = rank(s, x);
    let t = s.insert(k, x);
    assert forall|i: int, j: int| 0 <= i < j < t.len() implies t[i].first <= t[j].first by {
        let i0 = if i < k { i } else { i - 1 };
        let j0 = if j < k { j } else { j - 1 };
        if i != k && j != k {
            assert(t[i] == s[i0] && t[j] == s[j0]);
            assert(s[i0].first <= s[j0].first);
        } else if i == k {
            assert(t[j] == s[j0]);
        } else {
            assert(t[i] == s[i0]);
        }
    }
}

/// Ordering loses and adds nothing, and the result ascends.
pub proof fn ordering_is_a_permutation(s: Seq<Incarnation>)
    ensures
        by_first(ordered(s)),
        ordered(s).len() == s.len(),
        ordered(s).to_multiset() == s.to_multiset(),
    decreases s.len(),
{
    broadcast use vstd::seq_lib::group_to_multiset_ensures;

    if s.len() > 0 {
        ordering_is_a_permutation(s.drop_last());
        let t = ordered(s.drop_last());
        lemma_rank(t, s.last());
        assert(s =~= s.drop_last().push(s.last()));
        vstd::seq_lib::to_multiset_insert(t, rank(t, s.last()), s.last());
    }
}

/// What is in order already stays as it is.
pub proof fn ordered_stays(s: Seq<Incarnation>)
    requires
        by_first(s),
    ensures
        ordered(s) == s,
    decreases s.len(),
{
    if s.len() > 0 {
        let d = s.drop_last();
        assert(by_first(d));
        ordered_stays(d);
        if d.len() > 0 {
            assert(s[d.len() - 1].first <= s[s.len() - 1].first);
        }
        assert(d.insert(d.len() as int, s.last()) =~= s);
    }
}

/// Order by first reply.
pub fn order(s: &Vec<Incarnation>) -> (r: Vec<Incarnation>)
    ensures
        r@ == ordered(s@),
{
    let n: usize = s.len();
    let mut r: Vec<Incarnation> = Vec::new();
    let mut i: usize = 0;
    proof {
        assert(s@.take(0) =~= seq![]);
    }
    while i < n
        invariant
            n == s@.len(),
            i <= n,
            r@ == ordered(s@.take(i as int)),
        decreases n - i,
    {
        let x: Incarnation = s[i];
        let mut k: usize = r.len();
        proof {
            assert(s@.take(i + 1).drop_last() =~= s@.take(i as int));
            ordering_is_a_permutation(s@.take(i as int));
            assert(r@.take(k as int) =~= r@);
        }
        while k > 0 && r[k - 1].first > x.first
            invariant
                k <= r@.len(),
                rank(r@, x) == rank(r@.take(k as int), x),
            decreases k,
        {
            proof {
                assert(r@.take(k as int).drop_last() =~= r@.take(k - 1));
                assert(r@.take(k as int).last() == r@[k - 1]);
            }
            k = k - 1;
        }
        proof {
            if k > 0 {
                assert(r@.take(k as int).last() == r@[k - 1]);
            }
        }
        r.insert(k, x);
        i = i + 1;
    }
    proof {
        assert(s@.take(n as int) =~= s@);
    }
    r
}

// ---- reading it back ----

/// The process an item names, if it is well formed.
pub open spec fn inc_of(b: Seq<u8>) -> Option<Incarnation> {
    let f = parts(b, COLON);
    if f.len() != 3 {
        None
    } else {
        match (
            parsed(f[0], u32::MAX as nat),
            parsed(f[1], u64::MAX as nat),
            parsed(f[2], u64::MAX as nat),
        ) {
            (Some(a), Some(b), Some(c)) => Some(
                Incarnation { pid: a as u32, replies: b as u64, first: c as u64 },
            ),
            _ => None,
        }
    }
}

/// The processes the items name; what is not well formed is skipped.
pub open spec fn incs_of(p: Seq<Seq<u8>>) -> Seq<Incarnation>
    decreases p.len(),
{
    if p.len() == 0 {
        seq![]
    } else {
        match inc_of(p.last()) {
            Some(i) => incs_of(p.drop_last()).push(i),
            None => incs_of(p.drop_last()),
        }
    }
}

fn parse_inc(b: &[u8]) -> (r: Option<Incarnation>)
    ensures
        r == inc_of(b@),
{
    let f: Vec<Vec<u8>> = split_all(b, COLON);
    let ghost fv = texts(f@);
    if f.len() != 3 {
        return None;
    }
    assert(fv[0] == f@[0]@ && fv[1] == f@[1]@ && fv[2] == f@[2]@);
    let a: Option<u32> = parse_u32(f[0].as_slice());
    let b: Option<u64> = parse_u64(f[1].as_slice());
    let c: Option<u64> = parse_u64(f[2].as_slice());
    match (a, b, c) {
        (Some(pid), Some(replies), Some(first)) => Some(Incarnation { pid, replies, first }),
        _ => None,
    }
}

fn parse_incs(b: &[u8]) -> (r: Vec<Incarnation>)
    ensures
        r@ == incs_of(pieces(b@, SEMICOLON)),
{
    let p: Vec<Vec<u8>> = split(b, SEMICOLON);
    let ghost pv = texts(p@);
    let n: usize = p.len();
    let mut r: Vec<Incarnation> = Vec::new();
    let mut i: usize = 0;
    proof {
        assert(pv.take(0) =~= seq![]);
    }
    while i < n
        invariant
            n == p@.len(),
            pv == texts(p@),
            i <= n,
            r@ == incs_of(pv.take(i as int)),
        decreases n - i,
    {
        proof {
            assert(pv.take(i + 1).drop_last() =~= pv.take(i as int));
            assert(pv.take(i + 1).last() == p@[i as int]@);
        }
        if let Some(x) = parse_inc(p[i].as_slice()) {
            r.push(x);
        }
        i = i + 1;
    }
    proof {
        assert(pv.take(n as int) =~= pv);
    }
    r
}

/// Of `asks`, those that got neither a reply nor an error.
pub open spec fn lost_of(asks: int, replies: int, errors: int) -> int {
    if asks >= replies + errors {
        asks - replies - errors
    } else {
        0
    }
}

/// The report that the keys and values of a file make.
pub open spec fn report_of(l: Seq<(Seq<u8>, Seq<u8>)>) -> ReportView {
    ReportView {
        asks: num_of(l, "asks".spec_bytes()),
        replies: num_of(l, "replies".spec_bytes()),
        errors: num_of(l, "errors".spec_bytes()),
        redelivered: num_of(l, "redelivered".spec_bytes()),
        risk_replies: num_of(l, "risk_replies".spec_bytes()),
        p50_ns: num_of(l, "p50_ns".spec_bytes()),
        p99_ns: num_of(l, "p99_ns".spec_bytes()),
        max_ns: num_of(l, "max_ns".spec_bytes()),
        elapsed_ns: num_of(l, "elapsed_ns".spec_bytes()),
        throughput: match last_of(l, "throughput".spec_bytes()) {
            Some(v) => v,
            None => seq![],
        },
        version_changes: num_of(l, "version_changes".spec_bytes()),
        incarnations: match last_of(l, "incarnations".spec_bytes()) {
            Some(v) => ordered(incs_of(pieces(v, SEMICOLON))),
            None => seq![],
        },
    }
}

impl ClientReport {
    /// Read a report file.
    pub fn from_text(text: &[u8]) -> (r: ClientReport)
        ensures
            r@ == report_of(kv_list(lines(text@))),
    {
        let kv: Kv = read_kv(text);
        let incarnations: Vec<Incarnation> = match kv.get("incarnations".as_bytes()) {
            None => Vec::new(),
            Some(v) => order(&parse_incs(v.as_slice())),
        };
        let mut throughput: Vec<u8> = Vec::new();
        if let Some(v) = kv.get("throughput".as_bytes()) {
            append(&mut throughput, v.as_slice());
        }
        proof {
            let l = kv.list();
            if last_of(l, "incarnations".spec_bytes()) is None {
                assert(incarnations@ =~= seq![]);
            }
            match last_of(l, "throughput".spec_bytes()) {
                Some(v) => {
                    assert(throughput@ =~= v);
                },
                None => {
                    assert(throughput@ =~= seq![]);
                },
            }
        }
        ClientReport {
            asks: kv.num("asks".as_bytes()),
            replies: kv.num("replies".as_bytes()),
            errors: kv.num("errors".as_bytes()),
            redelivered: kv.num("redelivered".as_bytes()),
            risk_replies: kv.num("risk_replies".as_bytes()),
            p50_ns: kv.num("p50_ns".as_bytes()),
            p99_ns: kv.num("p99_ns".as_bytes()),
            max_ns: kv.num("max_ns".as_bytes()),
            elapsed_ns: kv.num("elapsed_ns".as_bytes()),
            throughput,
            version_changes: kv.num("version_changes".as_bytes()),
            incarnations,
        }
    }

    /// Asks that got neither a reply nor an error.
    pub fn lost(&self) -> (n: u64)
        requires
            self.replies + self.errors <= u64::MAX,
        ensures
            n == lost_of(self.asks as int, self.replies as int, self.errors as int),
    {
        let got: u64 = self.replies + self.errors;
        if self.asks >= got {
            self.asks - got
        } else {
            0
        }
    }

    /// The report as a file.
    pub fn to_kv(&self) -> (b: Vec<u8>)
        ensures
            b@ == kv_text(report_pairs(self@)),
    {
        let mut out: Vec<u8> = Vec::new();
        let inc: Vec<u8> = inc_bytes(&self.incarnations);
        let ghost p = report_pairs(self@);
        proof {
            assert(p.skip(0) =~= p);
            assert(out@ + kv_text(p) =~= kv_text(p));
        }
        push_number(&mut out, "asks".as_bytes(), self.asks);
        proof {
            lemma_next_line(p, 0, out@);
        }
        push_number(&mut out, "replies".as_bytes(), self.replies);
        proof {
            lemma_next_line(p, 1, out@);
        }
        push_number(&mut out, "errors".as_bytes(), self.errors);
        proof {
            lemma_next_line(p, 2, out@);
        }
        push_number(&mut out, "redelivered".as_bytes(), self.redelivered);
        proof {
            lemma_next_line(p, 3, out@);
        }
        push_number(&mut out, "risk_replies".as_bytes(), self.risk_replies);
        proof {
            lemma_next_line(p, 4, out@);
        }
        push_number(&mut out, "p50_ns".as_bytes(), self.p50_ns);
        proof {
            lemma_next_line(p, 5, out@);
        }
        push_number(&mut out, "p99_ns".as_bytes(), self.p99_ns);
        proof {
            lemma_next_line(p, 6, out@);
        }
        push_number(&mut out, "max_ns".as_bytes(), self.max_ns);
        proof {
            lemma_next_line(p, 7, out@);
        }
        push_number(&mut out, "elapsed_ns".as_bytes(), self.elapsed_ns);
        proof {
            lemma_next_line(p, 8, out@);
        }
        push_line(&mut out, "throughput".as_bytes(), self.throughput.as_slice());
        proof {
            lemma_next_line(p, 9, out@);
        }
        push_number(&mut out, "version_changes".as_bytes(), self.version_changes);
        proof {
            lemma_next_line(p, 10, out@);
        }
        push_line(&mut out, "incarnations".as_bytes(), inc.as_slice());
        proof {
            lemma_next_line(p, 11, out@);
            lemma_all_lines(p, out@);
        }
        out
    }
}

/// The first `n` lines of the file.
pub open spec fn front_text(p: Seq<(Seq<u8>, Seq<u8>)>, n: int) -> Seq<u8>
    decreases n,
{
    if n <= 0 {
        seq![]
    } else {
        front_text(p, n - 1) + kv_line(p[n - 1].0, p[n - 1].1)
    }
}

proof fn lemma_next_line(p: Seq<(Seq<u8>, Seq<u8>)>, n: int, out: Seq<u8>)
    requires
        0 <= n < p.len(),
        n == 0 ==> out == Seq::<u8>::empty() + kv_line(p[0].0, p[0].1),
        n > 0 ==> out == front_text(p, n) + kv_line(p[n].0, p[n].1),
    ensures
        out == front_text(p, n + 1),
{
    if n == 0 {
        assert(front_text(p, 0) =~= Seq::<u8>::empty());
    }
}

proof fn lemma_all_lines(p: Seq<(Seq<u8>, Seq<u8>)>, out: Seq<u8>)
    requires
        out == front_text(p, p.len() as int),
    ensures
        out == kv_text(p),
{
    lemma_front_back(p, p.len() as int);
    assert(p.skip(p.len() as int) =~= seq![]);
    assert(front_text(p, p.len() as int) + kv_text(p.skip(p.len() as int)) =~= out);
}

proof fn lemma_front_back(p: Seq<(Seq<u8>, Seq<u8>)>, n: int)
    requires
        0 <= n <= p.len(),
    ensures
        front_text(p, n) + kv_text(p.skip(n)) == kv_text(p),
    decreases n,
{
    if n == 0 {
        assert(p.skip(0) =~= p);
        assert(front_text(p, 0) + kv_text(p) =~= kv_text(p));
    } else {
        lemma_front_back(p, n - 1);
        assert(p.skip(n - 1).skip(1) =~= p.skip(n));
        assert(p.skip(n - 1)[0] == p[n - 1]);
        assert(front_text(p, n) + kv_text(p.skip(n)) =~= front_text(p, n - 1) + kv_text(p.skip(n - 1)));
    }
}

} // verus!
