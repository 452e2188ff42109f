//! What a command line asks for, what a bench runs, and what logs and files say.
use vstd::prelude::*;
use vstd::string::StringSliceAdditionalSpecFns;

use crate::artifact::manifest::record_len;
use crate::bench::{every_suite, pow2, root_bytes, Suite};
use crate::demo::crash::{code_text, log_line, ClientOpts};
use crate::demo::messages::{le32, le64};
use crate::demo::opts::{flagged, is_flag, last_value, valued, Opts};
use crate::demo::plan::{all_runs, number, number_or, Run};
use crate::demo::report::{
    inc_of, incs_of, kv_list, kv_of, last_of, lemma_rank, num_of, ordered,
    ordering_is_a_permutation, rank, Incarnation,
};
use crate::message::laws::counts_to;
use crate::text::{
    digits, first_at, lemma_first_at, lemma_part, number_round_trip, parsed, parts, starts, trimmed,
};
use crate::text_laws::{free_of, strung};

verus! {

// ---- options ----

/// An option's value is what stands behind it, and what stands behind an option is no
/// option itself; flags stand alone; anything else is passed over.
pub proof fn how_a_command_line_is_read(a: Seq<u8>, b: Seq<u8>, rest: Seq<Seq<u8>>)
    ensures
        is_flag(a) ==> valued(seq![a] + rest) == valued(rest) && flagged(seq![a] + rest) == seq![a]
            + flagged(rest),
        !is_flag(a) && !starts(a, "--".spec_bytes()) ==> valued(seq![a] + rest) == valued(rest)
            && flagged(seq![a] + rest) == flagged(rest),
        !is_flag(a) && starts(a, "--".spec_bytes()) ==> {
            &&& valued(seq![a, b] + rest) == seq![(a, b)] + valued(rest)
            &&& flagged(seq![a, b] + rest) == flagged(rest)
            &&& valued(seq![a]).len() == 0 && flagged(seq![a]).len() == 0
        },
        valued(Seq::empty()).len() == 0 && flagged(Seq::empty()).len() == 0,
{
    let (x, y) = (seq![a] + rest, seq![a, b] + rest);
    assert(x.skip(1) =~= rest);
    assert(y.skip(2) =~= rest);
}

/// The value of an option is that of its last mention.
pub proof fn the_last_mention_counts(v: Seq<(Seq<u8>, Seq<u8>)>, key: Seq<u8>)
    ensures
        match last_value(v, key) {
            Some(x) => exists|k: int|
                0 <= k < v.len() && #[trigger] v[k] == ("--".spec_bytes() + key, x) && forall|i: int|
                    k < i < v.len() ==> (#[trigger] v[i]).0 != "--".spec_bytes() + key,
            None => forall|i: int| 0 <= i < v.len() ==> (#[trigger] v[i]).0 != "--".spec_bytes() + key,
        },
    decreases v.len(),
{
    let name = "--".spec_bytes() + key;
    if v.len() > 0 {
        let d = v.drop_last();
        if v.last().0 == name {
            assert(v[v.len() - 1] == (name, v.last().1));
        } else {
            the_last_mention_counts(d, key);
            match last_value(d, key) {
                Some(x) => {
                    let k = choose|k: int|
                        0 <= k < d.len() && #[trigger] d[k] == (name, x) && forall|i: int|
                            k < i < d.len() ==> (#[trigger] d[i]).0 != name;
                    assert(v[k] == (name, x));
                    assert forall|i: int| k < i < v.len() implies (#[trigger] v[i]).0 != name by {
                        if i < d.len() {
                            assert(d[i] == v[i]);
                        }
                    }
                },
                None => {
                    assert forall|i: int| 0 <= i < v.len() implies (#[trigger] v[i]).0 != name by {
                        if i < d.len() {
                            assert(d[i] == v[i]);
                        }
                    }
                },
            }
        }
    }
}

/// A number is what was given, if it is a number and not too large, and else what it is
/// without.
pub proof fn a_number_or_else(o: Opts, key: Seq<u8>, max: nat, otherwise: nat, v: Seq<u8>, n: nat)
    ensures
        last_value(crate::demo::opts::pairs(o.values@), key) == Some(v) && parsed(v, max) == Some(n) ==> number_or(
            o,
            key,
            max,
            otherwise,
        ) == n,
        last_value(crate::demo::opts::pairs(o.values@), key) == Some(v) && parsed(v, max) is None
            ==> number_or(o, key, max, otherwise) == otherwise,
        last_value(crate::demo::opts::pairs(o.values@), key) is None ==> number_or(o, key, max, otherwise)
            == otherwise,
        number(o, key, max) == Some(n) ==> n <= max,
{
}

// ---- runs ----

/// What a bench runs, by how the runs differ. All ask as often. The first is one client
/// at one pricer, which waits; the second is the first, but it spins. The third is four
/// clients at one pricer; the fourth is the third at four pricers, and the fifth the
/// third with both actors asked. The last two are the first two without envelopes.
pub proof fn how_runs_differ(n: u64, i: int)
    ensures
        ({
            let r = all_runs(n);
            &&& r.len() == 7
            &&& 0 <= i < 7 ==> r[i].client.n == n
            &&& r[0] == (Run {
                pricers: 1,
                client: ClientOpts { n, clients: 1, spin: false, bare: false, mix: false },
            })
            &&& r[1] == (Run { client: ClientOpts { spin: true, ..r[0].client }, ..r[0] })
            &&& r[2] == (Run { client: ClientOpts { clients: 4, ..r[0].client }, ..r[0] })
            &&& r[3] == (Run { pricers: 4, ..r[2] })
            &&& r[4] == (Run { client: ClientOpts { mix: true, ..r[2].client }, ..r[2] })
            &&& r[5] == (Run { client: ClientOpts { bare: true, ..r[0].client }, ..r[0] })
            &&& r[6] == (Run { client: ClientOpts { bare: true, ..r[1].client }, ..r[1] })
        }),
{
}

// ---- logs ----

proof fn lemma_strung_push(s: Seq<Seq<u8>>, x: Seq<u8>, sep: u8)
    requires
        s.len() > 0,
    ensures
        strung(s.push(x), sep) == strung(s, sep) + seq![sep] + x,
    decreases s.len(),
{
    let t = s.push(x);
    if s.len() == 1 {
        assert(t.skip(1) =~= seq![x]);
        assert(strung(seq![x], sep) == x);
        assert(strung(t, sep) =~= s[0] + seq![sep] + x);
    } else {
        assert(t.skip(1) =~= s.skip(1).push(x));
        lemma_strung_push(s.skip(1), x, sep);
        assert(strung(t, sep) =~= strung(s, sep) + seq![sep] + x);
    }
}

proof fn lemma_parts_of(s: Seq<Seq<u8>>, sep: u8)
    requires
        s.len() > 0,
        forall|i: int| 0 <= i < s.len() ==> free_of(#[trigger] s[i], sep),
    ensures
        parts(strung(s, sep), sep) == s,
    decreases s.len(),
{
    assert(free_of(s[0], sep));
    let r = s.skip(1);
    if s.len() > 1 {
        assert forall|i: int| 0 <= i < r.len() implies free_of(#[trigger] r[i], sep) by {
            assert(r[i] == s[i + 1]);
        }
        lemma_parts_of(r, sep);
        lemma_part(s[0], strung(r, sep), sep);
        assert(seq![s[0]] + r =~= s);
    } else {
        lemma_part(s[0], seq![], sep);
        assert(s =~= seq![s[0]]);
    }
}

/// A line of a log is read back: split at its blanks it is the word, and behind it each
/// of the numbers.
pub proof fn a_line_of_a_log_is_read_back(word: Seq<u8>, x: Seq<Seq<u8>>)
    requires
        free_of(word, 32),
        forall|i: int| 0 <= i < x.len() ==> free_of(#[trigger] x[i], 32),
    ensures
        parts(log_line(word, x), 32) == seq![word] + x,
        starts(log_line(word, x), word),
{
    lemma_log_line(word, x);
    let s = seq![word] + x;
    assert forall|i: int| 0 <= i < s.len() implies free_of(#[trigger] s[i], 32) by {
        if i > 0 {
            assert(s[i] == x[i - 1]);
        }
    }
    lemma_parts_of(s, 32);
}

proof fn lemma_log_line(word: Seq<u8>, x: Seq<Seq<u8>>)
    ensures
        log_line(word, x) == strung(seq![word] + x, 32),
        starts(log_line(word, x), word),
    decreases x.len(),
{
    let s = seq![word] + x;
    if x.len() > 0 {
        let d = x.drop_last();
        lemma_log_line(word, d);
        lemma_strung_push(seq![word] + d, x.last(), 32);
        assert((seq![word] + d).push(x.last()) =~= s);
        let (l, m) = (log_line(word, x), log_line(word, d));
        assert(l.take(word.len() as int) =~= m.take(word.len() as int));
    } else {
        assert(s =~= seq![word]);
        assert(word.take(word.len() as int) =~= word);
    }
}

/// An exit code is read back: behind a minus sign if it is below zero.
pub proof fn an_exit_code_is_read_back(c: i32)
    ensures
        c >= 0 ==> parsed(code_text(c), i32::MAX as nat) == Some(c as nat),
        c < 0 ==> code_text(c)[0] == 45 && parsed(code_text(c).skip(1), 0x8000_0000) == Some((-c) as nat),
{
    if c >= 0 {
        number_round_trip(c as nat, i32::MAX as nat);
    } else {
        number_round_trip((-c) as nat, 0x8000_0000);
        assert(code_text(c).skip(1) =~= digits((-c) as nat));
    }
}

// ---- files ----

/// What a line of a file says: the key before its first equals sign and the value behind
/// it, both without blanks around; nothing if it has none.
pub proof fn what_a_line_says(line: Seq<u8>, i: int)
    ensures
        (forall|k: int| 0 <= k < line.len() ==> #[trigger] line[k] != 61) <==> kv_of(line) is None,
        0 <= i < line.len() && line[i] == 61 && (forall|k: int| 0 <= k < i ==> #[trigger] line[k] != 61)
            ==> kv_of(line) == Some((trimmed(line.subrange(0, i)), trimmed(line.subrange(i + 1, line.len() as int)))),
{
    lemma_first_at(line, 61);
    let f = first_at(line, 61);
    if 0 <= i < line.len() && line[i] == 61 && (forall|k: int| 0 <= k < i ==> #[trigger] line[k] != 61) {
        assert(f == i) by {
            if f < i {
                assert(line[f] != 61);
            }
        }
        assert(line.take(i) =~= line.subrange(0, i));
        assert(line.skip(i + 1) =~= line.subrange(i + 1, line.len() as int));
    }
    if f < line.len() {
        assert(line[f] == 61);
    }
}

/// A file says what its lines say, one after the other.
pub proof fn a_file_says_what_its_lines_say(a: Seq<Seq<u8>>, b: Seq<Seq<u8>>)
    ensures
        kv_list(a + b) == kv_list(a) + kv_list(b),
        a.len() == 1 ==> kv_list(a) == match kv_of(a[0]) {
            Some(kv) => seq![kv],
            None => seq![],
        },
    decreases b.len(),
{
    if b.len() == 0 {
        assert(a + b =~= a);
        assert(kv_list(a) + kv_list(b) =~= kv_list(a));
    } else {
        assert((a + b).drop_last() =~= a + b.drop_last());
        a_file_says_what_its_lines_say(a, b.drop_last());
        assert(kv_list(a + b) =~= kv_list(a) + kv_list(b));
    }
    if a.len() == 1 {
        assert(a.drop_last() =~= Seq::<Seq<u8>>::empty());
        assert(kv_list(a.drop_last()) =~= seq![]);
    }
}

/// Of two lines with a key the later one counts, and others do not.
pub proof fn the_later_line_counts(l: Seq<(Seq<u8>, Seq<u8>)>, kv: (Seq<u8>, Seq<u8>), key: Seq<u8>)
    ensures
        kv.0 == key ==> last_of(l.push(kv), key) == Some(kv.1),
        kv.0 != key ==> last_of(l.push(kv), key) == last_of(l, key),
        last_of(Seq::empty(), key) is None,
        num_of(l, key) > 0 ==> last_of(l, key) is Some && parsed(last_of(l, key)->Some_0, u64::MAX as nat)
            == Some(num_of(l, key) as nat),
        last_of(l, key) is Some && parsed(last_of(l, key)->Some_0, u64::MAX as nat) is Some ==> parsed(
            last_of(l, key)->Some_0,
            u64::MAX as nat,
        ) == Some(num_of(l, key) as nat),
{
    assert(l.push(kv).drop_last() =~= l);
    if let Some(v) = last_of(l, key) {
        if let Some(x) = parsed(v, u64::MAX as nat) {
            assert(x <= u64::MAX);
        }
    }
}

/// Who answered is read item by item. An item of three numbers names a process, how many
/// replies it gave, and when it first did; one of three parts that are not all numbers is
/// passed over.
pub proof fn who_answered_is_read(a: Seq<Seq<u8>>, b: Seq<Seq<u8>>, x: Seq<u8>, y: Seq<u8>, z: Seq<u8>)
    ensures
        incs_of(a + b) == incs_of(a) + incs_of(b),
        a.len() == 1 ==> incs_of(a) == match inc_of(a[0]) {
            Some(i) => seq![i],
            None => seq![],
        },
        free_of(x, 58) && free_of(y, 58) && free_of(z, 58) ==> match (
            parsed(x, u32::MAX as nat),
            parsed(y, u64::MAX as nat),
            parsed(z, u64::MAX as nat),
        ) {
            (Some(p), Some(r), Some(f)) => inc_of(x + seq![58u8] + y + seq![58u8] + z) == Some(
                Incarnation { pid: p as u32, replies: r as u64, first: f as u64 },
            ),
            _ => inc_of(x + seq![58u8] + y + seq![58u8] + z) is None,
        },
    decreases b.len(),
{
    if b.len() == 0 {
        assert(a + b =~= a);
        assert(incs_of(a) + incs_of(b) =~= incs_of(a));
    } else {
        assert((a + b).drop_last() =~= a + b.drop_last());
        who_answered_is_read(a, b.drop_last(), x, y, z);
        assert(incs_of(a + b) =~= incs_of(a) + incs_of(b));
    }
    if a.len() == 1 {
        assert(a.drop_last() =~= Seq::<Seq<u8>>::empty());
        assert(incs_of(a.drop_last()) =~= seq![]);
    }
    if free_of(x, 58) && free_of(y, 58) && free_of(z, 58) {
        let t = y + seq![58u8] + z;
        assert(x + seq![58u8] + y + seq![58u8] + z =~= x + seq![58u8] + t);
        lemma_part(x, t, 58);
        lemma_part(y, z, 58);
        lemma_part(z, seq![], 58);
        let f = parts(x + seq![58u8] + t, 58);
        assert(f =~= seq![x, y, z]);
    }
}

/// Those who first answered at the same time stay in their order.
pub proof fn ordering_is_stable(s: Seq<Incarnation>, at: u64)
    ensures
        ordered(s).filter(|i: Incarnation| i.first == at) == s.filter(|i: Incarnation| i.first == at),
    decreases s.len(),
{
    let p = |i: Incarnation| i.first == at;
    reveal(Seq::filter);
    if s.len() > 0 {
        let d = s.drop_last();
        let x = s.last();
        let t = ordered(d);
        ordering_is_stable(d, at);
        ordering_is_a_permutation(d);
        lemma_rank(t, x);
        let k = rank(t, x);
        let (a, b) = (t.take(k), t.skip(k));
        assert(t =~= a + b);
        assert(ordered(s) =~= a + seq![x] + b);
        Seq::filter_distributes_over_add(a, b, p);
        Seq::filter_distributes_over_add(a + seq![x], b, p);
        Seq::filter_distributes_over_add(a, seq![x], p);
        if x.first == at {
            lemma_none(b, p);
            assert(seq![x].drop_last() =~= Seq::<Incarnation>::empty());
            assert(seq![x].filter(p) =~= seq![x]);
            assert(ordered(s).filter(p) =~= d.filter(p).push(x));
        } else {
            lemma_none(seq![x], p);
            assert(ordered(s).filter(p) =~= d.filter(p));
        }
    }
}

proof fn lemma_none(b: Seq<Incarnation>, p: spec_fn(Incarnation) -> bool)
    requires
        forall|i: int| 0 <= i < b.len() ==> !p(#[trigger] b[i]),
    ensures
        b.filter(p) == Seq::<Incarnation>::empty(),
    decreases b.len(),
{
    reveal(Seq::filter);
    if b.len() > 0 {
        let d = b.drop_last();
        assert forall|i: int| 0 <= i < d.len() implies !p(#[trigger] d[i]) by {
            assert(d[i] == b[i]);
        }
        lemma_none(d, p);
        assert(!p(b[b.len() - 1]));
    }
}

// ---- bytes ----

/// Numbers are written with their lowest byte first.
pub proof fn numbers_are_written_lowest_first(x: u32, y: u64)
    ensures
        le32(x).len() == 4 && counts_to(le32(x), x as int),
        le64(y).len() == 8 && counts_to(le64(y), y as int),
{
    reveal(le32);
    reveal(le64);
    lemma_le32(x);
    let (low, high) = ((y % 0x1_0000_0000) as u32, (y / 0x1_0000_0000) as u32);
    lemma_le32(low);
    lemma_le32(high);
    let s = le64(y);
    assert(s.take(4) =~= le32(low));
    assert(s.skip(4) =~= le32(high));
    crate::message::laws::lemma_counts_join(s, low as int, high as int);
}

proof fn lemma_le32(x: u32)
    ensures
        le32(x).len() == 4 && counts_to(le32(x), x as int),
{
    reveal(le32);
    let s = le32(x);
    let (a, b, c) = (s.skip(1), s.skip(1).skip(1), s.skip(1).skip(1).skip(1));
    assert(a[0] == s[1] && b[0] == s[2] && c[0] == s[3]);
    assert(c.skip(1).len() == 0);
    let n = x as int;
    assert(counts_to(c.skip(1), n / 0x100 / 0x100 / 0x100 / 0x100));
    assert(counts_to(c, n / 0x100 / 0x100 / 0x100));
    assert(counts_to(b, n / 0x100 / 0x100));
    assert(counts_to(a, n / 0x100));
}

// ---- measurements ----

/// Every measurement runs, and none twice; the one that forks runs first. No two have the
/// same name.
pub proof fn every_measurement_runs_once(s: Suite, t: Suite)
    ensures
        every_suite().contains(s),
        every_suite().no_duplicates(),
        every_suite()[0] is Xproc,
        s.name() == t.name() ==> s == t,
{
    reveal_strlit("xproc");
    reveal_strlit("ring");
    reveal_strlit("pool");
    reveal_strlit("artifact");
    reveal_strlit("arrow");
    reveal_strlit("task");
    vstd::string::is_ascii_spec_bytes("xproc");
    vstd::string::is_ascii_spec_bytes("ring");
    vstd::string::is_ascii_spec_bytes("pool");
    vstd::string::is_ascii_spec_bytes("artifact");
    vstd::string::is_ascii_spec_bytes("arrow");
    vstd::string::is_ascii_spec_bytes("task");
    assert(Suite::Xproc.name()[0] == 120 && Suite::Ring.name()[0] == 114 && Suite::Pool.name()[0] == 112
        && Suite::Artifact.name()[0] == 97 && Suite::Arrow.name()[0] == 97 && Suite::Task.name()[0] == 116);
    assert(Suite::Artifact.name().len() == 8 && Suite::Arrow.name().len() == 5);
    let e = every_suite();
    assert(e[0] is Xproc && e[1] is Ring && e[2] is Pool && e[3] is Artifact && e[4] is Arrow && e[5]
        is Task);
}

/// A windowed root fits into the bytes that it is given, with eight to spare at most. (And
/// powers of two are what they are elsewhere.)
pub proof fn a_root_fits(keep: int, max_depth: int, k: nat)
    requires
        keep >= 0,
        max_depth >= 0,
        keep + max_depth > 0,
    ensures
        ({
            let n = keep + max_depth + 1;
            &&& record_len(n, n, n - 1) <= root_bytes(keep, max_depth)
            &&& root_bytes(keep, max_depth) - record_len(n, n, n - 1) <= 8
        }),
        pow2(k) == vstd::arithmetic::power2::pow2(k),
    decreases k,
{
    vstd::arithmetic::power2::lemma2_to64();
    if k > 0 {
        a_root_fits(keep, max_depth, (k - 1) as nat);
        vstd::arithmetic::power2::lemma_pow2_unfold(k);
    }
}

} // verus!
