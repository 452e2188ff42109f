//! What was reported is what is read.
use vstd::prelude::*;
use vstd::string::StringSliceAdditionalSpecFns;

use crate::demo::report::{
    by_first, inc_item, inc_of, inc_text, incs_of, kv_list, kv_of, kv_text, last_of, num_of,
    ordered_stays, report_of, report_pairs, Incarnation, ReportView, COLON, EQUALS, SEMICOLON,
};
use crate::text::{
    digits, is_blank, is_digit, lemma_first_at_is, lemma_line, lemma_part, lemma_piece,
    lemma_trimmed, lines, number_round_trip, parts, pieces, NEWLINE,
};

verus! {

/// Whether a byte may stand in a key.
pub open spec fn key_byte(b: u8) -> bool {
    97 <= b <= 122 || 48 <= b <= 57 || b == 95
}

/// Whether a text may be a key.
pub open spec fn is_key(b: Seq<u8>) -> bool {
    b.len() > 0 && forall|i: int| 0 <= i < b.len() ==> key_byte(#[trigger] b[i])
}

/// Whether a text survives as a value: it has no line feed, and no blank at
/// either end.
pub open spec fn is_value(b: Seq<u8>) -> bool {
    &&& forall|i: int| 0 <= i < b.len() ==> #[trigger] b[i] != NEWLINE
    &&& b.len() > 0 ==> !is_blank(b[0]) && !is_blank(b.last())
}

/// Whether keys and values survive.
pub open spec fn writable(p: Seq<(Seq<u8>, Seq<u8>)>) -> bool {
    forall|i: int| 0 <= i < p.len() ==> is_key((#[trigger] p[i]).0) && is_value(p[i].1)
}

/// A line reads back as its key and value.
proof fn lemma_kv(k: Seq<u8>, v: Seq<u8>)
    requires
        is_key(k),
        is_value(v),
    ensures
        kv_of(k + seq![EQUALS] + v) == Some((k, v)),
{
    let b = k + seq![EQUALS] + v;
    assert forall|i: int| 0 <= i < k.len() implies #[trigger] b[i] != EQUALS by {
        assert(key_byte(k[i]));
    }
    assert(b[k.len() as int] == EQUALS);
    lemma_first_at_is(b, EQUALS, k.len() as int);
    assert(b.take(k.len() as int) =~= k);
    assert(b.skip(k.len() as int + 1) =~= v);
    assert(key_byte(k[0]) && key_byte(k.last()));
    lemma_trimmed(k);
    lemma_trimmed(v);
}

/// The lines of a file are its keys and values.
proof fn lemma_lines(p: Seq<(Seq<u8>, Seq<u8>)>)
    requires
        writable(p),
    ensures
        lines(kv_text(p)) == Seq::new(p.len(), |i: int| p[i].0 + seq![EQUALS] + p[i].1),
    decreases p.len(),
{
    let want = Seq::new(p.len(), |i: int| p[i].0 + seq![EQUALS] + p[i].1);
    if p.len() == 0 {
        assert(want =~= seq![]);
    } else {
        let r = p.skip(1);
        assert forall|i: int| 0 <= i < r.len() implies is_key((#[trigger] r[i]).0) && is_value(r[i].1) by {
            assert(r[i] == p[i + 1]);
        }
        lemma_lines(r);
        let a = p[0].0 + seq![EQUALS] + p[0].1;
        assert(is_key(p[0].0) && is_value(p[0].1));
        assert forall|i: int| 0 <= i < a.len() implies #[trigger] a[i] != NEWLINE by {
            if i < p[0].0.len() {
                assert(key_byte(p[0].0[i]));
            } else if i > p[0].0.len() {
                assert(p[0].1[i - p[0].0.len() - 1] != NEWLINE);
            }
        }
        assert(a.last() != 13) by {
            if p[0].1.len() > 0 {
                assert(a.last() == p[0].1.last());
            } else {
                assert(a.last() == EQUALS);
            }
        }
        lemma_line(a, kv_text(r));
        assert(kv_text(p) =~= a + seq![NEWLINE] + kv_text(r));
        assert(want =~= seq![a] + Seq::new(r.len(), |i: int| r[i].0 + seq![EQUALS] + r[i].1));
    }
}

/// A file reads back as its keys and values.
pub proof fn file_round_trip(p: Seq<(Seq<u8>, Seq<u8>)>)
    requires
        writable(p),
    ensures
        kv_list(lines(kv_text(p))) == p,
{
    lemma_lines(p);
    lemma_list(p);
}

proof fn lemma_list(p: Seq<(Seq<u8>, Seq<u8>)>)
    requires
        writable(p),
    ensures
        kv_list(Seq::new(p.len(), |i: int| p[i].0 + seq![EQUALS] + p[i].1)) == p,
    decreases p.len(),
{
    let l = Seq::new(p.len(), |i: int| p[i].0 + seq![EQUALS] + p[i].1);
    if p.len() == 0 {
        assert(p =~= seq![]);
    } else {
        let d = p.drop_last();
        assert forall|i: int| 0 <= i < d.len() implies is_key((#[trigger] d[i]).0) && is_value(d[i].1) by {
            assert(d[i] == p[i]);
        }
        lemma_list(d);
        assert(l.drop_last() =~= Seq::new(d.len(), |i: int| d[i].0 + seq![EQUALS] + d[i].1));
        let last = p[p.len() - 1];
        assert(is_key(last.0) && is_value(last.1));
        lemma_kv(last.0, last.1);
        assert(l.last() == last.0 + seq![EQUALS] + last.1);
        assert(d.push(last) =~= p);
    }
}

/// Where each key stands once, its value is found.
proof fn lemma_found(p: Seq<(Seq<u8>, Seq<u8>)>, i: int)
    requires
        0 <= i < p.len(),
        forall|a: int, b: int| 0 <= a < b < p.len() ==> p[a].0 != p[b].0,
    ensures
        last_of(p, p[i].0) == Some(p[i].1),
    decreases p.len(),
{
    if i < p.len() - 1 {
        let d = p.drop_last();
        assert(p[i].0 != p[p.len() - 1].0);
        lemma_found(d, i);
        assert(d[i] == p[i]);
    }
}

/// The keys of a report.
#[verifier::rlimit(30)]
proof fn lemma_keys(r: ReportView)
    ensures
        forall|i: int| 0 <= i < 12 ==> is_key((#[trigger] report_pairs(r)[i]).0),
        forall|a: int, b: int|
            0 <= a < b < 12 ==> report_pairs(r)[a].0 != report_pairs(r)[b].0,
{
    assert("asks".spec_bytes() =~= seq![97u8, 115u8, 107u8, 115u8]) by {
        reveal_strlit("asks");
        vstd::string::is_ascii_spec_bytes("asks");
    }
    assert("replies".spec_bytes() =~= seq![114u8, 101u8, 112u8, 108u8, 105u8, 101u8, 115u8]) by {
        reveal_strlit("replies");
        vstd::string::is_ascii_spec_bytes("replies");
    }
    assert("errors".spec_bytes() =~= seq![101u8, 114u8, 114u8, 111u8, 114u8, 115u8]) by {
        reveal_strlit("errors");
        vstd::string::is_ascii_spec_bytes("errors");
    }
    assert("redelivered".spec_bytes() =~= seq![114u8, 101u8, 100u8, 101u8, 108u8, 105u8, 118u8, 101u8, 114u8, 101u8, 100u8]) by {
        reveal_strlit("redelivered");
        vstd::string::is_ascii_spec_bytes("redelivered");
    }
    assert("risk_replies".spec_bytes() =~= seq![114u8, 105u8, 115u8, 107u8, 95u8, 114u8, 101u8, 112u8, 108u8, 105u8, 101u8, 115u8]) by {
        reveal_strlit("risk_replies");
        vstd::string::is_ascii_spec_bytes("risk_replies");
    }
    assert("p50_ns".spec_bytes() =~= seq![112u8, 53u8, 48u8, 95u8, 110u8, 115u8]) by {
        reveal_strlit("p50_ns");
        vstd::string::is_ascii_spec_bytes("p50_ns");
    }
    assert("p99_ns".spec_bytes() =~= seq![112u8, 57u8, 57u8, 95u8, 110u8, 115u8]) by {
        reveal_strlit("p99_ns");
        vstd::string::is_ascii_spec_bytes("p99_ns");
    }
    assert("max_ns".spec_bytes() =~= seq![109u8, 97u8, 120u8, 95u8, 110u8, 115u8]) by {
        reveal_strlit("max_ns");
        vstd::string::is_ascii_spec_bytes("max_ns");
    }
    assert("elapsed_ns".spec_bytes() =~= seq![101u8, 108u8, 97u8, 112u8, 115u8, 101u8, 100u8, 95u8, 110u8, 115u8]) by {
        reveal_strlit("elapsed_ns");
        vstd::string::is_ascii_spec_bytes("elapsed_ns");
    }
    assert("throughput".spec_bytes() =~= seq![116u8, 104u8, 114u8, 111u8, 117u8, 103u8, 104u8, 112u8, 117u8, 116u8]) by {
        reveal_strlit("throughput");
        vstd::string::is_ascii_spec_bytes("throughput");
    }
    assert("version_changes".spec_bytes() =~= seq![118u8, 101u8, 114u8, 115u8, 105u8, 111u8, 110u8, 95u8, 99u8, 104u8, 97u8, 110u8, 103u8, 101u8, 115u8]) by {
        reveal_strlit("version_changes");
        vstd::string::is_ascii_spec_bytes("version_changes");
    }
    assert("incarnations".spec_bytes() =~= seq![105u8, 110u8, 99u8, 97u8, 114u8, 110u8, 97u8, 116u8, 105u8, 111u8, 110u8, 115u8]) by {
        reveal_strlit("incarnations");
        vstd::string::is_ascii_spec_bytes("incarnations");
    }
    let p = report_pairs(r);
    assert forall|i: int| 0 <= i < 12 implies is_key((#[trigger] p[i]).0) by {
        assert(i == 0 || i == 1 || i == 2 || i == 3 || i == 4 || i == 5 || i == 6 || i == 7 || i == 8 || i
            == 9 || i == 10 || i == 11);
    }
    // length and first two bytes tell the keys apart
    assert forall|a: int, b: int| 0 <= a < b < 12 implies p[a].0 != p[b].0 by {
        let f = |i: int| (p[i].0.len(), p[i].0[0], p[i].0[1]);
        assert(f(0) == (4nat, 97u8, 115u8));
        assert(f(1) == (7nat, 114u8, 101u8));
        assert(f(2) == (6nat, 101u8, 114u8));
        assert(f(3) == (11nat, 114u8, 101u8));
        assert(f(4) == (12nat, 114u8, 105u8));
        assert(f(5) == (6nat, 112u8, 53u8));
        assert(f(6) == (6nat, 112u8, 57u8));
        assert(f(7) == (6nat, 109u8, 97u8));
        assert(f(8) == (10nat, 101u8, 108u8));
        assert(f(9) == (10nat, 116u8, 104u8));
        assert(f(10) == (15nat, 118u8, 101u8));
        assert(f(11) == (12nat, 105u8, 110u8));
        assert(f(a) != f(b));
    }
}

proof fn lemma_digits_value(n: nat)
    ensures
        is_value(digits(n)),
{
    number_round_trip(n, n);
    let d = digits(n);
    assert forall|i: int| 0 <= i < d.len() implies #[trigger] d[i] != NEWLINE by {
        assert(is_digit(d[i]));
    }
    assert(is_digit(d[0]) && is_digit(d.last()));
}

/// Whether a byte may stand in an item.
spec fn item_byte(b: u8) -> bool {
    48 <= b <= 58
}

proof fn lemma_item(x: Incarnation)
    ensures
        inc_item(x).len() > 0,
        forall|i: int| 0 <= i < inc_item(x).len() ==> item_byte(#[trigger] inc_item(x)[i]),
        inc_of(inc_item(x)) == Some(x),
{
    let a = digits(x.pid as nat);
    let b = digits(x.replies as nat);
    let c = digits(x.first as nat);
    number_round_trip(x.pid as nat, u32::MAX as nat);
    number_round_trip(x.replies as nat, u64::MAX as nat);
    number_round_trip(x.first as nat, u64::MAX as nat);
    let t = inc_item(x);
    assert forall|i: int| 0 <= i < t.len() implies item_byte(#[trigger] t[i]) by {
        if i < a.len() {
            assert(is_digit(a[i]));
        } else if i == a.len() {
        } else if i < a.len() + 1 + b.len() {
            assert(is_digit(b[i - a.len() - 1]));
        } else if i > a.len() + 1 + b.len() {
            assert(is_digit(c[i - a.len() - b.len() - 2]));
        }
    }
    assert forall|i: int| 0 <= i < a.len() implies #[trigger] a[i] != COLON by {
        assert(is_digit(a[i]));
    }
    assert forall|i: int| 0 <= i < b.len() implies #[trigger] b[i] != COLON by {
        assert(is_digit(b[i]));
    }
    assert forall|i: int| 0 <= i < c.len() implies #[trigger] c[i] != COLON by {
        assert(is_digit(c[i]));
    }
    lemma_part(a, b + seq![COLON] + c, COLON);
    lemma_part(b, c, COLON);
    lemma_part(c, c, COLON);
    assert(t =~= a + seq![COLON] + (b + seq![COLON] + c));
    assert(parts(t, COLON) =~= seq![a, b, c]);
}

/// The processes that answered read back as written.
proof fn lemma_incs(s: Seq<Incarnation>)
    ensures
        incs_of(pieces(inc_text(s), SEMICOLON)) == s,
        pieces(inc_text(s), SEMICOLON) == Seq::new(s.len(), |i: int| inc_item(s[i])),
        is_value(inc_text(s)),
    decreases s.len(),
{
    let want = Seq::new(s.len(), |i: int| inc_item(s[i]));
    let t = inc_text(s);
    if s.len() == 0 {
        assert(want =~= seq![]);
    } else {
        let a = inc_item(s[0]);
        lemma_item(s[0]);
        assert forall|i: int| 0 <= i < a.len() implies #[trigger] a[i] != SEMICOLON by {
            assert(item_byte(a[i]));
        }
        if s.len() == 1 {
            lemma_first_at_is(a, SEMICOLON, a.len() as int);
            assert(want =~= seq![a]);
            assert(item_byte(a[0]) && item_byte(a.last()));
            assert forall|i: int| 0 <= i < t.len() implies #[trigger] t[i] != NEWLINE by {
                assert(item_byte(a[i]));
            }
        } else {
            let r = s.skip(1);
            lemma_incs(r);
            let u = inc_text(r);
            lemma_piece(a, u, SEMICOLON);
            assert(want =~= seq![a] + Seq::new(r.len(), |i: int| inc_item(r[i])));
            assert forall|i: int| 0 <= i < t.len() implies #[trigger] t[i] != NEWLINE by {
                if i < a.len() {
                    assert(item_byte(a[i]));
                } else if i > a.len() {
                    assert(u[i - a.len() - 1] != NEWLINE);
                }
            }
            assert(item_byte(a[0]));
            assert(t[0] == a[0]);
            lemma_inc_text_some(r);
            assert(t.last() == u.last());
        }
    }
    lemma_items(s);
}

proof fn lemma_inc_text_some(s: Seq<Incarnation>)
    requires
        s.len() > 0,
    ensures
        inc_text(s).len() > 0,
{
    lemma_item(s[0]);
}

proof fn lemma_items(s: Seq<Incarnation>)
    ensures
        incs_of(Seq::new(s.len(), |i: int| inc_item(s[i]))) == s,
    decreases s.len(),
{
    let l = Seq::new(s.len(), |i: int| inc_item(s[i]));
    if s.len() == 0 {
        assert(s =~= seq![]);
    } else {
        let d = s.drop_last();
        lemma_items(d);
        assert(l.drop_last() =~= Seq::new(d.len(), |i: int| inc_item(d[i])));
        lemma_item(s[s.len() - 1]);
        assert(l.last() == inc_item(s[s.len() - 1]));
        assert(d.push(s[s.len() - 1]) =~= s);
    }
}

/// A report that was written reads back as itself: the file format loses
/// nothing.
pub proof fn report_round_trip(r: ReportView)
    requires
        is_value(r.throughput),
        by_first(r.incarnations),
    ensures
        report_of(kv_list(lines(kv_text(report_pairs(r))))) == r,
{
    let p = report_pairs(r);
    lemma_keys(r);
    lemma_incs(r.incarnations);
    ordered_stays(r.incarnations);
    assert forall|i: int| 0 <= i < p.len() implies is_key((#[trigger] p[i]).0) && is_value(p[i].1) by {
        lemma_digits_value(r.asks as nat);
        lemma_digits_value(r.replies as nat);
        lemma_digits_value(r.errors as nat);
        lemma_digits_value(r.redelivered as nat);
        lemma_digits_value(r.risk_replies as nat);
        lemma_digits_value(r.p50_ns as nat);
        lemma_digits_value(r.p99_ns as nat);
        lemma_digits_value(r.max_ns as nat);
        lemma_digits_value(r.elapsed_ns as nat);
        lemma_digits_value(r.version_changes as nat);
        assert(i == 0 || i == 1 || i == 2 || i == 3 || i == 4 || i == 5 || i == 6 || i == 7 || i == 8 || i
            == 9 || i == 10 || i == 11);
    }
    file_round_trip(p);
    lemma_report_of(r);
}

/// The keys and values of a report make that report.
proof fn lemma_report_of(r: ReportView)
    requires
        by_first(r.incarnations),
    ensures
        report_of(report_pairs(r)) == r,
{
    let p = report_pairs(r);
    lemma_keys(r);
    lemma_incs(r.incarnations);
    ordered_stays(r.incarnations);
    lemma_found(p, 0);
    lemma_found(p, 1);
    lemma_found(p, 2);
    lemma_found(p, 3);
    lemma_found(p, 4);
    lemma_found(p, 5);
    lemma_found(p, 6);
    lemma_found(p, 7);
    lemma_found(p, 8);
    lemma_found(p, 9);
    lemma_found(p, 10);
    lemma_found(p, 11);
    number_round_trip(r.asks as nat, u64::MAX as nat);
    number_round_trip(r.replies as nat, u64::MAX as nat);
    number_round_trip(r.errors as nat, u64::MAX as nat);
    number_round_trip(r.redelivered as nat, u64::MAX as nat);
    number_round_trip(r.risk_replies as nat, u64::MAX as nat);
    number_round_trip(r.p50_ns as nat, u64::MAX as nat);
    number_round_trip(r.p99_ns as nat, u64::MAX as nat);
    number_round_trip(r.max_ns as nat, u64::MAX as nat);
    number_round_trip(r.elapsed_ns as nat, u64::MAX as nat);
    number_round_trip(r.version_changes as nat, u64::MAX as nat);
    assert(report_of(p) =~= r);
}

/// Where a report says what: each number under its name, in the file that it makes.
pub proof fn where_a_report_says_what(r: ReportView)
    ensures
        ({
            let p = report_pairs(r);
            &&& num_of(p, "asks".spec_bytes()) == r.asks
            &&& num_of(p, "replies".spec_bytes()) == r.replies
            &&& num_of(p, "errors".spec_bytes()) == r.errors
            &&& num_of(p, "redelivered".spec_bytes()) == r.redelivered
            &&& num_of(p, "risk_replies".spec_bytes()) == r.risk_replies
            &&& num_of(p, "p50_ns".spec_bytes()) == r.p50_ns
            &&& num_of(p, "p99_ns".spec_bytes()) == r.p99_ns
            &&& num_of(p, "max_ns".spec_bytes()) == r.max_ns
            &&& num_of(p, "elapsed_ns".spec_bytes()) == r.elapsed_ns
            &&& num_of(p, "version_changes".spec_bytes()) == r.version_changes
            &&& last_of(p, "throughput".spec_bytes()) == Some(r.throughput)
        }),
{
    let p = report_pairs(r);
    lemma_keys(r);
    lemma_number(p, 0, r.asks);
    lemma_number(p, 1, r.replies);
    lemma_number(p, 2, r.errors);
    lemma_number(p, 3, r.redelivered);
    lemma_number(p, 4, r.risk_replies);
    lemma_number(p, 5, r.p50_ns);
    lemma_number(p, 6, r.p99_ns);
    lemma_number(p, 7, r.max_ns);
    lemma_number(p, 8, r.elapsed_ns);
    lemma_found(p, 9);
    lemma_number(p, 10, r.version_changes);
}

proof fn lemma_number(p: Seq<(Seq<u8>, Seq<u8>)>, i: int, n: u64)
    requires
        0 <= i < p.len(),
        forall|a: int, b: int| 0 <= a < b < p.len() ==> p[a].0 != p[b].0,
        p[i].1 == digits(n as nat),
    ensures
        num_of(p, p[i].0) == n,
{
    lemma_found(p, i);
    number_round_trip(n as nat, u64::MAX as nat);
}

} // verus!
