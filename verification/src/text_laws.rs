//! What splitting, trimming and reading numbers keep of a text.
use vstd::arithmetic::power::{lemma_pow1, lemma_pow_adds, pow};
use vstd::prelude::*;

use crate::text::{
    all_digits, digits, first_at, is_blank, lemma_first_at, lines, number_round_trip, parsed, parts,
    pieces, trim_end, trim_start, trimmed, value,
};

verus! {

// ---- parts ----

/// The parts one after the other, with the separator between them.
pub open spec fn strung(s: Seq<Seq<u8>>, sep: u8) -> Seq<u8>
    decreases s.len(),
{
    if s.len() == 0 {
        seq![]
    } else if s.len() == 1 {
        s[0]
    } else {
        s[0] + seq![sep] + strung(s.skip(1), sep)
    }
}

/// Whether a text is free of the separator.
pub open spec fn free_of(b: Seq<u8>, sep: u8) -> bool {
    forall|i: int| 0 <= i < b.len() ==> #[trigger] b[i] != sep
}

/// Splitting leaves nothing out: the parts with the separators between them are the
/// text again, and there is no separator in any of them. There is always a part.
pub proof fn parts_make_the_text(b: Seq<u8>, sep: u8)
    ensures
        parts(b, sep).len() > 0,
        strung(parts(b, sep), sep) == b,
        forall|i: int| 0 <= i < parts(b, sep).len() ==> free_of(#[trigger] parts(b, sep)[i], sep),
    decreases b.len(),
{
    lemma_first_at(b, sep);
    let i = first_at(b, sep);
    if i < b.len() {
        let rest = b.skip(i + 1);
        parts_make_the_text(rest, sep);
        let (p, q) = (parts(b, sep), parts(rest, sep));
        assert(p.skip(1) =~= q);
        assert(p[0] == b.take(i));
        assert(b.take(i) + seq![sep] + rest =~= b);
        assert forall|k: int| 0 <= k < p.len() implies free_of(#[trigger] p[k], sep) by {
            if k > 0 {
                assert(p[k] == q[k - 1]);
            }
        }
    } else {
        assert(parts(b, sep) =~= seq![b]);
    }
}

/// The pieces are the parts, but for an empty one at the end.
pub proof fn pieces_are_the_parts(b: Seq<u8>, sep: u8)
    ensures
        ({
            let p = parts(b, sep);
            pieces(b, sep) == if p.last().len() == 0 {
                p.drop_last()
            } else {
                p
            }
        }),
    decreases b.len(),
{
    lemma_first_at(b, sep);
    let i = first_at(b, sep);
    parts_make_the_text(b, sep);
    if b.len() > 0 && i < b.len() {
        let rest = b.skip(i + 1);
        pieces_are_the_parts(rest, sep);
        parts_make_the_text(rest, sep);
        let (p, q) = (parts(b, sep), parts(rest, sep));
        assert(p =~= seq![b.take(i)] + q);
        assert(p.last() == q.last());
        assert(p.drop_last() =~= seq![b.take(i)] + q.drop_last());
    } else if b.len() == 0 {
        assert(parts(b, sep) =~= seq![b]);
        assert(parts(b, sep).drop_last() =~= Seq::<Seq<u8>>::empty());
    }
}

/// The lines are the pieces between line feeds. A carriage return at the end of one
/// belongs to the line feed that follows it, and is left out with it; one that no
/// line feed follows stays.
pub proof fn lines_are_the_pieces(b: Seq<u8>, i: int)
    requires
        0 <= i < pieces(b, 10).len(),
    ensures
        lines(b).len() == pieces(b, 10).len(),
        ({
            let p = pieces(b, 10);
            let ended = i < p.len() - 1 || b.last() == 10;
            lines(b)[i] == if ended && p[i].len() > 0 && p[i].last() == 13 {
                p[i].drop_last()
            } else {
                p[i]
            }
        }),
    decreases b.len(),
{
    lemma_first_at(b, 10);
    let k = first_at(b, 10);
    if k < b.len() {
        let rest = b.skip(k + 1);
        let (p, q) = (pieces(b, 10), pieces(rest, 10));
        assert(p =~= seq![b.take(k)] + q);
        if rest.len() > 0 {
            lemma_first_at(rest, 10);
            assert(q.len() > 0);
            lines_are_the_pieces(rest, if i > 0 { i - 1 } else { 0 });
            assert(rest.last() == b.last());
        } else {
            assert(b.last() == b[k]);
        }
        if i > 0 {
            assert(p[i] == q[i - 1]);
            assert(lines(b)[i] == lines(rest)[i - 1]);
        }
    } else {
        assert(pieces(b, 10) =~= seq![b]);
        if b.last() == 10 {
            assert(b[b.len() - 1] == 10);
        }
    }
}

// ---- blanks ----

/// Whether there are only blanks.
pub open spec fn blank(b: Seq<u8>) -> bool {
    forall|i: int|
        0 <= i < b.len() ==> {
            let x = #[trigger] b[i];
            x == 9 || x == 10 || x == 11 || x == 12 || x == 13 || x == 32
        }
}

proof fn lemma_trim_start(b: Seq<u8>)
    ensures
        ({
            let n = b.len() - trim_start(b).len();
            &&& 0 <= n <= b.len()
            &&& b.skip(n) == trim_start(b)
            &&& blank(b.take(n))
            &&& trim_start(b).len() > 0 ==> !is_blank(trim_start(b)[0])
        }),
    decreases b.len(),
{
    if b.len() > 0 && is_blank(b[0]) {
        let r = b.skip(1);
        lemma_trim_start(r);
        let n = b.len() - trim_start(b).len();
        assert(b.skip(n) =~= r.skip(n - 1));
        assert forall|i: int| 0 <= i < n implies {
            let x = #[trigger] b.take(n)[i];
            x == 9 || x == 10 || x == 11 || x == 12 || x == 13 || x == 32
        } by {
            if i > 0 {
                assert(r.take(n - 1)[i - 1] == b[i]);
            }
        }
    } else {
        assert(b.skip(0) =~= b);
    }
}

proof fn lemma_trim_end(b: Seq<u8>)
    ensures
        ({
            let n = trim_end(b).len() as int;
            &&& 0 <= n <= b.len()
            &&& b.take(n) == trim_end(b)
            &&& blank(b.skip(n))
            &&& n > 0 ==> !is_blank(trim_end(b).last())
        }),
    decreases b.len(),
{
    if b.len() > 0 && is_blank(b.last()) {
        let r = b.drop_last();
        lemma_trim_end(r);
        let n = trim_end(b).len() as int;
        assert(b.take(n) =~= r.take(n));
        assert forall|i: int| 0 <= i < b.len() - n implies {
            let x = #[trigger] b.skip(n)[i];
            x == 9 || x == 10 || x == 11 || x == 12 || x == 13 || x == 32
        } by {
            if i < r.len() - n {
                assert(r.skip(n)[i] == b[n + i]);
            } else {
                assert(b[n + i] == b.last());
            }
        }
    } else {
        assert(b.take(b.len() as int) =~= b);
    }
}

/// Trimming takes blanks off the ends and nothing else, and all of them: what is
/// left has blanks alone before it and behind it, and starts and ends with none.
pub proof fn trimming_takes_blanks_off(b: Seq<u8>)
    ensures
        exists|i: int, j: int|
            0 <= i <= j <= b.len() && #[trigger] b.subrange(i, j) == trimmed(b) && blank(b.take(i)) && blank(
                b.skip(j),
            ),
        trimmed(b).len() > 0 ==> !blank(trimmed(b).take(1)) && !blank(trimmed(b).skip(trimmed(b).len() - 1)),
{
    lemma_trim_start(b);
    let s = trim_start(b);
    lemma_trim_end(s);
    let t = trimmed(b);
    let i = b.len() - s.len();
    let j = i + t.len();
    assert(b.subrange(i, j) =~= s.take(t.len() as int));
    assert(b.skip(j) =~= s.skip(t.len() as int));
    if t.len() > 0 {
        assert(t[0] == s[0]);
        let (f, l) = (t.take(1), t.skip(t.len() - 1));
        assert(f[0] == t[0] && l[0] == t.last());
    }
}

// ---- numbers ----

/// Digits count by their places: those in front of `n` others count ten to the
/// power of `n` times as much.
pub proof fn digits_count_by_their_places(a: Seq<u8>, b: Seq<u8>)
    requires
        all_digits(a),
        all_digits(b),
    ensures
        value(a + b) == value(a) * pow(10, b.len()) + value(b),
    decreases b.len(),
{
    vstd::arithmetic::power::lemma_pow0(10);
    if b.len() == 0 {
        assert(a + b =~= a);
    } else {
        let d = b.drop_last();
        digits_count_by_their_places(a, d);
        assert((a + b).drop_last() =~= a + d);
        assert((a + b).last() == b.last());
        assert(crate::text::is_digit(b[b.len() - 1]));
        lemma_pow_adds(10, d.len(), 1);
        lemma_pow1(10);
        let (x, y, p) = (value(a) as int, value(d) as int, pow(10, d.len()));
        assert(10 * (x * p + y) == x * (p * 10) + 10 * y) by (nonlinear_arith);
    }
}

/// Which texts are numbers: digits alone, at least one, perhaps behind one plus
/// sign, that count to no more than the limit. No other limit changes what one
/// counts to.
pub proof fn which_texts_are_numbers(b: Seq<u8>, max: nat, other: nat, n: nat)
    ensures
        parsed(b, max) == Some(n) ==> n <= max,
        n <= max && n <= other ==> (parsed(b, max) == Some(n) <==> parsed(b, other) == Some(n)),
        parsed(b, max) is Some ==> b.len() > 0 && (b[0] == 43 || 48 <= b[0] <= 57) && forall|i: int|
            0 < i < b.len() ==> 48 <= #[trigger] b[i] <= 57,
        parsed(seq![43u8], max) is None,
        parsed(seq![], max) is None,
        b.len() > 0 && 48 <= b[0] <= 57 ==> parsed(seq![43u8] + b, max) == parsed(b, max),
        b.len() > 0 && b[0] == 43 ==> parsed(seq![43u8] + b, max) is None,
        n <= max ==> parsed(digits(n), max) == Some(n),
{
    if parsed(b, max) is Some {
        let d = crate::text::unsigned(b);
        assert(crate::text::is_digit(d[0]));
        assert forall|i: int| 0 < i < b.len() implies 48 <= #[trigger] b[i] <= 57 by {
            if d.len() < b.len() {
                assert(d[i - 1] == b[i]);
            } else {
                assert(d[i] == b[i]);
            }
            assert(forall|k: int| 0 <= k < d.len() ==> crate::text::is_digit(#[trigger] d[k]));
        }
    }
    let p = seq![43u8] + b;
    if b.len() > 0 {
        assert(p.skip(1) =~= b);
        if b[0] == 43 {
            assert(!crate::text::is_digit(b[0]));
        }
    }
    assert(!crate::text::is_digit(seq![43u8][0]));
    if n <= max {
        number_round_trip(n, max);
    }
}

/// One more digit behind a number counts to ten times as much and the digit.
pub proof fn one_more_digit(b: Seq<u8>, d: u8, max: nat, n: nat)
    requires
        parsed(b, max) == Some(n),
        48 <= d <= 57,
    ensures
        10 * n + (d - 48) <= max ==> parsed(b.push(d), max) == Some((10 * n + (d - 48)) as nat),
        10 * n + (d - 48) > max ==> parsed(b.push(d), max) is None,
        d != 48 || n > 0 ==> digits((10 * n + (d - 48)) as nat) == if n == 0 {
            seq![d]
        } else {
            digits(n).push(d)
        },
{
    let u = crate::text::unsigned(b);
    let v = crate::text::unsigned(b.push(d));
    assert(crate::text::is_digit(u[0]));
    assert(v =~= u.push(d));
    assert(v.drop_last() =~= u);
    assert forall|i: int| 0 <= i < v.len() implies crate::text::is_digit(#[trigger] v[i]) by {
        if i < u.len() {
            assert(v[i] == u[i]);
            assert(crate::text::is_digit(u[i]));
        }
    }
    let m = (10 * n + (d - 48)) as nat;
    assert(m / 10 == n && m % 10 == d - 48);
}

} // verus!
