//! Text as bytes: numbers, lines and fields.
use vstd::prelude::*;

verus! {

pub const NEWLINE: u8 = 10;

pub const CARRIAGE_RETURN: u8 = 13;

// ---- copying and comparing ----

/// Whether two byte strings are the same.
pub fn same(a: &[u8], b: &[u8]) -> (r: bool)
    ensures
        r == (a@ == b@),
{
    let n: usize = a.len();
    if n != b.len() {
        return false;
    }
    let mut i: usize = 0;
    while i < n
        invariant
            n == a@.len(),
            n == b@.len(),
            i <= n,
            forall|k: int| 0 <= k < i ==> #[trigger] a@[k] == b@[k],
        decreases n - i,
    {
        if a[i] != b[i] {
            return false;
        }
        i = i + 1;
    }
    proof {
        assert(a@ =~= b@);
    }
    true
}

/// The bytes from `from` up to `to`.
pub fn part(b: &[u8], from: usize, to: usize) -> (r: Vec<u8>)
    requires
        from <= to <= b@.len(),
    ensures
        r@ == b@.subrange(from as int, to as int),
{
    let mut r: Vec<u8> = Vec::new();
    let mut i: usize = from;
    while i < to
        invariant
            from <= i <= to <= b@.len(),
            r@ == b@.subrange(from as int, i as int),
        decreases to - i,
    {
        r.push(b[i]);
        proof {
            assert(b@.subrange(from as int, i + 1) =~= b@.subrange(from as int, i as int).push(
                b@[i as int],
            ));
        }
        i = i + 1;
    }
    r
}

/// Append `b` to `out`.
pub fn append(out: &mut Vec<u8>, b: &[u8])
    ensures
        final(out)@ == old(out)@ + b@,
{
    crate::artifact::window::extend(out, b)
}

/// What each byte string holds.
pub open spec fn texts(v: Seq<Vec<u8>>) -> Seq<Seq<u8>> {
    Seq::new(v.len(), |i: int| v[i]@)
}

/// Whether `b` starts with `p`.
pub open spec fn starts(b: Seq<u8>, p: Seq<u8>) -> bool {
    b.len() >= p.len() && b.take(p.len() as int) == p
}

/// Whether `b` starts with `p`.
pub fn starts_with(b: &[u8], p: &[u8]) -> (r: bool)
    ensures
        r == starts(b@, p@),
{
    let n: usize = p.len();
    if b.len() < n {
        return false;
    }
    let mut i: usize = 0;
    while i < n
        invariant
            n == p@.len(),
            n <= b@.len(),
            i <= n,
            forall|k: int| 0 <= k < i ==> #[trigger] b@[k] == p@[k],
        decreases n - i,
    {
        if b[i] != p[i] {
            proof {
                assert(b@.take(n as int)[i as int] == b@[i as int]);
            }
            return false;
        }
        i = i + 1;
    }
    proof {
        assert(b@.take(n as int) =~= p@);
    }
    true
}

// ---- decimal numbers ----

/// The digits of a number.
pub open spec fn digits(n: nat) -> Seq<u8>
    decreases n,
{
    if n < 10 {
        seq![(48 + n) as u8]
    } else {
        digits(n / 10).push((48 + n % 10) as u8)
    }
}

pub open spec fn is_digit(b: u8) -> bool {
    48 <= b <= 57
}

/// Whether all bytes are digits.
pub open spec fn all_digits(b: Seq<u8>) -> bool {
    forall|i: int| 0 <= i < b.len() ==> is_digit(#[trigger] b[i])
}

/// The number the digits stand for.
pub open spec fn value(b: Seq<u8>) -> nat
    decreases b.len(),
{
    if b.len() == 0 {
        0
    } else {
        10 * value(b.drop_last()) + (b.last() - 48) as nat
    }
}

/// The part of a number behind its sign, if it has one.
pub open spec fn unsigned(b: Seq<u8>) -> Seq<u8> {
    if b.len() > 1 && b[0] == 43 {
        b.skip(1)
    } else {
        b
    }
}

/// The number a text stands for, if it stands for one of at most `max`:
/// digits, perhaps behind a plus sign.
pub open spec fn parsed(b: Seq<u8>, max: nat) -> Option<nat> {
    let d = unsigned(b);
    if d.len() > 0 && all_digits(d) && value(d) <= max {
        Some(value(d))
    } else {
        None
    }
}

/// The digits of a number.
pub fn decimal(n: u64) -> (r: Vec<u8>)
    ensures
        r@ == digits(n as nat),
    decreases n,
{
    if n < 10 {
        let mut r: Vec<u8> = Vec::new();
        r.push((48 + n) as u8);
        proof {
            assert(r@ =~= digits(n as nat));
        }
        r
    } else {
        let mut r: Vec<u8> = decimal(n / 10);
        r.push((48 + n % 10) as u8);
        r
    }
}

proof fn lemma_value_front(b: Seq<u8>, k: int)
    requires
        0 <= k <= b.len(),
        all_digits(b),
    ensures
        value(b.take(k)) <= value(b),
    decreases b.len() - k,
{
    if k < b.len() {
        lemma_value_front(b, k + 1);
        assert(b.take(k + 1).drop_last() =~= b.take(k));
        assert(is_digit(b[k]));
    } else {
        assert(b.take(k) =~= b);
    }
}

/// The number a text stands for, if it stands for a `u64`.
pub fn parse_u64(b: &[u8]) -> (r: Option<u64>)
    ensures
        r matches Some(x) ==> parsed(b@, u64::MAX as nat) == Some(x as nat),
        r is None ==> parsed(b@, u64::MAX as nat) is None,
{
    let n: usize = b.len();
    let from: usize = if n > 1 && b[0] == 43 {
        1
    } else {
        0
    };
    let ghost d = unsigned(b@);
    proof {
        assert(d =~= b@.skip(from as int));
    }
    if n == 0 {
        return None;
    }
    let mut x: u64 = 0;
    let mut i: usize = from;
    while i < n
        invariant
            n == b@.len(),
            from <= i <= n,
            from < n,
            d == unsigned(b@),
            d == b@.skip(from as int),
            forall|k: int| 0 <= k < i - from ==> is_digit(#[trigger] d[k]),
            x == value(d.take(i - from)),
        decreases n - i,
    {
        let c: u8 = b[i];
        proof {
            assert(d[i - from] == c);
            assert(d.take(i - from + 1).drop_last() =~= d.take(i - from));
        }
        if c < 48 || c > 57 {
            assert(!is_digit(d[i - from]));
            return None;
        }
        let v: u64 = (c - 48) as u64;
        if x > u64::MAX / 10 || x * 10 > u64::MAX - v {
            proof {
                if all_digits(d) {
                    lemma_value_front(d, i - from + 1);
                }
            }
            return None;
        }
        x = x * 10 + v;
        i = i + 1;
    }
    proof {
        assert(d.take(n - from) =~= d);
    }
    Some(x)
}

/// The number a text stands for, if it stands for a `u32`.
pub fn parse_u32(b: &[u8]) -> (r: Option<u32>)
    ensures
        r matches Some(x) ==> parsed(b@, u32::MAX as nat) == Some(x as nat),
        r is None ==> parsed(b@, u32::MAX as nat) is None,
{
    match parse_u64(b) {
        None => None,
        Some(x) => if x > u32::MAX as u64 {
            None
        } else {
            Some(x as u32)
        },
    }
}

proof fn lemma_digits(n: nat)
    ensures
        digits(n).len() > 0,
        all_digits(digits(n)),
        value(digits(n)) == n,
    decreases n,
{
    if n < 10 {
        assert(digits(n).drop_last() =~= seq![]);
        assert(value(digits(n).drop_last()) == 0);
    } else {
        lemma_digits(n / 10);
        assert(digits(n).drop_last() =~= digits(n / 10));
    }
}

/// A number that was written reads back as itself.
pub proof fn number_round_trip(n: nat, max: nat)
    requires
        n <= max,
    ensures
        parsed(digits(n), max) == Some(n),
        all_digits(digits(n)),
        digits(n).len() > 0,
{
    lemma_digits(n);
    assert(is_digit(digits(n)[0]));
    assert(unsigned(digits(n)) == digits(n));
}

// ---- searching ----

/// Where `x` first occurs in `b`; the length of `b` if it does not.
pub open spec fn first_at(b: Seq<u8>, x: u8) -> int
    decreases b.len(),
{
    if b.len() == 0 || b[0] == x {
        0
    } else {
        1 + first_at(b.skip(1), x)
    }
}

/// What `first_at` says.
pub proof fn lemma_first_at(b: Seq<u8>, x: u8)
    ensures
        0 <= first_at(b, x) <= b.len(),
        forall|i: int| 0 <= i < first_at(b, x) ==> #[trigger] b[i] != x,
        first_at(b, x) < b.len() ==> b[first_at(b, x)] == x,
    decreases b.len(),
{
    if b.len() > 0 && b[0] != x {
        let r = b.skip(1);
        lemma_first_at(r, x);
        assert forall|i: int| 0 <= i < first_at(b, x) implies #[trigger] b[i] != x by {
            if i > 0 {
                assert(r[i - 1] == b[i]);
            }
        }
    }
}

/// There is only one first place.
pub proof fn lemma_first_at_is(b: Seq<u8>, x: u8, k: int)
    requires
        0 <= k <= b.len(),
        forall|i: int| 0 <= i < k ==> #[trigger] b[i] != x,
        k < b.len() ==> b[k] == x,
    ensures
        first_at(b, x) == k,
{
    lemma_first_at(b, x);
    let f = first_at(b, x);
    if f < k {
        assert(b[f] != x);
    }
    if k < f {
        assert(b[k] != x);
    }
}

/// Where `x` first occurs in `b` from `from` on, counted from there.
pub fn find(b: &[u8], from: usize, x: u8) -> (at: usize)
    requires
        from <= b@.len(),
    ensures
        at == first_at(b@.skip(from as int), x),
        from + at <= b@.len(),
{
    let n: usize = b.len();
    let ghost s = b@.skip(from as int);
    let mut i: usize = from;
    while i < n
        invariant
            n == b@.len(),
            from <= i <= n,
            s == b@.skip(from as int),
            forall|k: int| 0 <= k < i - from ==> #[trigger] s[k] != x,
        decreases n - i,
    {
        if b[i] == x {
            proof {
                assert(s[i - from] == x);
                lemma_first_at_is(s, x, i - from);
            }
            return i - from;
        }
        assert(s[i - from] == b@[i as int]);
        i = i + 1;
    }
    proof {
        lemma_first_at_is(s, x, n - from);
    }
    n - from
}

// ---- pieces ----

/// The pieces between the separators. A separator at the end is followed by no
/// piece.
pub open spec fn pieces(b: Seq<u8>, sep: u8) -> Seq<Seq<u8>>
    decreases b.len(),
    via pieces_decreases
{
    if b.len() == 0 {
        seq![]
    } else {
        let i = first_at(b, sep);
        if i >= b.len() {
            seq![b]
        } else {
            seq![b.take(i)] + pieces(b.skip(i + 1), sep)
        }
    }
}

#[via_fn]
proof fn pieces_decreases(b: Seq<u8>, sep: u8) {
    lemma_first_at(b, sep);
}

/// The pieces between the separators.
pub fn split(b: &[u8], sep: u8) -> (r: Vec<Vec<u8>>)
    ensures
        texts(r@) == pieces(b@, sep),
{
    let n: usize = b.len();
    let mut r: Vec<Vec<u8>> = Vec::new();
    let mut at: usize = 0;
    proof {
        assert(texts(r@) =~= seq![]);
        assert(b@.skip(0) =~= b@);
        assert(texts(r@) + pieces(b@, sep) =~= pieces(b@, sep));
    }
    while at < n
        invariant
            n == b@.len(),
            at <= n,
            texts(r@) + pieces(b@.skip(at as int), sep) == pieces(b@, sep),
        decreases n - at,
    {
        let len: usize = find(b, at, sep);
        let ghost rest = b@.skip(at as int);
        let ghost r0 = texts(r@);
        let piece: Vec<u8> = part(b, at, at + len);
        r.push(piece);
        proof {
            lemma_first_at(rest, sep);
            assert(piece@ =~= rest.take(len as int));
            assert(texts(r@) =~= r0.push(piece@));
            if len < rest.len() {
                assert(rest.skip(len + 1) =~= b@.skip(at + len + 1));
                assert(r0 + (seq![piece@] + pieces(rest.skip(len + 1), sep)) =~= texts(r@) + pieces(
                    b@.skip(at + len + 1),
                    sep,
                ));
            } else {
                assert(piece@ =~= rest);
                assert(r0 + seq![piece@] =~= texts(r@));
                assert(b@.skip(n as int) =~= seq![]);
                assert(texts(r@) + pieces(b@.skip(n as int), sep) =~= texts(r@));
            }
        }
        at = if at + len < n {
            at + len + 1
        } else {
            n
        };
    }
    proof {
        assert(b@.skip(n as int) =~= seq![]);
        assert(texts(r@) + pieces(b@.skip(n as int), sep) =~= texts(r@));
    }
    r
}

/// A piece followed by a separator is the first of the pieces.
pub proof fn lemma_piece(a: Seq<u8>, rest: Seq<u8>, sep: u8)
    requires
        forall|i: int| 0 <= i < a.len() ==> #[trigger] a[i] != sep,
    ensures
        pieces(a + seq![sep] + rest, sep) == seq![a] + pieces(rest, sep),
{
    let b = a + seq![sep] + rest;
    assert forall|i: int| 0 <= i < a.len() implies #[trigger] b[i] != sep by {
        assert(b[i] == a[i]);
    }
    assert(b[a.len() as int] == sep);
    lemma_first_at_is(b, sep, a.len() as int);
    assert(b.take(a.len() as int) =~= a);
    assert(b.skip(a.len() as int + 1) =~= rest);
}

/// All parts between the separators, empty ones too.
pub open spec fn parts(b: Seq<u8>, sep: u8) -> Seq<Seq<u8>>
    decreases b.len(),
    via parts_decreases
{
    let i = first_at(b, sep);
    if i >= b.len() {
        seq![b]
    } else {
        seq![b.take(i)] + parts(b.skip(i + 1), sep)
    }
}

#[via_fn]
proof fn parts_decreases(b: Seq<u8>, sep: u8) {
    lemma_first_at(b, sep);
}

/// All parts between the separators, empty ones too.
pub fn split_all(b: &[u8], sep: u8) -> (r: Vec<Vec<u8>>)
    ensures
        texts(r@) == parts(b@, sep),
{
    let n: usize = b.len();
    let mut r: Vec<Vec<u8>> = Vec::new();
    let mut at: usize = 0;
    let mut more: bool = true;
    proof {
        assert(texts(r@) =~= seq![]);
        assert(b@.skip(0) =~= b@);
        assert(texts(r@) + parts(b@, sep) =~= parts(b@, sep));
    }
    while more
        invariant
            n == b@.len(),
            at <= n,
            more ==> texts(r@) + parts(b@.skip(at as int), sep) == parts(b@, sep),
            !more ==> texts(r@) == parts(b@, sep),
        decreases n - at, (if more { 1int } else { 0 }),
    {
        let len: usize = find(b, at, sep);
        let ghost rest = b@.skip(at as int);
        let ghost r0 = texts(r@);
        let piece: Vec<u8> = part(b, at, at + len);
        r.push(piece);
        proof {
            lemma_first_at(rest, sep);
            assert(piece@ =~= rest.take(len as int));
            assert(texts(r@) =~= r0.push(piece@));
        }
        if at + len < n {
            proof {
                assert(rest.skip(len + 1) =~= b@.skip(at + len + 1));
                assert(r0 + (seq![piece@] + parts(rest.skip(len + 1), sep)) =~= texts(r@) + parts(
                    b@.skip(at + len + 1),
                    sep,
                ));
            }
            at = at + len + 1;
        } else {
            proof {
                assert(piece@ =~= rest);
                assert(r0 + seq![piece@] =~= texts(r@));
            }
            more = false;
        }
    }
    r
}

/// A part followed by a separator is the first of the parts.
pub proof fn lemma_part(a: Seq<u8>, rest: Seq<u8>, sep: u8)
    requires
        forall|i: int| 0 <= i < a.len() ==> #[trigger] a[i] != sep,
    ensures
        parts(a + seq![sep] + rest, sep) == seq![a] + parts(rest, sep),
        parts(a, sep) == seq![a],
{
    let b = a + seq![sep] + rest;
    assert forall|i: int| 0 <= i < a.len() implies #[trigger] b[i] != sep by {
        assert(b[i] == a[i]);
    }
    assert(b[a.len() as int] == sep);
    lemma_first_at_is(b, sep, a.len() as int);
    lemma_first_at_is(a, sep, a.len() as int);
    assert(b.take(a.len() as int) =~= a);
    assert(b.skip(a.len() as int + 1) =~= rest);
}

// ---- blanks ----

/// Whether a byte is a blank: tab, line feed, vertical tab, form feed, carriage
/// return or space.
pub open spec fn is_blank(b: u8) -> bool {
    9 <= b <= 13 || b == 32
}

/// `b` without the blanks at its start.
pub open spec fn trim_start(b: Seq<u8>) -> Seq<u8>
    decreases b.len(),
{
    if b.len() > 0 && is_blank(b[0]) {
        trim_start(b.skip(1))
    } else {
        b
    }
}

/// `b` without the blanks at its end.
pub open spec fn trim_end(b: Seq<u8>) -> Seq<u8>
    decreases b.len(),
{
    if b.len() > 0 && is_blank(b.last()) {
        trim_end(b.drop_last())
    } else {
        b
    }
}

/// `b` without the blanks at its ends.
pub open spec fn trimmed(b: Seq<u8>) -> Seq<u8> {
    trim_end(trim_start(b))
}

/// `b` without the blanks at its ends.
pub fn trim(b: &[u8]) -> (r: Vec<u8>)
    ensures
        r@ == trimmed(b@),
{
    let n: usize = b.len();
    let mut from: usize = 0;
    proof {
        assert(b@.skip(0) =~= b@);
    }
    while from < n && (b[from] == 32 || (9 <= b[from] && b[from] <= 13))
        invariant
            n == b@.len(),
            from <= n,
            trim_start(b@.skip(from as int)) == trim_start(b@),
        decreases n - from,
    {
        proof {
            assert(b@.skip(from as int).skip(1) =~= b@.skip(from + 1));
        }
        from = from + 1;
    }
    let ghost s = trim_start(b@);
    assert(s == b@.skip(from as int));
    let mut to: usize = n;
    proof {
        assert(b@.subrange(from as int, n as int) =~= s);
    }
    while from < to && (b[to - 1] == 32 || (9 <= b[to - 1] && b[to - 1] <= 13))
        invariant
            n == b@.len(),
            from <= to <= n,
            trim_end(b@.subrange(from as int, to as int)) == trim_end(s),
        decreases to,
    {
        proof {
            let x = b@.subrange(from as int, to as int);
            assert(x.last() == b@[to - 1]);
            assert(x.drop_last() =~= b@.subrange(from as int, to - 1));
        }
        to = to - 1;
    }
    proof {
        let x = b@.subrange(from as int, to as int);
        if from < to {
            assert(x.last() == b@[to - 1]);
        }
    }
    part(b, from, to)
}

/// A text without blanks at its ends is its own trimming.
pub proof fn lemma_trimmed(b: Seq<u8>)
    requires
        b.len() > 0 ==> !is_blank(b[0]) && !is_blank(b.last()),
    ensures
        trimmed(b) == b,
{
}

// ---- lines ----

/// A line without the carriage return at its end.
pub open spec fn without_return(b: Seq<u8>) -> Seq<u8> {
    if b.len() > 0 && b.last() == CARRIAGE_RETURN {
        b.drop_last()
    } else {
        b
    }
}

/// The lines of a text. A line ends with a line feed, perhaps behind a carriage
/// return; the last one may end with the text.
pub open spec fn lines(b: Seq<u8>) -> Seq<Seq<u8>>
    decreases b.len(),
    via lines_decreases
{
    if b.len() == 0 {
        seq![]
    } else {
        let i = first_at(b, NEWLINE);
        if i >= b.len() {
            seq![b]
        } else {
            seq![without_return(b.take(i))] + lines(b.skip(i + 1))
        }
    }
}

#[via_fn]
proof fn lines_decreases(b: Seq<u8>) {
    lemma_first_at(b, NEWLINE);
}

/// The lines of a text.
pub fn split_lines(b: &[u8]) -> (r: Vec<Vec<u8>>)
    ensures
        texts(r@) == lines(b@),
{
    let n: usize = b.len();
    let mut r: Vec<Vec<u8>> = Vec::new();
    let mut at: usize = 0;
    proof {
        assert(texts(r@) =~= seq![]);
        assert(b@.skip(0) =~= b@);
        assert(texts(r@) + lines(b@) =~= lines(b@));
    }
    while at < n
        invariant
            n == b@.len(),
            at <= n,
            texts(r@) + lines(b@.skip(at as int)) == lines(b@),
        decreases n - at,
    {
        let len: usize = find(b, at, NEWLINE);
        let ghost rest = b@.skip(at as int);
        let ghost r0 = texts(r@);
        proof {
            lemma_first_at(rest, NEWLINE);
        }
        let mut end: usize = at + len;
        if at + len < n && len > 0 && b[at + len - 1] == CARRIAGE_RETURN {
            end = end - 1;
        }
        let piece: Vec<u8> = part(b, at, end);
        r.push(piece);
        proof {
            assert(texts(r@) =~= r0.push(piece@));
            if len < rest.len() {
                let t = rest.take(len as int);
                if len > 0 {
                    assert(t.last() == b@[at + len - 1]);
                }
                assert(piece@ =~= without_return(t));
                assert(rest.skip(len + 1) =~= b@.skip(at + len + 1));
                assert(r0 + (seq![piece@] + lines(rest.skip(len + 1))) =~= texts(r@) + lines(
                    b@.skip(at + len + 1),
                ));
            } else {
                assert(piece@ =~= rest);
                assert(r0 + seq![piece@] =~= texts(r@));
                assert(b@.skip(n as int) =~= seq![]);
                assert(texts(r@) + lines(b@.skip(n as int)) =~= texts(r@));
            }
        }
        at = if at + len < n {
            at + len + 1
        } else {
            n
        };
    }
    proof {
        assert(b@.skip(n as int) =~= seq![]);
        assert(texts(r@) + lines(b@.skip(n as int)) =~= texts(r@));
    }
    r
}

/// A line followed by a line feed is the first of the lines.
pub proof fn lemma_line(a: Seq<u8>, rest: Seq<u8>)
    requires
        forall|i: int| 0 <= i < a.len() ==> #[trigger] a[i] != NEWLINE,
        a.len() > 0 ==> a.last() != CARRIAGE_RETURN,
    ensures
        lines(a + seq![NEWLINE] + rest) == seq![a] + lines(rest),
{
    let b = a + seq![NEWLINE] + rest;
    assert forall|i: int| 0 <= i < a.len() implies #[trigger] b[i] != NEWLINE by {
        assert(b[i] == a[i]);
    }
    assert(b[a.len() as int] == NEWLINE);
    lemma_first_at_is(b, NEWLINE, a.len() as int);
    assert(b.take(a.len() as int) =~= a);
    assert(b.skip(a.len() as int + 1) =~= rest);
}

} // verus!
