//! The command line of the demo.
use vstd::prelude::*;
use vstd::string::StringSliceAdditionalSpecFns;
use vstd::utf8::encode_utf8;

use crate::text::{parse_u32, parse_u64, parsed, same, starts, starts_with};

verus! {

/// The bytes of a string.
pub open spec fn bytes_of(s: String) -> Seq<u8> {
    encode_utf8(s@)
}

/// The bytes of each string.
pub open spec fn args_bytes(v: Seq<String>) -> Seq<Seq<u8>> {
    Seq::new(v.len(), |i: int| bytes_of(v[i]))
}

/// The arguments that stand alone.
pub open spec fn is_flag(a: Seq<u8>) -> bool {
    a == "--spin".spec_bytes() || a == "--bare".spec_bytes() || a == "--mix".spec_bytes() || a
        == "--parent-watch".spec_bytes()
}

/// The options with a value among the arguments: whatever starts with two
/// dashes takes the next argument.
pub open spec fn valued(a: Seq<Seq<u8>>) -> Seq<(Seq<u8>, Seq<u8>)>
    decreases a.len(),
{
    if a.len() == 0 {
        seq![]
    } else if is_flag(a[0]) || !starts(a[0], "--".spec_bytes()) {
        valued(a.skip(1))
    } else if a.len() == 1 {
        seq![]
    } else {
        seq![(a[0], a[1])] + valued(a.skip(2))
    }
}

/// The flags among the arguments.
pub open spec fn flagged(a: Seq<Seq<u8>>) -> Seq<Seq<u8>>
    decreases a.len(),
{
    if a.len() == 0 {
        seq![]
    } else if is_flag(a[0]) {
        seq![a[0]] + flagged(a.skip(1))
    } else if !starts(a[0], "--".spec_bytes()) {
        flagged(a.skip(1))
    } else if a.len() == 1 {
        seq![]
    } else {
        flagged(a.skip(2))
    }
}

/// The value of the last option `key`.
pub open spec fn last_value(v: Seq<(Seq<u8>, Seq<u8>)>, key: Seq<u8>) -> Option<Seq<u8>>
    decreases v.len(),
{
    if v.len() == 0 {
        None
    } else if v.last().0 == "--".spec_bytes() + key {
        Some(v.last().1)
    } else {
        last_value(v.drop_last(), key)
    }
}

/// A parsed command line.
#[derive(Debug)]
pub struct Opts {
    pub role: String,
    /// The options with their values, in order.
    pub values: Vec<(String, String)>,
    pub flags: Vec<String>,
}

/// What each option and its value is.
pub open spec fn pairs(v: Seq<(String, String)>) -> Seq<(Seq<u8>, Seq<u8>)> {
    Seq::new(v.len(), |i: int| (bytes_of(v[i].0), bytes_of(v[i].1)))
}

fn takes_none(a: &String) -> (r: bool)
    ensures
        r == is_flag(bytes_of(*a)),
{
    let b: &[u8] = a.as_str().as_bytes();
    same(b, "--spin".as_bytes()) || same(b, "--bare".as_bytes()) || same(b, "--mix".as_bytes()) || same(
        b,
        "--parent-watch".as_bytes(),
    )
}

impl Opts {
    /// Parse a command line, the program's name first.
    pub fn parse(args: &Vec<String>) -> (o: Opts)
        ensures
            o.role@ == if args@.len() > 1 {
                args@[1]@
            } else {
                Seq::<char>::empty()
            },
            ({
                let a = args_bytes(args@);
                let rest = if a.len() > 2 {
                    a.skip(2)
                } else {
                    seq![]
                };
                &&& pairs(o.values@) == valued(rest)
                &&& args_bytes(o.flags@) == flagged(rest)
            }),
    {
        let n: usize = args.len();
        let role: String = if n > 1 {
            args[1].clone()
        } else {
            String::new()
        };
        let mut values: Vec<(String, String)> = Vec::new();
        let mut flags: Vec<String> = Vec::new();
        let ghost a = args_bytes(args@);
        let ghost rest = if a.len() > 2 {
            a.skip(2)
        } else {
            seq![]
        };
        let mut i: usize = if n < 2 {
            n
        } else {
            2
        };
        proof {
            assert(pairs(values@) =~= seq![]);
            assert(args_bytes(flags@) =~= seq![]);
            assert(a.skip(i as int) =~= rest);
            assert(pairs(values@) + valued(rest) =~= valued(rest));
            assert(args_bytes(flags@) + flagged(rest) =~= flagged(rest));
        }
        while i < n
            invariant
                n == args@.len(),
                a == args_bytes(args@),
                i <= n,
                pairs(values@) + valued(a.skip(i as int)) == valued(rest),
                args_bytes(flags@) + flagged(a.skip(i as int)) == flagged(rest),
            decreases n - i,
        {
            let ghost s = a.skip(i as int);
            let ghost v0 = pairs(values@);
            let ghost f0 = args_bytes(flags@);
            proof {
                assert(s[0] == bytes_of(args@[i as int]));
                assert(s.skip(1) =~= a.skip(i + 1));
            }
            if takes_none(&args[i]) {
                let c: String = args[i].clone();
                flags.push(c);
                proof {
                    assert(args_bytes(flags@) =~= f0.push(s[0]));
                    assert(f0 + (seq![s[0]] + flagged(a.skip(i + 1))) =~= f0.push(s[0]) + flagged(
                        a.skip(i + 1),
                    ));
                }
                i = i + 1;
            } else if starts_with(args[i].as_str().as_bytes(), "--".as_bytes()) {
                if n - i > 1 {
                    let k: String = args[i].clone();
                    let v: String = args[i + 1].clone();
                    values.push((k, v));
                    proof {
                        assert(s[1] == bytes_of(args@[i + 1]));
                        assert(s.skip(2) =~= a.skip(i + 2));
                        assert(pairs(values@) =~= v0.push((s[0], s[1])));
                        assert(v0 + (seq![(s[0], s[1])] + valued(a.skip(i + 2))) =~= v0.push(
                            (s[0], s[1]),
                        ) + valued(a.skip(i + 2)));
                    }
                    i = i + 2;
                } else {
                    proof {
                        assert(s.len() == 1);
                        assert(a.skip(n as int) =~= seq![]);
                    }
                    i = n;
                }
            } else {
                i = i + 1;
            }
        }
        proof {
            assert(a.skip(n as int) =~= seq![]);
            assert(pairs(values@) + valued(a.skip(n as int)) =~= pairs(values@));
            assert(args_bytes(flags@) + flagged(a.skip(n as int)) =~= args_bytes(flags@));
        }
        Opts { role, values, flags }
    }

    /// The value of an option: the last one given.
    pub fn get(&self, key: &str) -> (r: Option<&str>)
        ensures
            match last_value(pairs(self.values@), key.spec_bytes()) {
                Some(v) => r is Some && r->Some_0.spec_bytes() == v,
                None => r is None,
            },
    {
        let ghost p = pairs(self.values@);
        let k: &[u8] = key.as_bytes();
        let mut want: Vec<u8> = Vec::new();
        crate::text::append(&mut want, "--".as_bytes());
        crate::text::append(&mut want, k);
        proof {
            assert(want@ =~= "--".spec_bytes() + k@);
        }
        let mut i: usize = self.values.len();
        proof {
            assert(p.take(i as int) =~= p);
        }
        while i > 0
            invariant
                i <= self.values@.len(),
                p == pairs(self.values@),
                k@ == key.spec_bytes(),
                want@ == "--".spec_bytes() + k@,
                last_value(p, k@) == last_value(p.take(i as int), k@),
            decreases i,
        {
            proof {
                assert(p.take(i as int).drop_last() =~= p.take(i - 1));
                assert(p.take(i as int).last() == p[i - 1]);
            }
            if same(self.values[i - 1].0.as_str().as_bytes(), want.as_slice()) {
                return Some(self.values[i - 1].1.as_str());
            }
            i = i - 1;
        }
        None
    }

    /// The value of an option, as a number.
    pub fn num_u64(&self, key: &str) -> (r: Option<u64>)
        ensures
            match last_value(pairs(self.values@), key.spec_bytes()) {
                Some(v) => match parsed(v, u64::MAX as nat) {
                    Some(x) => r == Some(x as u64),
                    None => r is None,
                },
                None => r is None,
            },
    {
        match self.get(key) {
            None => None,
            Some(v) => parse_u64(v.as_bytes()),
        }
    }

    /// The value of an option, as a number.
    pub fn num_u32(&self, key: &str) -> (r: Option<u32>)
        ensures
            match last_value(pairs(self.values@), key.spec_bytes()) {
                Some(v) => match parsed(v, u32::MAX as nat) {
                    Some(x) => r == Some(x as u32),
                    None => r is None,
                },
                None => r is None,
            },
    {
        match self.get(key) {
            None => None,
            Some(v) => parse_u32(v.as_bytes()),
        }
    }

    /// Whether a flag was given.
    pub fn flag(&self, key: &str) -> (r: bool)
        ensures
            r == args_bytes(self.flags@).contains(key.spec_bytes()),
    {
        let ghost f = args_bytes(self.flags@);
        let n: usize = self.flags.len();
        let mut i: usize = 0;
        while i < n
            invariant
                n == self.flags@.len(),
                f == args_bytes(self.flags@),
                i <= n,
                forall|k: int| 0 <= k < i ==> #[trigger] f[k] != key.spec_bytes(),
            decreases n - i,
        {
            assert(f[i as int] == bytes_of(self.flags@[i as int]));
            if same(self.flags[i].as_str().as_bytes(), key.as_bytes()) {
                return true;
            }
            i = i + 1;
        }
        false
    }
}

} // verus!
