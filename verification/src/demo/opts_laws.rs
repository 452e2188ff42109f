//! Command lines read back as the options they were made of.
use vstd::prelude::*;
use vstd::string::StringSliceAdditionalSpecFns;

use crate::demo::crash::{flag_arg, num_arg, text_arg, text_view, ClientOpts, PricerOpts};
use crate::demo::opts::{flagged, is_flag, last_value, valued};
use crate::text::{digits, number_round_trip, parsed, starts};

verus! {

// ---- the words ----

proof fn word_uds()
    ensures
        "--uds".spec_bytes().len() == 5,
        "--uds".spec_bytes()[2] == 117,
        starts("--uds".spec_bytes(), "--".spec_bytes()),
        "--uds".spec_bytes() == "--".spec_bytes() + "uds".spec_bytes(),
{
    reveal_strlit("--");
    reveal_strlit("--uds");
    vstd::string::is_ascii_spec_bytes("--");
    vstd::string::is_ascii_spec_bytes("--uds");
    assert("--uds".spec_bytes().take(2) =~= "--".spec_bytes());
    reveal_strlit("uds");
    vstd::string::is_ascii_spec_bytes("uds");
    assert("--uds".spec_bytes() =~= "--".spec_bytes() + "uds".spec_bytes());
}

proof fn word_lease_ms()
    ensures
        "--lease-ms".spec_bytes().len() == 10,
        "--lease-ms".spec_bytes()[2] == 108,
        starts("--lease-ms".spec_bytes(), "--".spec_bytes()),
        "--lease-ms".spec_bytes() == "--".spec_bytes() + "lease-ms".spec_bytes(),
{
    reveal_strlit("--");
    reveal_strlit("--lease-ms");
    vstd::string::is_ascii_spec_bytes("--");
    vstd::string::is_ascii_spec_bytes("--lease-ms");
    assert("--lease-ms".spec_bytes().take(2) =~= "--".spec_bytes());
    reveal_strlit("lease-ms");
    vstd::string::is_ascii_spec_bytes("lease-ms");
    assert("--lease-ms".spec_bytes() =~= "--".spec_bytes() + "lease-ms".spec_bytes());
}

proof fn word_kill_after()
    ensures
        "--kill-after".spec_bytes().len() == 12,
        "--kill-after".spec_bytes()[2] == 107,
        starts("--kill-after".spec_bytes(), "--".spec_bytes()),
        "--kill-after".spec_bytes() == "--".spec_bytes() + "kill-after".spec_bytes(),
{
    reveal_strlit("--");
    reveal_strlit("--kill-after");
    vstd::string::is_ascii_spec_bytes("--");
    vstd::string::is_ascii_spec_bytes("--kill-after");
    assert("--kill-after".spec_bytes().take(2) =~= "--".spec_bytes());
    reveal_strlit("kill-after");
    vstd::string::is_ascii_spec_bytes("kill-after");
    assert("--kill-after".spec_bytes() =~= "--".spec_bytes() + "kill-after".spec_bytes());
}

proof fn word_result()
    ensures
        "--result".spec_bytes().len() == 8,
        "--result".spec_bytes()[2] == 114,
        starts("--result".spec_bytes(), "--".spec_bytes()),
        "--result".spec_bytes() == "--".spec_bytes() + "result".spec_bytes(),
{
    reveal_strlit("--");
    reveal_strlit("--result");
    vstd::string::is_ascii_spec_bytes("--");
    vstd::string::is_ascii_spec_bytes("--result");
    assert("--result".spec_bytes().take(2) =~= "--".spec_bytes());
    reveal_strlit("result");
    vstd::string::is_ascii_spec_bytes("result");
    assert("--result".spec_bytes() =~= "--".spec_bytes() + "result".spec_bytes());
}

proof fn word_n()
    ensures
        "--n".spec_bytes().len() == 3,
        "--n".spec_bytes()[2] == 110,
        starts("--n".spec_bytes(), "--".spec_bytes()),
        "--n".spec_bytes() == "--".spec_bytes() + "n".spec_bytes(),
{
    reveal_strlit("--");
    reveal_strlit("--n");
    vstd::string::is_ascii_spec_bytes("--");
    vstd::string::is_ascii_spec_bytes("--n");
    assert("--n".spec_bytes().take(2) =~= "--".spec_bytes());
    reveal_strlit("n");
    vstd::string::is_ascii_spec_bytes("n");
    assert("--n".spec_bytes() =~= "--".spec_bytes() + "n".spec_bytes());
}

proof fn word_clients()
    ensures
        "--clients".spec_bytes().len() == 9,
        "--clients".spec_bytes()[2] == 99,
        starts("--clients".spec_bytes(), "--".spec_bytes()),
        "--clients".spec_bytes() == "--".spec_bytes() + "clients".spec_bytes(),
{
    reveal_strlit("--");
    reveal_strlit("--clients");
    vstd::string::is_ascii_spec_bytes("--");
    vstd::string::is_ascii_spec_bytes("--clients");
    assert("--clients".spec_bytes().take(2) =~= "--".spec_bytes());
    reveal_strlit("clients");
    vstd::string::is_ascii_spec_bytes("clients");
    assert("--clients".spec_bytes() =~= "--".spec_bytes() + "clients".spec_bytes());
}

proof fn word_spin()
    ensures
        "--spin".spec_bytes().len() == 6,
        "--spin".spec_bytes()[2] == 115,
        starts("--spin".spec_bytes(), "--".spec_bytes()),
{
    reveal_strlit("--");
    reveal_strlit("--spin");
    vstd::string::is_ascii_spec_bytes("--");
    vstd::string::is_ascii_spec_bytes("--spin");
    assert("--spin".spec_bytes().take(2) =~= "--".spec_bytes());
}

proof fn word_bare()
    ensures
        "--bare".spec_bytes().len() == 6,
        "--bare".spec_bytes()[2] == 98,
        starts("--bare".spec_bytes(), "--".spec_bytes()),
{
    reveal_strlit("--");
    reveal_strlit("--bare");
    vstd::string::is_ascii_spec_bytes("--");
    vstd::string::is_ascii_spec_bytes("--bare");
    assert("--bare".spec_bytes().take(2) =~= "--".spec_bytes());
}

proof fn word_mix()
    ensures
        "--mix".spec_bytes().len() == 5,
        "--mix".spec_bytes()[2] == 109,
        starts("--mix".spec_bytes(), "--".spec_bytes()),
{
    reveal_strlit("--");
    reveal_strlit("--mix");
    vstd::string::is_ascii_spec_bytes("--");
    vstd::string::is_ascii_spec_bytes("--mix");
    assert("--mix".spec_bytes().take(2) =~= "--".spec_bytes());
}

proof fn word_parent_watch()
    ensures
        "--parent-watch".spec_bytes().len() == 14,
        "--parent-watch".spec_bytes()[2] == 112,
        starts("--parent-watch".spec_bytes(), "--".spec_bytes()),
{
    reveal_strlit("--");
    reveal_strlit("--parent-watch");
    vstd::string::is_ascii_spec_bytes("--");
    vstd::string::is_ascii_spec_bytes("--parent-watch");
    assert("--parent-watch".spec_bytes().take(2) =~= "--".spec_bytes());
}

/// No option is a flag or another option.
proof fn words_differ()
    ensures
        !is_flag("--uds".spec_bytes()),
        !is_flag("--lease-ms".spec_bytes()),
        !is_flag("--kill-after".spec_bytes()),
        !is_flag("--result".spec_bytes()),
        !is_flag("--n".spec_bytes()),
        !is_flag("--clients".spec_bytes()),
        is_flag("--spin".spec_bytes()),
        is_flag("--bare".spec_bytes()),
        is_flag("--mix".spec_bytes()),
        is_flag("--parent-watch".spec_bytes()),
        "--uds".spec_bytes() != "--lease-ms".spec_bytes(),
        "--uds".spec_bytes() != "--kill-after".spec_bytes(),
        "--uds".spec_bytes() != "--result".spec_bytes(),
        "--uds".spec_bytes() != "--n".spec_bytes(),
        "--uds".spec_bytes() != "--clients".spec_bytes(),
        "--lease-ms".spec_bytes() != "--kill-after".spec_bytes(),
        "--lease-ms".spec_bytes() != "--result".spec_bytes(),
        "--lease-ms".spec_bytes() != "--n".spec_bytes(),
        "--lease-ms".spec_bytes() != "--clients".spec_bytes(),
        "--kill-after".spec_bytes() != "--result".spec_bytes(),
        "--kill-after".spec_bytes() != "--n".spec_bytes(),
        "--kill-after".spec_bytes() != "--clients".spec_bytes(),
        "--result".spec_bytes() != "--n".spec_bytes(),
        "--result".spec_bytes() != "--clients".spec_bytes(),
        "--n".spec_bytes() != "--clients".spec_bytes(),
        "--spin".spec_bytes() != "--bare".spec_bytes(),
        "--spin".spec_bytes() != "--mix".spec_bytes(),
        "--spin".spec_bytes() != "--parent-watch".spec_bytes(),
        "--bare".spec_bytes() != "--mix".spec_bytes(),
        "--bare".spec_bytes() != "--parent-watch".spec_bytes(),
        "--mix".spec_bytes() != "--parent-watch".spec_bytes(),
{
    word_uds();
    word_lease_ms();
    word_kill_after();
    word_result();
    word_n();
    word_clients();
    word_spin();
    word_bare();
    word_mix();
    word_parent_watch();
}

// ---- arguments in front of others ----

/// The option `name` with its value, if there is one.
pub open spec fn pair(name: Seq<u8>, x: Option<Seq<u8>>) -> Seq<(Seq<u8>, Seq<u8>)> {
    match x {
        Some(t) => seq![(name, t)],
        None => seq![],
    }
}

/// A number as text, if there is one.
pub open spec fn num_text(x: Option<u64>) -> Option<Seq<u8>> {
    match x {
        Some(n) => Some(digits(n as nat)),
        None => None,
    }
}

proof fn lemma_num_arg(name: Seq<u8>, x: Option<u64>)
    ensures
        num_arg(name, x) == text_arg(name, num_text(x)),
{
    assert(num_arg(name, x) =~= text_arg(name, num_text(x)));
}

proof fn lemma_flag_first(name: Seq<u8>, on: bool, rest: Seq<Seq<u8>>)
    requires
        is_flag(name),
    ensures
        valued(flag_arg(name, on) + rest) == valued(rest),
        flagged(flag_arg(name, on) + rest) == flag_arg(name, on) + flagged(rest),
{
    let a = flag_arg(name, on) + rest;
    if on {
        assert(a[0] == name);
        assert(a.skip(1) =~= rest);
    } else {
        assert(a =~= rest);
        assert(flag_arg(name, on) + flagged(rest) =~= flagged(rest));
    }
}

proof fn lemma_option_first(name: Seq<u8>, x: Option<Seq<u8>>, rest: Seq<Seq<u8>>)
    requires
        !is_flag(name),
        starts(name, "--".spec_bytes()),
    ensures
        valued(text_arg(name, x) + rest) == pair(name, x) + valued(rest),
        flagged(text_arg(name, x) + rest) == flagged(rest),
{
    let a = text_arg(name, x) + rest;
    if x is Some {
        assert(a[0] == name && a[1] == x->Some_0);
        assert(a.skip(2) =~= rest);
    } else {
        assert(a =~= rest);
        assert(pair(name, x) + valued(rest) =~= valued(rest));
    }
}

proof fn lemma_nothing()
    ensures
        valued(Seq::<Seq<u8>>::empty()) == Seq::<(Seq<u8>, Seq<u8>)>::empty(),
        flagged(Seq::<Seq<u8>>::empty()) == Seq::<Seq<u8>>::empty(),
{
}

/// The last value among options of which the last is `name`.
proof fn lemma_last(v: Seq<(Seq<u8>, Seq<u8>)>, name: Seq<u8>, x: Option<Seq<u8>>, key: Seq<u8>)
    ensures
        last_value(v + pair(name, x), key) == if name == "--".spec_bytes() + key && x is Some {
            x
        } else {
            last_value(v, key)
        },
{
    let w = v + pair(name, x);
    if x is Some {
        assert(w.last() == (name, x->Some_0));
        assert(w.drop_last() =~= v);
    } else {
        assert(w =~= v);
    }
}

proof fn lemma_flags(f: Seq<Seq<u8>>, name: Seq<u8>, on: bool, key: Seq<u8>)
    ensures
        (f + flag_arg(name, on)).contains(key) == (f.contains(key) || (on && name == key)),
{
    let w = f + flag_arg(name, on);
    if f.contains(key) {
        let i = choose|i: int| 0 <= i < f.len() && f[i] == key;
        assert(w[i] == key);
    }
    if on && name == key {
        assert(w[f.len() as int] == key);
    }
    if w.contains(key) {
        let i = choose|i: int| 0 <= i < w.len() && w[i] == key;
        if i < f.len() {
            assert(f[i] == key);
        }
    }
}

/// What a number on the command line is read as, if it was given.
pub open spec fn read_number(x: Option<Seq<u8>>) -> Option<nat> {
    match x {
        Some(t) => parsed(t, u64::MAX as nat),
        None => None,
    }
}

/// A number as it is read, if there is one.
pub open spec fn as_number(x: Option<u64>) -> Option<nat> {
    match x {
        Some(n) => Some(n as nat),
        None => None,
    }
}

proof fn lemma_read_number(x: Option<u64>)
    ensures
        read_number(num_text(x)) == as_number(x),
        num_text(x) is Some <==> x is Some,
{
    if let Some(n) = x {
        number_round_trip(n as nat, u64::MAX as nat);
    }
}

// ---- the laws ----

/// Putting sequences together from the left or from the right is the same.
proof fn lemma_together<T>(a: Seq<T>, b: Seq<T>, c: Seq<T>, d: Seq<T>, e: Seq<T>, f: Seq<T>, g: Seq<T>)
    ensures
        a + b + c + d + e + f + g == a + (b + (c + (d + (e + (f + (g + Seq::<T>::empty())))))),
        a + b + c + d == a + (b + (c + (d + Seq::<T>::empty()))),
        a + b + c == a + (b + (c + Seq::<T>::empty())),
{
    assert(g + Seq::<T>::empty() =~= g);
    assert(d + Seq::<T>::empty() =~= d);
    assert(c + Seq::<T>::empty() =~= c);
    assert(a + b + c =~= a + (b + c));
    assert(a + (b + c) + d =~= a + (b + (c + d)));
    assert(a + b + c + d + e =~= (a + b + c + d) + e);
    let h = a + b + c + d;
    assert(h + e + f + g =~= h + (e + (f + g)));
    let t = e + (f + g);
    assert(a + (b + (c + d)) + t =~= a + (b + (c + (d + t))));
}

/// What stands behind the program's name and the role.
proof fn lemma_behind(
    exe: Seq<u8>,
    role: Seq<u8>,
    name: Seq<u8>,
    x: Seq<u8>,
    rest: Seq<Seq<u8>>,
    line: Seq<Seq<u8>>,
)
    requires
        line == seq![exe] + (seq![role, name, x] + rest),
    ensures
        line[1] == role,
        line.skip(2) == text_arg(name, Some(x)) + rest,
{
    assert(line.skip(2) =~= text_arg(name, Some(x)) + rest);
}

/// The options with a value on the command line of a pricer.
pub open spec fn pricer_values(o: &PricerOpts, uds: Seq<u8>) -> Seq<(Seq<u8>, Seq<u8>)> {
    pair("--uds".spec_bytes(), Some(uds)) + pair("--lease-ms".spec_bytes(), num_text(o.lease_ms)) + pair(
        "--kill-after".spec_bytes(),
        num_text(o.kill_after),
    ) + pair("--result".spec_bytes(), text_view(o.result))
}

/// The flags on the command line of a pricer.
pub open spec fn pricer_flags(o: &PricerOpts) -> Seq<Seq<u8>> {
    flag_arg("--parent-watch".spec_bytes(), o.parent_watch) + flag_arg("--spin".spec_bytes(), o.spin)
        + flag_arg("--bare".spec_bytes(), o.bare)
}

proof fn lemma_pricer_line(o: &PricerOpts, uds: Seq<u8>, exe: Seq<u8>, line: Seq<Seq<u8>>)
    requires
        line == seq![exe] + o.spec_args(uds),
    ensures
        line[1] == "pricer".spec_bytes(),
        valued(line.skip(2)) == pricer_values(o, uds),
        flagged(line.skip(2)) == pricer_flags(o),
{
    words_differ();
    let r7 = Seq::<Seq<u8>>::empty();
    lemma_nothing();
    let r6 = text_arg("--result".spec_bytes(), text_view(o.result)) + r7;
    word_result();
    lemma_option_first("--result".spec_bytes(), text_view(o.result), r7);
    let r5 = num_arg("--kill-after".spec_bytes(), o.kill_after) + r6;
    word_kill_after();
    lemma_num_arg("--kill-after".spec_bytes(), o.kill_after);
    lemma_option_first("--kill-after".spec_bytes(), num_text(o.kill_after), r6);
    let r4 = num_arg("--lease-ms".spec_bytes(), o.lease_ms) + r5;
    word_lease_ms();
    lemma_num_arg("--lease-ms".spec_bytes(), o.lease_ms);
    lemma_option_first("--lease-ms".spec_bytes(), num_text(o.lease_ms), r5);
    let r3 = flag_arg("--bare".spec_bytes(), o.bare) + r4;
    lemma_flag_first("--bare".spec_bytes(), o.bare, r4);
    let r2 = flag_arg("--spin".spec_bytes(), o.spin) + r3;
    lemma_flag_first("--spin".spec_bytes(), o.spin, r3);
    let r1 = flag_arg("--parent-watch".spec_bytes(), o.parent_watch) + r2;
    lemma_flag_first("--parent-watch".spec_bytes(), o.parent_watch, r2);
    let r0 = text_arg("--uds".spec_bytes(), Some(uds)) + r1;
    word_uds();
    lemma_option_first("--uds".spec_bytes(), Some(uds), r1);
    let first = seq!["pricer".spec_bytes(), "--uds".spec_bytes(), uds];
    lemma_together(
        first,
        flag_arg("--parent-watch".spec_bytes(), o.parent_watch),
        flag_arg("--spin".spec_bytes(), o.spin),
        flag_arg("--bare".spec_bytes(), o.bare),
        num_arg("--lease-ms".spec_bytes(), o.lease_ms),
        num_arg("--kill-after".spec_bytes(), o.kill_after),
        text_arg("--result".spec_bytes(), text_view(o.result)),
    );
    lemma_behind(exe, "pricer".spec_bytes(), "--uds".spec_bytes(), uds, r1, line);
    lemma_together(
        pair("--uds".spec_bytes(), Some(uds)),
        pair("--lease-ms".spec_bytes(), num_text(o.lease_ms)),
        pair("--kill-after".spec_bytes(), num_text(o.kill_after)),
        pair("--result".spec_bytes(), text_view(o.result)),
        seq![],
        seq![],
        seq![],
    );
    lemma_together(
        flag_arg("--parent-watch".spec_bytes(), o.parent_watch),
        flag_arg("--spin".spec_bytes(), o.spin),
        flag_arg("--bare".spec_bytes(), o.bare),
        seq![],
        seq![],
        seq![],
        seq![],
    );
}

proof fn lemma_pricer_values(o: &PricerOpts, uds: Seq<u8>)
    ensures
        ({
            let v = pricer_values(o, uds);
            &&& last_value(v, "uds".spec_bytes()) == Some(uds)
            &&& last_value(v, "lease-ms".spec_bytes()) == num_text(o.lease_ms)
            &&& last_value(v, "kill-after".spec_bytes()) == num_text(o.kill_after)
            &&& last_value(v, "result".spec_bytes()) == text_view(o.result)
        }),
{
    words_differ();
    word_uds();
    word_lease_ms();
    word_kill_after();
    word_result();
    let v0 = Seq::<(Seq<u8>, Seq<u8>)>::empty();
    let v1 = v0 + pair("--uds".spec_bytes(), Some(uds));
    let v2 = v1 + pair("--lease-ms".spec_bytes(), num_text(o.lease_ms));
    let v3 = v2 + pair("--kill-after".spec_bytes(), num_text(o.kill_after));
    let v4 = v3 + pair("--result".spec_bytes(), text_view(o.result));
    assert(v4 =~= pricer_values(o, uds));
    lemma_last(v0, "--uds".spec_bytes(), Some(uds), "uds".spec_bytes());
    lemma_last(v1, "--lease-ms".spec_bytes(), num_text(o.lease_ms), "uds".spec_bytes());
    lemma_last(v2, "--kill-after".spec_bytes(), num_text(o.kill_after), "uds".spec_bytes());
    lemma_last(v3, "--result".spec_bytes(), text_view(o.result), "uds".spec_bytes());
    lemma_last(v0, "--uds".spec_bytes(), Some(uds), "lease-ms".spec_bytes());
    lemma_last(v1, "--lease-ms".spec_bytes(), num_text(o.lease_ms), "lease-ms".spec_bytes());
    lemma_last(v2, "--kill-after".spec_bytes(), num_text(o.kill_after), "lease-ms".spec_bytes());
    lemma_last(v3, "--result".spec_bytes(), text_view(o.result), "lease-ms".spec_bytes());
    lemma_last(v0, "--uds".spec_bytes(), Some(uds), "kill-after".spec_bytes());
    lemma_last(v1, "--lease-ms".spec_bytes(), num_text(o.lease_ms), "kill-after".spec_bytes());
    lemma_last(v2, "--kill-after".spec_bytes(), num_text(o.kill_after), "kill-after".spec_bytes());
    lemma_last(v3, "--result".spec_bytes(), text_view(o.result), "kill-after".spec_bytes());
    lemma_last(v0, "--uds".spec_bytes(), Some(uds), "result".spec_bytes());
    lemma_last(v1, "--lease-ms".spec_bytes(), num_text(o.lease_ms), "result".spec_bytes());
    lemma_last(v2, "--kill-after".spec_bytes(), num_text(o.kill_after), "result".spec_bytes());
    lemma_last(v3, "--result".spec_bytes(), text_view(o.result), "result".spec_bytes());
}

proof fn lemma_pricer_flags(o: &PricerOpts)
    ensures
        ({
            let f = pricer_flags(o);
            &&& f.contains("--parent-watch".spec_bytes()) == o.parent_watch
            &&& f.contains("--spin".spec_bytes()) == o.spin
            &&& f.contains("--bare".spec_bytes()) == o.bare
            &&& !f.contains("--mix".spec_bytes())
        }),
{
    words_differ();
    let f0 = Seq::<Seq<u8>>::empty();
    let f1 = f0 + flag_arg("--parent-watch".spec_bytes(), o.parent_watch);
    let f2 = f1 + flag_arg("--spin".spec_bytes(), o.spin);
    let f3 = f2 + flag_arg("--bare".spec_bytes(), o.bare);
    assert(f3 =~= pricer_flags(o));
    lemma_flags(f0, "--parent-watch".spec_bytes(), o.parent_watch, "--parent-watch".spec_bytes());
    lemma_flags(f1, "--spin".spec_bytes(), o.spin, "--parent-watch".spec_bytes());
    lemma_flags(f2, "--bare".spec_bytes(), o.bare, "--parent-watch".spec_bytes());
    lemma_flags(f0, "--parent-watch".spec_bytes(), o.parent_watch, "--spin".spec_bytes());
    lemma_flags(f1, "--spin".spec_bytes(), o.spin, "--spin".spec_bytes());
    lemma_flags(f2, "--bare".spec_bytes(), o.bare, "--spin".spec_bytes());
    lemma_flags(f0, "--parent-watch".spec_bytes(), o.parent_watch, "--bare".spec_bytes());
    lemma_flags(f1, "--spin".spec_bytes(), o.spin, "--bare".spec_bytes());
    lemma_flags(f2, "--bare".spec_bytes(), o.bare, "--bare".spec_bytes());
    lemma_flags(f0, "--parent-watch".spec_bytes(), o.parent_watch, "--mix".spec_bytes());
    lemma_flags(f1, "--spin".spec_bytes(), o.spin, "--mix".spec_bytes());
    lemma_flags(f2, "--bare".spec_bytes(), o.bare, "--mix".spec_bytes());
}

/// The command line of a pricer, behind the program's name, reads back as the
/// pricer's options.
pub proof fn pricer_options_read_back(o: &PricerOpts, uds: Seq<u8>, exe: Seq<u8>, line: Seq<Seq<u8>>)
    requires
        line == seq![exe] + o.spec_args(uds),
    ensures
        line[1] == "pricer".spec_bytes(),
        ({
            let v = valued(line.skip(2));
            let f = flagged(line.skip(2));
            &&& last_value(v, "uds".spec_bytes()) == Some(uds)
            &&& last_value(v, "lease-ms".spec_bytes()) is Some <==> o.lease_ms is Some
            &&& read_number(last_value(v, "lease-ms".spec_bytes())) == as_number(o.lease_ms)
            &&& last_value(v, "kill-after".spec_bytes()) is Some <==> o.kill_after is Some
            &&& read_number(last_value(v, "kill-after".spec_bytes())) == as_number(o.kill_after)
            &&& last_value(v, "result".spec_bytes()) == text_view(o.result)
            &&& f.contains("--parent-watch".spec_bytes()) == o.parent_watch
            &&& f.contains("--spin".spec_bytes()) == o.spin
            &&& f.contains("--bare".spec_bytes()) == o.bare
            &&& !f.contains("--mix".spec_bytes())
        }),
{
    lemma_pricer_line(o, uds, exe, line);
    lemma_pricer_values(o, uds);
    lemma_pricer_flags(o);
    lemma_read_number(o.lease_ms);
    lemma_read_number(o.kill_after);
}

/// The command line of a client, behind the program's name, reads back as the
/// client's options.
pub proof fn client_options_read_back(
    o: ClientOpts,
    uds: Seq<u8>,
    result: Seq<u8>,
    exe: Seq<u8>,
    line: Seq<Seq<u8>>,
)
    requires
        line == seq![exe] + o.spec_args(uds, result),
    ensures
        line[1] == "client".spec_bytes(),
        ({
            let v = valued(line.skip(2));
            let f = flagged(line.skip(2));
            &&& last_value(v, "uds".spec_bytes()) == Some(uds)
            &&& read_number(last_value(v, "n".spec_bytes())) == Some(o.n as nat)
            &&& read_number(last_value(v, "clients".spec_bytes())) == Some(o.clients as nat)
            &&& last_value(v, "result".spec_bytes()) == Some(result)
            &&& f.contains("--spin".spec_bytes()) == o.spin
            &&& f.contains("--bare".spec_bytes()) == o.bare
            &&& f.contains("--mix".spec_bytes()) == o.mix
            &&& !f.contains("--parent-watch".spec_bytes())
        }),
{
    words_differ();
    let r7 = Seq::<Seq<u8>>::empty();
    lemma_nothing();
    let r6 = flag_arg("--mix".spec_bytes(), o.mix) + r7;
    lemma_flag_first("--mix".spec_bytes(), o.mix, r7);
    let r5 = flag_arg("--bare".spec_bytes(), o.bare) + r6;
    lemma_flag_first("--bare".spec_bytes(), o.bare, r6);
    let r4 = flag_arg("--spin".spec_bytes(), o.spin) + r5;
    lemma_flag_first("--spin".spec_bytes(), o.spin, r5);
    let r3 = text_arg("--result".spec_bytes(), Some(result)) + r4;
    word_result();
    lemma_option_first("--result".spec_bytes(), Some(result), r4);
    let r2 = num_arg("--clients".spec_bytes(), Some(o.clients as u64)) + r3;
    word_clients();
    lemma_num_arg("--clients".spec_bytes(), Some(o.clients as u64));
    lemma_option_first("--clients".spec_bytes(), num_text(Some(o.clients as u64)), r3);
    lemma_read_number(Some(o.clients as u64));
    let r1 = num_arg("--n".spec_bytes(), Some(o.n)) + r2;
    word_n();
    lemma_num_arg("--n".spec_bytes(), Some(o.n));
    lemma_option_first("--n".spec_bytes(), num_text(Some(o.n)), r2);
    lemma_read_number(Some(o.n));
    let r0 = text_arg("--uds".spec_bytes(), Some(uds)) + r1;
    word_uds();
    lemma_option_first("--uds".spec_bytes(), Some(uds), r1);
    assert(line.skip(2) =~= r0);
    let v0 = Seq::<(Seq<u8>, Seq<u8>)>::empty();
    let v1 = v0 + pair("--uds".spec_bytes(), Some(uds));
    let v2 = v1 + pair("--n".spec_bytes(), num_text(Some(o.n)));
    let v3 = v2 + pair("--clients".spec_bytes(), num_text(Some(o.clients as u64)));
    let v4 = v3 + pair("--result".spec_bytes(), Some(result));
    assert(valued(r0) =~= v4);
    lemma_last(v0, "--uds".spec_bytes(), Some(uds), "uds".spec_bytes());
    lemma_last(v1, "--n".spec_bytes(), num_text(Some(o.n)), "uds".spec_bytes());
    lemma_last(v2, "--clients".spec_bytes(), num_text(Some(o.clients as u64)), "uds".spec_bytes());
    lemma_last(v3, "--result".spec_bytes(), Some(result), "uds".spec_bytes());
    lemma_last(v0, "--uds".spec_bytes(), Some(uds), "n".spec_bytes());
    lemma_last(v1, "--n".spec_bytes(), num_text(Some(o.n)), "n".spec_bytes());
    lemma_last(v2, "--clients".spec_bytes(), num_text(Some(o.clients as u64)), "n".spec_bytes());
    lemma_last(v3, "--result".spec_bytes(), Some(result), "n".spec_bytes());
    lemma_last(v0, "--uds".spec_bytes(), Some(uds), "clients".spec_bytes());
    lemma_last(v1, "--n".spec_bytes(), num_text(Some(o.n)), "clients".spec_bytes());
    lemma_last(v2, "--clients".spec_bytes(), num_text(Some(o.clients as u64)), "clients".spec_bytes());
    lemma_last(v3, "--result".spec_bytes(), Some(result), "clients".spec_bytes());
    lemma_last(v0, "--uds".spec_bytes(), Some(uds), "result".spec_bytes());
    lemma_last(v1, "--n".spec_bytes(), num_text(Some(o.n)), "result".spec_bytes());
    lemma_last(v2, "--clients".spec_bytes(), num_text(Some(o.clients as u64)), "result".spec_bytes());
    lemma_last(v3, "--result".spec_bytes(), Some(result), "result".spec_bytes());
    let f0 = Seq::<Seq<u8>>::empty();
    let f1 = f0 + flag_arg("--spin".spec_bytes(), o.spin);
    let f2 = f1 + flag_arg("--bare".spec_bytes(), o.bare);
    let f3 = f2 + flag_arg("--mix".spec_bytes(), o.mix);
    assert(flagged(r0) =~= f3);
    lemma_flags(f0, "--spin".spec_bytes(), o.spin, "--parent-watch".spec_bytes());
    lemma_flags(f1, "--bare".spec_bytes(), o.bare, "--parent-watch".spec_bytes());
    lemma_flags(f2, "--mix".spec_bytes(), o.mix, "--parent-watch".spec_bytes());
    lemma_flags(f0, "--spin".spec_bytes(), o.spin, "--spin".spec_bytes());
    lemma_flags(f1, "--bare".spec_bytes(), o.bare, "--spin".spec_bytes());
    lemma_flags(f2, "--mix".spec_bytes(), o.mix, "--spin".spec_bytes());
    lemma_flags(f0, "--spin".spec_bytes(), o.spin, "--bare".spec_bytes());
    lemma_flags(f1, "--bare".spec_bytes(), o.bare, "--bare".spec_bytes());
    lemma_flags(f2, "--mix".spec_bytes(), o.mix, "--bare".spec_bytes());
    lemma_flags(f0, "--spin".spec_bytes(), o.spin, "--mix".spec_bytes());
    lemma_flags(f1, "--bare".spec_bytes(), o.bare, "--mix".spec_bytes());
    lemma_flags(f2, "--mix".spec_bytes(), o.mix, "--mix".spec_bytes());
}

} // verus!
