//! What a supervisor's log says of its children.
use vstd::prelude::*;
use vstd::string::StringSliceAdditionalSpecFns;

use crate::counting::{how_many, lemma_how_many_last, lemma_how_many_none};
use crate::demo::crash::{
    code_text, count_starting, log_line, next_incarnation, said, time_from, ClientOpts, Heard,
    PricerOpts, Supervisor,
};
use crate::demo::plan_laws::a_line_of_a_log_is_read_back;
use crate::demo::report::lost_of;
use crate::demo::roles::Role;
use crate::text::{digits, number_round_trip, parts, starts};
use crate::text_laws::free_of;

verus! {

/// What was heard, and which incarnation it came to.
pub open spec fn incarnation_after(es: Seq<Heard>) -> u32
    decreases es.len(),
{
    if es.len() == 0 {
        0
    } else {
        next_incarnation(incarnation_after(es.drop_last()), es.last())
    }
}

/// The log of what was heard.
pub open spec fn logged(es: Seq<Heard>) -> Seq<Seq<u8>>
    decreases es.len(),
{
    if es.len() == 0 {
        seq![]
    } else {
        match said(incarnation_after(es.drop_last()), es.last()) {
            Some(l) => logged(es.drop_last()).push(l),
            None => logged(es.drop_last()),
        }
    }
}

proof fn lemma_words()
    ensures
        "START".spec_bytes() =~= seq![83u8, 84u8, 65u8, 82u8, 84u8],
        "RESTART".spec_bytes() =~= seq![82u8, 69u8, 83u8, 84u8, 65u8, 82u8, 84u8],
        "EXIT".spec_bytes() =~= seq![69u8, 88u8, 73u8, 84u8],
        "TERM".spec_bytes() =~= seq![84u8, 69u8, 82u8, 77u8],
{
    reveal_strlit("START");
    reveal_strlit("RESTART");
    reveal_strlit("EXIT");
    reveal_strlit("TERM");
    vstd::string::is_ascii_spec_bytes("START");
    vstd::string::is_ascii_spec_bytes("RESTART");
    vstd::string::is_ascii_spec_bytes("EXIT");
    vstd::string::is_ascii_spec_bytes("TERM");
}

proof fn lemma_digits_free(n: nat)
    ensures
        free_of(digits(n), 32),
{
    number_round_trip(n, n);
    assert forall|i: int| 0 <= i < digits(n).len() implies #[trigger] digits(n)[i] != 32 by {
        assert(crate::text::is_digit(digits(n)[i]));
    }
}

proof fn lemma_code_free(c: i32)
    ensures
        free_of(code_text(c), 32),
{
    if c < 0 {
        lemma_digits_free((-c) as nat);
        let (t, d) = (code_text(c), digits((-c) as nat));
        assert forall|i: int| 0 <= i < t.len() implies #[trigger] t[i] != 32 by {
            if i > 0 {
                assert(t[i] == d[i - 1]);
            }
        }
    } else {
        lemma_digits_free(c as nat);
    }
}

/// What is logged of a child, field by field: that its first incarnation started, that a
/// later one did, or that one is gone, each with which one it was, its process, how it
/// ended, and when; and that the supervisor was told to stop, and when. Nothing else is
/// logged.
pub proof fn what_is_logged(i: u32, h: Heard)
    ensures
        match h {
            Heard::Started { pid, now } => said(i, h) is Some && parts(said(i, h)->Some_0, 32) == seq![
                if i == 0 {
                    "START".spec_bytes()
                } else {
                    "RESTART".spec_bytes()
                },
                digits(i as nat),
                digits(pid as nat),
                digits(now as nat),
            ],
            Heard::Exited { pid, code, now } => said(i, h) is Some && parts(said(i, h)->Some_0, 32) == seq![
                "EXIT".spec_bytes(),
                digits(i as nat),
                digits(pid as nat),
                code_text(code),
                digits(now as nat),
            ],
            Heard::Term { now } => said(i, h) is Some && parts(said(i, h)->Some_0, 32) == seq![
                "TERM".spec_bytes(),
                digits(now as nat),
            ],
            _ => said(i, h) is None,
        },
{
    lemma_words();
    lemma_digits_free(i as nat);
    match h {
        Heard::Started { pid, now } => {
            lemma_digits_free(pid as nat);
            lemma_digits_free(now as nat);
            let word = if i == 0 {
                "START".spec_bytes()
            } else {
                "RESTART".spec_bytes()
            };
            let x = seq![digits(i as nat), digits(pid as nat), digits(now as nat)];
            a_line_of_a_log_is_read_back(word, x);
            assert(seq![word] + x =~= seq![word, digits(i as nat), digits(pid as nat), digits(now as nat)]);
        },
        Heard::Exited { pid, code, now } => {
            lemma_digits_free(pid as nat);
            lemma_digits_free(now as nat);
            lemma_code_free(code);
            let word = "EXIT".spec_bytes();
            let x = seq![digits(i as nat), digits(pid as nat), code_text(code), digits(now as nat)];
            a_line_of_a_log_is_read_back(word, x);
            assert(seq![word] + x =~= seq![
                word,
                digits(i as nat),
                digits(pid as nat),
                code_text(code),
                digits(now as nat),
            ]);
        },
        Heard::Term { now } => {
            lemma_digits_free(now as nat);
            let word = "TERM".spec_bytes();
            let x = seq![digits(now as nat)];
            a_line_of_a_log_is_read_back(word, x);
            assert(seq![word] + x =~= seq![word, digits(now as nat)]);
        },
        _ => {},
    }
}

proof fn lemma_restart_line(i: u32, h: Heard)
    ensures
        said(i, h) matches Some(l) ==> (starts(l, "RESTART".spec_bytes()) <==> h is Started && i > 0),
{
    lemma_words();
    if let Some(l) = said(i, h) {
        let word = match h {
            Heard::Started { .. } => if i == 0 {
                "START".spec_bytes()
            } else {
                "RESTART".spec_bytes()
            },
            Heard::Exited { .. } => "EXIT".spec_bytes(),
            _ => "TERM".spec_bytes(),
        };
        let x = match h {
            Heard::Started { pid, now } => seq![digits(i as nat), digits(pid as nat), digits(now as nat)],
            Heard::Exited { pid, code, now } => seq![
                digits(i as nat),
                digits(pid as nat),
                code_text(code),
                digits(now as nat),
            ],
            Heard::Term { now } => seq![digits(now as nat)],
            _ => seq![],
        };
        assert(l == log_line(word, x));
        lemma_digits_free(i as nat);
        match h {
            Heard::Started { pid, now } => {
                lemma_digits_free(pid as nat);
                lemma_digits_free(now as nat);
            },
            Heard::Exited { pid, code, now } => {
                lemma_digits_free(pid as nat);
                lemma_digits_free(now as nat);
                lemma_code_free(code);
            },
            Heard::Term { now } => {
                lemma_digits_free(now as nat);
            },
            _ => {},
        }
        a_line_of_a_log_is_read_back(word, x);
        assert(l.take(word.len() as int)[0] == word[0]);
        if starts(l, "RESTART".spec_bytes()) {
            assert(l.take(7)[0] == 82u8);
        }
    }
}

/// A log counts restarts: one more for each start of a child after another one was gone.
/// As many children were gone as the incarnation says.
pub proof fn a_log_counts_restarts(es: Seq<Heard>, h: Heard)
    requires
        es.len() < u32::MAX,
    ensures
        ({
            let gone = how_many(es, |e: Heard| e is Exited);
            let before = count_starting(logged(es), "RESTART".spec_bytes());
            &&& incarnation_after(es) == gone
            &&& count_starting(logged(es.push(h)), "RESTART".spec_bytes()) == before + if h is Started && gone
                > 0 {
                1nat
            } else {
                0
            }
        }),
        count_starting(logged(Seq::empty()), "RESTART".spec_bytes()) == 0,
{
    lemma_gone(es);
    assert(es.push(h).drop_last() =~= es);
    lemma_restart_line(incarnation_after(es), h);
    if let Some(l) = said(incarnation_after(es), h) {
        assert(logged(es).push(l).drop_last() =~= logged(es));
    }
}

proof fn lemma_gone(es: Seq<Heard>)
    requires
        es.len() < u32::MAX,
    ensures
        incarnation_after(es) == how_many(es, |e: Heard| e is Exited),
        incarnation_after(es) <= es.len(),
    decreases es.len(),
{
    let p = |e: Heard| e is Exited;
    if es.len() > 0 {
        lemma_gone(es.drop_last());
        lemma_how_many_last(es, p);
    } else {
        assert(es =~= Seq::<Heard>::empty());
        lemma_how_many_none::<Heard>(p);
    }
}

/// What a child is started with: what the supervisor was, but that it watches its parent
/// and speaks in envelopes; and only the first is told where to crash.
pub proof fn what_a_child_is_started_with(s: Supervisor)
    ensures
        s.child().spin == s.spin && s.child().lease_ms == s.lease_ms && s.child().result == s.pricer_result,
        s.child().parent_watch && !s.child().bare,
        s.incarnation > 0 ==> s.child().kill_after is None,
        s.incarnation == 0 ==> s.child().kill_after == s.kill_after,
{
}

/// A command line starts with the name of the role that it is for, and no two roles have
/// the same.
pub proof fn a_command_line_starts_with_its_role(
    p: PricerOpts,
    c: ClientOpts,
    uds: Seq<u8>,
    result: Seq<u8>,
    r: Role,
    q: Role,
)
    ensures
        p.spec_args(uds)[0] == Role::Pricer.name(),
        c.spec_args(uds, result)[0] == Role::Client.name(),
        r.name() == q.name() ==> r == q,
{
    reveal_strlit("coordinator");
    reveal_strlit("curve-publish");
    reveal_strlit("pricer");
    reveal_strlit("client");
    reveal_strlit("supervisor");
    reveal_strlit("bench");
    vstd::string::is_ascii_spec_bytes("coordinator");
    vstd::string::is_ascii_spec_bytes("curve-publish");
    vstd::string::is_ascii_spec_bytes("pricer");
    vstd::string::is_ascii_spec_bytes("client");
    vstd::string::is_ascii_spec_bytes("supervisor");
    vstd::string::is_ascii_spec_bytes("bench");
    assert(Role::Coordinator.name().len() == 11 && Role::CurvePublish.name().len() == 13
        && Role::Pricer.name().len() == 6 && Role::Client.name().len() == 6 && Role::Supervisor.name().len()
        == 10 && Role::Bench.name().len() == 5);
    assert(Role::Pricer.name()[0] == 112 && Role::Client.name()[0] == 99);
}

/// The time between two moments is what is added to the one to come to the other; there
/// is none if one was not seen or they are the other way round.
pub proof fn the_time_between(k: u64, f: u64, d: u64, x: Option<u64>)
    ensures
        time_from(Some(k), Some(f)) == Some(d) <==> k + d == f,
        time_from(None, x) is None && time_from(x, None) is None,
{
}

/// Asks are replied to, refused, or lost.
pub proof fn asks_are_accounted_for(asks: nat, replies: nat, errors: nat)
    ensures
        replies + errors <= asks ==> replies + errors + lost_of(asks as int, replies as int, errors as int)
            == asks,
        replies + errors > asks ==> lost_of(asks as int, replies as int, errors as int) == 0,
{
}

} // verus!
