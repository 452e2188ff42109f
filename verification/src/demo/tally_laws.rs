//! What a run of clients counts, and what its report says.
use vstd::prelude::*;

use crate::counting::{how_many, lemma_how_many_add, lemma_how_many_last, lemma_how_many_none};
use crate::demo::crash::{count_starting, first_starting};
use crate::demo::report::Incarnation;
use crate::demo::roles::{
    all_replies, goes_to_risk, joined, joined_all, joined_now, no_tally, place_of, rank_at,
    run_report, sample_at, share_of, shares, shares_cover_everything, total, Counted, Tally,
    TallyView,
};
use crate::text::starts;

verus! {

/// The places at which the curve's version is not the one before.
pub open spec fn changes(cs: Seq<Counted>) -> Set<int> {
    Set::new(|i: int| 0 < i < cs.len() && cs[i].curve_version != cs[i - 1].curve_version)
}

proof fn lemma_changes(cs: Seq<Counted>)
    ensures
        changes(cs).finite(),
        cs.len() > 0 ==> changes(cs).len() == changes(cs.drop_last()).len() + if cs.len() > 1
            && cs[cs.len() - 1].curve_version != cs[cs.len() - 2].curve_version {
            1nat
        } else {
            0
        },
        cs.len() == 0 ==> changes(cs).len() == 0,
    decreases cs.len(),
{
    if cs.len() == 0 {
        assert(changes(cs) =~= Set::empty());
    } else {
        let d = cs.drop_last();
        let n = cs.len() - 1;
        lemma_changes(d);
        if n > 0 && cs[n].curve_version != cs[n - 1].curve_version {
            assert(changes(cs) =~= changes(d).insert(n));
        } else {
            assert(changes(cs) =~= changes(d));
        }
    }
}

// ---- who answered ----

/// How many replies `pid` gave.
pub open spec fn answers_of(s: Seq<Incarnation>, pid: u32) -> int
    decreases s.len(),
{
    if s.len() == 0 {
        0
    } else {
        answers_of(s.drop_last(), pid) + if s.last().pid == pid {
            s.last().replies as int
        } else {
            0
        }
    }
}

/// Whether nobody is listed twice.
pub open spec fn once_each(s: Seq<Incarnation>) -> bool {
    forall|i: int, j: int| 0 <= i < j < s.len() ==> s[i].pid != s[j].pid
}

/// Whether `pid` first answered at `t`.
pub open spec fn first_at(s: Seq<Incarnation>, pid: u32, t: u64) -> bool {
    exists|i: int| 0 <= i < s.len() && (#[trigger] s[i]).pid == pid && s[i].first == t
}

/// Whether `pid` answered.
pub open spec fn listed(s: Seq<Incarnation>, pid: u32) -> bool {
    exists|i: int| 0 <= i < s.len() && (#[trigger] s[i]).pid == pid
}

proof fn lemma_place(s: Seq<Incarnation>, pid: u32)
    ensures
        0 <= place_of(s, pid) <= s.len(),
        place_of(s, pid) < s.len() ==> s[place_of(s, pid)].pid == pid,
        place_of(s, pid) < s.len() <==> listed(s, pid),
        forall|i: int| 0 <= i < place_of(s, pid) ==> (#[trigger] s[i]).pid != pid,
    decreases s.len(),
{
    if s.len() > 0 && s[0].pid != pid {
        let r = s.skip(1);
        lemma_place(r, pid);
        let k = place_of(s, pid);
        assert forall|i: int| 0 <= i < k implies (#[trigger] s[i]).pid != pid by {
            if i > 0 {
                assert(r[i - 1] == s[i]);
            }
        }
        if k < s.len() {
            assert(s[k] == r[k - 1]);
        }
        if listed(s, pid) {
            let i = choose|i: int| 0 <= i < s.len() && (#[trigger] s[i]).pid == pid;
            assert(r[i - 1].pid == pid);
        }
    } else if s.len() > 0 {
        assert(s[0].pid == pid);
    }
}

proof fn lemma_answers_update(s: Seq<Incarnation>, k: int, x: Incarnation, pid: u32)
    requires
        0 <= k < s.len(),
        x.pid == s[k].pid,
    ensures
        answers_of(s.update(k, x), pid) == answers_of(s, pid) + if x.pid == pid {
            x.replies - s[k].replies
        } else {
            0
        },
    decreases s.len(),
{
    let u = s.update(k, x);
    if k == s.len() - 1 {
        assert(u.drop_last() =~= s.drop_last());
    } else {
        assert(u.drop_last() =~= s.drop_last().update(k, x));
        lemma_answers_update(s.drop_last(), k, x, pid);
    }
}

proof fn lemma_some_answers(s: Seq<Incarnation>, k: int)
    requires
        0 <= k < s.len(),
    ensures
        s[k].replies <= all_replies(s),
        0 <= all_replies(s),
    decreases s.len(),
{
    let d = s.drop_last();
    if k < s.len() - 1 {
        lemma_some_answers(d, k);
        assert(d[k] == s[k]);
    } else if s.len() > 1 {
        lemma_some_answers(d, 0);
    } else {
        assert(all_replies(d) == 0);
    }
}

/// Adding what someone answered adds just that, to what they answered and to
/// nobody else's; nobody is listed twice; and who first answered when stays,
/// unless they answered earlier still.
pub proof fn joining_adds_what_was_answered(s: Seq<Incarnation>, x: Incarnation, pid: u32)
    requires
        once_each(s),
        all_replies(s) + x.replies <= u64::MAX,
    ensures
        once_each(joined(s, x)),
        answers_of(joined(s, x), pid) == answers_of(s, pid) + if x.pid == pid {
            x.replies as int
        } else {
            0
        },
        listed(joined(s, x), pid) <==> listed(s, pid) || x.pid == pid,
        pid != x.pid ==> forall|t: u64| first_at(joined(s, x), pid, t) <==> #[trigger] first_at(s, pid, t),
        !listed(s, x.pid) ==> first_at(joined(s, x), x.pid, x.first),
        forall|t: u64| #[trigger]
            first_at(s, x.pid, t) ==> first_at(
                joined(s, x),
                x.pid,
                if x.first < t {
                    x.first
                } else {
                    t
                },
            ),
{
    let k = place_of(s, x.pid);
    let j = joined(s, x);
    lemma_place(s, x.pid);
    if k < s.len() {
        lemma_some_answers(s, k);
        lemma_answers_update(s, k, j[k], pid);
        assert forall|t: u64| first_at(s, x.pid, t) implies first_at(
            j,
            x.pid,
            if x.first < t {
                x.first
            } else {
                t
            },
        ) by {
            let i = choose|i: int| 0 <= i < s.len() && (#[trigger] s[i]).pid == x.pid && s[i].first == t;
            assert(i == k) by {
                if i < k {
                    assert(s[i].pid != s[k].pid);
                } else if k < i {
                    assert(s[k].pid != s[i].pid);
                }
            }
            assert(j[k].pid == x.pid);
        }
        assert forall|a: int, b: int| 0 <= a < b < j.len() implies j[a].pid != j[b].pid by {
            assert(s[a].pid != s[b].pid);
        }
        assert(listed(s, x.pid));
        if listed(s, pid) {
            let i = choose|i: int| 0 <= i < s.len() && (#[trigger] s[i]).pid == pid;
            assert(j[i].pid == pid);
        }
        if listed(j, pid) {
            let i = choose|i: int| 0 <= i < j.len() && (#[trigger] j[i]).pid == pid;
            assert(s[i].pid == pid);
        }
        if x.pid == pid {
            assert(j[k].pid == pid);
        }
        if pid != x.pid {
            assert forall|t: u64| first_at(j, pid, t) <==> #[trigger] first_at(s, pid, t) by {
                if first_at(s, pid, t) {
                    let i = choose|i: int| 0 <= i < s.len() && (#[trigger] s[i]).pid == pid && s[i].first == t;
                    assert(j[i] == s[i]);
                }
                if first_at(j, pid, t) {
                    let i = choose|i: int| 0 <= i < j.len() && (#[trigger] j[i]).pid == pid && j[i].first == t;
                    assert(j[i] == s[i]);
                }
            }
        }
    } else {
        assert(j == s.push(x));
        assert(j.drop_last() =~= s);
        assert(j[s.len() as int] == x);
        assert forall|a: int, b: int| 0 <= a < b < j.len() implies j[a].pid != j[b].pid by {
            if b == s.len() {
                assert(s[a].pid != x.pid);
            } else {
                assert(s[a].pid != s[b].pid);
            }
        }
        if listed(s, pid) {
            let i = choose|i: int| 0 <= i < s.len() && (#[trigger] s[i]).pid == pid;
            assert(j[i].pid == pid);
        }
        if listed(j, pid) {
            let i = choose|i: int| 0 <= i < j.len() && (#[trigger] j[i]).pid == pid;
            if i < s.len() {
                assert(s[i].pid == pid);
            }
        }
        assert forall|t: u64| first_at(s, x.pid, t) implies false by {
            assert(listed(s, x.pid));
        }
        if pid != x.pid {
            assert forall|t: u64| first_at(j, pid, t) <==> #[trigger] first_at(s, pid, t) by {
                if first_at(s, pid, t) {
                    let i = choose|i: int| 0 <= i < s.len() && (#[trigger] s[i]).pid == pid && s[i].first == t;
                    assert(j[i] == s[i]);
                }
                if first_at(j, pid, t) {
                    let i = choose|i: int| 0 <= i < j.len() && (#[trigger] j[i]).pid == pid && j[i].first == t;
                    assert(j[i] == s[i]);
                }
            }
        }
    }
}

// ---- one client ----

/// What a client that got the replies `cs` counted.
pub open spec fn counted(cs: Seq<Counted>) -> TallyView
    decreases cs.len(),
{
    if cs.len() == 0 {
        no_tally()
    } else {
        counted(cs.drop_last()).replied(cs.last())
    }
}

/// One more reply of `pid`, as of the first one that it gave.
spec fn one_more(s: Seq<Incarnation>, pid: u32, now: u64) -> Incarnation {
    let k = place_of(s, pid);
    Incarnation {
        pid,
        replies: 1,
        first: if k < s.len() {
            s[k].first
        } else {
            now
        },
    }
}

proof fn lemma_now_is_join(s: Seq<Incarnation>, pid: u32, now: u64)
    requires
        once_each(s),
        all_replies(s) < u64::MAX,
    ensures
        joined_now(s, pid, now) == joined(s, one_more(s, pid, now)),
        forall|t: u64| #[trigger] first_at(s, pid, t) ==> t == one_more(s, pid, now).first,
        !listed(s, pid) ==> one_more(s, pid, now).first == now,
{
    lemma_place(s, pid);
    let k = place_of(s, pid);
    let x = one_more(s, pid, now);
    if k < s.len() {
        assert(joined_now(s, pid, now) =~= joined(s, x));
        assert forall|t: u64| #[trigger] first_at(s, pid, t) implies t == x.first by {
            let i = choose|i: int| 0 <= i < s.len() && (#[trigger] s[i]).pid == pid && s[i].first == t;
            if i < k {
                assert(s[i].pid != s[k].pid);
            } else if k < i {
                assert(s[k].pid != s[i].pid);
            }
        }
    } else {
        assert forall|t: u64| #[trigger] first_at(s, pid, t) implies false by {
            let i = choose|i: int| 0 <= i < s.len() && (#[trigger] s[i]).pid == pid && s[i].first == t;
            assert(listed(s, pid));
        }
    }
}

proof fn lemma_counted_replies(cs: Seq<Counted>)
    requires
        cs.len() <= u64::MAX,
    ensures
        all_replies(counted(cs).incarnations) == cs.len(),
        once_each(counted(cs).incarnations),
        forall|pid: u32, t: u64| #[trigger]
            first_at(counted(cs).incarnations, pid, t) ==> exists|i: int|
                0 <= i < cs.len() && (#[trigger] cs[i]).incarnation == pid && cs[i].now == t && forall|j: int|
                    0 <= j < i ==> (#[trigger] cs[j]).incarnation != pid,
        forall|pid: u32| #[trigger]
            listed(counted(cs).incarnations, pid) <==> exists|i: int|
                0 <= i < cs.len() && (#[trigger] cs[i]).incarnation == pid,
    decreases cs.len(),
{
    if cs.len() > 0 {
        let d = cs.drop_last();
        let c = cs.last();
        let s = counted(d).incarnations;
        let x = one_more(s, c.incarnation, c.now);
        lemma_counted_replies(d);
        lemma_now_is_join(s, c.incarnation, c.now);
        let r = counted(cs).incarnations;
        assert(r == joined(s, x));
        crate::demo::roles::joining_keeps_count(s, x);
        assert forall|pid: u32, t: u64| #[trigger] first_at(r, pid, t) implies exists|i: int|
            0 <= i < cs.len() && (#[trigger] cs[i]).incarnation == pid && cs[i].now == t && forall|j: int|
                0 <= j < i ==> (#[trigger] cs[j]).incarnation != pid by {
            joining_adds_what_was_answered(s, x, pid);
            lemma_first_back(s, x, pid, t);
            if first_at(s, pid, t) {
                let i = choose|i: int|
                    0 <= i < d.len() && (#[trigger] d[i]).incarnation == pid && d[i].now == t && forall|j: int|
                        0 <= j < i ==> (#[trigger] d[j]).incarnation != pid;
                assert(cs[i] == d[i]);
                assert forall|j: int| 0 <= j < i implies (#[trigger] cs[j]).incarnation != pid by {
                    assert(cs[j] == d[j]);
                }
            } else {
                let i = cs.len() - 1;
                assert(cs[i].incarnation == pid && cs[i].now == t);
                assert forall|j: int| 0 <= j < i implies (#[trigger] cs[j]).incarnation != pid by {
                    if cs[j].incarnation == pid {
                        assert(d[j].incarnation == pid);
                        assert(listed(s, pid));
                    }
                }
            }
        }
        assert forall|pid: u32| #[trigger] listed(r, pid) <==> exists|i: int|
            0 <= i < cs.len() && (#[trigger] cs[i]).incarnation == pid by {
            joining_adds_what_was_answered(s, x, pid);
            if listed(s, pid) {
                let i = choose|i: int| 0 <= i < d.len() && (#[trigger] d[i]).incarnation == pid;
                assert(cs[i].incarnation == pid);
            }
            if x.pid == pid {
                assert(cs[cs.len() - 1].incarnation == pid);
            }
            if exists|i: int| 0 <= i < cs.len() && (#[trigger] cs[i]).incarnation == pid {
                let i = choose|i: int| 0 <= i < cs.len() && (#[trigger] cs[i]).incarnation == pid;
                if i < d.len() {
                    assert(d[i].incarnation == pid);
                }
            }
        }
        joining_adds_what_was_answered(s, x, x.pid);
    } else {
        let r = counted(cs).incarnations;
        assert forall|pid: u32, t: u64| #[trigger] first_at(r, pid, t) implies false by {}
    }
}

proof fn lemma_first_back(s: Seq<Incarnation>, x: Incarnation, pid: u32, t: u64)
    requires
        once_each(s),
        all_replies(s) + x.replies <= u64::MAX,
        first_at(joined(s, x), pid, t),
        forall|u: u64| #[trigger] first_at(s, x.pid, u) ==> u <= x.first,
    ensures
        first_at(s, pid, t) || (pid == x.pid && t == x.first && !listed(s, pid)),
{
    joining_adds_what_was_answered(s, x, pid);
    let j = joined(s, x);
    if pid == x.pid {
        lemma_place(s, pid);
        let k = place_of(s, pid);
        if k < s.len() {
            assert(first_at(s, pid, s[k].first));
            let i = choose|i: int| 0 <= i < j.len() && (#[trigger] j[i]).pid == pid && j[i].first == t;
            assert(i == k) by {
                if i < k {
                    assert(j[i].pid != j[k].pid);
                } else if k < i {
                    assert(j[k].pid != j[i].pid);
                }
            }
        } else {
            let i = choose|i: int| 0 <= i < j.len() && (#[trigger] j[i]).pid == pid && j[i].first == t;
            if i < s.len() {
                assert(s[i].pid == pid);
            }
        }
    }
}

/// What a client counts: every reply once, those of the risk actor, those that
/// were delivered again, every change of the curve's version from one reply to
/// the next, and the last version. Of each process that answered it counts the
/// replies, and when it first did.
pub proof fn a_client_counts_its_replies(cs: Seq<Counted>, pid: u32)
    requires
        cs.len() <= u64::MAX,
    ensures
        ({
            let t = counted(cs);
            &&& t.replies == cs.len()
            &&& t.errors == 0
            &&& t.risk_replies == how_many(cs, |c: Counted| c.risk)
            &&& t.redelivered == how_many(cs, |c: Counted| c.attempt > 0)
            &&& t.version_changes == changes(cs).len()
            &&& t.last_version == if cs.len() == 0 {
                None
            } else {
                Some(cs.last().curve_version)
            }
            &&& once_each(t.incarnations)
            &&& listed(t.incarnations, pid) <==> exists|i: int|
                0 <= i < cs.len() && (#[trigger] cs[i]).incarnation == pid
            &&& answers_of(t.incarnations, pid) == how_many(cs, |c: Counted| c.incarnation == pid)
            &&& forall|at: u64| #[trigger]
                first_at(t.incarnations, pid, at) ==> exists|i: int|
                    0 <= i < cs.len() && (#[trigger] cs[i]).incarnation == pid && cs[i].now == at
                        && forall|j: int| 0 <= j < i ==> (#[trigger] cs[j]).incarnation != pid
        }),
    decreases cs.len(),
{
    lemma_changes(cs);
    lemma_counted_replies(cs);
    let risk = |c: Counted| c.risk;
    let again = |c: Counted| c.attempt > 0;
    let by = |c: Counted| c.incarnation == pid;
    if cs.len() == 0 {
        assert(cs =~= Seq::<Counted>::empty());
        lemma_how_many_none::<Counted>(risk);
        lemma_how_many_none::<Counted>(again);
        lemma_how_many_none::<Counted>(by);
    } else {
        let d = cs.drop_last();
        let c = cs.last();
        a_client_counts_its_replies(d, pid);
        lemma_how_many_last(cs, risk);
        lemma_how_many_last(cs, again);
        lemma_how_many_last(cs, by);
        lemma_counted_replies(d);
        let s = counted(d).incarnations;
        let x = one_more(s, c.incarnation, c.now);
        lemma_now_is_join(s, c.incarnation, c.now);
        joining_adds_what_was_answered(s, x, pid);
        if d.len() > 0 {
            assert(d.last() == cs[cs.len() - 2]);
        }
    }
}

// ---- all clients ----

/// What clients counted adds up: what two groups counted together is the sum of
/// what each did, and what one client counted alone is what it counted.
pub proof fn tallies_add_up(s: Seq<Tally>, t: Seq<Tally>)
    ensures
        total(s + t).replies == total(s).replies + total(t).replies,
        total(s + t).errors == total(s).errors + total(t).errors,
        total(s + t).redelivered == total(s).redelivered + total(t).redelivered,
        total(s + t).risk_replies == total(s).risk_replies + total(t).risk_replies,
        total(s + t).version_changes == total(s).version_changes + total(t).version_changes,
        s.len() == 0 ==> {
            &&& total(s).replies == 0
            &&& total(s).errors == 0
            &&& total(s).redelivered == 0
            &&& total(s).risk_replies == 0
            &&& total(s).version_changes == 0
        },
        s.len() == 1 ==> {
            &&& total(s).replies == s[0].replies
            &&& total(s).errors == s[0].errors
            &&& total(s).redelivered == s[0].redelivered
            &&& total(s).risk_replies == s[0].risk_replies
            &&& total(s).version_changes == s[0].version_changes
        },
    decreases t.len(),
{
    if t.len() == 0 {
        assert(s + t =~= s);
    } else {
        assert((s + t).drop_last() =~= s + t.drop_last());
        assert((s + t).last() == t.last());
        tallies_add_up(s, t.drop_last());
    }
    if s.len() == 1 {
        assert(s.drop_last() =~= Seq::<Tally>::empty());
        assert(total(s.drop_last()) == no_tally());
    }
}

proof fn lemma_joined_all_adds(s: Seq<Incarnation>, x: Seq<Incarnation>, pid: u32)
    requires
        once_each(s),
        all_replies(s) + all_replies(x) <= u64::MAX,
    ensures
        once_each(joined_all(s, x)),
        all_replies(joined_all(s, x)) == all_replies(s) + all_replies(x),
        answers_of(joined_all(s, x), pid) == answers_of(s, pid) + answers_of(x, pid),
        listed(joined_all(s, x), pid) <==> listed(s, pid) || listed(x, pid),
    decreases x.len(),
{
    if x.len() > 0 {
        let d = x.drop_last();
        lemma_joined_all_adds(s, d, pid);
        lemma_joined_all_adds(s, d, x.last().pid);
        crate::demo::roles::joining_keeps_count(joined_all(s, d), x.last());
        joining_adds_what_was_answered(joined_all(s, d), x.last(), pid);
        if listed(d, pid) {
            let i = choose|i: int| 0 <= i < d.len() && (#[trigger] d[i]).pid == pid;
            assert(x[i].pid == pid);
        }
        if x.last().pid == pid {
            assert(x[x.len() - 1].pid == pid);
        }
        if listed(x, pid) {
            let i = choose|i: int| 0 <= i < x.len() && (#[trigger] x[i]).pid == pid;
            if i < d.len() {
                assert(d[i].pid == pid);
            }
        }
    }
}

/// What a run's report says: taken together, the replies of all clients, those of
/// the risk actor, those that were delivered again, and the replies of each
/// process that answered, counted once each. Changes of version are those that
/// each client saw.
pub proof fn a_report_counts_every_reply(t: Seq<Tally>, css: Seq<Seq<Counted>>, pid: u32)
    requires
        t.len() == css.len(),
        css.flatten().len() <= u64::MAX,
        forall|i: int|
            #![trigger css[i]]
            0 <= i < css.len() ==> t[i]@ == (TallyView { errors: t[i]@.errors, ..counted(css[i]) }),
    ensures
        ({
            let all = css.flatten();
            &&& total(t).replies == all.len()
            &&& total(t).risk_replies == how_many(all, |c: Counted| c.risk)
            &&& total(t).redelivered == how_many(all, |c: Counted| c.attempt > 0)
            &&& answers_of(total(t).incarnations, pid) == how_many(
                all,
                |c: Counted| c.incarnation == pid,
            )
            &&& once_each(total(t).incarnations)
            &&& all_replies(total(t).incarnations) == all.len()
        }),
    decreases t.len(),
{
    let risk = |c: Counted| c.risk;
    let again = |c: Counted| c.attempt > 0;
    let by = |c: Counted| c.incarnation == pid;
    let all = css.flatten();
    css.lemma_flatten_and_flatten_alt_are_equivalent();
    if t.len() == 0 {
        assert(all =~= Seq::<Counted>::empty());
        lemma_how_many_none::<Counted>(risk);
        lemma_how_many_none::<Counted>(again);
        lemma_how_many_none::<Counted>(by);
    } else {
        let (u, ds) = (t.drop_last(), css.drop_last());
        let n = css.len() - 1;
        ds.lemma_flatten_and_flatten_alt_are_equivalent();
        assert(all =~= ds.flatten() + css.last());
        assert forall|i: int| #![trigger ds[i]] 0 <= i < ds.len() implies u[i]@ == (TallyView {
            errors: u[i]@.errors,
            ..counted(ds[i])
        }) by {
            assert(ds[i] == css[i] && u[i] == t[i]);
        }
        a_report_counts_every_reply(u, ds, pid);
        assert(css[n] == css.last() && t[n] == t.last());
        a_client_counts_its_replies(css[n], pid);
        lemma_counted_replies(css[n]);
        lemma_how_many_add(ds.flatten(), css[n], risk);
        lemma_how_many_add(ds.flatten(), css[n], again);
        lemma_how_many_add(ds.flatten(), css[n], by);
        lemma_joined_all_adds(total(u).incarnations, t[n]@.incarnations, pid);
    }
}

// ---- asks ----

/// Of asks that go to both actors, every other one goes to the risk actor, and
/// the first does not; of others none does.
pub proof fn every_other_ask_goes_to_risk(seq: u64)
    requires
        seq < u64::MAX,
    ensures
        !goes_to_risk(false, seq),
        !goes_to_risk(true, 0),
        goes_to_risk(true, (seq + 1) as u64) <==> !goes_to_risk(true, seq),
{
}

/// Shares are even: all clients but the last issue equally many asks, and the last
/// at least as many, but not a whole round more.
pub proof fn shares_are_even(n: int, clients: int, i: int, j: int)
    requires
        clients > 0,
        n >= 0,
        0 <= i < clients,
        0 <= j < clients,
    ensures
        shares(n, clients, clients) == n,
        i < clients - 1 && j < clients - 1 ==> share_of(n, clients, i) == share_of(n, clients, j),
        0 <= share_of(n, clients, clients - 1) - share_of(n, clients, i) < clients,
        share_of(n, clients, i) >= 0,
{
    shares_cover_everything(n, clients);
    vstd::arithmetic::div_mod::lemma_fundamental_div_mod(n, clients);
    vstd::arithmetic::div_mod::lemma_mod_bound(n, clients);
    vstd::arithmetic::div_mod::lemma_div_pos_is_pos(n, clients);
}

// ---- latencies ----

/// The sample at a part of the samples is one of them; at least that part of all
/// samples is no larger, and less than that part is before it.
pub proof fn the_sample_at_a_part(s: Seq<u64>, permille: int)
    requires
        s.len() > 0,
        0 < permille <= 1000,
        forall|i: int, j: int| 0 <= i < j < s.len() ==> s[i] <= s[j],
    ensures
        exists|k: int|
            0 <= k < s.len() && #[trigger] s[k] == sample_at(s, permille) && 1000 * (k + 1) >= permille
                * s.len() && 1000 * k < permille * s.len(),
{
    let n = s.len() as int;
    let r = rank_at(n, permille);
    assert(1000 * r >= permille * n && 1000 * (r - 1) < permille * n) by {
        vstd::arithmetic::div_mod::lemma_fundamental_div_mod(permille * n + 999, 1000);
    }
    assert(0 < permille * n <= 1000 * n) by (nonlinear_arith)
        requires
            0 < permille <= 1000,
            n > 0,
    ;
    assert(s[r - 1] == sample_at(s, permille));
}

// ---- reports ----

/// What a run reports of all replies that its clients got: how many there were, from the
/// risk actor, and delivered again; half of the latencies are no longer than the one, and
/// all but one in a hundred than the other, and none is longer than the longest; and who
/// answered, by when they first did, each once, and with as many replies as they gave.
pub proof fn what_a_run_reports(
    asks: u64,
    t: Seq<Tally>,
    css: Seq<Seq<Counted>>,
    sorted: Seq<u64>,
    elapsed_ns: u64,
    throughput: Seq<u8>,
    pid: u32,
)
    requires
        t.len() == css.len(),
        css.flatten().len() <= u64::MAX,
        forall|i: int|
            #![trigger css[i]]
            0 <= i < css.len() ==> t[i]@ == (TallyView { errors: t[i]@.errors, ..counted(css[i]) }),
        sorted.len() > 0,
        forall|i: int, j: int| 0 <= i < j < sorted.len() ==> sorted[i] <= sorted[j],
    ensures
        ({
            let all = css.flatten();
            let r = run_report(asks, total(t), sorted, elapsed_ns, throughput);
            &&& r.asks == asks && r.elapsed_ns == elapsed_ns && r.throughput == throughput
            &&& r.replies == all.len()
            &&& r.risk_replies == how_many(all, |c: Counted| c.risk)
            &&& r.redelivered == how_many(all, |c: Counted| c.attempt > 0)
            &&& r.errors == total(t).errors as u64 && r.version_changes == total(t).version_changes as u64
            &&& exists|k: int|
                0 <= k < sorted.len() && #[trigger] sorted[k] == r.p50_ns && 2 * (k + 1) >= sorted.len() && 2 * k
                    < sorted.len()
            &&& exists|k: int|
                0 <= k < sorted.len() && #[trigger] sorted[k] == r.p99_ns && 100 * (k + 1) >= 99 * sorted.len()
                    && 100 * k < 99 * sorted.len()
            &&& sorted.contains(r.max_ns) && forall|i: int|
                0 <= i < sorted.len() ==> #[trigger] sorted[i] <= r.max_ns
            &&& r.incarnations.to_multiset() == total(t).incarnations.to_multiset()
            &&& forall|i: int, j: int|
                0 <= i < j < r.incarnations.len() ==> r.incarnations[i].first <= r.incarnations[j].first
            &&& answers_of(total(t).incarnations, pid) == how_many(all, |c: Counted| c.incarnation == pid)
        }),
{
    a_report_counts_every_reply(t, css, pid);
    let all = css.flatten();
    lemma_part(all, |c: Counted| c.risk);
    lemma_part(all, |c: Counted| c.attempt > 0);
    the_sample_at_a_part(sorted, 500);
    the_sample_at_a_part(sorted, 990);
    let n = sorted.len() - 1;
    assert(sorted[n] == sorted.last());
    crate::demo::report::ordering_is_a_permutation(total(t).incarnations);
    let k = choose|k: int|
        0 <= k < sorted.len() && #[trigger] sorted[k] == sample_at(sorted, 500) && 1000 * (k + 1) >= 500
            * sorted.len() && 1000 * k < 500 * sorted.len();
    assert(sorted[k] == sample_at(sorted, 500) && 2 * (k + 1) >= sorted.len() && 2 * k < sorted.len());
    let m = choose|m: int|
        0 <= m < sorted.len() && #[trigger] sorted[m] == sample_at(sorted, 990) && 1000 * (m + 1) >= 990
            * sorted.len() && 1000 * m < 990 * sorted.len();
    assert(sorted[m] == sample_at(sorted, 990) && 100 * (m + 1) >= 99 * sorted.len() && 100 * m < 99
        * sorted.len());
}

proof fn lemma_part<A>(s: Seq<A>, p: spec_fn(A) -> bool)
    ensures
        how_many(s, p) <= s.len(),
{
    s.lemma_filter_len(p);
}

// ---- logs ----

/// Lines that start with a word add up, one each, and others do not count.
pub proof fn lines_are_counted(a: Seq<Seq<u8>>, b: Seq<Seq<u8>>, word: Seq<u8>)
    ensures
        count_starting(a, word) == how_many(a, |l: Seq<u8>| l.len() >= word.len() && l.take(word.len() as int) == word),
        count_starting(a + b, word) == count_starting(a, word) + count_starting(b, word),
    decreases a.len(), b.len(),
{
    let p = |l: Seq<u8>| l.len() >= word.len() && l.take(word.len() as int) == word;
    if b.len() > 0 {
        lines_are_counted(a, b.drop_last(), word);
        assert((a + b).drop_last() =~= a + b.drop_last());
        assert((a + b).last() == b.last());
    } else {
        assert(a + b =~= a);
        if a.len() > 0 {
            lemma_how_many_last(a, p);
            lines_are_counted(a.drop_last(), Seq::empty(), word);
        } else {
            assert(a =~= Seq::<Seq<u8>>::empty());
            lemma_how_many_none::<Seq<u8>>(p);
        }
    }
}

/// The first line that starts with a word is one of the lines, and none before it
/// does.
pub proof fn the_first_such_line(ls: Seq<Seq<u8>>, word: Seq<u8>)
    ensures
        match first_starting(ls, word) {
            Some(l) => exists|k: int|
                0 <= k < ls.len() && #[trigger] ls[k] == l && starts(l, word) && forall|i: int|
                    0 <= i < k ==> !starts(#[trigger] ls[i], word),
            None => forall|i: int| 0 <= i < ls.len() ==> !starts(#[trigger] ls[i], word),
        },
    decreases ls.len(),
{
    if ls.len() > 0 && !starts(ls[0], word) {
        let r = ls.skip(1);
        the_first_such_line(r, word);
        match first_starting(r, word) {
            Some(l) => {
                let k = choose|k: int|
                    0 <= k < r.len() && #[trigger] r[k] == l && starts(l, word) && forall|i: int|
                        0 <= i < k ==> !starts(#[trigger] r[i], word);
                assert(ls[k + 1] == l);
                assert forall|i: int| 0 <= i < k + 1 implies !starts(#[trigger] ls[i], word) by {
                    if i > 0 {
                        assert(r[i - 1] == ls[i]);
                    }
                }
            },
            None => {
                assert forall|i: int| 0 <= i < ls.len() implies !starts(#[trigger] ls[i], word) by {
                    if i > 0 {
                        assert(r[i - 1] == ls[i]);
                    }
                }
            },
        }
    } else if ls.len() > 0 {
        assert(ls[0] == first_starting(ls, word)->Some_0);
    }
}

} // verus!
