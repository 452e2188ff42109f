//! How many items of a sequence are as one says.
use vstd::prelude::*;

verus! {

/// How many items are as `p` says.
pub open spec fn how_many<A>(s: Seq<A>, p: spec_fn(A) -> bool) -> nat {
    s.filter(p).len()
}

/// The last item counts if it is as `p` says.
pub proof fn lemma_how_many_last<A>(s: Seq<A>, p: spec_fn(A) -> bool)
    requires
        s.len() > 0,
    ensures
        how_many(s, p) == how_many(s.drop_last(), p) + if p(s.last()) {
            1nat
        } else {
            0
        },
{
    reveal(Seq::filter);
}

/// Where there is nothing, nothing counts.
pub proof fn lemma_how_many_none<A>(p: spec_fn(A) -> bool)
    ensures
        how_many(Seq::<A>::empty(), p) == 0,
{
    reveal(Seq::filter);
}

/// Counts add up.
pub proof fn lemma_how_many_add<A>(s: Seq<A>, t: Seq<A>, p: spec_fn(A) -> bool)
    ensures
        how_many(s + t, p) == how_many(s, p) + how_many(t, p),
    decreases t.len(),
{
    if t.len() == 0 {
        assert(s + t =~= s);
        assert(t =~= Seq::<A>::empty());
        lemma_how_many_none::<A>(p);
    } else {
        assert((s + t).drop_last() =~= s + t.drop_last());
        assert((s + t).last() == t.last());
        lemma_how_many_add(s, t.drop_last(), p);
        lemma_how_many_last(s + t, p);
        lemma_how_many_last(t, p);
    }
}

} // verus!
