//! Laws of chains, stated over the spec functions that the contracts of
//! `prepend` (`pushed`) and `unlink` (`popped`) use.
use crate::list::{holds_value, popped, pushed};
use vstd::std_specs::cmp::PartialEqSpec;
use vstd::prelude::*;
use vstd::seq_lib::lemma_multiset_commutative;

verus! {

/// The values left after `k` calls of `unlink` on a chain spelling `s`.
pub open spec fn pop_times<T>(s: Seq<T>, k: nat) -> Seq<T>
    decreases k,
{
    if k == 0 {
        s
    } else {
        pop_times(popped(s), (k - 1) as nat)
    }
}

/// Membership after a push, as `chain_contains` answers it: a value equal to
/// `like` is in the chain after pushing `v` exactly when `v` equals `like` or
/// such a value was there before. Nothing else is added and nothing is lost.
pub proof fn lemma_push_membership<T: PartialEq>(s: Seq<T>, v: T, like: T)
    ensures
        holds_value(pushed(s, v), like) <==> (v.eq_spec(&like) || holds_value(s, like)),
{
    let t = pushed(s, v);
    assert(t[0] == v);
    if holds_value(t, like) {
        let i = choose|i: int| 0 <= i < t.len() && #[trigger] t[i].eq_spec(&like);
        if i > 0 {
            assert(s[i - 1] == t[i]);
        }
    }
    if holds_value(s, like) {
        let j = choose|j: int| 0 <= j < s.len() && #[trigger] s[j].eq_spec(&like);
        assert(t[j + 1] == s[j]);
    }
}

/// A removal right after a push gives back the pushed value and leaves the
/// chain as it was.
pub proof fn lemma_pop_undoes_push<T>(s: Seq<T>, v: T)
    ensures
        pushed(s, v)[0] == v,
        popped(pushed(s, v)) == s,
{
    assert(pushed(s, v).drop_first() =~= s);
}

/// Conservation under removal: `k` removals (`k <= n`) from a chain of `n`
/// values take off exactly its first `k` values and leave the other `n - k`;
/// together they are the values the chain held, each exactly once.
pub proof fn lemma_pops_conserve<T>(s: Seq<T>, k: nat)
    requires
        k <= s.len(),
    ensures
        pop_times(s, k) == s.skip(k as int),
        pop_times(s, k).len() == s.len() - k,
        s.take(k as int) + pop_times(s, k) == s,
        s.take(k as int).to_multiset().add(pop_times(s, k).to_multiset()) == s.to_multiset(),
    decreases k,
{
    if k > 0 {
        lemma_pops_conserve(s.drop_first(), (k - 1) as nat);
        assert(s.drop_first().skip(k - 1) =~= s.skip(k as int));
    }
    assert(s.take(k as int) + s.skip(k as int) =~= s);
    lemma_multiset_commutative(s.take(k as int), s.skip(k as int));
}

/// Last in, first out on one thread: pushing `a`, `b`, `c` in turn onto a chain
/// spelling `s` and then removing three times gives `c`, `b`, `a` in that
/// order and leaves `s`.
pub proof fn lemma_lifo_order<T>(s: Seq<T>, a: T, b: T, c: T)
    ensures
        ({
            let t = pushed(pushed(pushed(s, a), b), c);
            &&& t[0] == c
            &&& popped(t)[0] == b
            &&& popped(popped(t))[0] == a
            &&& popped(popped(popped(t))) == s
        }),
{
    lemma_pop_undoes_push(pushed(pushed(s, a), b), c);
    lemma_pop_undoes_push(pushed(s, a), b);
    lemma_pop_undoes_push(s, a);
}

} // verus!
