//! Sums over finite sets.

use vstd::prelude::*;

verus! {

/// The sum of `f` over a finite set.
pub open spec fn sum<T>(set: Set<T>, f: spec_fn(T) -> nat) -> nat
    decreases set.len(),
    when set.finite()
{
    if set.len() == 0 {
        0
    } else {
        let x = set.choose();
        f(x) + sum(set.remove(x), f)
    }
}

/// A sum is one item's value and the sum of the rest, whichever item.
pub proof fn lemma_sum_remove<T>(set: Set<T>, f: spec_fn(T) -> nat, x: T)
    requires
        set.finite(),
        set.contains(x),
    ensures
        sum(set, f) == f(x) + sum(set.remove(x), f),
    decreases set.len(),
{
    let c = set.choose();
    if c != x {
        lemma_sum_remove(set.remove(c), f, x);
        lemma_sum_remove(set.remove(x), f, c);
        assert(set.remove(c).remove(x) =~= set.remove(x).remove(c));
    }
}

/// A sum grows by the value of a new item.
pub proof fn lemma_sum_insert<T>(set: Set<T>, f: spec_fn(T) -> nat, x: T)
    requires
        set.finite(),
        !set.contains(x),
    ensures
        sum(set.insert(x), f) == f(x) + sum(set, f),
{
    lemma_sum_remove(set.insert(x), f, x);
    assert(set.insert(x).remove(x) =~= set);
}

/// A sum depends only on the values at the set's members.
pub proof fn lemma_sum_same<T>(set: Set<T>, f: spec_fn(T) -> nat, g: spec_fn(T) -> nat)
    requires
        set.finite(),
        forall|x: T| #[trigger] set.contains(x) ==> f(x) == g(x),
    ensures
        sum(set, f) == sum(set, g),
    decreases set.len(),
{
    if set.len() > 0 {
        let c = set.choose();
        assert(set.contains(c));
        assert forall|x: T| #[trigger] set.remove(c).contains(x) implies f(x) == g(x) by {
            assert(set.contains(x));
        }
        lemma_sum_same(set.remove(c), f, g);
    }
}

/// The sum of two values is the sum of the sums.
pub proof fn lemma_sum_add<T>(set: Set<T>, f: spec_fn(T) -> nat, g: spec_fn(T) -> nat, h: spec_fn(T) -> nat)
    requires
        set.finite(),
        forall|x: T| #[trigger] set.contains(x) ==> h(x) == f(x) + g(x),
    ensures
        sum(set, h) == sum(set, f) + sum(set, g),
    decreases set.len(),
{
    if set.len() > 0 {
        let c = set.choose();
        assert(set.contains(c));
        assert forall|x: T| #[trigger] set.remove(c).contains(x) implies h(x) == f(x) + g(x) by {
            assert(set.contains(x));
        }
        lemma_sum_add(set.remove(c), f, g, h);
    }
}

/// Members whose value is zero can be left out.
pub proof fn lemma_sum_part<T>(set: Set<T>, part: Set<T>, f: spec_fn(T) -> nat)
    requires
        set.finite(),
        part.subset_of(set),
        forall|x: T| #[trigger] set.contains(x) && !part.contains(x) ==> f(x) == 0,
    ensures
        part.finite(),
        sum(set, f) == sum(part, f),
    decreases set.len(),
{
    vstd::set_lib::lemma_len_subset(part, set);
    if set =~= part {
    } else {
        let x = choose|x: T| set.contains(x) && !part.contains(x);
        lemma_sum_remove(set, f, x);
        lemma_sum_part(set.remove(x), part, f);
    }
}

/// A sum is zero only if every value is.
pub proof fn lemma_sum_zero<T>(set: Set<T>, f: spec_fn(T) -> nat)
    requires
        set.finite(),
        sum(set, f) == 0,
    ensures
        forall|x: T| #[trigger] set.contains(x) ==> f(x) == 0,
{
    assert forall|x: T| #[trigger] set.contains(x) implies f(x) == 0 by {
        lemma_sum_remove(set, f, x);
    }
}

/// A sum that is not zero has a summand that is not.
pub proof fn lemma_sum_positive<T>(set: Set<T>, f: spec_fn(T) -> nat) -> (x: T)
    requires
        set.finite(),
        sum(set, f) > 0,
    ensures
        set.contains(x),
        f(x) > 0,
    decreases set.len(),
{
    let c = set.choose();
    if f(c) > 0 {
        c
    } else {
        lemma_sum_positive(set.remove(c), f)
    }
}

} // verus!
