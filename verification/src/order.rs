//! Rankings: the one listing of a set that is ascending under a strict order.

use vstd::prelude::*;

verus! {

/// Whether `lt` is a strict total order on `T`.
pub open spec fn strict_order<T>(lt: spec_fn(T, T) -> bool) -> bool {
    &&& forall|a: T| !(#[trigger] lt(a, a))
    &&& forall|a: T, b: T, c: T| #[trigger] lt(a, b) && #[trigger] lt(b, c) ==> lt(a, c)
    &&& forall|a: T, b: T| a != b ==> #[trigger] lt(a, b) || lt(b, a)
}

/// Whether every item of `s` comes before all later ones.
pub open spec fn ascending<T>(s: Seq<T>, lt: spec_fn(T, T) -> bool) -> bool {
    forall|i: int, j: int| 0 <= i < j < s.len() ==> #[trigger] lt(s[i], s[j])
}

/// Whether `s` lists exactly the members of `set`, in ascending order.
pub open spec fn is_ranking<T>(s: Seq<T>, set: Set<T>, lt: spec_fn(T, T) -> bool) -> bool {
    &&& ascending(s, lt)
    &&& forall|x: T| #[trigger] set.contains(x) <==> s.contains(x)
}

/// The members of a finite set in ascending order.
pub open spec fn ranking<T>(set: Set<T>, lt: spec_fn(T, T) -> bool) -> Seq<T> {
    choose|s: Seq<T>| is_ranking(s, set, lt)
}

/// A set has at most one ranking.
pub proof fn lemma_ranking_unique<T>(a: Seq<T>, b: Seq<T>, set: Set<T>, lt: spec_fn(T, T) -> bool)
    requires
        strict_order(lt),
        is_ranking(a, set, lt),
        is_ranking(b, set, lt),
    ensures
        a == b,
    decreases a.len(),
{
    if a.len() == 0 {
        if b.len() > 0 {
            assert(b.contains(b[0]));
            assert(set.contains(b[0]));
            assert(a.contains(b[0]));
        }
        assert(a =~= b);
    } else {
        assert(a.contains(a[0]));
        assert(set.contains(a[0]));
        assert(b.contains(a[0]));
        assert(b.contains(b[0]));
        assert(set.contains(b[0]));
        assert(a.contains(b[0]));
        let i = choose|i: int| 0 <= i < b.len() && b[i] == a[0];
        let j = choose|j: int| 0 <= j < a.len() && a[j] == b[0];
        if a[0] != b[0] {
            assert(lt(b[0], b[i]));
            assert(lt(a[0], a[j]));
            assert(lt(a[0], a[0]));
        }
        let rest = set.remove(a[0]);
        lemma_ranking_drop_first(a, set, lt);
        lemma_ranking_drop_first(b, set, lt);
        lemma_ranking_unique(a.drop_first(), b.drop_first(), rest, lt);
        assert(a =~= seq![a[0]] + a.drop_first());
        assert(b =~= seq![b[0]] + b.drop_first());
    }
}

/// Without its first item a ranking ranks the other members.
pub proof fn lemma_ranking_drop_first<T>(s: Seq<T>, set: Set<T>, lt: spec_fn(T, T) -> bool)
    requires
        strict_order(lt),
        is_ranking(s, set, lt),
        s.len() > 0,
    ensures
        is_ranking(s.drop_first(), set.remove(s[0]), lt),
{
    let rest = s.drop_first();
    assert forall|i: int, j: int| 0 <= i < j < rest.len() implies #[trigger] lt(rest[i], rest[j]) by {
        assert(lt(s[i + 1], s[j + 1]));
    }
    assert forall|x: T| #[trigger] set.remove(s[0]).contains(x) <==> rest.contains(x) by {
        if set.remove(s[0]).contains(x) {
            assert(set.contains(x));
            let i = choose|i: int| 0 <= i < s.len() && s[i] == x;
            assert(i > 0);
            assert(rest[i - 1] == x);
        }
        if rest.contains(x) {
            let i = choose|i: int| 0 <= i < rest.len() && rest[i] == x;
            assert(s[i + 1] == x);
            assert(lt(s[0], s[i + 1]));
            assert(s.contains(x));
        }
    }
}

/// A listing that is a ranking is *the* ranking.
pub proof fn lemma_is_the_ranking<T>(s: Seq<T>, set: Set<T>, lt: spec_fn(T, T) -> bool)
    requires
        strict_order(lt),
        is_ranking(s, set, lt),
    ensures
        ranking(set, lt) == s,
{
    lemma_ranking_unique(ranking(set, lt), s, set, lt);
}

/// A ranking holds nothing twice, and is as long as its set is large.
pub proof fn lemma_ranking_len<T>(s: Seq<T>, set: Set<T>, lt: spec_fn(T, T) -> bool)
    requires
        strict_order(lt),
        is_ranking(s, set, lt),
    ensures
        s.no_duplicates(),
        set.finite(),
        set.len() == s.len(),
{
    assert forall|i: int, j: int| 0 <= i < s.len() && 0 <= j < s.len() && i != j implies s[i] != s[j] by {
        if i < j {
            assert(lt(s[i], s[j]));
        } else {
            assert(lt(s[j], s[i]));
        }
    }
    s.unique_seq_to_set();
    assert(s.to_set() =~= set);
}

/// Every finite set has a ranking.
pub proof fn lemma_ranking_exists<T>(set: Set<T>, lt: spec_fn(T, T) -> bool)
    requires
        strict_order(lt),
        set.finite(),
    ensures
        is_ranking(ranking(set, lt), set, lt),
    decreases set.len(),
{
    if set.len() == 0 {
        assert(set =~= Set::empty());
        assert(is_ranking(Seq::<T>::empty(), set, lt));
    } else {
        let x = set.choose();
        lemma_ranking_exists(set.remove(x), lt);
        let s = ranking(set.remove(x), lt);
        let t = lemma_ranking_insert(s, set.remove(x), x, lt);
        assert(set.remove(x).insert(x) =~= set);
        assert(is_ranking(t, set, lt));
    }
}

/// A ranking grows by one new member at one place.
pub proof fn lemma_ranking_insert<T>(s: Seq<T>, set: Set<T>, x: T, lt: spec_fn(T, T) -> bool) -> (t: Seq<T>)
    requires
        strict_order(lt),
        is_ranking(s, set, lt),
        !set.contains(x),
    ensures
        is_ranking(t, set.insert(x), lt),
    decreases s.len(),
{
    if s.len() == 0 {
        let t = seq![x];
        assert(t[0] == x);
        assert(t.contains(x));
        assert forall|y: T| #[trigger] set.insert(x).contains(y) <==> t.contains(y) by {
            if set.contains(y) {
                assert(s.contains(y));
            }
        }
        t
    } else if lt(x, s[0]) {
        let t = seq![x] + s;
        assert forall|i: int, j: int| 0 <= i < j < t.len() implies #[trigger] lt(t[i], t[j]) by {
            if i == 0 {
                if j > 1 {
                    assert(lt(s[0], s[j - 1]));
                }
            } else {
                assert(lt(s[i - 1], s[j - 1]));
            }
        }
        assert forall|y: T| #[trigger] set.insert(x).contains(y) <==> t.contains(y) by {
            if set.contains(y) {
                let i = choose|i: int| 0 <= i < s.len() && s[i] == y;
                assert(t[i + 1] == y);
            }
            if y == x {
                assert(t[0] == y);
            }
            if t.contains(y) && y != x {
                let i = choose|i: int| 0 <= i < t.len() && t[i] == y;
                assert(s[i - 1] == y);
                assert(s.contains(y));
            }
        }
        t
    } else {
        assert(s.contains(s[0]));
        assert(set.contains(s[0]));
        assert(lt(s[0], x));
        lemma_ranking_drop_first(s, set, lt);
        let r = lemma_ranking_insert(s.drop_first(), set.remove(s[0]), x, lt);
        let t = seq![s[0]] + r;
        assert forall|i: int, j: int| 0 <= i < j < t.len() implies #[trigger] lt(t[i], t[j]) by {
            if i == 0 {
                assert(r.contains(r[j - 1]));
                assert(set.remove(s[0]).insert(x).contains(r[j - 1]));
                if r[j - 1] != x {
                    assert(set.contains(r[j - 1]));
                    let k = choose|k: int| 0 <= k < s.len() && s[k] == r[j - 1];
                    assert(lt(s[0], s[k]));
                }
            } else {
                assert(lt(r[i - 1], r[j - 1]));
            }
        }
        assert forall|y: T| #[trigger] set.insert(x).contains(y) <==> t.contains(y) by {
            if set.insert(x).contains(y) && y != s[0] {
                assert(set.remove(s[0]).insert(x).contains(y));
                let i = choose|i: int| 0 <= i < r.len() && r[i] == y;
                assert(t[i + 1] == y);
            }
            if y == s[0] {
                assert(t[0] == y);
            }
            if t.contains(y) && y != s[0] {
                let i = choose|i: int| 0 <= i < t.len() && t[i] == y;
                assert(r[i - 1] == y);
                assert(r.contains(y));
                assert(set.remove(s[0]).insert(x).contains(y));
            }
        }
        t
    }
}

/// What comes before all others comes first in the ranking.
pub proof fn lemma_ranking_first<T>(set: Set<T>, lt: spec_fn(T, T) -> bool, x: T)
    requires
        strict_order(lt),
        set.finite(),
        set.contains(x),
        forall|y: T| #[trigger] set.contains(y) ==> y == x || lt(x, y),
    ensures
        ranking(set, lt).len() == set.len(),
        ranking(set, lt).len() > 0,
        ranking(set, lt)[0] == x,
{
    lemma_ranking_exists(set, lt);
    let s = ranking(set, lt);
    lemma_ranking_len(s, set, lt);
    assert(s.contains(x));
    let i = choose|i: int| 0 <= i < s.len() && s[i] == x;
    if i > 0 {
        assert(lt(s[0], s[i]));
        assert(s.contains(s[0]));
        assert(set.contains(s[0]));
        assert(lt(x, s[0]));
        assert(lt(x, x));
    }
}

/// What comes after all others comes last in the ranking.
pub proof fn lemma_ranking_last<T>(set: Set<T>, lt: spec_fn(T, T) -> bool, x: T)
    requires
        strict_order(lt),
        set.finite(),
        set.contains(x),
        forall|y: T| #[trigger] set.contains(y) ==> y == x || lt(y, x),
    ensures
        ranking(set, lt).len() == set.len(),
        ranking(set, lt).len() > 0,
        ranking(set, lt).last() == x,
{
    lemma_ranking_exists(set, lt);
    let s = ranking(set, lt);
    lemma_ranking_len(s, set, lt);
    assert(s.contains(x));
    let i = choose|i: int| 0 <= i < s.len() && s[i] == x;
    let n = s.len() - 1;
    if i < n {
        assert(lt(s[i], s[n]));
        assert(s.contains(s[n]));
        assert(set.contains(s[n]));
        assert(lt(s[n], x));
        assert(lt(x, x));
    }
}

} // verus!
