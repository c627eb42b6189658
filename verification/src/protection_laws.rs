//! What holds of the stripes of a pool as a whole: the index agrees with the
//! stripes, shards stay spread, and a planned rebuild brings every stripe back.

use vstd::prelude::*;

use crate::order;
use crate::protection;
use crate::protection::{ProtectionScheme, StripeHealth, StripeId, StripesView, TaskView};
use crate::sorted_map;
use crate::sums;
use crate::text;
use crate::types::{CNodeId, ErrorView, PoolId, SNodeId};

verus! {

impl StripesView {
    /// The stripes with a shard on `d`.
    pub open spec fn stripes_on(self, d: SNodeId) -> Set<StripeId> {
        Set::new(|s: StripeId| self.stripes.contains_key(s) && self.stripes[s].contains(d))
    }

    /// Whether a stripe stands on D+P different, known domains.
    pub open spec fn well_placed(self, members: Seq<SNodeId>) -> bool {
        &&& members.len() == self.scheme.spec_width()
        &&& members.no_duplicates()
        &&& forall|i: int| 0 <= i < members.len() ==> self.domains.contains_key(#[trigger] members[i])
    }

    /// Whether counts and index agree with the stripes, and no two shards of a
    /// stripe share a fault domain.
    pub open spec fn consistent(self) -> bool {
        &&& self.domains.dom().finite()
        &&& self.stripes.dom().finite()
        &&& forall|s: StripeId| #[trigger]
            self.stripes.contains_key(s) ==> s.0 < self.next_stripe && self.well_placed(self.stripes[s])
        &&& forall|d: SNodeId| #[trigger] self.listed(d) == self.stripes_on(d)
        &&& forall|d: SNodeId| #[trigger]
            self.domains.contains_key(d) ==> self.domains[d] == self.stripes_on(d).len()
    }

    /// The stripes on a domain are finitely many.
    proof fn lemma_stripes_on_finite(self, d: SNodeId)
        requires
            self.stripes.dom().finite(),
        ensures
            self.stripes_on(d).finite(),
            self.stripes_on(d).len() <= self.stripes.dom().len(),
    {
        assert(self.stripes_on(d).subset_of(self.stripes.dom()));
        vstd::set_lib::lemma_len_subset(self.stripes_on(d), self.stripes.dom());
    }
}

/// There are at most `n` stripes numbered below `n`.
proof fn lemma_numbered_below(ids: Set<StripeId>, n: nat)
    requires
        ids.finite(),
        n <= u64::MAX,
        forall|s: StripeId| #[trigger] ids.contains(s) ==> s.0 < n,
    ensures
        ids.len() <= n,
    decreases n,
{
    if n == 0 {
        assert(ids =~= Set::empty());
    } else {
        let last = StripeId((n - 1) as u64);
        let rest = ids.remove(last);
        assert forall|s: StripeId| #[trigger] rest.contains(s) implies s.0 < n - 1 by {
            assert(ids.contains(s));
        }
        lemma_numbered_below(rest, (n - 1) as nat);
    }
}

/// A pool starts out consistent.
pub proof fn law_new_pool_is_consistent(pool: PoolId, scheme: ProtectionScheme)
    ensures
        (StripesView {
            pool,
            scheme,
            domains: Map::empty(),
            failed: Set::empty(),
            stripes: Map::empty(),
            by_domain: Map::empty(),
            next_stripe: 0,
        }).consistent(),
{
    let v = StripesView {
        pool,
        scheme,
        domains: Map::empty(),
        failed: Set::empty(),
        stripes: Map::empty(),
        by_domain: Map::empty(),
        next_stripe: 0,
    };
    assert forall|d: SNodeId| #[trigger] v.listed(d) == v.stripes_on(d) by {
        assert(v.listed(d) =~= v.stripes_on(d));
    }
}

/// Registering a domain keeps a pool consistent.
pub proof fn law_add_domain_consistent(v: StripesView, d: SNodeId)
    requires
        v.consistent(),
    ensures
        v.add_domain(d).consistent(),
{
    let w = v.add_domain(d);
    if !v.domains.contains_key(d) {
        assert forall|e: SNodeId| #[trigger] w.listed(e) == w.stripes_on(e) by {
            assert(v.listed(e) == v.stripes_on(e));
            assert(w.stripes_on(e) =~= v.stripes_on(e));
        }
        assert(w.stripes_on(d) =~= Set::empty()) by {
            assert forall|s: StripeId| !w.stripes_on(d).contains(s) by {
                if w.stripes_on(d).contains(s) {
                    assert(v.stripes.contains_key(s));
                    let i = choose|i: int| 0 <= i < v.stripes[s].len() && v.stripes[s][i] == d;
                    assert(v.domains.contains_key(v.stripes[s][i]));
                }
            }
        }
        assert forall|e: SNodeId| #[trigger] w.domains.contains_key(e) implies w.domains[e]
            == w.stripes_on(e).len() by {
            assert(w.stripes_on(e) =~= v.stripes_on(e));
        }
        assert forall|s: StripeId| #[trigger] w.stripes.contains_key(s) implies s.0 < w.next_stripe
            && w.well_placed(w.stripes[s]) by {
            assert(v.stripes.contains_key(s));
            assert(v.well_placed(v.stripes[s]));
        }
    }
}

/// What fails and what comes back does not touch the stripes: a pool stays
/// consistent.
pub proof fn law_failures_consistent(v: StripesView, failed: Set<SNodeId>)
    requires
        v.consistent(),
    ensures
        (StripesView { failed, ..v }).consistent(),
{
    let w = StripesView { failed, ..v };
    assert forall|e: SNodeId| #[trigger] w.listed(e) == w.stripes_on(e) by {
        assert(v.listed(e) == v.stripes_on(e));
        assert(w.stripes_on(e) =~= v.stripes_on(e));
    }
    assert forall|e: SNodeId| #[trigger] w.domains.contains_key(e) implies w.domains[e] == w.stripes_on(e).len() by {
        assert(v.domains.contains_key(e));
        assert(w.stripes_on(e) =~= v.stripes_on(e));
    }
    assert forall|s: StripeId| #[trigger] w.stripes.contains_key(s) implies s.0 < w.next_stripe && w.well_placed(
        w.stripes[s],
    ) by {
        assert(v.stripes.contains_key(s));
        assert(v.well_placed(v.stripes[s]));
    }
}

/// In a consistent pool only the numbering of stripes can run out: while a
/// number is left, a stripe can be placed without any count overflowing.
pub proof fn law_room_for_a_stripe(v: StripesView)
    requires
        v.consistent(),
        v.next_stripe < u64::MAX,
    ensures
        v.can_place(),
{
    if v.healthy().len() >= v.scheme.spec_width() {
        v.lemma_next_members();
        assert forall|i: int| 0 <= i < v.next_members().len() implies v.domains[#[trigger] v.next_members()[i]]
            < u64::MAX by {
            let d = v.next_members()[i];
            assert(v.healthy().contains(d));
            v.lemma_stripes_on_finite(d);
            lemma_numbered_below(v.stripes.dom(), v.next_stripe as nat);
        }
    }
}

/// Without duplicates, a domain occurs once or not at all.
proof fn lemma_copies_distinct(members: Seq<SNodeId>, d: SNodeId)
    requires
        members.no_duplicates(),
    ensures
        protection::copies(members, d) == (if members.contains(d) { 1nat } else { 0nat }),
    decreases members.len(),
{
    if members.len() > 0 {
        let rest = members.drop_last();
        assert(rest.no_duplicates());
        lemma_copies_distinct(rest, d);
        if members.last() == d {
            assert(members.contains(d));
            assert(!rest.contains(d)) by {
                if rest.contains(d) {
                    let i = choose|i: int| 0 <= i < rest.len() && rest[i] == d;
                    assert(members[i] == members[members.len() - 1]);
                }
            }
        } else {
            if members.contains(d) {
                let i = choose|i: int| 0 <= i < members.len() && members[i] == d;
                assert(rest[i] == d);
            }
            if rest.contains(d) {
                let i = choose|i: int| 0 <= i < rest.len() && rest[i] == d;
                assert(members[i] == d);
            }
        }
    }
}

/// Placing a stripe keeps a pool consistent.
pub proof fn law_place_stripe_consistent(v: StripesView)
    requires
        v.consistent(),
        v.can_place(),
    ensures
        v.place_stripe().0.consistent(),
{
    if v.healthy().len() >= v.scheme.spec_width() {
        v.lemma_next_members();
        let members = v.next_members();
        let id = StripeId(v.next_stripe);
        let w = v.with_stripe(members);
        assert(w.domains.dom() =~= v.domains.dom());
        assert(!v.stripes.contains_key(id));
        assert forall|s: StripeId| #[trigger] w.stripes.contains_key(s) implies s.0 < w.next_stripe
            && w.well_placed(w.stripes[s]) by {
            if s == id {
                assert forall|i: int| 0 <= i < members.len() implies w.domains.contains_key(
                    #[trigger] members[i],
                ) by {
                    assert(v.healthy().contains(members[i]));
                }
            } else {
                assert(v.stripes.contains_key(s));
                assert(v.well_placed(v.stripes[s]));
            }
        }
        assert forall|d: SNodeId| #[trigger] w.listed(d) == w.stripes_on(d) by {
            assert(v.listed(d) == v.stripes_on(d));
            assert(w.listed(d) =~= w.stripes_on(d));
        }
        assert forall|d: SNodeId| #[trigger] w.domains.contains_key(d) implies w.domains[d] == w.stripes_on(
            d,
        ).len() by {
            assert(v.domains.contains_key(d));
            v.lemma_stripes_on_finite(d);
            lemma_copies_distinct(members, d);
            if members.contains(d) {
                assert(w.stripes_on(d) =~= v.stripes_on(d).insert(id));
            } else {
                assert(w.stripes_on(d) =~= v.stripes_on(d));
            }
        }
    }
}

/// Giving a stripe up keeps a pool consistent.
pub proof fn law_release_stripe_consistent(v: StripesView, id: StripeId)
    requires
        v.consistent(),
    ensures
        v.release_stripe(id).0.consistent(),
{
    if v.stripes.contains_key(id) {
        let members = v.stripes[id];
        let w = v.release_stripe(id).0;
        assert(v.well_placed(members));
        assert(w.domains.dom() =~= v.domains.dom());
        assert forall|s: StripeId| #[trigger] w.stripes.contains_key(s) implies s.0 < w.next_stripe
            && w.well_placed(w.stripes[s]) by {
            assert(v.stripes.contains_key(s));
            assert(v.well_placed(v.stripes[s]));
        }
        assert forall|d: SNodeId| #[trigger] w.listed(d) == w.stripes_on(d) by {
            assert(v.listed(d) == v.stripes_on(d));
            assert(w.listed(d) =~= w.stripes_on(d));
        }
        assert forall|d: SNodeId| #[trigger] w.domains.contains_key(d) implies w.domains[d] == w.stripes_on(
            d,
        ).len() by {
            assert(v.domains.contains_key(d));
            v.lemma_stripes_on_finite(d);
            lemma_copies_distinct(members, d);
            if members.contains(d) {
                assert(v.stripes_on(d).contains(id));
                assert(w.stripes_on(d) =~= v.stripes_on(d).remove(id));
            } else {
                assert(w.stripes_on(d) =~= v.stripes_on(d));
            }
        }
    }
}

/// Giving up the stripe just placed restores every count, the stripes and the
/// listing of every domain; only the number is not used again.
pub proof fn law_release_undoes_place(v: StripesView)
    requires
        v.consistent(),
        v.can_place(),
        v.place_stripe().1 is Ok,
    ensures
        ({
            let (placed, r) = v.place_stripe();
            let (w, freed) = placed.release_stripe(r->Ok_0.0);
            &&& freed is Ok
            &&& w.domains == v.domains
            &&& w.stripes == v.stripes
            &&& forall|d: SNodeId| #[trigger] w.listed(d) == v.listed(d)
            &&& w.failed == v.failed
            &&& w.next_stripe == v.next_stripe + 1
        }),
{
    let id = StripeId(v.next_stripe);
    let (placed, r) = v.place_stripe();
    let w = placed.release_stripe(id).0;
    let members = v.next_members();
    v.lemma_next_members();
    assert(!v.stripes.contains_key(id));
    assert(w.stripes =~= v.stripes);
    assert(w.domains =~= v.domains) by {
        assert forall|d: SNodeId| v.domains.contains_key(d) implies w.domains[d] == v.domains[d] by {
            lemma_copies_distinct(members, d);
        }
    }
    assert forall|d: SNodeId| #[trigger] w.listed(d) == v.listed(d) by {
        assert(v.listed(d) == v.stripes_on(d));
        assert(w.listed(d) =~= v.listed(d));
    }
}

/// Failing a domain affects exactly the stripes that have a shard there.
pub proof fn law_affected_by_a_failure(v: StripesView, d: SNodeId, s: StripeId)
    requires
        v.consistent(),
    ensures
        v.listed(d).contains(s) <==> v.stripes.contains_key(s) && v.stripes[s].contains(d),
        v.affected().contains(s) <==> v.stripes.contains_key(s) && v.lost_shards(v.stripes[s]) > 0,
{
    assert(v.listed(d) == v.stripes_on(d));
    let down = |m: SNodeId| v.failed.contains(m);
    if v.affected().contains(s) {
        let e = choose|e: SNodeId| #[trigger] v.failed.contains(e) && v.listed(e).contains(s);
        assert(v.listed(e) == v.stripes_on(e));
        let i = choose|i: int| 0 <= i < v.stripes[s].len() && v.stripes[s][i] == e;
        lemma_filter_positive(v.stripes[s], down, i);
    }
    if v.stripes.contains_key(s) && v.lost_shards(v.stripes[s]) > 0 {
        let i = lemma_filter_witness(v.stripes[s], down);
        let e = v.stripes[s][i];
        assert(v.listed(e) == v.stripes_on(e));
        assert(v.failed.contains(e));
    }
}

/// What is kept makes a filtered listing non-empty.
proof fn lemma_filter_positive<T>(s: Seq<T>, keep: spec_fn(T) -> bool, i: int)
    requires
        0 <= i < s.len(),
        keep(s[i]),
    ensures
        s.filter(keep).len() > 0,
    decreases s.len(),
{
    reveal(Seq::filter);
    if i < s.len() - 1 {
        assert(s.drop_last()[i] == s[i]);
        lemma_filter_positive(s.drop_last(), keep, i);
    }
}

/// A non-empty filtered listing comes from an item that is kept.
proof fn lemma_filter_witness<T>(s: Seq<T>, keep: spec_fn(T) -> bool) -> (i: int)
    requires
        s.filter(keep).len() > 0,
    ensures
        0 <= i < s.len(),
        keep(s[i]),
    decreases s.len(),
{
    reveal(Seq::filter);
    if keep(s.last()) {
        s.len() - 1
    } else {
        lemma_filter_witness(s.drop_last(), keep)
    }
}

/// What is kept and what is not add up.
proof fn lemma_filter_split<T>(s: Seq<T>, keep: spec_fn(T) -> bool, leave: spec_fn(T) -> bool)
    requires
        forall|x: T| #[trigger] keep(x) <==> !leave(x),
    ensures
        s.filter(keep).len() + s.filter(leave).len() == s.len(),
    decreases s.len(),
{
    reveal(Seq::filter);
    if s.len() > 0 {
        lemma_filter_split(s.drop_last(), keep, leave);
        assert(keep(s.last()) <==> !leave(s.last()));
    }
}

/// A stripe is readable exactly while it is not lost: with as many failures as
/// there are parity shards it can still be read, with one more it cannot.
pub proof fn law_readable_until_lost(v: StripesView, id: StripeId)
    requires
        v.consistent(),
        v.stripes.contains_key(id),
    ensures
        v.readable_members(id) is Ok <==> v.lost_shards(v.stripes[id]) <= v.scheme.parity,
        v.readable_members(id) is Ok <==> v.health(id) != Ok::<_, ErrorView>(StripeHealth::Lost),
        v.lost_shards(v.stripes[id]) <= v.scheme.spec_width(),
{
    let members = v.stripes[id];
    assert(v.well_placed(members));
    lemma_filter_split(
        members,
        |m: SNodeId| v.failed.contains(m),
        |m: SNodeId| !v.failed.contains(m),
    );
}

/// Whether all domains hold equally many shards, give or take one.
pub open spec fn balanced(v: StripesView) -> bool {
    forall|a: SNodeId, b: SNodeId| #[trigger]
        v.domains.contains_key(a) && #[trigger] v.domains.contains_key(b) ==> v.domains[a] <= v.domains[b] + 1
}

/// While all domains are up, placing stripes keeps the shards spread evenly.
pub proof fn law_placement_balances(v: StripesView)
    requires
        v.consistent(),
        v.can_place(),
        balanced(v),
        forall|d: SNodeId| #[trigger] v.domains.contains_key(d) ==> !v.failed.contains(d),
    ensures
        balanced(v.place_stripe().0),
{
    if v.healthy().len() >= v.scheme.spec_width() {
        v.lemma_next_members();
        let members = v.next_members();
        let w = v.with_stripe(members);
        let lt = |a: SNodeId, b: SNodeId| v.sooner(a, b);
        v.lemma_sooner();
        assert(v.healthy() =~= v.domains.dom());
        order::lemma_ranking_exists(v.healthy(), lt);
        let ranked = order::ranking(v.healthy(), lt);
        order::lemma_ranking_len(ranked, v.healthy(), lt);
        assert forall|a: SNodeId, b: SNodeId| #[trigger] w.domains.contains_key(a) && #[trigger]
            w.domains.contains_key(b) implies w.domains[a] <= w.domains[b] + 1 by {
            assert(v.domains.contains_key(a) && v.domains.contains_key(b));
            lemma_copies_distinct(members, a);
            lemma_copies_distinct(members, b);
            if members.contains(a) && !members.contains(b) {
                let i = choose|i: int| 0 <= i < members.len() && members[i] == a;
                assert(v.healthy().contains(b));
                assert(ranked.contains(b));
                let j = choose|j: int| 0 <= j < ranked.len() && ranked[j] == b;
                if j < members.len() {
                    assert(members[j] == b);
                }
                assert(ranked[i] == a);
                assert(lt(ranked[i], ranked[j]));
            }
        }
    }
}

/// The state after `n` stripes were asked for.
pub open spec fn after_placements(v: StripesView, n: nat) -> StripesView
    decreases n,
{
    if n == 0 {
        v
    } else {
        after_placements(v, (n - 1) as nat).place_stripe().0
    }
}

/// In a pool that has only been given domains, and stripes after that, any two
/// domains hold equally many shards, give or take one.
pub proof fn law_placement_alone_balances(v: StripesView, n: nat)
    requires
        v.consistent(),
        v.stripes == Map::<StripeId, Seq<SNodeId>>::empty(),
        v.failed == Set::<SNodeId>::empty(),
        v.next_stripe + n <= u64::MAX,
    ensures
        ({
            let w = after_placements(v, n);
            &&& w.consistent()
            &&& balanced(w)
            &&& w.failed == v.failed
            &&& w.domains.dom() == v.domains.dom()
            &&& w.next_stripe <= v.next_stripe + n
        }),
    decreases n,
{
    if n == 0 {
        assert forall|a: SNodeId, b: SNodeId| #[trigger] v.domains.contains_key(a) && #[trigger]
            v.domains.contains_key(b) implies v.domains[a] <= v.domains[b] + 1 by {
            assert(v.stripes_on(a) =~= Set::empty());
        }
    } else {
        law_placement_alone_balances(v, (n - 1) as nat);
        let u = after_placements(v, (n - 1) as nat);
        law_room_for_a_stripe(u);
        law_place_stripe_consistent(u);
        law_placement_balances(u);
        assert(after_placements(v, n).domains.dom() =~= v.domains.dom());
    }
}

/// The stripes among `ids` with a shard on `d`.
spec fn among(v: StripesView, ids: Set<StripeId>, d: SNodeId) -> Set<StripeId> {
    ids.filter(|s: StripeId| v.stripes[s].contains(d))
}

/// The members of a listing without repetitions, counted one by one.
proof fn lemma_count_members(domains: Set<SNodeId>, members: Seq<SNodeId>)
    requires
        domains.finite(),
        members.no_duplicates(),
        forall|i: int| 0 <= i < members.len() ==> domains.contains(#[trigger] members[i]),
    ensures
        sums::sum(domains, |d: SNodeId| if members.contains(d) { 1nat } else { 0nat }) == members.len(),
    decreases members.len(),
{
    let f = |d: SNodeId| if members.contains(d) { 1nat } else { 0nat };
    if members.len() == 0 {
        if sums::sum(domains, f) > 0 {
            let x = sums::lemma_sum_positive(domains, f);
        }
    } else {
        let rest = members.drop_last();
        let last = members.last();
        let g = |d: SNodeId| if rest.contains(d) { 1nat } else { 0nat };
        lemma_count_members(domains, rest);
        assert(domains.contains(members[members.len() - 1]));
        sums::lemma_sum_remove(domains, f, last);
        sums::lemma_sum_remove(domains, g, last);
        assert(members[members.len() - 1] == last);
        assert(!rest.contains(last)) by {
            if rest.contains(last) {
                let i = choose|i: int| 0 <= i < rest.len() && rest[i] == last;
                assert(members[i] == members[members.len() - 1]);
            }
        }
        assert forall|d: SNodeId| #[trigger] domains.remove(last).contains(d) implies f(d) == g(d) by {
            if members.contains(d) {
                let i = choose|i: int| 0 <= i < members.len() && members[i] == d;
                assert(rest[i] == d);
            }
            if rest.contains(d) {
                let i = choose|i: int| 0 <= i < rest.len() && rest[i] == d;
                assert(members[i] == d);
            }
        }
        sums::lemma_sum_same(domains.remove(last), f, g);
    }
}

/// Counting the shards of some stripes by domain or by stripe comes to the same.
proof fn lemma_count_shards(v: StripesView, ids: Set<StripeId>)
    requires
        v.consistent(),
        ids.subset_of(v.stripes.dom()),
    ensures
        sums::sum(v.domains.dom(), |d: SNodeId| among(v, ids, d).len()) == ids.len() * v.scheme.spec_width(),
    decreases ids.len(),
{
    let dom = v.domains.dom();
    let width = v.scheme.spec_width();
    let f = |d: SNodeId| among(v, ids, d).len();
    vstd::set_lib::lemma_len_subset(ids, v.stripes.dom());
    if ids.len() == 0 {
        assert(0 * width == 0) by (nonlinear_arith);
        if sums::sum(dom, f) > 0 {
            let x = sums::lemma_sum_positive(dom, f);
            assert(among(v, ids, x) =~= Set::empty());
        }
    } else {
        let s = ids.choose();
        let rest = ids.remove(s);
        let members = v.stripes[s];
        assert(v.stripes.contains_key(s));
        assert(v.well_placed(members));
        lemma_count_shards(v, rest);
        lemma_count_members(dom, members);
        let g = |d: SNodeId| among(v, rest, d).len();
        let h = |d: SNodeId| if members.contains(d) { 1nat } else { 0nat };
        assert forall|d: SNodeId| #[trigger] dom.contains(d) implies f(d) == g(d) + h(d) by {
            if members.contains(d) {
                assert(among(v, ids, d) =~= among(v, rest, d).insert(s));
            } else {
                assert(among(v, ids, d) =~= among(v, rest, d));
            }
        }
        sums::lemma_sum_add(dom, g, h, f);
        let k = rest.len();
        assert((k + 1) * width == k * width + width) by (nonlinear_arith);
    }
}

/// The shards of all domains together are as many as the stripes have: for each
/// stripe its width.
pub proof fn law_shards_add_up(v: StripesView)
    requires
        v.consistent(),
    ensures
        sums::sum(v.domains.dom(), |d: SNodeId| v.domains[d] as nat) == v.stripes.dom().len()
            * v.scheme.spec_width(),
{
    let ids = v.stripes.dom();
    let f = |d: SNodeId| v.domains[d] as nat;
    let g = |d: SNodeId| among(v, ids, d).len();
    lemma_count_shards(v, ids);
    assert forall|d: SNodeId| #[trigger] v.domains.dom().contains(d) implies f(d) == g(d) by {
        assert(v.domains.contains_key(d));
        assert(among(v, ids, d) =~= v.stripes_on(d));
    }
    sums::lemma_sum_same(v.domains.dom(), f, g);
}

/// Whether a task can be carried out: enough different targets, all known, up
/// and not in the stripe.
pub open spec fn task_fits(v: StripesView, task: TaskView) -> bool {
    &&& v.stripes.contains_key(task.stripe)
    &&& task.write_to.no_duplicates()
    &&& v.lost_shards(v.stripes[task.stripe]) <= task.write_to.len()
    &&& forall|i: int|
        0 <= i < task.write_to.len() ==> v.healthy().contains(#[trigger] task.write_to[i])
            && !v.stripes[task.stripe].contains(task.write_to[i])
}

/// Moving a shard to a known domain that is not in the stripe keeps a pool
/// consistent.
proof fn lemma_move_shard(v: StripesView, id: StripeId, i: int, to: SNodeId)
    requires
        v.consistent(),
        v.stripes.contains_key(id),
        0 <= i < v.stripes[id].len(),
        v.domains.contains_key(to),
        !v.stripes[id].contains(to),
    ensures
        v.move_shard(id, i, to).consistent(),
        v.drop_shard(v.stripes[id][i], id).domains.contains_key(to),
        v.drop_shard(v.stripes[id][i], id).domains[to] < u64::MAX,
{
    let from = v.stripes[id][i];
    let members = v.stripes[id];
    let moved = members.update(i, to);
    let w = v.move_shard(id, i, to);
    assert(v.well_placed(members));
    assert(v.domains.contains_key(members[i]));
    assert(members.contains(from));
    assert(from != to);
    v.lemma_stripes_on_finite(to);
    v.lemma_stripes_on_finite(from);
    lemma_numbered_below(v.stripes.dom(), v.next_stripe as nat);
    assert(v.stripes_on(to).subset_of(v.stripes.dom().remove(id)));
    vstd::set_lib::lemma_len_subset(v.stripes_on(to), v.stripes.dom().remove(id));
    assert forall|d: SNodeId| #[trigger] moved.contains(d) <==> d == to || (members.contains(d) && d != from) by {
        if moved.contains(d) && d != to {
            let k = choose|k: int| 0 <= k < moved.len() && moved[k] == d;
            assert(members[k] == d);
            assert(k != i);
        }
        if members.contains(d) && d != from {
            let k = choose|k: int| 0 <= k < members.len() && members[k] == d;
            assert(moved[k] == d);
        }
        assert(moved[i] == to);
    }
    assert(moved.no_duplicates()) by {
        assert forall|a: int, b: int| 0 <= a < moved.len() && 0 <= b < moved.len() && a != b implies moved[a]
            != moved[b] by {
            if a == i {
                assert(members.contains(members[b]));
            } else if b == i {
                assert(members.contains(members[a]));
            }
        }
    }
    assert(w.domains.dom() =~= v.domains.dom());
    assert(w.stripes.dom() =~= v.stripes.dom());
    assert forall|s: StripeId| #[trigger] w.stripes.contains_key(s) implies s.0 < w.next_stripe && w.well_placed(
        w.stripes[s],
    ) by {
        assert(v.stripes.contains_key(s));
        assert(v.well_placed(v.stripes[s]));
        if s == id {
            assert forall|k: int| 0 <= k < moved.len() implies w.domains.contains_key(#[trigger] moved[k]) by {
                if k != i {
                    assert(v.domains.contains_key(members[k]));
                }
            }
        }
    }
    assert(v.listed(from) == v.stripes_on(from));
    assert(v.listed(to) == v.stripes_on(to));
    assert(v.stripes_on(from).contains(id));
    assert(v.by_domain.contains_key(from));
    assert forall|d: SNodeId| #[trigger] w.listed(d) == w.stripes_on(d) by {
        assert(v.listed(d) == v.stripes_on(d));
        assert(moved.contains(d) <==> d == to || (members.contains(d) && d != from));
        assert(w.listed(d) =~= w.stripes_on(d));
    }
    assert forall|d: SNodeId| #[trigger] w.domains.contains_key(d) implies w.domains[d] == w.stripes_on(d).len() by {
        assert(v.domains.contains_key(d));
        assert(moved.contains(d) <==> d == to || (members.contains(d) && d != from));
        if d == to {
            assert(w.stripes_on(d) =~= v.stripes_on(d).insert(id));
        } else if d == from {
            assert(w.stripes_on(d) =~= v.stripes_on(d).remove(id));
        } else {
            assert(w.stripes_on(d) =~= v.stripes_on(d));
        }
    }
}

/// The course of a rebuild: after `n` shards, those are on domains that are up,
/// the others are where they were, and the pool is consistent.
proof fn lemma_rebuild_course(v: StripesView, task: TaskView, n: nat)
    requires
        v.consistent(),
        task_fits(v, task),
        n <= v.stripes[task.stripe].len(),
    ensures
        ({
            let (s, k, enough) = v.rebuilt(task, n);
            let was = v.stripes[task.stripe];
            let now = s.stripes[task.stripe];
            &&& enough
            &&& k == was.take(n as int).filter(|m: SNodeId| v.failed.contains(m)).len()
            &&& s.consistent()
            &&& s.failed == v.failed
            &&& s.scheme == v.scheme
            &&& s.pool == v.pool
            &&& s.next_stripe == v.next_stripe
            &&& s.domains.dom() == v.domains.dom()
            &&& s.stripes == v.stripes.insert(task.stripe, now)
            &&& now.len() == was.len()
            &&& forall|j: int| n <= j < was.len() ==> #[trigger] now[j] == was[j]
            &&& forall|j: int| 0 <= j < n ==> !v.failed.contains(#[trigger] now[j])
            &&& forall|j: int| 0 <= j < was.len() ==> #[trigger] now[j] == was[j] || used(task, k, now[j])
        }),
    decreases n,
{
    let was = v.stripes[task.stripe];
    let down = |m: SNodeId| v.failed.contains(m);
    if n == 0 {
        reveal(Seq::filter);
        assert(was.take(0).filter(down).len() == 0);
        assert(v.stripes =~= v.stripes.insert(task.stripe, was));
    } else {
        lemma_rebuild_course(v, task, (n - 1) as nat);
        let (s, k, enough) = v.rebuilt(task, (n - 1) as nat);
        let now = s.stripes[task.stripe];
        let slot = now[n - 1];
        assert(slot == was[n - 1]);
        assert(was.take(n as int).drop_last() =~= was.take(n - 1));
        reveal(Seq::filter);
        assert(was.take(n as int).last() == slot);
        if v.failed.contains(slot) {
            lemma_filter_take(was, down, n as int);
            let to = task.write_to[k as int];
            assert(v.healthy().contains(to));
            assert(!now.contains(to)) by {
                if now.contains(to) {
                    let j = choose|j: int| 0 <= j < now.len() && now[j] == to;
                    if now[j] == was[j] {
                        assert(was.contains(was[j]));
                    } else {
                        let q = choose|q: int| 0 <= q < k && task.write_to[q] == now[j];
                        assert(task.write_to[q] == task.write_to[k as int]);
                    }
                }
            }
            lemma_move_shard(s, task.stripe, n - 1, to);
            let (s2, k2, enough2) = v.rebuilt(task, n);
            let now2 = s2.stripes[task.stripe];
            assert(now2 =~= now.update(n - 1, to));
            assert(s2.domains.dom() =~= v.domains.dom());
            assert(s2.stripes =~= v.stripes.insert(task.stripe, now2));
            assert forall|j: int| 0 <= j < was.len() implies #[trigger] now2[j] == was[j] || used(task, k2, now2[j]) by {
                if j == n - 1 {
                    assert(task.write_to[k as int] == now2[j]);
                } else if now2[j] != was[j] {
                    assert(used(task, k, now[j]));
                    let q = choose|q: int| 0 <= q < k && task.write_to[q] == now[j];
                    assert(0 <= q < k2 && task.write_to[q] == now2[j]);
                }
            }
        }
    }
}

/// Whether `d` is among the first `k` targets of a task.
spec fn used(task: TaskView, k: nat, d: SNodeId) -> bool {
    exists|q: int| 0 <= q < k && task.write_to[q] == d
}

/// A part of a listing keeps no more than the whole; the part up to an item
/// that is kept keeps one more than the part before it.
proof fn lemma_filter_take<T>(s: Seq<T>, keep: spec_fn(T) -> bool, n: int)
    requires
        0 < n <= s.len(),
        keep(s[n - 1]),
    ensures
        s.take(n - 1).filter(keep).len() < s.filter(keep).len(),
    decreases s.len(),
{
    reveal(Seq::filter);
    if n == s.len() {
        assert(s.take(n - 1) =~= s.drop_last());
    } else {
        assert(s.drop_last().take(n - 1) =~= s.take(n - 1));
        assert(s.drop_last()[n - 1] == s[n - 1]);
        lemma_filter_take(s.drop_last(), keep, n);
    }
}

/// A fitting task can be carried out, makes its stripe healthy, touches no other
/// stripe, and keeps the pool consistent.
pub proof fn law_rebuild_restores_a_stripe(v: StripesView, task: TaskView)
    requires
        v.consistent(),
        task_fits(v, task),
    ensures
        v.targets_known(task),
        ({
            let (w, r) = v.apply_rebuild(task);
            &&& r is Ok
            &&& w.consistent()
            &&& w.health(task.stripe) == Ok::<_, ErrorView>(StripeHealth::Healthy)
            &&& w.lost_shards(w.stripes[task.stripe]) == 0
            &&& w.stripes.dom() == v.stripes.dom()
            &&& forall|s: StripeId| s != task.stripe ==> #[trigger] w.stripes[s] == v.stripes[s]
            &&& w.failed == v.failed
            &&& w.scheme == v.scheme
            &&& w.domains.dom() == v.domains.dom()
        }),
{
    let was = v.stripes[task.stripe];
    lemma_rebuild_course(v, task, was.len());
    let w = v.apply_rebuild(task).0;
    let now = w.stripes[task.stripe];
    let down = |m: SNodeId| w.failed.contains(m);
    if now.filter(down).len() > 0 {
        let i = lemma_filter_witness(now, down);
        assert(!v.failed.contains(now[i]));
    }
    assert(w.stripes.dom() =~= v.stripes.dom());
    assert forall|n: int| 0 <= n < was.len() implies #[trigger] v.target_known(task, n) by {
        lemma_rebuild_course(v, task, n as nat);
        let (s, k, enough) = v.rebuilt(task, n as nat);
        let at = s.stripes[task.stripe];
        let slot = at[n];
        if s.failed.contains(slot) && k < task.write_to.len() {
            let to = task.write_to[k as int];
            assert(v.healthy().contains(to));
            assert(s.domains.contains_key(to));
            assert(!at.contains(to)) by {
                if at.contains(to) {
                    let j = choose|j: int| 0 <= j < at.len() && at[j] == to;
                    if at[j] == was[j] {
                        assert(was.contains(was[j]));
                    } else {
                        assert(used(task, k, at[j]));
                        let q = choose|q: int| 0 <= q < k && task.write_to[q] == at[j];
                        assert(task.write_to[q] == task.write_to[k as int]);
                    }
                }
            }
            lemma_move_shard(s, task.stripe, n, to);
        }
    }
}

/// What is kept of a listing is what was in it and is to be kept.
proof fn lemma_filter_members<T>(s: Seq<T>, keep: spec_fn(T) -> bool, x: T)
    ensures
        s.filter(keep).contains(x) <==> s.contains(x) && keep(x),
    decreases s.len(),
{
    reveal(Seq::filter);
    if s.len() > 0 {
        let rest = s.drop_last();
        lemma_filter_members(rest, keep, x);
        let kept = rest.filter(keep);
        if rest.contains(x) {
            let i = choose|i: int| 0 <= i < rest.len() && rest[i] == x;
            assert(s[i] == x);
        }
        if s.contains(x) && x != s.last() {
            let i = choose|i: int| 0 <= i < s.len() && s[i] == x;
            assert(rest[i] == x);
        }
        assert(s[s.len() - 1] == s.last());
        if keep(s.last()) {
            let now = kept.push(s.last());
            assert(now[kept.len() as int] == s.last());
            if kept.contains(x) {
                let i = choose|i: int| 0 <= i < kept.len() && kept[i] == x;
                assert(now[i] == x);
            }
            if now.contains(x) && x != s.last() {
                let i = choose|i: int| 0 <= i < now.len() && now[i] == x;
                assert(kept[i] == x);
            }
        }
    }
}

/// Where the shards of a stripe are once a task with as many targets as shards were
/// lost has been carried out: those that were up, and the targets.
proof fn lemma_rebuilt_members(v: StripesView, task: TaskView, d: SNodeId)
    requires
        v.consistent(),
        task_fits(v, task),
        task.write_to.len() == v.lost_shards(v.stripes[task.stripe]),
    ensures
        ({
            let was = v.stripes[task.stripe];
            let now = v.apply_rebuild(task).0.stripes[task.stripe];
            &&& now.no_duplicates()
            &&& now.len() == was.len()
            &&& now.contains(d) <==> v.survivors(was).contains(d) || task.write_to.contains(d)
        }),
{
    let was = v.stripes[task.stripe];
    let w = v.apply_rebuild(task).0;
    let now = w.stripes[task.stripe];
    lemma_rebuild_course(v, task, was.len());
    law_rebuild_restores_a_stripe(v, task);
    let k = v.rebuilt(task, was.len()).1;
    assert(was.take(was.len() as int) =~= was);
    assert(w.well_placed(now));
    let down = |m: SNodeId| v.failed.contains(m);
    let up = |m: SNodeId| !v.failed.contains(m);
    lemma_filter_split(was, down, up);
    let alive = v.survivors(was);
    let all = alive.to_set().union(task.write_to.to_set());
    assert forall|x: SNodeId| #[trigger] now.to_set().contains(x) implies all.contains(x) by {
        let j = choose|j: int| 0 <= j < now.len() && now[j] == x;
        if now[j] == was[j] {
            assert(was.contains(x));
            lemma_filter_members(was, up, x);
        } else {
            assert(used(task, k, now[j]));
            let q = choose|q: int| 0 <= q < k && task.write_to[q] == now[j];
            assert(task.write_to.contains(x));
        }
    }
    assert(now.to_set().subset_of(all));
    now.unique_seq_to_set();
    alive.lemma_cardinality_of_set();
    task.write_to.lemma_cardinality_of_set();
    vstd::seq_lib::seq_to_set_is_finite(alive);
    vstd::seq_lib::seq_to_set_is_finite(task.write_to);
    vstd::seq_lib::seq_to_set_is_finite(now);
    vstd::set_lib::lemma_len_union(alive.to_set(), task.write_to.to_set());
    vstd::set_lib::lemma_len_subset(now.to_set(), all);
    vstd::set_lib::lemma_subset_equality(now.to_set(), all);
    assert(now.to_set().contains(d) <==> all.contains(d));
}

/// A task with as many targets as shards were lost moves just those shards: the
/// stripe is then on the domains that it had and that are up, and on the targets. A
/// domain that is down and had a shard of it has one less, a target has one more,
/// and no other count changes. The stripe stays healthy when domains recover, and
/// the health of the other stripes is what it was.
pub proof fn law_rebuild_moves_the_lost_shards(v: StripesView, task: TaskView)
    requires
        v.consistent(),
        task_fits(v, task),
        task.write_to.len() == v.lost_shards(v.stripes[task.stripe]),
    ensures
        ({
            let was = v.stripes[task.stripe];
            let w = v.apply_rebuild(task).0;
            let now = w.stripes[task.stripe];
            &&& now.no_duplicates()
            &&& forall|d: SNodeId| #[trigger]
                now.contains(d) <==> v.survivors(was).contains(d) || task.write_to.contains(d)
            &&& w.domains.dom() == v.domains.dom()
            &&& forall|d: SNodeId| #[trigger]
                v.domains.contains_key(d) ==> w.domains[d] == v.domains[d] + (if task.write_to.contains(d) {
                    1int
                } else {
                    0int
                }) - (if was.contains(d) && v.failed.contains(d) {
                    1int
                } else {
                    0int
                })
            &&& forall|left: Set<SNodeId>| #[trigger]
                left.subset_of(v.failed) ==> (StripesView { failed: left, ..w }).health(task.stripe) == Ok::<
                    _,
                    ErrorView,
                >(StripeHealth::Healthy)
            &&& w.stripes.dom() == v.stripes.dom()
            &&& forall|s: StripeId| s != task.stripe ==> #[trigger] w.health(s) == v.health(s)
        }),
{
    let was = v.stripes[task.stripe];
    let w = v.apply_rebuild(task).0;
    let now = w.stripes[task.stripe];
    law_rebuild_restores_a_stripe(v, task);
    lemma_rebuilt_members(v, task, SNodeId(0));
    assert forall|d: SNodeId| #[trigger] now.contains(d) <==> v.survivors(was).contains(d) || task.write_to.contains(
        d,
    ) by {
        lemma_rebuilt_members(v, task, d);
    }
    assert forall|d: SNodeId| #[trigger] v.domains.contains_key(d) implies w.domains[d] == v.domains[d] + (
    if task.write_to.contains(d) {
        1int
    } else {
        0int
    }) - (if was.contains(d) && v.failed.contains(d) {
        1int
    } else {
        0int
    }) by {
        lemma_filter_members(was, |m: SNodeId| !v.failed.contains(m), d);
        v.lemma_stripes_on_finite(d);
        let id = task.stripe;
        assert(w.domains.contains_key(d));
        assert(now.contains(d) <==> v.survivors(was).contains(d) || task.write_to.contains(d));
        if task.write_to.contains(d) {
            let q = choose|q: int| 0 <= q < task.write_to.len() && task.write_to[q] == d;
            assert(v.healthy().contains(task.write_to[q]) && !was.contains(task.write_to[q]));
        }
        assert forall|s: StripeId| s != id implies (#[trigger] w.stripes_on(d).contains(s) <==> v.stripes_on(
            d,
        ).contains(s)) by {
            assert(w.stripes[s] == v.stripes[s]);
        }
        if now.contains(d) && !was.contains(d) {
            assert(w.stripes_on(d) =~= v.stripes_on(d).insert(id));
        } else if was.contains(d) && !now.contains(d) {
            assert(w.stripes_on(d) =~= v.stripes_on(d).remove(id));
        } else {
            assert(w.stripes_on(d) =~= v.stripes_on(d));
        }
    }
    assert forall|left: Set<SNodeId>| #[trigger] left.subset_of(v.failed) implies (StripesView {
        failed: left,
        ..w
    }).health(task.stripe) == Ok::<_, ErrorView>(StripeHealth::Healthy) by {
        let x = StripesView { failed: left, ..w };
        let down = |m: SNodeId| x.failed.contains(m);
        if now.filter(down).len() > 0 {
            let i = lemma_filter_witness(now, down);
            lemma_filter_positive(now, |m: SNodeId| w.failed.contains(m), i);
        }
    }
    assert forall|s: StripeId| s != task.stripe implies #[trigger] w.health(s) == v.health(s) by {
        assert(w.stripes.contains_key(s) <==> v.stripes.contains_key(s));
        assert(w.stripes[s] == v.stripes[s]);
    }
}

/// Tasks are made stripe by stripe.
proof fn lemma_tasks_for(v: StripesView, ids: Seq<StripeId>, cnodes: Seq<CNodeId>, n: nat)
    requires
        v.tasks_for(ids, cnodes, n) is Ok,
    ensures
        ({
            let tasks = v.tasks_for(ids, cnodes, n)->Ok_0;
            &&& tasks.len() == n
            &&& forall|i: int|
                0 <= i < n ==> v.task_for(ids[i], cnodes[i % (cnodes.len() as int)]) == Ok::<_, ErrorView>(
                    #[trigger] tasks[i],
                )
        }),
    decreases n,
{
    if n > 0 {
        lemma_tasks_for(v, ids, cnodes, (n - 1) as nat);
    }
}

/// If no stripe is beyond repair, then none of those listed is.
proof fn lemma_none_beyond_repair(v: StripesView, ids: Seq<StripeId>, n: nat)
    requires
        v.first_beyond_repair(ids, n) is None,
    ensures
        forall|i: int| 0 <= i < n ==> v.beyond_repair(#[trigger] ids[i]) is None,
    decreases n,
{
    if n > 0 {
        lemma_none_beyond_repair(v, ids, (n - 1) as nat);
    }
}

/// The targets of a degraded stripe are as many as it has lost, all different,
/// up, and not in the stripe.
proof fn lemma_targets(v: StripesView, id: StripeId)
    requires
        v.consistent(),
        v.spares(id).len() >= v.lost(id),
    ensures
        v.targets(id).len() == v.lost(id),
        v.targets(id).no_duplicates(),
        forall|i: int| 0 <= i < v.targets(id).len() ==> v.spares(id).contains(#[trigger] v.targets(id)[i]),
{
    let lt = |a: SNodeId, b: SNodeId| v.emptier(a, b);
    let set = v.spares(id);
    assert(order::strict_order(lt));
    assert(set.subset_of(v.domains.dom()));
    vstd::set_lib::lemma_len_subset(set, v.domains.dom());
    order::lemma_ranking_exists(set, lt);
    let ranked = order::ranking(set, lt);
    order::lemma_ranking_len(ranked, set, lt);
    assert forall|i: int| 0 <= i < v.targets(id).len() implies set.contains(#[trigger] v.targets(id)[i]) by {
        assert(ranked.contains(ranked[i]));
    }
}

/// Keeping one item keeps its copies.
proof fn lemma_filter_copies(members: Seq<SNodeId>, keep: spec_fn(SNodeId) -> bool, d: SNodeId)
    requires
        forall|i: int| 0 <= i < members.len() ==> (keep(#[trigger] members[i]) <==> members[i] == d),
    ensures
        members.filter(keep).len() == protection::copies(members, d),
    decreases members.len(),
{
    reveal(Seq::filter);
    if members.len() > 0 {
        let rest = members.drop_last();
        assert forall|i: int| 0 <= i < rest.len() implies (keep(#[trigger] rest[i]) <==> rest[i] == d) by {
            assert(rest[i] == members[i]);
        }
        lemma_filter_copies(rest, keep, d);
        assert(keep(members[members.len() - 1]) <==> members.last() == d);
    }
}

/// Where no stripe has lost a shard, the failure of one more domain costs each stripe
/// one shard at most, and affects just those that have one there.
pub proof fn law_one_failure_costs_one_shard(v: StripesView, d: SNodeId)
    requires
        v.consistent(),
        v.affected() == Set::<StripeId>::empty(),
    ensures
        ({
            let w = StripesView { failed: v.failed.insert(d), ..v };
            &&& forall|s: StripeId| #[trigger] w.stripes.contains_key(s) ==> w.lost_shards(w.stripes[s]) <= 1
            &&& w.affected() == v.listed(d)
        }),
{
    let w = StripesView { failed: v.failed.insert(d), ..v };
    let down = |m: SNodeId| w.failed.contains(m);
    law_failures_consistent(v, w.failed);
    assert forall|s: StripeId| #[trigger] w.stripes.contains_key(s) implies w.lost_shards(w.stripes[s]) <= 1 by {
        let members = v.stripes[s];
        assert(v.well_placed(members));
        law_affected_by_a_failure(v, d, s);
        assert(!v.affected().contains(s));
        assert forall|i: int| 0 <= i < members.len() implies (down(#[trigger] members[i]) <==> members[i] == d) by {
            if v.failed.contains(members[i]) {
                lemma_filter_positive(members, |m: SNodeId| v.failed.contains(m), i);
            }
        }
        lemma_filter_copies(members, down, d);
        lemma_copies_distinct(members, d);
    }
    assert forall|s: StripeId| w.affected().contains(s) <==> v.listed(d).contains(s) by {
        if w.affected().contains(s) {
            let e = choose|e: SNodeId| #[trigger] w.failed.contains(e) && w.listed(e).contains(s);
            if e != d {
                assert(v.failed.contains(e) && v.listed(e).contains(s));
                assert(v.affected().contains(s));
            }
        }
        if v.listed(d).contains(s) {
            assert(w.failed.contains(d) && w.listed(d).contains(s));
        }
    }
    assert(w.affected() =~= v.listed(d));
}

/// The stripes to rebuild are affected ones, each listed once.
proof fn lemma_by_risk(v: StripesView)
    requires
        v.consistent(),
    ensures
        v.affected().finite(),
        v.degraded().subset_of(v.affected()),
        order::is_ranking(v.by_risk(), v.degraded(), |a: StripeId, b: StripeId| v.riskier(a, b)),
        v.by_risk().len() == v.degraded().len(),
        v.by_risk().no_duplicates(),
{
    let lt = |a: StripeId, b: StripeId| v.riskier(a, b);
    assert forall|s: StripeId| v.affected().contains(s) implies v.stripes.contains_key(s) by {
        law_affected_by_a_failure(v, SNodeId(0), s);
    }
    assert(v.affected().subset_of(v.stripes.dom()));
    vstd::set_lib::lemma_len_subset(v.affected(), v.stripes.dom());
    vstd::set_lib::lemma_len_subset(v.degraded(), v.affected());
    assert(order::strict_order(lt));
    order::lemma_ranking_exists(v.degraded(), lt);
    order::lemma_ranking_len(v.by_risk(), v.degraded(), lt);
}

/// If none is beyond repair, the stripes to rebuild are those that some failure has
/// touched.
proof fn lemma_all_degraded(v: StripesView)
    requires
        v.consistent(),
        ({
            let ids = sorted_map::in_order::<StripeId>(v.affected());
            v.first_beyond_repair(ids, ids.len()) is None
        }),
    ensures
        v.degraded() == v.affected(),
{
    let set = v.affected();
    let ids = sorted_map::in_order::<StripeId>(set);
    lemma_by_risk(v);
    <StripeId as sorted_map::Key>::lemma_order();
    order::lemma_ranking_exists(set, sorted_map::key_order::<StripeId>());
    lemma_none_beyond_repair(v, ids, ids.len());
    assert forall|s: StripeId| set.contains(s) <==> v.degraded().contains(s) by {
        if set.contains(s) {
            assert(ids.contains(s));
            let i = choose|i: int| 0 <= i < ids.len() && ids[i] == s;
            assert(v.beyond_repair(ids[i]) is None);
            law_affected_by_a_failure(v, SNodeId(0), s);
            law_readable_until_lost(v, s);
        }
    }
    assert(v.degraded() =~= set);
}

/// The tasks of a plan are for different stripes, all affected; the stripes that
/// have lost most come first; each task can be carried out, reads only shards that
/// live, writes as many as were lost; and the nodes take turns.
pub proof fn law_tasks_of_a_plan(v: StripesView, cnodes: Seq<CNodeId>)
    requires
        v.consistent(),
        v.plan_rebuild(cnodes) is Ok,
    ensures
        ({
            let tasks = v.plan_rebuild(cnodes)->Ok_0;
            &&& forall|i: int, j: int|
                0 <= i < j < tasks.len() ==> (#[trigger] tasks[i]).stripe != (#[trigger] tasks[j]).stripe
                    && tasks[i].lost >= tasks[j].lost
            &&& forall|i: int|
                0 <= i < tasks.len() ==> {
                    &&& v.affected().contains((#[trigger] tasks[i]).stripe)
                    &&& task_fits(v, tasks[i])
                    &&& tasks[i].lost == v.lost_shards(v.stripes[tasks[i].stripe])
                    &&& tasks[i].write_to.len() == tasks[i].lost
                    &&& tasks[i].read_from == v.survivors(v.stripes[tasks[i].stripe])
                    &&& tasks[i].assigned_to == cnodes[i % (cnodes.len() as int)]
                }
        }),
{
    let tasks = v.plan_rebuild(cnodes)->Ok_0;
    let ids = v.by_risk();
    let lt = |a: StripeId, b: StripeId| v.riskier(a, b);
    lemma_by_risk(v);
    lemma_tasks_for(v, ids, cnodes, ids.len());
    assert forall|i: int, j: int| 0 <= i < j < tasks.len() implies (#[trigger] tasks[i]).stripe != (
    #[trigger] tasks[j]).stripe && tasks[i].lost >= tasks[j].lost by {
        assert(lt(ids[i], ids[j]));
        assert(ids.contains(ids[i]) && ids.contains(ids[j]));
        assert(v.degraded().contains(ids[i]) && v.degraded().contains(ids[j]));
    }
    assert forall|i: int| 0 <= i < tasks.len() implies {
        &&& v.affected().contains((#[trigger] tasks[i]).stripe)
        &&& task_fits(v, tasks[i])
        &&& tasks[i].lost == v.lost_shards(v.stripes[tasks[i].stripe])
        &&& tasks[i].write_to.len() == tasks[i].lost
        &&& tasks[i].read_from == v.survivors(v.stripes[tasks[i].stripe])
        &&& tasks[i].assigned_to == cnodes[i % (cnodes.len() as int)]
    } by {
        let id = tasks[i].stripe;
        assert(ids[i] == id);
        assert(ids.contains(id));
        assert(v.degraded().contains(id));
        assert(v.affected().contains(id));
        law_affected_by_a_failure(v, SNodeId(0), id);
        law_readable_until_lost(v, id);
        lemma_targets(v, id);
        assert forall|k: int| 0 <= k < tasks[i].write_to.len() implies v.healthy().contains(
            #[trigger] tasks[i].write_to[k],
        ) && !v.stripes[id].contains(tasks[i].write_to[k]) by {
            assert(v.spares(id).contains(v.targets(id)[k]));
        }
    }
}

/// A rebuild plan covers every affected stripe, once, and no other.
pub proof fn law_plan_covers_all(v: StripesView, cnodes: Seq<CNodeId>)
    requires
        v.consistent(),
        v.plan_rebuild(cnodes) is Ok,
    ensures
        ({
            let tasks = v.plan_rebuild(cnodes)->Ok_0;
            &&& tasks.len() == v.affected().len()
            &&& forall|s: StripeId| #[trigger]
                v.affected().contains(s) ==> exists|i: int| 0 <= i < tasks.len() && (#[trigger] tasks[i]).stripe == s
            &&& forall|i: int| 0 <= i < tasks.len() ==> v.affected().contains((#[trigger] tasks[i]).stripe)
            &&& forall|i: int, j: int|
                0 <= i < j < tasks.len() ==> (#[trigger] tasks[i]).stripe != (#[trigger] tasks[j]).stripe
        }),
{
    let tasks = v.plan_rebuild(cnodes)->Ok_0;
    let ids = v.by_risk();
    lemma_by_risk(v);
    lemma_all_degraded(v);
    law_tasks_of_a_plan(v, cnodes);
    lemma_tasks_for(v, ids, cnodes, ids.len());
    assert forall|s: StripeId| #[trigger] v.affected().contains(s) implies exists|i: int|
        0 <= i < tasks.len() && (#[trigger] tasks[i]).stripe == s by {
        assert(ids.contains(s));
        let i = choose|i: int| 0 <= i < ids.len() && ids[i] == s;
        assert(tasks[i].stripe == s);
    }
}

/// The state after the first `n` of the given tasks were carried out.
pub open spec fn after_tasks(v: StripesView, tasks: Seq<TaskView>, n: nat) -> StripesView
    decreases n,
{
    if n == 0 {
        v
    } else {
        after_tasks(v, tasks, (n - 1) as nat).apply_rebuild(tasks[n - 1]).0
    }
}

/// Whether tasks can all be carried out, and are for different stripes.
pub open spec fn tasks_fit(v: StripesView, tasks: Seq<TaskView>) -> bool {
    &&& forall|i: int| 0 <= i < tasks.len() ==> task_fits(v, #[trigger] tasks[i])
    &&& forall|i: int, j: int|
        0 <= i < j < tasks.len() ==> (#[trigger] tasks[i]).stripe != (#[trigger] tasks[j]).stripe
}

/// Tasks for different stripes do not get in each other's way, in whatever order
/// they are carried out, and whichever are left out: those done have healed their
/// stripes, all other stripes are as they were, and what is still to do can still be
/// done.
pub proof fn law_tasks_are_independent(v: StripesView, tasks: Seq<TaskView>, n: nat)
    requires
        v.consistent(),
        tasks_fit(v, tasks),
        n <= tasks.len(),
    ensures
        ({
            let w = after_tasks(v, tasks, n);
            &&& w.consistent()
            &&& w.failed == v.failed
            &&& w.scheme == v.scheme
            &&& w.domains.dom() == v.domains.dom()
            &&& w.stripes.dom() == v.stripes.dom()
            &&& forall|i: int|
                0 <= i < n ==> w.lost_shards(w.stripes[(#[trigger] tasks[i]).stripe]) == 0
            &&& forall|s: StripeId|
                (forall|i: int| 0 <= i < n ==> (#[trigger] tasks[i]).stripe != s) ==> #[trigger] w.stripes[s]
                    == v.stripes[s]
            &&& forall|i: int|
                n <= i < tasks.len() ==> w.stripes[(#[trigger] tasks[i]).stripe] == v.stripes[tasks[i].stripe]
                    && task_fits(w, tasks[i])
        }),
    decreases n,
{
    let w = after_tasks(v, tasks, n);
    if n > 0 {
        let u = after_tasks(v, tasks, (n - 1) as nat);
        law_tasks_are_independent(v, tasks, (n - 1) as nat);
        let done = tasks[n - 1];
        law_rebuild_restores_a_stripe(u, done);
        assert forall|i: int| 0 <= i < n implies w.lost_shards(w.stripes[(#[trigger] tasks[i]).stripe]) == 0 by {
            if i < n - 1 {
                assert(tasks[i].stripe != done.stripe);
                assert(w.stripes[tasks[i].stripe] == u.stripes[tasks[i].stripe]);
            }
        }
        assert forall|s: StripeId| (forall|i: int| 0 <= i < n ==> (#[trigger] tasks[i]).stripe != s) implies
            #[trigger] w.stripes[s] == v.stripes[s] by {
            assert(tasks[n - 1].stripe != s);
            assert(w.stripes[s] == u.stripes[s]);
        }
    }
    assert forall|i: int| n <= i < tasks.len() implies w.stripes[(#[trigger] tasks[i]).stripe]
        == v.stripes[tasks[i].stripe] && task_fits(w, tasks[i]) by {
        let task = tasks[i];
        assert forall|j: int| 0 <= j < n implies (#[trigger] tasks[j]).stripe != task.stripe by {}
        assert(w.stripes[task.stripe] == v.stripes[task.stripe]);
        assert(task_fits(v, task));
        assert(w.healthy() =~= v.healthy());
    }
}

/// Carrying out a plan, task by task, never fails and keeps the pool consistent.
pub proof fn law_plan_can_be_carried_out(v: StripesView, cnodes: Seq<CNodeId>)
    requires
        v.consistent(),
        v.plan_rebuild(cnodes) is Ok,
    ensures
        ({
            let tasks = v.plan_rebuild(cnodes)->Ok_0;
            let w = after_tasks(v, tasks, tasks.len());
            &&& tasks_fit(v, tasks)
            &&& w.consistent()
            &&& w.stripes.dom() == v.stripes.dom()
            &&& forall|n: nat|
                n < tasks.len() ==> {
                    let mid = #[trigger] after_tasks(v, tasks, n);
                    mid.targets_known(tasks[n as int]) && mid.apply_rebuild(tasks[n as int]).1 is Ok
                }
        }),
{
    let tasks = v.plan_rebuild(cnodes)->Ok_0;
    law_tasks_of_a_plan(v, cnodes);
    law_tasks_are_independent(v, tasks, tasks.len());
    assert forall|n: nat| n < tasks.len() implies {
        let mid = #[trigger] after_tasks(v, tasks, n);
        mid.targets_known(tasks[n as int]) && mid.apply_rebuild(tasks[n as int]).1 is Ok
    } by {
        law_tasks_are_independent(v, tasks, n);
        law_rebuild_restores_a_stripe(after_tasks(v, tasks, n), tasks[n as int]);
    }
}

/// The tasks of a plan can be carried out in any order, all or some of them: each
/// finds its stripe as it was planned for, with as many targets as shards are lost,
/// works, and makes the stripe healthy.
pub proof fn law_planned_tasks_work_in_any_order(v: StripesView, cnodes: Seq<CNodeId>, tasks: Seq<TaskView>, n: nat)
    requires
        v.consistent(),
        v.plan_rebuild(cnodes) is Ok,
        forall|i: int| 0 <= i < tasks.len() ==> v.plan_rebuild(cnodes)->Ok_0.contains(#[trigger] tasks[i]),
        tasks.no_duplicates(),
        n < tasks.len(),
    ensures
        ({
            let task = tasks[n as int];
            let mid = after_tasks(v, tasks, n);
            &&& mid.consistent()
            &&& task_fits(mid, task)
            &&& task.write_to.len() == mid.lost_shards(mid.stripes[task.stripe])
            &&& task.read_from == mid.survivors(mid.stripes[task.stripe])
            &&& mid.targets_known(task)
            &&& mid.apply_rebuild(task).1 is Ok
            &&& mid.apply_rebuild(task).0.health(task.stripe) == Ok::<_, ErrorView>(StripeHealth::Healthy)
        }),
{
    let plan = v.plan_rebuild(cnodes)->Ok_0;
    law_tasks_of_a_plan(v, cnodes);
    assert forall|i: int| 0 <= i < tasks.len() implies task_fits(v, #[trigger] tasks[i]) && tasks[i].write_to.len()
        == v.lost_shards(v.stripes[tasks[i].stripe]) && tasks[i].read_from == v.survivors(
        v.stripes[tasks[i].stripe],
    ) by {
        assert(plan.contains(tasks[i]));
        let k = choose|k: int| 0 <= k < plan.len() && plan[k] == tasks[i];
        assert(task_fits(v, plan[k]));
    }
    assert forall|i: int, j: int| 0 <= i < j < tasks.len() implies (#[trigger] tasks[i]).stripe != (
    #[trigger] tasks[j]).stripe by {
        assert(plan.contains(tasks[i]) && plan.contains(tasks[j]));
        let a = choose|a: int| 0 <= a < plan.len() && plan[a] == tasks[i];
        let b = choose|b: int| 0 <= b < plan.len() && plan[b] == tasks[j];
        assert(a != b);
        if a < b {
            assert(plan[a].stripe != plan[b].stripe);
        } else {
            assert(plan[b].stripe != plan[a].stripe);
        }
    }
    law_tasks_are_independent(v, tasks, n);
    law_rebuild_restores_a_stripe(after_tasks(v, tasks, n), tasks[n as int]);
}

/// When a plan has been carried out, every stripe of the pool is healthy again.
pub proof fn law_plan_heals_the_pool(v: StripesView, cnodes: Seq<CNodeId>)
    requires
        v.consistent(),
        v.plan_rebuild(cnodes) is Ok,
    ensures
        ({
            let tasks = v.plan_rebuild(cnodes)->Ok_0;
            let w = after_tasks(v, tasks, tasks.len());
            &&& w.stripes.dom() == v.stripes.dom()
            &&& forall|s: StripeId| #[trigger]
                w.stripes.contains_key(s) ==> w.health(s) == Ok::<_, ErrorView>(StripeHealth::Healthy)
                    && w.lost_shards(w.stripes[s]) == 0
        }),
{
    let tasks = v.plan_rebuild(cnodes)->Ok_0;
    let w = after_tasks(v, tasks, tasks.len());
    law_plan_covers_all(v, cnodes);
    law_tasks_of_a_plan(v, cnodes);
    law_tasks_are_independent(v, tasks, tasks.len());
    assert forall|s: StripeId| #[trigger] w.stripes.contains_key(s) implies w.health(s) == Ok::<_, ErrorView>(
        StripeHealth::Healthy,
    ) && w.lost_shards(w.stripes[s]) == 0 by {
        if v.affected().contains(s) {
            let i = choose|i: int| 0 <= i < tasks.len() && (#[trigger] tasks[i]).stripe == s;
            assert(w.lost_shards(w.stripes[tasks[i].stripe]) == 0);
        } else {
            law_affected_by_a_failure(v, SNodeId(0), s);
            assert forall|i: int| 0 <= i < tasks.len() implies (#[trigger] tasks[i]).stripe != s by {
                assert(v.affected().contains(tasks[i].stripe));
            }
            assert(w.stripes[s] == v.stripes[s]);
        }
    }
}

/// How many tasks a node has been given.
pub open spec fn load(tasks: Seq<TaskView>, cnode: CNodeId) -> nat {
    tasks.filter(|t: TaskView| t.assigned_to == cnode).len()
}

/// Whether task `i` goes to node `i mod n`, for every `i`.
spec fn in_turn(tasks: Seq<TaskView>, cnodes: Seq<CNodeId>) -> bool {
    forall|i: int| 0 <= i < tasks.len() ==> (#[trigger] tasks[i]).assigned_to == cnodes[i % (cnodes.len() as int)]
}

/// In a rota of `n`, the member at place `c` has had its turn `m / n` times after
/// `m` tasks, and once more if the current round has passed it.
proof fn lemma_rota(tasks: Seq<TaskView>, cnodes: Seq<CNodeId>, c: int)
    requires
        cnodes.no_duplicates(),
        0 <= c < cnodes.len(),
        in_turn(tasks, cnodes),
    ensures
        load(tasks, cnodes[c]) == tasks.len() / cnodes.len() + (if c < tasks.len() % cnodes.len() {
            1int
        } else {
            0int
        }),
    decreases tasks.len(),
{
    reveal(Seq::filter);
    let n = cnodes.len() as int;
    if tasks.len() == 0 {
        assert(0int / n == 0) by (nonlinear_arith)
            requires
                n > 0,
        ;
        assert(0int % n == 0) by (nonlinear_arith)
            requires
                n > 0,
        ;
    } else {
        let rest = tasks.drop_last();
        assert(in_turn(rest, cnodes)) by {
            assert forall|i: int| 0 <= i < rest.len() implies (#[trigger] rest[i]).assigned_to == cnodes[i % n] by {
                assert(rest[i] == tasks[i]);
            }
        }
        lemma_rota(rest, cnodes, c);
        let m = rest.len() as int;
        assert(tasks[m].assigned_to == cnodes[m % n]);
        let q = m / n;
        let r = m % n;
        assert(m == n * q + r && 0 <= r < n) by (nonlinear_arith)
            requires
                n > 0,
                q == m / n,
                r == m % n,
        ;
        if r + 1 < n {
            assert((m + 1) / n == q && (m + 1) % n == r + 1) by (nonlinear_arith)
                requires
                    n > 0,
                    m == n * q + r,
                    0 <= r,
                    r + 1 < n,
            ;
        } else {
            assert((m + 1) / n == q + 1 && (m + 1) % n == 0) by (nonlinear_arith)
                requires
                    n > 0,
                    m == n * q + r,
                    r + 1 == n,
            ;
        }
        assert(cnodes[r] == cnodes[c] <==> r == c);
    }
}

/// The work of a plan is shared evenly: with `m` tasks for `n` different nodes,
/// every node gets `m / n` of them, rounded down or up.
pub proof fn law_plan_is_shared_evenly(v: StripesView, cnodes: Seq<CNodeId>, c: int)
    requires
        v.consistent(),
        v.plan_rebuild(cnodes) is Ok,
        cnodes.no_duplicates(),
        0 <= c < cnodes.len(),
    ensures
        ({
            let tasks = v.plan_rebuild(cnodes)->Ok_0;
            tasks.len() / cnodes.len() <= load(tasks, cnodes[c]) <= (tasks.len() + cnodes.len() - 1)
                / cnodes.len() as int
        }),
{
    let tasks = v.plan_rebuild(cnodes)->Ok_0;
    law_tasks_of_a_plan(v, cnodes);
    assert(in_turn(tasks, cnodes));
    lemma_rota(tasks, cnodes, c);
    let m = tasks.len() as int;
    let n = cnodes.len() as int;
    let q = m / n;
    let r = m % n;
    assert(m == n * q + r && 0 <= r < n) by (nonlinear_arith)
        requires
            n > 0,
            q == m / n,
            r == m % n,
    ;
    if r > 0 {
        assert((m + n - 1) / n >= q + 1) by (nonlinear_arith)
            requires
                n > 0,
                m == n * q + r,
                r > 0,
        ;
    } else {
        assert((m + n - 1) / n >= q) by (nonlinear_arith)
            requires
                n > 0,
                m == n * q + r,
                r == 0,
        ;
    }
}

/// The more nodes share a rebuild, the less the busiest has to do.
pub proof fn law_more_nodes_less_work(tasks: nat, few: nat, many: nat)
    requires
        0 < few <= many,
    ensures
        (tasks + many - 1) / many as int <= (tasks + few - 1) / few as int,
{
    let m = tasks as int;
    let a = few as int;
    let b = many as int;
    let q = (m + a - 1) / a;
    assert(m <= q * a && q >= 0) by (nonlinear_arith)
        requires
            a > 0,
            m >= 0,
            q == (m + a - 1) / a,
    ;
    assert(m <= q * b) by (nonlinear_arith)
        requires
            m <= q * a,
            q >= 0,
            a <= b,
    ;
    assert((m + b - 1) / b <= q) by (nonlinear_arith)
        requires
            m <= q * b,
            b > 0,
    ;
}

/// Where a new stripe goes. It needs as many domains that are up as it has shards, and is
/// refused, without any change, if and only if there are fewer. It has the next number and
/// takes different domains, all up, and those with the fewest shards: none that is left out
/// has fewer than one that is taken. Among domains with equally many, turns decide, which
/// move on with the number of the stripe; among those, numbers.
pub proof fn law_new_stripe_takes_the_emptiest(v: StripesView, d: SNodeId)
    requires
        v.domains.dom().finite(),
    ensures
        ({
            let r = v.place_stripe().1;
            let up = v.domains.dom().difference(v.failed);
            let width = v.scheme.data + v.scheme.parity;
            let turn = |x: SNodeId| ((x.0 + v.next_stripe) % 0x1_0000_0000_0000_0000) % 997;
            match r {
                Ok((id, members)) => {
                    &&& up.len() >= width
                    &&& id.0 == v.next_stripe
                    &&& members.len() == width
                    &&& members.no_duplicates()
                    &&& members.contains(d) ==> v.domains.contains_key(d) && !v.failed.contains(d)
                    &&& v.domains.contains_key(d) && !v.failed.contains(d) && !members.contains(d) ==> forall|i: int|
                        0 <= i < members.len() ==> {
                            let m = #[trigger] members[i];
                            ||| v.domains[m] < v.domains[d]
                            ||| v.domains[m] == v.domains[d] && turn(m) < turn(d)
                            ||| v.domains[m] == v.domains[d] && turn(m) == turn(d) && m.0 < d.0
                        }
                    &&& forall|i: int, j: int|
                        0 <= i < j < members.len() ==> {
                            let (a, b) = (#[trigger] members[i], #[trigger] members[j]);
                            ||| v.domains[a] < v.domains[b]
                            ||| v.domains[a] == v.domains[b] && turn(a) < turn(b)
                            ||| v.domains[a] == v.domains[b] && turn(a) == turn(b) && a.0 < b.0
                        }
                },
                Err(e) => {
                    &&& up.len() < width
                    &&& v.place_stripe().0 == v
                    &&& e == ErrorView::Invalid(
                        "pool "@ + text::decimal(v.pool.0 as nat) + " has "@ + text::decimal(up.len())
                            + " healthy fault domains, stripe needs "@ + text::decimal(width as nat),
                    )
                },
            }
        }),
{
    let up = v.domains.dom().difference(v.failed);
    assert(up =~= v.healthy());
    let turn = |x: SNodeId| ((x.0 + v.next_stripe) % 0x1_0000_0000_0000_0000) % 997;
    assert forall|x: SNodeId| #[trigger] v.turn(x) == turn(x) by {
        assert(v.next_stripe <= u64::MAX);
    }
    if v.healthy().len() >= v.scheme.spec_width() {
        v.lemma_next_members();
        let members = v.next_members();
        let lt = |a: SNodeId, b: SNodeId| v.sooner(a, b);
        v.lemma_sooner();
        assert(v.healthy().subset_of(v.domains.dom()));
        vstd::set_lib::lemma_len_subset(v.healthy(), v.domains.dom());
        order::lemma_ranking_exists(v.healthy(), lt);
        let ranked = order::ranking(v.healthy(), lt);
        order::lemma_ranking_len(ranked, v.healthy(), lt);
        assert forall|i: int, j: int| 0 <= i < j < members.len() implies lt(
            #[trigger] members[i],
            #[trigger] members[j],
        ) by {
            assert(lt(ranked[i], ranked[j]));
        }
        if v.healthy().contains(d) && !members.contains(d) {
            assert(ranked.contains(d));
            let j = choose|j: int| 0 <= j < ranked.len() && ranked[j] == d;
            if j < members.len() {
                assert(members[j] == d);
            }
            assert forall|i: int| 0 <= i < members.len() implies lt(#[trigger] members[i], d) by {
                assert(lt(ranked[i], ranked[j]));
            }
        }
    }
}

/// What placing a stripe changes: each of its domains has one shard more and lists it, the
/// stripe is on record with its domains, and the next one gets the next number. Everything
/// else is as it was.
pub proof fn law_new_stripe_is_booked(v: StripesView, d: SNodeId, s: StripeId)
    requires
        v.consistent(),
        v.can_place(),
        v.place_stripe().1 is Ok,
    ensures
        ({
            let (w, r) = v.place_stripe();
            let (id, members) = r->Ok_0;
            &&& w.domains.contains_key(d) <==> v.domains.contains_key(d)
            &&& v.domains.contains_key(d) ==> w.domains[d] == v.domains[d] + (if members.contains(d) {
                1int
            } else {
                0int
            })
            &&& w.listed(d).contains(s) <==> v.listed(d).contains(s) || (s == id && members.contains(d))
            &&& w.stripes.contains_key(s) <==> v.stripes.contains_key(s) || s == id
            &&& w.stripes[id] == members
            &&& s != id && v.stripes.contains_key(s) ==> w.stripes[s] == v.stripes[s]
            &&& w.next_stripe == v.next_stripe + 1
            &&& w.failed == v.failed && w.scheme == v.scheme && w.pool == v.pool
        }),
{
    v.lemma_next_members();
    let members = v.next_members();
    lemma_copies_distinct(members, d);
    if members.contains(d) {
        let i = choose|i: int| 0 <= i < members.len() && members[i] == d;
        assert(v.domains[members[i]] < u64::MAX);
    }
}

/// What giving a stripe up changes: its domains have one shard less and no longer list it,
/// and it is off record. A stripe that is not on record is refused by its number.
pub proof fn law_released_stripe_is_off_the_books(v: StripesView, id: StripeId, d: SNodeId, s: StripeId)
    requires
        v.consistent(),
    ensures
        ({
            let (w, r) = v.release_stripe(id);
            let members = v.stripes[id];
            &&& !v.stripes.contains_key(id) ==> w == v && r == Err::<(), ErrorView>(
                ErrorView::Invalid("no stripe "@ + text::decimal(id.0 as nat)),
            )
            &&& v.stripes.contains_key(id) ==> {
                &&& r is Ok
                &&& w.stripes.contains_key(s) <==> v.stripes.contains_key(s) && s != id
                &&& w.stripes.contains_key(s) ==> w.stripes[s] == v.stripes[s]
                &&& w.domains.contains_key(d) <==> v.domains.contains_key(d)
                &&& v.domains.contains_key(d) ==> w.domains[d] == v.domains[d] - (if members.contains(d) {
                    1int
                } else {
                    0int
                })
                &&& w.listed(d).contains(s) <==> v.listed(d).contains(s) && s != id
                &&& w.next_stripe == v.next_stripe
                &&& w.failed == v.failed && w.scheme == v.scheme && w.pool == v.pool
            }
        }),
{
    if v.stripes.contains_key(id) {
        law_release_stripe_consistent(v, id);
        let members = v.stripes[id];
        let w = v.release_stripe(id).0;
        assert(v.well_placed(members));
        lemma_copies_distinct(members, d);
        assert(v.listed(d) == v.stripes_on(d));
        assert(w.listed(d) == w.stripes_on(d));
        if v.domains.contains_key(d) && members.contains(d) {
            assert(v.stripes_on(d).contains(id));
            v.lemma_stripes_on_finite(d);
        }
    }
}

/// The health of a stripe, by its shards on domains that are down: healthy without any,
/// degraded with up to as many as there are parity shards, which it then counts, and lost
/// with more.
pub proof fn law_health_counts_the_lost_shards(v: StripesView, id: StripeId)
    ensures
        ({
            let lost = v.stripes[id].filter(|m: SNodeId| v.failed.contains(m)).len();
            if !v.stripes.contains_key(id) {
                v.health(id) == Err::<StripeHealth, ErrorView>(
                    ErrorView::Invalid("no stripe "@ + text::decimal(id.0 as nat)),
                )
            } else {
                &&& v.health(id) == Ok::<StripeHealth, ErrorView>(StripeHealth::Healthy) <==> lost == 0
                &&& 0 < lost <= v.scheme.parity ==> v.health(id) == Ok::<StripeHealth, ErrorView>(
                    StripeHealth::Degraded { lost: lost as u8 },
                )
                &&& v.health(id) == Ok::<StripeHealth, ErrorView>(StripeHealth::Lost) <==> lost > v.scheme.parity
            }
        }),
{
}

/// A degraded read takes the shards on domains that are not down, in their order, and needs
/// as many of them as there are data shards.
pub proof fn law_reads_take_what_is_up(v: StripesView, id: StripeId)
    ensures
        ({
            let alive = v.stripes[id].filter(|m: SNodeId| !v.failed.contains(m));
            if !v.stripes.contains_key(id) {
                v.readable_members(id) == Err::<Seq<SNodeId>, ErrorView>(
                    ErrorView::Invalid("no stripe "@ + text::decimal(id.0 as nat)),
                )
            } else if alive.len() >= v.scheme.data {
                v.readable_members(id) == Ok::<Seq<SNodeId>, ErrorView>(alive)
            } else {
                v.readable_members(id) == Err::<Seq<SNodeId>, ErrorView>(
                    ErrorView::Invalid("stripe "@ + text::decimal(id.0 as nat) + " lost beyond parity"@),
                )
            }
        }),
{
}

/// A domain that is registered anew has no shards; one that is known keeps its own. No
/// other domain and no stripe changes.
pub proof fn law_registering_adds_one_domain(v: StripesView, d: SNodeId, other: SNodeId)
    ensures
        ({
            let w = v.add_domain(d);
            &&& w.domains.contains_key(d)
            &&& !v.domains.contains_key(d) ==> w.domains[d] == 0
            &&& v.domains.contains_key(other) ==> w.domains.contains_key(other) && w.domains[other]
                == v.domains[other]
            &&& w.domains.contains_key(other) ==> v.domains.contains_key(other) || other == d
            &&& w == (StripesView { domains: w.domains, ..v })
        }),
{
}

/// Where the lost shards of a stripe are to go: to domains that are up and hold none of it,
/// those with the fewest shards, and among equals the first by number.
pub proof fn law_rebuilds_go_to_the_emptiest(v: StripesView, cnodes: Seq<CNodeId>, i: int, d: SNodeId)
    requires
        v.consistent(),
        v.plan_rebuild(cnodes) is Ok,
        0 <= i < v.plan_rebuild(cnodes)->Ok_0.len(),
    ensures
        ({
            let task = v.plan_rebuild(cnodes)->Ok_0[i];
            let members = v.stripes[task.stripe];
            let targets = task.write_to;
            let spare = v.domains.contains_key(d) && !v.failed.contains(d) && !members.contains(d);
            &&& targets.len() == members.filter(|m: SNodeId| v.failed.contains(m)).len()
            &&& targets.contains(d) ==> spare
            &&& spare && !targets.contains(d) ==> forall|k: int|
                0 <= k < targets.len() ==> {
                    let t = #[trigger] targets[k];
                    v.domains[t] < v.domains[d] || (v.domains[t] == v.domains[d] && t.0 < d.0)
                }
            &&& forall|j: int, k: int|
                0 <= j < k < targets.len() ==> {
                    let (a, b) = (#[trigger] targets[j], #[trigger] targets[k]);
                    v.domains[a] < v.domains[b] || (v.domains[a] == v.domains[b] && a.0 < b.0)
                }
        }),
{
    law_tasks_of_a_plan(v, cnodes);
    let tasks = v.plan_rebuild(cnodes)->Ok_0;
    let ids = v.by_risk();
    lemma_tasks_for(v, ids, cnodes, ids.len());
    let task = tasks[i];
    let id = task.stripe;
    assert(v.task_for(ids[i], cnodes[i % (cnodes.len() as int)]) == Ok::<_, ErrorView>(task));
    lemma_targets(v, id);
    let lt = |a: SNodeId, b: SNodeId| v.emptier(a, b);
    let set = v.spares(id);
    assert(order::strict_order(lt));
    assert(set.subset_of(v.domains.dom()));
    vstd::set_lib::lemma_len_subset(set, v.domains.dom());
    order::lemma_ranking_exists(set, lt);
    let ranked = order::ranking(set, lt);
    order::lemma_ranking_len(ranked, set, lt);
    let targets = task.write_to;
    assert(targets == ranked.take(v.lost(id) as int));
    if targets.contains(d) {
        let k = choose|k: int| 0 <= k < targets.len() && targets[k] == d;
        assert(set.contains(v.targets(id)[k]));
    }
    assert forall|j: int, k: int| 0 <= j < k < targets.len() implies lt(#[trigger] targets[j], #[trigger] targets[k]) by {
        assert(lt(ranked[j], ranked[k]));
    }
    if set.contains(d) && !targets.contains(d) {
        assert(ranked.contains(d));
        let n = choose|n: int| 0 <= n < ranked.len() && ranked[n] == d;
        if n < targets.len() {
            assert(targets[n] == d);
        }
        assert forall|k: int| 0 <= k < targets.len() implies lt(#[trigger] targets[k], d) by {
            assert(lt(ranked[k], ranked[n]));
        }
    }
}

/// The order of a plan: the stripes that have lost most first, and among equals the first
/// by number; each goes to the node whose turn it is.
pub proof fn law_plans_go_by_risk(v: StripesView, cnodes: Seq<CNodeId>, i: int, j: int)
    requires
        v.consistent(),
        v.plan_rebuild(cnodes) is Ok,
        0 <= i < j < v.plan_rebuild(cnodes)->Ok_0.len(),
    ensures
        ({
            let (a, b) = (v.plan_rebuild(cnodes)->Ok_0[i], v.plan_rebuild(cnodes)->Ok_0[j]);
            let lost = |s: StripeId| v.stripes[s].filter(|m: SNodeId| v.failed.contains(m)).len();
            &&& a.lost == lost(a.stripe) && b.lost == lost(b.stripe)
            &&& a.lost > b.lost || (a.lost == b.lost && a.stripe.0 < b.stripe.0)
            &&& j == i + cnodes.len() ==> a.assigned_to == b.assigned_to
            &&& i < cnodes.len() ==> a.assigned_to == cnodes[i]
        }),
{
    law_tasks_of_a_plan(v, cnodes);
    let ids = v.by_risk();
    let lt = |a: StripeId, b: StripeId| v.riskier(a, b);
    lemma_by_risk(v);
    lemma_tasks_for(v, ids, cnodes, ids.len());
    let tasks = v.plan_rebuild(cnodes)->Ok_0;
    assert(v.task_for(ids[i], cnodes[i % (cnodes.len() as int)]) == Ok::<_, ErrorView>(tasks[i]));
    assert(v.task_for(ids[j], cnodes[j % (cnodes.len() as int)]) == Ok::<_, ErrorView>(tasks[j]));
    assert(lt(ids[i], ids[j]));
    let n = cnodes.len() as int;
    assert((i + n) % n == i % n) by (nonlinear_arith)
        requires
            n > 0,
    ;
    if i < n {
        assert(i % n == i) by (nonlinear_arith)
            requires
                0 <= i < n,
        ;
    }
}

/// When a rebuild can be planned: there is a node to do it, and every stripe that has lost
/// shards has lost no more than parity makes up for, and has as many domains to go to, up
/// and without a shard of it.
pub proof fn law_when_a_rebuild_can_be_planned(v: StripesView, cnodes: Seq<CNodeId>)
    requires
        v.consistent(),
    ensures
        ({
            let lost = |s: StripeId| v.stripes[s].filter(|m: SNodeId| v.failed.contains(m)).len();
            let spare = |s: StripeId|
                v.domains.dom().difference(v.failed).difference(v.stripes[s].to_set()).len();
            v.plan_rebuild(cnodes) is Ok <==> cnodes.len() > 0 && forall|s: StripeId| #[trigger]
                v.stripes.contains_key(s) && lost(s) > 0 ==> lost(s) <= v.scheme.parity && lost(s) <= spare(s)
        }),
{
    let lost = |s: StripeId| v.stripes[s].filter(|m: SNodeId| v.failed.contains(m)).len();
    let spare = |s: StripeId| v.domains.dom().difference(v.failed).difference(v.stripes[s].to_set()).len();
    let set = v.affected();
    let ids = sorted_map::in_order::<StripeId>(set);
    lemma_by_risk(v);
    <StripeId as sorted_map::Key>::lemma_order();
    order::lemma_ranking_exists(set, sorted_map::key_order::<StripeId>());
    assert forall|s: StripeId| #[trigger] set.contains(s) <==> v.stripes.contains_key(s) && lost(s) > 0 by {
        law_affected_by_a_failure(v, SNodeId(0), s);
    }
    assert forall|s: StripeId| #[trigger] v.spares(s).len() == spare(s) by {
        assert(v.spares(s) =~= v.domains.dom().difference(v.failed).difference(v.stripes[s].to_set()));
    }
    let fine = forall|s: StripeId| #[trigger]
        v.stripes.contains_key(s) && lost(s) > 0 ==> lost(s) <= v.scheme.parity && lost(s) <= spare(s);
    if cnodes.len() > 0 {
        if v.plan_rebuild(cnodes) is Ok {
            lemma_all_degraded(v);
            lemma_tasks_for(v, v.by_risk(), cnodes, v.by_risk().len());
            let tasks = v.plan_rebuild(cnodes)->Ok_0;
            assert forall|s: StripeId| #[trigger] v.stripes.contains_key(s) && lost(s) > 0 implies lost(s)
                <= v.scheme.parity && lost(s) <= spare(s) by {
                assert(set.contains(s));
                assert(v.degraded().contains(s));
                assert(v.by_risk().contains(s));
                let i = choose|i: int| 0 <= i < v.by_risk().len() && v.by_risk()[i] == s;
                assert(v.task_for(v.by_risk()[i], cnodes[i % (cnodes.len() as int)]) == Ok::<_, ErrorView>(tasks[i]));
                assert(v.spares(s).len() == spare(s));
            }
        }
        if fine {
            assert forall|i: int| 0 <= i < ids.len() implies v.beyond_repair(#[trigger] ids[i]) is None by {
                assert(ids.contains(ids[i]));
                assert(set.contains(ids[i]));
                assert(v.stripes.contains_key(ids[i]));
            }
            lemma_nothing_beyond_repair(v, ids, ids.len());
            let ranked = v.by_risk();
            assert forall|i: int| 0 <= i < ranked.len() implies v.readable_members(#[trigger] ranked[i]) is Ok
                && v.spares(ranked[i]).len() >= v.lost(ranked[i]) by {
                assert(ranked.contains(ranked[i]));
                assert(v.degraded().contains(ranked[i]));
                assert(set.contains(ranked[i]));
                assert(v.stripes.contains_key(ranked[i]));
                law_readable_until_lost(v, ranked[i]);
                assert(v.spares(ranked[i]).len() == spare(ranked[i]));
            }
            lemma_tasks_can_be_made(v, ranked, cnodes, ranked.len());
        }
    }
}

/// Where each stripe can be repaired, no reason against it is found.
proof fn lemma_nothing_beyond_repair(v: StripesView, ids: Seq<StripeId>, n: nat)
    requires
        n <= ids.len(),
        forall|i: int| 0 <= i < n ==> v.beyond_repair(#[trigger] ids[i]) is None,
    ensures
        v.first_beyond_repair(ids, n) is None,
    decreases n,
{
    if n > 0 {
        lemma_nothing_beyond_repair(v, ids, (n - 1) as nat);
        assert(v.beyond_repair(ids[n - 1]) is None);
    }
}

/// Where each stripe can be read and has domains to go to, all tasks can be made.
proof fn lemma_tasks_can_be_made(v: StripesView, ids: Seq<StripeId>, cnodes: Seq<CNodeId>, n: nat)
    requires
        n <= ids.len(),
        forall|i: int|
            0 <= i < n ==> v.readable_members(#[trigger] ids[i]) is Ok && v.spares(ids[i]).len() >= v.lost(ids[i]),
    ensures
        v.tasks_for(ids, cnodes, n) is Ok,
    decreases n,
{
    if n > 0 {
        lemma_tasks_can_be_made(v, ids, cnodes, (n - 1) as nat);
        assert(v.readable_members(ids[n - 1]) is Ok);
    }
}

/// Why a rebuild cannot be planned: there is no node; or else the stripe with the lowest
/// number that is lost for good; or else the first in the order of risk, here the only one,
/// that has nowhere to go.
pub proof fn law_refused_plans_say_why(v: StripesView, cnodes: Seq<CNodeId>, s: StripeId)
    requires
        v.consistent(),
        v.stripes.contains_key(s),
    ensures
        ({
            let lost = |s: StripeId| v.stripes[s].filter(|m: SNodeId| v.failed.contains(m)).len();
            let spare = |s: StripeId|
                v.domains.dom().difference(v.failed).difference(v.stripes[s].to_set()).len();
            &&& cnodes.len() == 0 ==> v.plan_rebuild(cnodes) == Err::<Seq<TaskView>, ErrorView>(
                ErrorView::Invalid("no cnodes to rebuild"@),
            )
            &&& cnodes.len() > 0 && lost(s) > v.scheme.parity && (forall|t: StripeId| #[trigger]
                v.stripes.contains_key(t) && t.0 < s.0 ==> lost(t) <= v.scheme.parity) ==> v.plan_rebuild(cnodes)
                == Err::<Seq<TaskView>, ErrorView>(
                ErrorView::Invalid(
                    "stripe "@ + text::decimal(s.0 as nat) + " lost beyond parity, rebuild impossible"@,
                ),
            )
            &&& cnodes.len() > 0 && 0 < lost(s) <= v.scheme.parity && spare(s) < lost(s) && (forall|t: StripeId| #[trigger]
                v.stripes.contains_key(t) && t != s ==> lost(t) == 0) ==> v.plan_rebuild(cnodes) == Err::<
                Seq<TaskView>,
                ErrorView,
            >(
                ErrorView::Invalid(
                    "pool "@ + text::decimal(v.pool.0 as nat) + " lacks spare fault domains for stripe "@
                        + text::decimal(s.0 as nat),
                ),
            )
        }),
{
    let lost = |s: StripeId| v.stripes[s].filter(|m: SNodeId| v.failed.contains(m)).len();
    let set = v.affected();
    let ids = sorted_map::in_order::<StripeId>(set);
    let klt = sorted_map::key_order::<StripeId>();
    lemma_by_risk(v);
    <StripeId as sorted_map::Key>::lemma_order();
    order::lemma_ranking_exists(set, klt);
    assert forall|t: StripeId| #[trigger] set.contains(t) <==> v.stripes.contains_key(t) && lost(t) > 0 by {
        law_affected_by_a_failure(v, SNodeId(0), t);
    }
    if cnodes.len() > 0 && lost(s) > v.scheme.parity && (forall|t: StripeId| #[trigger]
        v.stripes.contains_key(t) && t.0 < s.0 ==> lost(t) <= v.scheme.parity) {
        assert(set.contains(s));
        assert(ids.contains(s));
        let i = choose|i: int| 0 <= i < ids.len() && ids[i] == s;
        assert forall|k: int| 0 <= k < i implies v.beyond_repair(#[trigger] ids[k]) is None by {
            assert(klt(ids[k], ids[i]));
            assert(ids.contains(ids[k]));
            assert(set.contains(ids[k]));
            assert(v.stripes.contains_key(ids[k]));
        }
        lemma_nothing_beyond_repair(v, ids, i as nat);
        assert(v.first_beyond_repair(ids, (i + 1) as nat) == v.beyond_repair(s));
        lemma_first_reason_stays(v, ids, (i + 1) as nat, ids.len());
    }
    if cnodes.len() > 0 && 0 < lost(s) <= v.scheme.parity && v.domains.dom().difference(v.failed).difference(
        v.stripes[s].to_set(),
    ).len() < lost(s) && (forall|t: StripeId| #[trigger] v.stripes.contains_key(t) && t != s ==> lost(t) == 0) {
        assert(set.contains(s));
        assert forall|i: int| 0 <= i < ids.len() implies v.beyond_repair(#[trigger] ids[i]) is None by {
            assert(ids.contains(ids[i]));
            assert(set.contains(ids[i]));
        }
        lemma_nothing_beyond_repair(v, ids, ids.len());
        assert(v.spares(s) =~= v.domains.dom().difference(v.failed).difference(v.stripes[s].to_set()));
        let ranked = v.by_risk();
        assert(v.degraded().contains(s));
        assert(v.degraded() =~= set![s]) by {
            assert forall|t: StripeId| v.degraded().contains(t) implies t == s by {
                assert(set.contains(t));
            }
        }
        assert(ranked.len() == 1);
        assert(ranked.contains(ranked[0]));
        assert(v.degraded().contains(ranked[0]));
        law_readable_until_lost(v, s);
        reveal_with_fuel(StripesView::tasks_for, 2);
        assert(v.tasks_for(ranked, cnodes, 1) == v.tasks_for(ranked, cnodes, ranked.len()));
    }
}

/// The first reason found is the reason.
proof fn lemma_first_reason_stays(v: StripesView, ids: Seq<StripeId>, m: nat, n: nat)
    requires
        m <= n,
        v.first_beyond_repair(ids, m) is Some,
    ensures
        v.first_beyond_repair(ids, n) == v.first_beyond_repair(ids, m),
    decreases n,
{
    if m < n {
        lemma_first_reason_stays(v, ids, m, (n - 1) as nat);
    }
}

/// Which shard goes where: one on a domain that is up stays, and the others go to the
/// targets in turn.
pub proof fn law_lost_shards_take_the_targets_in_turn(v: StripesView, task: TaskView, i: int)
    requires
        v.consistent(),
        task_fits(v, task),
        0 <= i < v.stripes[task.stripe].len(),
    ensures
        ({
            let was = v.stripes[task.stripe];
            let now = v.apply_rebuild(task).0.stripes[task.stripe];
            let before = was.take(i).filter(|m: SNodeId| v.failed.contains(m)).len() as int;
            &&& now.len() == was.len()
            &&& !v.failed.contains(was[i]) ==> now[i] == was[i]
            &&& v.failed.contains(was[i]) ==> now[i] == task.write_to[before]
        }),
{
    let was = v.stripes[task.stripe];
    lemma_rebuild_course(v, task, was.len());
    lemma_place_of_a_shard(v, task, i, was.len());
}

/// What the course of a rebuild makes of one shard.
proof fn lemma_place_of_a_shard(v: StripesView, task: TaskView, i: int, n: nat)
    requires
        v.consistent(),
        task_fits(v, task),
        0 <= i < v.stripes[task.stripe].len(),
        n <= v.stripes[task.stripe].len(),
    ensures
        ({
            let was = v.stripes[task.stripe];
            let now = v.rebuilt(task, n).0.stripes[task.stripe];
            let before = was.take(i).filter(|m: SNodeId| v.failed.contains(m)).len() as int;
            &&& i >= n || !v.failed.contains(was[i]) ==> now[i] == was[i]
            &&& i < n && v.failed.contains(was[i]) ==> now[i] == task.write_to[before]
        }),
    decreases n,
{
    if n > 0 {
        let m = (n - 1) as nat;
        lemma_rebuild_course(v, task, m);
        lemma_rebuild_course(v, task, n);
        lemma_place_of_a_shard(v, task, i, m);
    }
}

/// A task for a stripe that is not on record is refused by the stripe's number, and changes
/// nothing; one with fewer targets than shards were lost is refused as well.
pub proof fn law_rebuilds_need_enough_targets(v: StripesView, task: TaskView)
    ensures
        ({
            let lost = v.stripes[task.stripe].filter(|m: SNodeId| v.failed.contains(m)).len();
            let (w, r) = v.apply_rebuild(task);
            if !v.stripes.contains_key(task.stripe) {
                w == v && r == Err::<(), ErrorView>(
                    ErrorView::Invalid("no stripe "@ + text::decimal(task.stripe.0 as nat)),
                )
            } else if lost <= task.write_to.len() {
                r is Ok
            } else {
                r == Err::<(), ErrorView>(ErrorView::Invalid("rebuild targets exhausted"@))
            }
        }),
{
    if v.stripes.contains_key(task.stripe) {
        let was = v.stripes[task.stripe];
        lemma_targets_used(v, task, was.len());
        assert(was.take(was.len() as int) =~= was);
    }
}

/// As many targets are used as shards were lost, while there are any.
proof fn lemma_targets_used(v: StripesView, task: TaskView, n: nat)
    requires
        v.stripes.contains_key(task.stripe),
        n <= v.stripes[task.stripe].len(),
    ensures
        ({
            let was = v.stripes[task.stripe];
            let (s, k, enough) = v.rebuilt(task, n);
            let lost = was.take(n as int).filter(|m: SNodeId| v.failed.contains(m)).len();
            &&& s.failed == v.failed
            &&& s.stripes.contains_key(task.stripe)
            &&& s.stripes[task.stripe].len() == was.len()
            &&& forall|j: int| n <= j < was.len() ==> #[trigger] s.stripes[task.stripe][j] == was[j]
            &&& enough <==> lost <= task.write_to.len()
            &&& enough ==> k == lost
        }),
    decreases n,
{
    let was = v.stripes[task.stripe];
    let down = |m: SNodeId| v.failed.contains(m);
    reveal(Seq::filter);
    if n == 0 {
        assert(was.take(0).filter(down).len() == 0);
    } else {
        lemma_targets_used(v, task, (n - 1) as nat);
        assert(was.take(n as int).drop_last() =~= was.take(n - 1));
        assert(was.take(n as int).last() == was[n - 1]);
        let (s, k, enough) = v.rebuilt(task, (n - 1) as nat);
        assert(s.stripes[task.stripe][n - 1] == was[n - 1]);
        assert(was.take(n as int).filter(down).len() == was.take(n - 1).filter(down).len() + (if down(was[n - 1]) {
            1int
        } else {
            0int
        }));
    }
}

} // verus!
