//! Erasure-coded stripes: placement across fault domains, degraded reads,
//! rebuild.
//!
//! - A stripe is D data and P parity shards on D+P different fault domains
//!   (storage nodes).
//! - Writes always go to new places: this module keeps where shards are.
//! - When a node fails, the affected stripes come from an index, are ordered by
//!   risk (shards lost) and dealt out evenly to all compute nodes.
//! - Stripes are built strictly within one pool.

use vstd::prelude::*;

use crate::order;
use crate::protection_laws;
use crate::sorted_map;
use crate::sorted_map::{precedence, Key, Precedence, SortedMap};
use crate::text;
use crate::types;
use crate::types::{CNodeId, Error, ErrorView, PoolId, SNodeId};

verus! {

/// A stripe.
#[derive(Debug, Clone, Copy, PartialEq, Eq, Hash, PartialOrd, Ord, Structural)]
pub struct StripeId(pub u64);

impl View for StripeId {
    type V = StripeId;

    open spec fn view(&self) -> StripeId {
        *self
    }
}

impl Key for StripeId {
    open spec fn less(a: StripeId, b: StripeId) -> bool {
        a.0 < b.0
    }

    proof fn lemma_order() {
    }

    fn precedes(&self, other: &StripeId) -> (p: Precedence) {
        precedence(self.0 as u64, other.0 as u64)
    }
}

/// An erasure code: `data` data shards and `parity` parity shards.
#[derive(Debug, Clone, Copy, PartialEq, Eq, Structural)]
pub struct ProtectionScheme {
    pub data: u8,
    pub parity: u8,
}

impl ProtectionScheme {
    /// The number of shards in a stripe.
    pub open spec fn spec_width(self) -> nat {
        (self.data + self.parity) as nat
    }

    /// A scheme, if it is one of those on offer: 4 to 16 data shards, 2 or 4 parity
    /// shards.
    pub open spec fn offered(data: u8, parity: u8) -> Result<ProtectionScheme, ErrorView> {
        if !(4 <= data <= 16) {
            Err(ErrorView::Invalid("data shards "@ + text::decimal(data as nat) + " not in 4..=16"@))
        } else if parity != 2 && parity != 4 {
            Err(ErrorView::Invalid("parity shards "@ + text::decimal(parity as nat) + " not 2 or 4"@))
        } else {
            Ok(ProtectionScheme { data, parity })
        }
    }

    /// The share of a stripe that is data, in thousandths.
    pub open spec fn efficiency(self) -> int {
        self.data * 1000 / (self.data + self.parity)
    }

    /// A scheme, if it is on offer.
    pub fn new(data: u8, parity: u8) -> (r: Result<Self, Error>)
        ensures
            types::outcome(r) == Self::offered(data, parity),
    {
        if data < 4 || data > 16 {
            return Err(
                Error::Invalid(text::around("data shards ", data as u64, " not in 4..=16")),
            );
        }
        if parity != 2 && parity != 4 {
            return Err(
                Error::Invalid(text::around("parity shards ", parity as u64, " not 2 or 4")),
            );
        }
        Ok(ProtectionScheme { data, parity })
    }

    pub fn width(&self) -> (w: usize)
        ensures
            w == self.spec_width(),
    {
        self.data as usize + self.parity as usize
    }

    /// The share of a stripe that is data, in thousandths: the wider the
    /// stripe, the lower the overhead.
    pub fn efficiency_permille(&self) -> (e: u32)
        requires
            self.data + self.parity > 0,
        ensures
            e == self.efficiency(),
    {
        self.data as u32 * 1000 / (self.data as u32 + self.parity as u32)
    }
}

/// With the same parity, more data shards never make a stripe less efficient.
pub proof fn law_wider_is_more_efficient(narrow: ProtectionScheme, wide: ProtectionScheme)
    requires
        narrow.parity == wide.parity,
        0 < narrow.data <= wide.data,
    ensures
        narrow.efficiency() <= wide.efficiency(),
{
    let a = narrow.data as int;
    let b = wide.data as int;
    let p = wide.parity as int;
    let q = a * 1000 / (a + p);
    assert(q * (a + p) <= a * 1000) by (nonlinear_arith)
        requires
            q == a * 1000 / (a + p),
            a + p > 0,
    ;
    assert(q * (b + p) <= b * 1000) by (nonlinear_arith)
        requires
            q * (a + p) <= a * 1000,
            0 < a <= b,
            p >= 0,
            q >= 0,
    ;
    assert(q <= b * 1000 / (b + p)) by (nonlinear_arith)
        requires
            q * (b + p) <= b * 1000,
            b + p > 0,
    ;
}

/// Which schemes are on offer: from four to sixteen data shards, and two or four parity
/// shards. What is out of the question is named, data shards first.
pub proof fn law_schemes_on_offer(data: u8, parity: u8)
    ensures
        ({
            let r = ProtectionScheme::offered(data, parity);
            let refused = |what: Seq<char>| r == Err::<ProtectionScheme, ErrorView>(ErrorView::Invalid(what));
            &&& r is Ok <==> 4 <= data <= 16 && (parity == 2 || parity == 4)
            &&& r matches Ok(s) ==> s.data == data && s.parity == parity
            &&& data < 4 || data > 16 ==> refused("data shards "@ + text::decimal(data as nat) + " not in 4..=16"@)
            &&& 4 <= data <= 16 && parity != 2 && parity != 4 ==> refused(
                "parity shards "@ + text::decimal(parity as nat) + " not 2 or 4"@,
            )
        }),
{
}

/// The efficiency of a scheme is the whole part of the thousandths that are data: as many
/// of a thousandth of the width make up no more than the data shards, and one more would.
pub proof fn law_efficiency_is_the_share_of_data(s: ProtectionScheme)
    requires
        s.data + s.parity > 0,
    ensures
        s.efficiency() * (s.data + s.parity) <= s.data * 1000 < (s.efficiency() + 1) * (s.data + s.parity),
        s.spec_width() == s.data + s.parity,
{
    let (a, w) = (s.data * 1000, s.data + s.parity);
    let q = a / w;
    assert(q * w <= a < (q + 1) * w) by (nonlinear_arith)
        requires
            w > 0,
            q == a / w,
    ;
}

/// How a stripe fares, given which domains have failed.
#[derive(Debug, Clone, Copy, PartialEq, Eq, PartialOrd, Ord, Structural)]
pub enum StripeHealth {
    /// All shards are there.
    Healthy,
    /// As many shards are lost as parity can make up for, or fewer: readable,
    /// in need of a rebuild.
    Degraded { lost: u8 },
    /// More shards are lost than parity can make up for.
    Lost,
}

/// A rebuild task: one compute node takes one stripe, reads the shards that
/// live, and writes the lost ones to other domains.
#[derive(Debug, Clone)]
pub struct RebuildTask {
    pub stripe: StripeId,
    /// Shards lost: the level of risk.
    pub lost: u8,
    pub assigned_to: CNodeId,
    pub read_from: Vec<SNodeId>,
    pub write_to: Vec<SNodeId>,
}

/// A rebuild task as a value.
pub struct TaskView {
    pub stripe: StripeId,
    pub lost: u8,
    pub assigned_to: CNodeId,
    pub read_from: Seq<SNodeId>,
    pub write_to: Seq<SNodeId>,
}

impl View for RebuildTask {
    type V = TaskView;

    open spec fn view(&self) -> TaskView {
        TaskView {
            stripe: self.stripe,
            lost: self.lost,
            assigned_to: self.assigned_to,
            read_from: self.read_from@,
            write_to: self.write_to@,
        }
    }
}

/// The stripes of a pool.
pub struct StripesView {
    pub pool: PoolId,
    pub scheme: ProtectionScheme,
    /// The fault domains and the number of shards on each.
    pub domains: Map<SNodeId, u64>,
    /// The domains that are down.
    pub failed: Set<SNodeId>,
    /// The domains of each stripe.
    pub stripes: Map<StripeId, Seq<SNodeId>>,
    /// The stripes with a shard on each domain.
    pub by_domain: Map<SNodeId, Set<StripeId>>,
    pub next_stripe: u64,
}

/// How often `d` occurs in `members`.
pub open spec fn copies(members: Seq<SNodeId>, d: SNodeId) -> nat
    decreases members.len(),
{
    if members.len() == 0 {
        0
    } else {
        copies(members.drop_last(), d) + (if members.last() == d { 1nat } else { 0nat })
    }
}

/// `a` less `b`, but not below zero.
pub open spec fn less_by(a: u64, b: nat) -> u64 {
    if a >= b { (a - b) as u64 } else { 0 }
}

impl StripesView {
    /// The domains that are up.
    pub open spec fn healthy(self) -> Set<SNodeId> {
        Set::new(|d: SNodeId| self.domains.contains_key(d) && !self.failed.contains(d))
    }

    /// The turn of a domain among those with equally many shards, which moves
    /// on with each stripe.
    pub open spec fn turn(self, d: SNodeId) -> u64 {
        (d.0 as u64).wrapping_add(self.next_stripe) % 997
    }

    /// Which of two domains a new stripe takes first: the one with fewer
    /// shards, then by turn, then by number.
    pub open spec fn sooner(self, a: SNodeId, b: SNodeId) -> bool {
        ||| self.domains[a] < self.domains[b]
        ||| self.domains[a] == self.domains[b] && self.turn(a) < self.turn(b)
        ||| self.domains[a] == self.domains[b] && self.turn(a) == self.turn(b) && a.0 < b.0
    }

    /// The domains of the next stripe: the first D+P that are up.
    pub open spec fn next_members(self) -> Seq<SNodeId> {
        order::ranking(self.healthy(), |a: SNodeId, b: SNodeId| self.sooner(a, b)).take(
            self.scheme.spec_width() as int,
        )
    }

    /// The stripes listed for a domain.
    pub open spec fn listed(self, d: SNodeId) -> Set<StripeId> {
        if self.by_domain.contains_key(d) {
            self.by_domain[d]
        } else {
            Set::empty()
        }
    }

    /// The state with one more stripe, on the given domains.
    pub open spec fn with_stripe(self, members: Seq<SNodeId>) -> StripesView {
        let id = StripeId(self.next_stripe);
        StripesView {
            domains: Map::new(
                |d: SNodeId| self.domains.contains_key(d),
                |d: SNodeId| (self.domains[d] + copies(members, d)) as u64,
            ),
            stripes: self.stripes.insert(id, members),
            by_domain: Map::new(
                |d: SNodeId| self.by_domain.contains_key(d) || members.contains(d),
                |d: SNodeId|
                    if members.contains(d) {
                        self.listed(d).insert(id)
                    } else {
                        self.by_domain[d]
                    },
            ),
            next_stripe: (self.next_stripe + 1) as u64,
            ..self
        }
    }

    pub open spec fn place_stripe(self) -> (StripesView, Result<(StripeId, Seq<SNodeId>), ErrorView>) {
        if self.healthy().len() < self.scheme.spec_width() {
            (
                self,
                Err(
                    ErrorView::Invalid(
                        "pool "@ + text::decimal(self.pool.0 as nat) + " has "@ + text::decimal(
                            self.healthy().len(),
                        ) + " healthy fault domains, stripe needs "@ + text::decimal(
                            self.scheme.spec_width(),
                        ),
                    ),
                ),
            )
        } else {
            let members = self.next_members();
            (self.with_stripe(members), Ok((StripeId(self.next_stripe), members)))
        }
    }
}

/// Places stripes in a pool and keeps the index of them.
///
/// A fault domain is a storage node.
#[derive(Debug)]
pub struct StripeManager {
    pool: PoolId,
    scheme: ProtectionScheme,
    domains: SortedMap<SNodeId, u64>,
    failed: SortedMap<SNodeId, ()>,
    stripes: SortedMap<StripeId, Vec<SNodeId>>,
    by_domain: SortedMap<SNodeId, SortedMap<StripeId, ()>>,
    next_stripe: u64,
}

impl View for StripeManager {
    type V = StripesView;

    closed spec fn view(&self) -> StripesView {
        StripesView {
            pool: self.pool,
            scheme: self.scheme,
            domains: self.domains@,
            failed: self.failed@.dom(),
            stripes: self.stripes@.map_values(|v: Vec<SNodeId>| v@),
            by_domain: self.by_domain@.map_values(|s: SortedMap<StripeId, ()>| s@.dom()),
            next_stripe: self.next_stripe,
        }
    }
}

/// A domain that a choice is made among: its number and what orders it.
struct Candidate {
    id: SNodeId,
    shards: u64,
    turn: u64,
}

/// The turn of a domain for a given rotation; without one, all have the same.
spec fn turn_of(d: SNodeId, rotate: Option<u64>) -> u64 {
    match rotate {
        Some(t) => (d.0 as u64).wrapping_add(t) % 997,
        None => 0,
    }
}

/// The order of candidates.
spec fn candidate_less(a: Candidate, b: Candidate) -> bool {
    ||| a.shards < b.shards
    ||| a.shards == b.shards && a.turn < b.turn
    ||| a.shards == b.shards && a.turn == b.turn && a.id.0 < b.id.0
}

fn candidate_before(a: &Candidate, b: &Candidate) -> (r: bool)
    ensures
        r == candidate_less(*a, *b),
{
    if a.shards != b.shards {
        a.shards < b.shards
    } else if a.turn != b.turn {
        a.turn < b.turn
    } else {
        a.id.0 < b.id.0
    }
}

/// Whether `cands` are the members of `set`, each once, ordered as `lt` says.
spec fn candidates_of(
    cands: Seq<Candidate>,
    set: Set<SNodeId>,
    lt: spec_fn(SNodeId, SNodeId) -> bool,
) -> bool {
    &&& forall|i: int, j: int|
        0 <= i < cands.len() && 0 <= j < cands.len() && i != j ==> (#[trigger] cands[i]).id != (
        #[trigger] cands[j]).id
    &&& forall|i: int| 0 <= i < cands.len() ==> set.contains((#[trigger] cands[i]).id)
    &&& forall|d: SNodeId| #[trigger]
        set.contains(d) ==> exists|i: int| 0 <= i < cands.len() && (#[trigger] cands[i]).id == d
    &&& forall|i: int, j: int|
        0 <= i < cands.len() && 0 <= j < cands.len() ==> (lt(
            (#[trigger] cands[i]).id,
            (#[trigger] cands[j]).id,
        ) <==> candidate_less(cands[i], cands[j]))
}

proof fn lemma_candidates_ranking(
    cands: Seq<Candidate>,
    set: Set<SNodeId>,
    lt: spec_fn(SNodeId, SNodeId) -> bool,
)
    requires
        order::strict_order(lt),
        candidates_of(cands, set, lt),
    ensures
        order::is_ranking(order::ranking(set, lt), set, lt),
        order::ranking(set, lt).len() == cands.len(),
        set.finite(),
        set.len() == cands.len(),
{
    let ids = cands.map_values(|c: Candidate| c.id);
    assert(ids.to_set() =~= set) by {
        assert forall|d: SNodeId| ids.to_set().contains(d) <==> set.contains(d) by {
            if set.contains(d) {
                let i = choose|i: int| 0 <= i < cands.len() && (#[trigger] cands[i]).id == d;
                assert(ids[i] == d);
            }
            if ids.contains(d) {
                let i = choose|i: int| 0 <= i < ids.len() && ids[i] == d;
                assert(cands[i].id == d);
            }
        }
    }
    assert(ids.no_duplicates()) by {
        assert forall|i: int, j: int| 0 <= i < ids.len() && 0 <= j < ids.len() && i != j implies ids[i] != ids[j] by {
            assert(cands[i].id != cands[j].id);
        }
    }
    ids.unique_seq_to_set();
    order::lemma_ranking_exists(set, lt);
    order::lemma_ranking_len(order::ranking(set, lt), set, lt);
}

/// The `k` first candidates, in order.
fn first_candidates(
    cands: &Vec<Candidate>,
    k: usize,
    Ghost(set): Ghost<Set<SNodeId>>,
    Ghost(lt): Ghost<spec_fn(SNodeId, SNodeId) -> bool>,
) -> (r: Vec<SNodeId>)
    requires
        order::strict_order(lt),
        candidates_of(cands@, set, lt),
        k <= cands@.len(),
    ensures
        r@ == order::ranking(set, lt).take(k as int),
{
    let mut r: Vec<SNodeId> = Vec::new();
    let ghost ranked = order::ranking(set, lt);
    proof {
        lemma_candidates_ranking(cands@, set, lt);
    }
    let mut last: usize = 0;
    while r.len() < k
        invariant
            order::strict_order(lt),
            candidates_of(cands@, set, lt),
            ranked == order::ranking(set, lt),
            order::is_ranking(ranked, set, lt),
            ranked.len() == cands@.len(),
            k <= cands@.len(),
            r@.len() <= k,
            r@ == ranked.take(r@.len() as int),
            r@.len() > 0 ==> last < cands@.len() && cands@[last as int].id == r@.last(),
        decreases k - r.len(),
    {
        let n: usize = r.len();
        let ghost due = ranked[n as int];
        assert(ranked.contains(due));
        assert(set.contains(due));
        let ghost at = choose|i: int| 0 <= i < cands@.len() && (#[trigger] cands@[i]).id == due;
        let mut best: Option<usize> = None;
        let mut i: usize = 0;
        while i < cands.len()
            invariant
                i <= cands.len(),
                n > 0 ==> last < cands@.len(),
                match best {
                    Some(b) => {
                        &&& b < i
                        &&& n > 0 ==> candidate_less(cands@[last as int], cands@[b as int])
                        &&& forall|j: int|
                            0 <= j < i && (n > 0 ==> candidate_less(cands@[last as int], cands@[j]))
                                ==> j == b || !candidate_less(#[trigger] cands@[j], cands@[b as int])
                    },
                    None => forall|j: int|
                        0 <= j < i ==> n > 0 && !candidate_less(cands@[last as int], #[trigger] cands@[j]),
                },
            decreases cands.len() - i,
        {
            let open = n == 0 || candidate_before(&cands[last], &cands[i]);
            if open {
                match best {
                    None => {
                        best = Some(i);
                    },
                    Some(b) => {
                        if candidate_before(&cands[i], &cands[b]) {
                            best = Some(i);
                        }
                    },
                }
            }
            i += 1;
        }
        proof {
            if n > 0 {
                assert(lt(ranked[n - 1], ranked[n as int]));
                assert(candidate_less(cands@[last as int], cands@[at]));
            }
        }
        match best {
            Some(b) => {
                proof {
                    let found = cands@[b as int].id;
                    assert(set.contains(found));
                    assert(ranked.contains(found));
                    let p = choose|p: int| 0 <= p < ranked.len() && ranked[p] == found;
                    if p < n {
                        if p < n - 1 {
                            assert(lt(ranked[p], ranked[n - 1]));
                        }
                        assert(lt(ranked[n - 1], found));
                        assert(!lt(found, found));
                    } else if p > n {
                        assert(lt(ranked[n as int], ranked[p]));
                        assert(lt(cands@[at].id, cands@[b as int].id));
                        assert(candidate_less(cands@[at], cands@[b as int]));
                    }
                    assert(p == n);
                    assert(ranked.take(n + 1) =~= ranked.take(n as int).push(found));
                }
                last = b;
                r.push(cands[b].id);
            },
            None => {
                assert(false);
            },
        }
    }
    r
}

impl StripeManager {
    /// The parts of the index are well-formed.
    pub closed spec fn wf(&self) -> bool {
        &&& self.domains.wf()
        &&& self.failed.wf()
        &&& self.stripes.wf()
        &&& self.by_domain.wf()
        &&& forall|d: SNodeId| #[trigger] self.by_domain@.contains_key(d) ==> self.by_domain@[d].wf()
    }

    pub fn new(pool: PoolId, scheme: ProtectionScheme) -> (m: Self)
        ensures
            m.wf(),
            m@ == (StripesView {
                pool,
                scheme,
                domains: Map::empty(),
                failed: Set::empty(),
                stripes: Map::empty(),
                by_domain: Map::empty(),
                next_stripe: 0,
            }),
            m@.consistent(),
    {
        proof {
            protection_laws::law_new_pool_is_consistent(pool, scheme);
        }
        let m = StripeManager {
            pool,
            scheme,
            domains: SortedMap::new(),
            failed: SortedMap::new(),
            stripes: SortedMap::new(),
            by_domain: SortedMap::new(),
            next_stripe: 0,
        };
        assert(m@.stripes =~= Map::empty());
        assert(m@.by_domain =~= Map::empty());
        assert(m@.failed =~= Set::empty());
        m
    }

    pub fn pool(&self) -> (p: PoolId)
        ensures
            p == self@.pool,
    {
        self.pool
    }

    pub fn scheme(&self) -> (s: ProtectionScheme)
        ensures
            s == self@.scheme,
    {
        self.scheme
    }

    /// Registers a fault domain, if it is new.
    pub fn add_domain(&mut self, snode: SNodeId)
        requires
            old(self).wf(),
        ensures
            final(self).wf(),
            final(self)@ == old(self)@.add_domain(snode),
            old(self)@.consistent() ==> final(self)@.consistent(),
    {
        proof {
            if self@.consistent() {
                protection_laws::law_add_domain_consistent(self@, snode);
            }
        }
        if !self.domains.contains_key(&snode) {
            self.domains.insert(snode, 0);
        }
    }

    /// Candidates taken from different places among the keys are different, and where
    /// every key that is up is taken, all of those are there.
    proof fn lemma_candidates(&self, cands: Seq<Candidate>, places: Seq<int>, rotate: Option<u64>)
        requires
            self.wf(),
            places.len() == cands.len(),
            forall|a: int, b: int| 0 <= a < b < places.len() ==> #[trigger] places[a] < #[trigger] places[b],
            forall|a: int| 0 <= a < places.len() ==> 0 <= #[trigger] places[a] < self.domains.keys().len(),
            forall|a: int|
                0 <= a < places.len() ==> (#[trigger] cands[a]).id == self.domains.keys()[places[a]]
                    && cands[a].shards == self.domains.vals()[places[a]] && cands[a].turn == turn_of(
                    cands[a].id,
                    rotate,
                ) && !self.failed@.contains_key(cands[a].id),
            forall|k: int|
                0 <= k < self.domains.keys().len() && !self.failed@.contains_key(
                    #[trigger] self.domains.keys()[k],
                ) ==> places.contains(k),
        ensures
            forall|i: int, j: int|
                0 <= i < cands.len() && 0 <= j < cands.len() && i != j ==> (#[trigger] cands[i]).id != (
                #[trigger] cands[j]).id,
            forall|i: int| 0 <= i < cands.len() ==> {
                &&& self@.healthy().contains((#[trigger] cands[i]).id)
                &&& cands[i].shards == self@.domains[cands[i].id]
            },
            forall|d: SNodeId| #[trigger]
                self@.healthy().contains(d) ==> exists|i: int|
                    0 <= i < cands.len() && (#[trigger] cands[i]).id == d,
    {
        self.domains.lemma_entries();
        let ks = self.domains.keys();
        let lt = sorted_map::key_order::<SNodeId>();
        assert forall|i: int, j: int| 0 <= i < cands.len() && 0 <= j < cands.len() && i != j implies (
        #[trigger] cands[i]).id != (#[trigger] cands[j]).id by {
            SNodeId::lemma_order();
            if i < j {
                assert(places[i] < places[j]);
                assert(lt(ks[places[i]], ks[places[j]]));
            } else {
                assert(places[j] < places[i]);
                assert(lt(ks[places[j]], ks[places[i]]));
            }
        }
        assert forall|i: int| 0 <= i < cands.len() implies {
            &&& self@.healthy().contains((#[trigger] cands[i]).id)
            &&& cands[i].shards == self@.domains[cands[i].id]
        } by {
            assert(0 <= places[i] < ks.len());
            assert(self.domains@.contains_key(ks[places[i]]));
        }
        assert forall|d: SNodeId| #[trigger] self@.healthy().contains(d) implies exists|i: int|
            0 <= i < cands.len() && (#[trigger] cands[i]).id == d by {
            assert(self.domains@.contains_key(d));
            let k = choose|k: int| 0 <= k < ks.len() && ks[k] == d;
            assert(places.contains(k));
            let i = choose|i: int| 0 <= i < places.len() && places[i] == k;
            assert(cands[i].id == d);
        }
    }

    /// The domains that are up, ready for a choice.
    fn healthy_candidates(&self, rotate: Option<u64>) -> (r: Vec<Candidate>)
        requires
            self.wf(),
        ensures
            forall|i: int, j: int|
                0 <= i < r@.len() && 0 <= j < r@.len() && i != j ==> (#[trigger] r@[i]).id != (
                #[trigger] r@[j]).id,
            forall|i: int| 0 <= i < r@.len() ==> {
                &&& self@.healthy().contains((#[trigger] r@[i]).id)
                &&& r@[i].shards == self@.domains[r@[i].id]
                &&& r@[i].turn == turn_of(r@[i].id, rotate)
            },
            forall|d: SNodeId| #[trigger]
                self@.healthy().contains(d) ==> exists|i: int|
                    0 <= i < r@.len() && (#[trigger] r@[i]).id == d,
    {
        let mut r: Vec<Candidate> = Vec::new();
        let mut i: usize = 0;
        let ghost ks = self.domains.keys();
        // The place among the keys of each candidate.
        let ghost mut places: Seq<int> = Seq::empty();
        proof {
            self.domains.lemma_entries();
        }
        while i < self.domains.len()
            invariant
                self.wf(),
                i <= ks.len(),
                ks == self.domains.keys(),
                ks.len() == self.domains.vals().len(),
                forall|a: int|
                    0 <= a < ks.len() ==> self.domains@.contains_key(#[trigger] ks[a])
                        && self.domains@[ks[a]] == self.domains.vals()[a],
                places.len() == r@.len(),
                forall|a: int, b: int| 0 <= a < b < places.len() ==> #[trigger] places[a] < #[trigger] places[b],
                forall|a: int| 0 <= a < places.len() ==> 0 <= #[trigger] places[a] < i,
                forall|a: int|
                    0 <= a < places.len() ==> (#[trigger] r@[a]).id == ks[places[a]] && r@[a].shards
                        == self.domains.vals()[places[a]] && r@[a].turn == turn_of(r@[a].id, rotate)
                        && !self.failed@.contains_key(r@[a].id),
                forall|k: int| 0 <= k < i && !self.failed@.contains_key(#[trigger] ks[k]) ==> places.contains(k),
            decreases ks.len() - i,
        {
            let id: SNodeId = *self.domains.key_at(i);
            let shards: u64 = *self.domains.value_at(i);
            let ghost before = places;
            if !self.failed.contains_key(&id) {
                let turn: u64 = match rotate {
                    Some(t) => (id.0 as u64).wrapping_add(t) % 997,
                    None => 0,
                };
                r.push(Candidate { id, shards, turn });
                proof {
                    places = places.push(i as int);
                    assert(places[before.len() as int] == i);
                }
            }
            proof {
                assert forall|k: int|
                    0 <= k < i + 1 && !self.failed@.contains_key(#[trigger] ks[k]) implies places.contains(k) by {
                    if k < i {
                        let a = choose|a: int| 0 <= a < before.len() && before[a] == k;
                        assert(places[a] == k);
                    }
                }
            }
            i += 1;
        }
        proof {
            self.lemma_candidates(r@, places, rotate);
        }
        r
    }

    /// Records one shard of `stripe` on `d`.
    fn add_shard(&mut self, d: SNodeId, stripe: StripeId)
        requires
            old(self).wf(),
            old(self)@.domains.contains_key(d),
            old(self)@.domains[d] < u64::MAX,
        ensures
            final(self).wf(),
            final(self)@ == (StripesView {
                domains: old(self)@.domains.insert(d, (old(self)@.domains[d] + 1) as u64),
                by_domain: old(self)@.by_domain.insert(d, old(self)@.listed(d).insert(stripe)),
                ..old(self)@
            }),
    {
        let ghost before = *self;
        match self.domains.get_mut(&d) {
            Some(n) => {
                *n = *n + 1;
            },
            None => {},
        }
        let known = self.by_domain.contains_key(&d);
        if known {
            match self.by_domain.get_mut(&d) {
                Some(set) => {
                    set.insert(stripe, ());
                },
                None => {},
            }
        } else {
            let mut set: SortedMap<StripeId, ()> = SortedMap::new();
            set.insert(stripe, ());
            self.by_domain.insert(d, set);
        }
        proof {
            assert(self@.by_domain.dom() =~= before@.by_domain.dom().insert(d));
            assert(self.by_domain@[d]@.dom() =~= before@.listed(d).insert(stripe));
            assert(self@.by_domain =~= before@.by_domain.insert(d, before@.listed(d).insert(stripe)));
            assert(self@.domains =~= before@.domains.insert(d, (before@.domains[d] + 1) as u64));
        }
    }

    /// Tests whether there are enough domains that are up for a stripe.
    pub(crate) fn has_domains(&self) -> (b: bool)
        requires
            self.wf(),
        ensures
            b == (self@.healthy().len() >= self@.scheme.spec_width()),
    {
        let candidates = self.healthy_candidates(Some(self.next_stripe));
        let ghost lt = |a: SNodeId, b: SNodeId| self@.sooner(a, b);
        proof {
            self@.lemma_sooner();
            assert(candidates_of(candidates@, self@.healthy(), lt));
            lemma_candidates_ranking(candidates@, self@.healthy(), lt);
        }
        candidates.len() >= self.scheme.width()
    }

    /// Places a new stripe: on D+P *different* domains that are up, those with
    /// the fewest shards first.
    pub fn place_stripe(&mut self) -> (r: Result<(StripeId, Vec<SNodeId>), Error>)
        requires
            old(self).wf(),
            old(self)@.can_place(),
        ensures
            final(self).wf(),
            final(self)@ == old(self)@.place_stripe().0,
            match r {
                Ok((id, members)) => old(self)@.place_stripe().1 == Ok::<_, ErrorView>((id, members@)),
                Err(e) => old(self)@.place_stripe().1 == Err::<(StripeId, Seq<SNodeId>), _>(e@),
            },
            old(self)@.consistent() ==> final(self)@.consistent(),
    {
        proof {
            if self@.consistent() {
                protection_laws::law_place_stripe_consistent(self@);
            }
        }
        let width: usize = self.scheme.width();
        let candidates = self.healthy_candidates(Some(self.next_stripe));
        let ghost start = self@;
        let ghost lt = |a: SNodeId, b: SNodeId| start.sooner(a, b);
        proof {
            start.lemma_sooner();
            assert(candidates_of(candidates@, start.healthy(), lt));
            lemma_candidates_ranking(candidates@, start.healthy(), lt);
        }
        if candidates.len() < width {
            let mut msg = text::around("pool ", self.pool.0 as u64, " has ");
            msg.append(text::decimal_text(candidates.len() as u64).as_str());
            msg.append(" healthy fault domains, stripe needs ");
            msg.append(text::decimal_text(width as u64).as_str());
            return Err(Error::Invalid(msg));
        }
        let members = first_candidates(&candidates, width, Ghost(start.healthy()), Ghost(lt));
        let id = StripeId(self.next_stripe);
        proof {
            self.domains.lemma_entries();
            start.lemma_next_members();
            let none = members@.take(0);
            assert(self@.domains =~= start.with_stripe(none).domains);
            assert(self@.by_domain =~= start.with_stripe(none).by_domain);
        }
        let mut i: usize = 0;
        while i < members.len()
            invariant
                i <= members.len(),
                self.wf(),
                members@.no_duplicates(),
                forall|j: int|
                    0 <= j < members@.len() ==> start.domains.contains_key(#[trigger] members@[j])
                        && start.domains[members@[j]] < u64::MAX,
                id == StripeId(start.next_stripe),
                self@ == (StripesView {
                    domains: start.with_stripe(members@.take(i as int)).domains,
                    by_domain: start.with_stripe(members@.take(i as int)).by_domain,
                    ..start
                }),
            decreases members.len() - i,
        {
            let m: SNodeId = members[i];
            let ghost done = members@.take(i as int);
            let ghost next = members@.take(i + 1);
            proof {
                assert(next =~= done.push(m));
                assert(next.drop_last() =~= done);
                assert(!done.contains(m));
                lemma_copies_absent(done, m);
                assert forall|d: SNodeId| next.contains(d) <==> done.contains(d) || d == m by {
                    if done.contains(d) {
                        let k = choose|k: int| 0 <= k < done.len() && done[k] == d;
                        assert(next[k] == d);
                    }
                    assert(next[i as int] == m);
                }
            }
            self.add_shard(m, id);
            proof {
                assert(self@.domains =~= start.with_stripe(next).domains);
                assert(self@.by_domain =~= start.with_stripe(next).by_domain);
            }
            i += 1;
        }
        assert(members@.take(members@.len() as int) =~= members@);
        self.next_stripe = self.next_stripe + 1;
        let mut kept: Vec<SNodeId> = Vec::new();
        let mut j: usize = 0;
        while j < members.len()
            invariant
                j <= members.len(),
                kept@ == members@.take(j as int),
            decreases members.len() - j,
        {
            kept.push(members[j]);
            assert(members@.take(j + 1) =~= members@.take(j as int).push(members@[j as int]));
            j += 1;
        }
        assert(kept@ =~= members@);
        self.stripes.insert(id, kept);
        proof {
            assert(self@.stripes =~= start.stripes.insert(id, members@));
            assert(self@ == start.with_stripe(members@));
        }
        Ok((id, members))
    }
}

/// What does not occur has no copies.
proof fn lemma_copies_absent(members: Seq<SNodeId>, d: SNodeId)
    requires
        !members.contains(d),
    ensures
        copies(members, d) == 0,
    decreases members.len(),
{
    if members.len() > 0 {
        assert(members.contains(members.last()));
        assert forall|i: int| 0 <= i < members.drop_last().len() implies members.drop_last()[i] != d by {
            assert(members.contains(members[i]));
        }
        lemma_copies_absent(members.drop_last(), d);
    }
}

impl StripesView {
    /// A new domain starts without shards; a known one stays as it is.
    pub open spec fn add_domain(self, d: SNodeId) -> StripesView {
        if self.domains.contains_key(d) {
            self
        } else {
            StripesView { domains: self.domains.insert(d, 0), ..self }
        }
    }

    /// Whether the counters can take one more stripe.
    pub open spec fn can_place(self) -> bool {
        self.healthy().len() >= self.scheme.spec_width() ==> {
            &&& self.next_stripe < u64::MAX
            &&& forall|i: int|
                0 <= i < self.next_members().len() ==> self.domains[#[trigger] self.next_members()[i]] < u64::MAX
        }
    }

    /// The order of domains for a new stripe is a strict total order.
    pub proof fn lemma_sooner(self)
        ensures
            order::strict_order(|a: SNodeId, b: SNodeId| self.sooner(a, b)),
    {
    }

    /// A new stripe has D+P different domains, all up.
    pub proof fn lemma_next_members(self)
        requires
            self.domains.dom().finite(),
            self.healthy().len() >= self.scheme.spec_width(),
        ensures
            self.next_members().len() == self.scheme.spec_width(),
            self.next_members().no_duplicates(),
            forall|i: int|
                0 <= i < self.next_members().len() ==> self.healthy().contains(
                    #[trigger] self.next_members()[i],
                ),
    {
        let lt = |a: SNodeId, b: SNodeId| self.sooner(a, b);
        self.lemma_sooner();
        assert(self.healthy().subset_of(self.domains.dom()));
        vstd::set_lib::lemma_len_subset(self.healthy(), self.domains.dom());
        order::lemma_ranking_exists(self.healthy(), lt);
        let ranked = order::ranking(self.healthy(), lt);
        order::lemma_ranking_len(ranked, self.healthy(), lt);
        assert forall|i: int| 0 <= i < self.next_members().len() implies self.healthy().contains(
            #[trigger] self.next_members()[i],
        ) by {
            assert(ranked.contains(ranked[i]));
        }
    }
}

/// Filtering one item more keeps it or leaves it out.
proof fn lemma_filter_step<T>(s: Seq<T>, keep: spec_fn(T) -> bool, i: int)
    requires
        0 <= i < s.len(),
    ensures
        s.take(i + 1).filter(keep) == (if keep(s[i]) {
            s.take(i).filter(keep).push(s[i])
        } else {
            s.take(i).filter(keep)
        }),
{
    reveal(Seq::filter);
    assert(s.take(i + 1).drop_last() =~= s.take(i));
}

/// The error for a stripe that does not exist.
pub open spec fn no_stripe(id: StripeId) -> ErrorView {
    ErrorView::Invalid("no stripe "@ + text::decimal(id.0 as nat))
}

impl StripesView {
    /// How many of the given shards are on failed domains.
    pub open spec fn lost_shards(self, members: Seq<SNodeId>) -> nat {
        members.filter(|m: SNodeId| self.failed.contains(m)).len()
    }

    /// Those of the given shards that are not on failed domains.
    pub open spec fn survivors(self, members: Seq<SNodeId>) -> Seq<SNodeId> {
        members.filter(|m: SNodeId| !self.failed.contains(m))
    }

    /// How many shards a stripe has lost.
    pub open spec fn lost(self, id: StripeId) -> nat {
        self.lost_shards(self.stripes[id])
    }

    pub open spec fn health(self, id: StripeId) -> Result<StripeHealth, ErrorView> {
        if !self.stripes.contains_key(id) {
            Err(no_stripe(id))
        } else if self.lost(id) == 0 {
            Ok(StripeHealth::Healthy)
        } else if self.lost(id) <= self.scheme.parity {
            Ok(StripeHealth::Degraded { lost: self.lost(id) as u8 })
        } else {
            Ok(StripeHealth::Lost)
        }
    }

    pub open spec fn readable_members(self, id: StripeId) -> Result<Seq<SNodeId>, ErrorView> {
        if !self.stripes.contains_key(id) {
            Err(no_stripe(id))
        } else if self.survivors(self.stripes[id]).len() < self.scheme.data {
            Err(ErrorView::Invalid("stripe "@ + text::decimal(id.0 as nat) + " lost beyond parity"@))
        } else {
            Ok(self.survivors(self.stripes[id]))
        }
    }

    pub open spec fn release_stripe(self, id: StripeId) -> (StripesView, Result<(), ErrorView>) {
        if !self.stripes.contains_key(id) {
            (self, Err(no_stripe(id)))
        } else {
            let members = self.stripes[id];
            (
                StripesView {
                    domains: Map::new(
                        |d: SNodeId| self.domains.contains_key(d),
                        |d: SNodeId| less_by(self.domains[d], copies(members, d)),
                    ),
                    stripes: self.stripes.remove(id),
                    by_domain: Map::new(
                        |d: SNodeId| self.by_domain.contains_key(d),
                        |d: SNodeId|
                            if members.contains(d) {
                                self.by_domain[d].remove(id)
                            } else {
                                self.by_domain[d]
                            },
                    ),
                    ..self
                },
                Ok(()),
            )
        }
    }
}

impl StripeManager {
    /// Takes one shard of `stripe` off `d`'s books.
    fn drop_shard(&mut self, d: SNodeId, stripe: StripeId)
        requires
            old(self).wf(),
        ensures
            final(self).wf(),
            final(self)@ == old(self)@.drop_shard(d, stripe),
    {
        let ghost before = *self;
        match self.domains.get_mut(&d) {
            Some(n) => {
                *n = n.saturating_sub(1);
            },
            None => {},
        }
        match self.by_domain.get_mut(&d) {
            Some(set) => {
                set.remove(&stripe);
            },
            None => {},
        }
        proof {
            let want = before@.drop_shard(d, stripe);
            if before@.by_domain.contains_key(d) {
                assert(self.by_domain@[d]@.dom() =~= before.by_domain@[d]@.dom().remove(stripe));
            }
            assert(self@.domains =~= want.domains);
            assert(self@.by_domain =~= want.by_domain);
        }
    }

    /// Gives a stripe up (once the write that replaces it is in place, or no
    /// snapshot refers to it any more).
    pub fn release_stripe(&mut self, id: StripeId) -> (r: Result<(), Error>)
        requires
            old(self).wf(),
        ensures
            final(self).wf(),
            (final(self)@, types::outcome(r)) == old(self)@.release_stripe(id),
            old(self)@.consistent() ==> final(self)@.consistent(),
    {
        proof {
            if self@.consistent() {
                protection_laws::law_release_stripe_consistent(self@, id);
            }
        }
        let ghost start = self@;
        let members = match self.stripes.remove(&id) {
            Some(m) => m,
            None => {
                assert(self@.stripes =~= start.stripes);
                return Err(Error::Invalid(text::numbered("no stripe ", id.0)));
            },
        };
        let ghost goal = start.release_stripe(id).0;
        let mut i: usize = 0;
        proof {
            assert(self@.stripes =~= goal.stripes);
            let none = members@.take(0);
            assert(self@.domains =~= start.released_domains(none));
            assert(self@.by_domain =~= start.released_index(none, id));
        }
        while i < members.len()
            invariant
                i <= members.len(),
                self.wf(),
                self@ == (StripesView {
                    domains: start.released_domains(members@.take(i as int)),
                    by_domain: start.released_index(members@.take(i as int), id),
                    stripes: goal.stripes,
                    ..start
                }),
            decreases members.len() - i,
        {
            let m: SNodeId = members[i];
            let ghost done = members@.take(i as int);
            let ghost next = members@.take(i + 1);
            proof {
                assert(next =~= done.push(m));
                assert(next.drop_last() =~= done);
                assert forall|d: SNodeId| next.contains(d) <==> done.contains(d) || d == m by {
                    if done.contains(d) {
                        let k = choose|k: int| 0 <= k < done.len() && done[k] == d;
                        assert(next[k] == d);
                    }
                    assert(next[i as int] == m);
                }
            }
            self.drop_shard(m, id);
            proof {
                assert(self@.domains =~= start.released_domains(next));
                if start.by_domain.contains_key(m) {
                    let set = start.by_domain[m];
                    assert(set.remove(id).remove(id) =~= set.remove(id));
                }
                assert(self@.by_domain =~= start.released_index(next, id));
            }
            i += 1;
        }
        assert(members@.take(members@.len() as int) =~= members@);
        assert(self@.domains =~= goal.domains);
        assert(self@.by_domain =~= goal.by_domain);
        Ok(())
    }

    /// The health of a stripe: readable while no more shards are lost than
    /// there are parity shards.
    pub fn health(&self, id: StripeId) -> (r: Result<StripeHealth, Error>)
        requires
            self.wf(),
        ensures
            types::outcome(r) == self@.health(id),
    {
        let members = match self.stripes.get(&id) {
            Some(m) => m,
            None => {
                return Err(Error::Invalid(text::numbered("no stripe ", id.0)));
            },
        };
        let lost: usize = self.lost_among(members);
        if lost == 0 {
            Ok(StripeHealth::Healthy)
        } else if lost <= self.scheme.parity as usize {
            Ok(StripeHealth::Degraded { lost: lost as u8 })
        } else {
            Ok(StripeHealth::Lost)
        }
    }

    /// How many of the given shards are lost.
    fn lost_among(&self, members: &Vec<SNodeId>) -> (n: usize)
        requires
            self.wf(),
        ensures
            n == self@.lost_shards(members@),
    {
        let ghost down = |m: SNodeId| self@.failed.contains(m);
        let mut lost: usize = 0;
        let mut i: usize = 0;
        proof {
            reveal(Seq::filter);
        }
        while i < members.len()
            invariant
                i <= members.len(),
                self.wf(),
                down == (|m: SNodeId| self@.failed.contains(m)),
                lost == members@.take(i as int).filter(down).len(),
                lost <= i,
            decreases members.len() - i,
        {
            proof {
                lemma_filter_step(members@, down, i as int);
            }
            if self.failed.contains_key(&members[i]) {
                lost += 1;
            }
            i += 1;
        }
        assert(members@.take(members@.len() as int) =~= members@);
        lost
    }

    /// Degraded read: the members that live, if there are at least D of them.
    pub fn readable_members(&self, id: StripeId) -> (r: Result<Vec<SNodeId>, Error>)
        requires
            self.wf(),
        ensures
            match r {
                Ok(v) => self@.readable_members(id) == Ok::<_, ErrorView>(v@),
                Err(e) => self@.readable_members(id) == Err::<Seq<SNodeId>, _>(e@),
            },
    {
        let members = match self.stripes.get(&id) {
            Some(m) => m,
            None => {
                return Err(Error::Invalid(text::numbered("no stripe ", id.0)));
            },
        };
        let ghost up = |m: SNodeId| !self@.failed.contains(m);
        let mut alive: Vec<SNodeId> = Vec::new();
        let mut i: usize = 0;
        proof {
            reveal(Seq::filter);
        }
        while i < members.len()
            invariant
                i <= members.len(),
                self.wf(),
                up == (|m: SNodeId| !self@.failed.contains(m)),
                alive@ == members@.take(i as int).filter(up),
            decreases members.len() - i,
        {
            proof {
                lemma_filter_step(members@, up, i as int);
            }
            if !self.failed.contains_key(&members[i]) {
                alive.push(members[i]);
            }
            i += 1;
        }
        assert(members@.take(members@.len() as int) =~= members@);
        if alive.len() < self.scheme.data as usize {
            return Err(Error::Invalid(text::around("stripe ", id.0, " lost beyond parity")));
        }
        Ok(alive)
    }

    /// Marks a domain as failed. Returns the number of stripes that this
    /// affects, straight from the index.
    pub fn fail_domain(&mut self, snode: SNodeId) -> (n: usize)
        requires
            old(self).wf(),
        ensures
            final(self).wf(),
            final(self)@ == (StripesView { failed: old(self)@.failed.insert(snode), ..old(self)@ }),
            n == old(self)@.listed(snode).len(),
            old(self)@.consistent() ==> final(self)@.consistent(),
    {
        proof {
            if self@.consistent() {
                protection_laws::law_failures_consistent(self@, self@.failed.insert(snode));
            }
        }
        let ghost before = self@;
        self.failed.insert(snode, ());
        assert(self@.failed =~= before.failed.insert(snode));
        match self.by_domain.get(&snode) {
            Some(set) => set.len(),
            None => 0,
        }
    }

    /// A domain comes back, repaired, after the rebuild has replaced its shards.
    pub fn recover_domain(&mut self, snode: SNodeId)
        requires
            old(self).wf(),
        ensures
            final(self).wf(),
            final(self)@ == (StripesView { failed: old(self)@.failed.remove(snode), ..old(self)@ }),
            old(self)@.consistent() ==> final(self)@.consistent(),
    {
        proof {
            if self@.consistent() {
                protection_laws::law_failures_consistent(self@, self@.failed.remove(snode));
            }
        }
        let ghost before = self@;
        self.failed.remove(&snode);
        assert(self@.failed =~= before.failed.remove(snode));
    }

    /// The number that the next stripe gets.
    pub(crate) fn next_number(&self) -> (n: u64)
        ensures
            n == self@.next_stripe,
    {
        self.next_stripe
    }

    pub fn stripe_count(&self) -> (n: usize)
        requires
            self.wf(),
        ensures
            n == self@.stripes.dom().len(),
    {
        assert(self@.stripes.dom() =~= self.stripes@.dom());
        self.stripes.len()
    }

    /// The number of shards on a domain.
    pub fn shards_on(&self, snode: SNodeId) -> (n: u64)
        requires
            self.wf(),
        ensures
            n == (if self@.domains.contains_key(snode) {
                self@.domains[snode]
            } else {
                0
            }),
    {
        match self.domains.get(&snode) {
            Some(n) => *n,
            None => 0,
        }
    }
}

impl StripesView {
    /// The state after one shard of `stripe` was taken off `d`'s books.
    pub open spec fn drop_shard(self, d: SNodeId, stripe: StripeId) -> StripesView {
        StripesView {
            domains: if self.domains.contains_key(d) {
                self.domains.insert(d, less_by(self.domains[d], 1))
            } else {
                self.domains
            },
            by_domain: if self.by_domain.contains_key(d) {
                self.by_domain.insert(d, self.by_domain[d].remove(stripe))
            } else {
                self.by_domain
            },
            ..self
        }
    }

    spec fn released_domains(self, members: Seq<SNodeId>) -> Map<SNodeId, u64> {
        Map::new(
            |d: SNodeId| self.domains.contains_key(d),
            |d: SNodeId| less_by(self.domains[d], copies(members, d)),
        )
    }

    spec fn released_index(self, members: Seq<SNodeId>, id: StripeId) -> Map<SNodeId, Set<StripeId>> {
        Map::new(
            |d: SNodeId| self.by_domain.contains_key(d),
            |d: SNodeId|
                if members.contains(d) {
                    self.by_domain[d].remove(id)
                } else {
                    self.by_domain[d]
                },
        )
    }
}

impl StripesView {
    /// The stripes with a shard on a failed domain.
    pub open spec fn affected(self) -> Set<StripeId> {
        Set::new(
            |s: StripeId| exists|d: SNodeId| #[trigger] self.failed.contains(d) && self.listed(d).contains(s),
        )
    }

    /// Why a stripe cannot be rebuilt at all, if so.
    pub open spec fn beyond_repair(self, id: StripeId) -> Option<ErrorView> {
        match self.health(id) {
            Err(e) => Some(e),
            Ok(StripeHealth::Lost) => Some(
                ErrorView::Invalid(
                    "stripe "@ + text::decimal(id.0 as nat) + " lost beyond parity, rebuild impossible"@,
                ),
            ),
            Ok(_) => None,
        }
    }

    /// The first such reason among the first `n` stripes listed.
    pub open spec fn first_beyond_repair(self, ids: Seq<StripeId>, n: nat) -> Option<ErrorView>
        decreases n,
    {
        if n == 0 {
            None
        } else {
            match self.first_beyond_repair(ids, (n - 1) as nat) {
                Some(e) => Some(e),
                None => self.beyond_repair(ids[n - 1]),
            }
        }
    }

    /// The affected stripes that can be rebuilt.
    pub open spec fn degraded(self) -> Set<StripeId> {
        Set::new(
            |s: StripeId|
                self.affected().contains(s) && (self.health(s) matches Ok(StripeHealth::Degraded { lost: _ })),
        )
    }

    /// Which of two stripes is rebuilt first: the one with more shards lost,
    /// then by number.
    pub open spec fn riskier(self, a: StripeId, b: StripeId) -> bool {
        self.lost(a) > self.lost(b) || (self.lost(a) == self.lost(b) && a.0 < b.0)
    }

    /// The stripes to rebuild, the riskiest first.
    pub open spec fn by_risk(self) -> Seq<StripeId> {
        order::ranking(self.degraded(), |a: StripeId, b: StripeId| self.riskier(a, b))
    }

    /// The domains that can take a shard of a stripe: up, and not in the stripe.
    pub open spec fn spares(self, id: StripeId) -> Set<SNodeId> {
        Set::new(|d: SNodeId| self.healthy().contains(d) && !self.stripes[id].contains(d))
    }

    /// Which of two spare domains is taken first: the one with fewer shards,
    /// then by number.
    pub open spec fn emptier(self, a: SNodeId, b: SNodeId) -> bool {
        self.domains[a] < self.domains[b] || (self.domains[a] == self.domains[b] && a.0 < b.0)
    }

    /// The domains that the lost shards of a stripe go to.
    pub open spec fn targets(self, id: StripeId) -> Seq<SNodeId> {
        order::ranking(self.spares(id), |a: SNodeId, b: SNodeId| self.emptier(a, b)).take(
            self.lost(id) as int,
        )
    }

    /// The task for a stripe, for the given node.
    pub open spec fn task_for(self, id: StripeId, cnode: CNodeId) -> Result<TaskView, ErrorView> {
        match self.readable_members(id) {
            Err(e) => Err(e),
            Ok(sources) => if self.spares(id).len() < self.lost(id) {
                Err(
                    ErrorView::Invalid(
                        "pool "@ + text::decimal(self.pool.0 as nat) + " lacks spare fault domains for stripe "@
                            + text::decimal(id.0 as nat),
                    ),
                )
            } else {
                Ok(
                    TaskView {
                        stripe: id,
                        lost: self.lost(id) as u8,
                        assigned_to: cnode,
                        read_from: sources,
                        write_to: self.targets(id),
                    },
                )
            },
        }
    }

    /// The tasks for the first `n` stripes listed, dealt out to the nodes in
    /// turn; or the first error.
    pub open spec fn tasks_for(self, ids: Seq<StripeId>, cnodes: Seq<CNodeId>, n: nat) -> Result<
        Seq<TaskView>,
        ErrorView,
    >
        decreases n,
    {
        if n == 0 {
            Ok(Seq::empty())
        } else {
            match self.tasks_for(ids, cnodes, (n - 1) as nat) {
                Err(e) => Err(e),
                Ok(done) => match self.task_for(ids[n - 1], cnodes[(n - 1) % (cnodes.len() as int)]) {
                    Err(e) => Err(e),
                    Ok(task) => Ok(done.push(task)),
                },
            }
        }
    }

    pub open spec fn plan_rebuild(self, cnodes: Seq<CNodeId>) -> Result<Seq<TaskView>, ErrorView> {
        let ids = sorted_map::in_order::<StripeId>(self.affected());
        if cnodes.len() == 0 {
            Err(ErrorView::Invalid("no cnodes to rebuild"@))
        } else {
            match self.first_beyond_repair(ids, ids.len()) {
                Some(e) => Err(e),
                None => self.tasks_for(self.by_risk(), cnodes, self.by_risk().len()),
            }
        }
    }

    proof fn lemma_riskier(self)
        ensures
            order::strict_order(|a: StripeId, b: StripeId| self.riskier(a, b)),
    {
    }

    proof fn lemma_emptier(self)
        ensures
            order::strict_order(|a: SNodeId, b: SNodeId| self.emptier(a, b)),
    {
    }
}

/// Whether `x` is among the first `n` of `s`.
spec fn seen_before(s: Seq<StripeId>, n: int, x: StripeId) -> bool {
    exists|k: int| 0 <= k < n && s[k] == x
}

/// The views of a list of tasks.
pub open spec fn task_views(tasks: Seq<RebuildTask>) -> Seq<TaskView> {
    tasks.map_values(|t: RebuildTask| t@)
}

impl StripeManager {
    /// The stripes with a shard on a failed domain, from the index.
    fn affected_stripes(&self) -> (r: SortedMap<StripeId, ()>)
        requires
            self.wf(),
        ensures
            r.wf(),
            r@.dom() == self@.affected(),
    {
        let mut r: SortedMap<StripeId, ()> = SortedMap::new();
        let mut i: usize = 0;
        let ghost fs = self.failed.keys();
        proof {
            self.failed.lemma_entries();
            assert(r@.dom() =~= Set::<StripeId>::empty());
        }
        while i < self.failed.len()
            invariant
                self.wf(),
                r.wf(),
                i <= fs.len(),
                fs == self.failed.keys(),
                forall|s: StripeId| #[trigger]
                    r@.dom().contains(s) <==> exists|k: int| 0 <= k < i && self@.listed(#[trigger] fs[k]).contains(s),
            decreases fs.len() - i,
        {
            let d: SNodeId = *self.failed.key_at(i);
            let ghost before = r@.dom();
            match self.by_domain.get(&d) {
                Some(set) => {
                    let mut j: usize = 0;
                    let ghost ss = set.keys();
                    proof {
                        set.lemma_entries();
                    }
                    while j < set.len()
                        invariant
                            set.wf(),
                            r.wf(),
                            j <= ss.len(),
                            ss == set.keys(),
                            forall|s: StripeId| #[trigger]
                                r@.dom().contains(s) <==> before.contains(s) || exists|k: int|
                                    0 <= k < j && #[trigger] ss[k] == s,
                        decreases ss.len() - j,
                    {
                        let s: StripeId = *set.key_at(j);
                        let ghost mid = r@.dom();
                        r.insert(s, ());
                        proof {
                            assert forall|x: StripeId| #[trigger]
                                r@.dom().contains(x) <==> before.contains(x) || exists|k: int|
                                0 <= k < j + 1 && #[trigger] ss[k] == x by {
                                if r@.dom().contains(x) {
                                    if x == s {
                                        assert(ss[j as int] == x);
                                    } else {
                                        assert(mid.contains(x));
                                    }
                                }
                                if exists|k: int| 0 <= k < j + 1 && #[trigger] ss[k] == x {
                                    let k = choose|k: int| 0 <= k < j + 1 && #[trigger] ss[k] == x;
                                    if k < j {
                                        assert(mid.contains(x));
                                    }
                                }
                                if before.contains(x) {
                                    assert(mid.contains(x));
                                }
                            }
                        }
                        j += 1;
                    }
                    proof {
                        assert forall|s: StripeId| set@.contains_key(s) <==> exists|k: int|
                            0 <= k < ss.len() && #[trigger] ss[k] == s by {
                            if exists|k: int| 0 <= k < ss.len() && #[trigger] ss[k] == s {
                                let k = choose|k: int| 0 <= k < ss.len() && #[trigger] ss[k] == s;
                                assert(set@.contains_key(ss[k]));
                            }
                        }
                        assert(self@.listed(d) =~= set@.dom());
                    }
                },
                None => {
                    assert(self@.listed(d) =~= Set::<StripeId>::empty());
                },
            }
            proof {
                assert forall|s: StripeId| #[trigger]
                    r@.dom().contains(s) <==> exists|k: int|
                    0 <= k < i + 1 && self@.listed(#[trigger] fs[k]).contains(s) by {
                    assert(fs[i as int] == d);
                    if r@.dom().contains(s) {
                        if before.contains(s) {
                            let k = choose|k: int| 0 <= k < i && self@.listed(#[trigger] fs[k]).contains(s);
                            assert(self@.listed(fs[k]).contains(s));
                        } else {
                            assert(self@.listed(fs[i as int]).contains(s));
                        }
                    }
                    if exists|k: int| 0 <= k < i + 1 && self@.listed(#[trigger] fs[k]).contains(s) {
                        let k = choose|k: int| 0 <= k < i + 1 && self@.listed(#[trigger] fs[k]).contains(s);
                        if k < i {
                            assert(before.contains(s));
                        }
                    }
                }
            }
            i += 1;
        }
        proof {
            assert forall|s: StripeId| r@.dom().contains(s) <==> self@.affected().contains(s) by {
                if r@.dom().contains(s) {
                    let k = choose|k: int| 0 <= k < fs.len() && self@.listed(#[trigger] fs[k]).contains(s);
                    assert(self@.failed.contains(fs[k]));
                }
                if self@.affected().contains(s) {
                    let d = choose|d: SNodeId| #[trigger] self@.failed.contains(d) && self@.listed(d).contains(s);
                    assert(self.failed@.contains_key(d));
                    let k = choose|k: int| 0 <= k < fs.len() && fs[k] == d;
                    assert(self@.listed(fs[k]).contains(s));
                }
            }
            assert(r@.dom() =~= self@.affected());
        }
        r
    }

    /// The stripes to rebuild, the riskiest first; or why one cannot be.
    fn ranked_stripes(&self) -> (r: Result<Vec<StripeId>, Error>)
        requires
            self.wf(),
        ensures
            ({
                let ids = sorted_map::in_order::<StripeId>(self@.affected());
                match r {
                    Ok(v) => {
                        &&& self@.first_beyond_repair(ids, ids.len()) is None
                        &&& v@ == self@.by_risk()
                        &&& forall|i: int|
                            0 <= i < v@.len() ==> self@.degraded().contains(#[trigger] v@[i])
                    },
                    Err(e) => self@.first_beyond_repair(ids, ids.len()) == Some(e@),
                }
            }),
    {
        let affected = self.affected_stripes();
        let ghost ids = affected.keys();
        let ghost lt = |a: StripeId, b: StripeId| self@.riskier(a, b);
        proof {
            affected.lemma_entries();
            StripeId::lemma_order();
            self@.lemma_riskier();
        }
        let mut lost: Vec<u8> = Vec::new();
        let mut i: usize = 0;
        while i < affected.len()
            invariant
                self.wf(),
                affected.wf(),
                ids == affected.keys(),
                i <= ids.len(),
                lost@.len() == i,
                self@.first_beyond_repair(ids, i as nat) is None,
                ids == sorted_map::in_order::<StripeId>(self@.affected()),
                forall|k: int|
                    0 <= k < i ==> self@.stripes.contains_key(#[trigger] ids[k]) && lost@[k] == self@.lost(
                        ids[k],
                    ) && lost@[k] <= self@.scheme.parity,
            decreases ids.len() - i,
        {
            let id: StripeId = *affected.key_at(i);
            match self.health(id) {
                Err(e) => {
                    proof {
                        self@.lemma_first_beyond_repair(ids, (i + 1) as nat, ids.len());
                    }
                    return Err(e);
                },
                Ok(StripeHealth::Lost) => {
                    proof {
                        self@.lemma_first_beyond_repair(ids, (i + 1) as nat, ids.len());
                    }
                    return Err(
                        Error::Invalid(
                            text::around("stripe ", id.0, " lost beyond parity, rebuild impossible"),
                        ),
                    );
                },
                Ok(StripeHealth::Degraded { lost: n }) => {
                    lost.push(n);
                },
                Ok(StripeHealth::Healthy) => {
                    lost.push(0);
                },
            }
            i += 1;
        }
        let mut ranked: Vec<StripeId> = Vec::new();
        let mut level: u8 = self.scheme.parity;
        while level > 0
            invariant
                self.wf(),
                affected.wf(),
                ids == affected.keys(),
                lost@.len() == ids.len(),
                order::ascending(ids, sorted_map::key_order::<StripeId>()),
                lt == (|a: StripeId, b: StripeId| self@.riskier(a, b)),
                forall|k: int| 0 <= k < ids.len() ==> lost@[k] == self@.lost(#[trigger] ids[k]),
                forall|a: int|
                    0 <= a < ranked@.len() ==> self@.lost(#[trigger] ranked@[a]) > level && ids.contains(
                        ranked@[a],
                    ),
                forall|k: int|
                    0 <= k < ids.len() && level < lost@[k] <= self@.scheme.parity ==> ranked@.contains(
                        #[trigger] ids[k],
                    ),
                order::ascending(ranked@, lt),
            decreases level,
        {
            let mut j: usize = 0;
            let ghost start = ranked@;
            while j < affected.len()
                invariant
                    self.wf(),
                    affected.wf(),
                    level > 0,
                    ids == affected.keys(),
                    lost@.len() == ids.len(),
                    j <= ids.len(),
                    order::ascending(ids, sorted_map::key_order::<StripeId>()),
                    lt == (|a: StripeId, b: StripeId| self@.riskier(a, b)),
                    forall|k: int| 0 <= k < ids.len() ==> lost@[k] == self@.lost(#[trigger] ids[k]),
                    start.len() <= ranked@.len(),
                    forall|a: int| 0 <= a < start.len() ==> ranked@[a] == #[trigger] start[a],
                    forall|a: int|
                        0 <= a < start.len() ==> self@.lost(#[trigger] ranked@[a]) > level && ids.contains(
                            ranked@[a],
                        ),
                    forall|a: int|
                        start.len() <= a < ranked@.len() ==> self@.lost(#[trigger] ranked@[a]) == level
                            && seen_before(ids, j as int, ranked@[a]),
                    forall|k: int|
                        0 <= k < ids.len() && level < lost@[k] <= self@.scheme.parity ==> ranked@.contains(
                            #[trigger] ids[k],
                        ),
                    forall|k: int|
                        0 <= k < j && lost@[k] == level ==> ranked@.contains(#[trigger] ids[k]),
                    order::ascending(ranked@, lt),
                decreases ids.len() - j,
            {
                let ghost before = ranked@;
                if lost[j] == level {
                    let id: StripeId = *affected.key_at(j);
                    ranked.push(id);
                    proof {
                        assert(ids[j as int] == id);
                        assert forall|a: int, b: int| 0 <= a < b < ranked@.len() implies #[trigger] lt(
                            ranked@[a],
                            ranked@[b],
                        ) by {
                            if b < before.len() {
                                assert(lt(before[a], before[b]));
                            } else {
                                assert(ranked@[a] == before[a]);
                                if a >= start.len() {
                                    assert(seen_before(ids, j as int, before[a]));
                                    let k = choose|k: int| 0 <= k < j && ids[k] == before[a];
                                    assert(sorted_map::key_order::<StripeId>()(ids[k], ids[j as int]));
                                }
                            }
                        }
                        assert(ranked@[before.len() as int] == id);
                    }
                }
                proof {
                    assert forall|a: int| start.len() <= a < ranked@.len() implies self@.lost(
                        #[trigger] ranked@[a],
                    ) == level && seen_before(ids, j + 1, ranked@[a]) by {
                        if a < before.len() {
                            assert(ranked@[a] == before[a]);
                            assert(seen_before(ids, j as int, before[a]));
                            let k = choose|k: int| 0 <= k < j && ids[k] == before[a];
                            assert(0 <= k < j + 1 && ids[k] == ranked@[a]);
                        } else {
                            assert(ids[j as int] == ranked@[a]);
                        }
                    }
                    assert forall|x: StripeId| before.contains(x) implies ranked@.contains(x) by {
                        let a = choose|a: int| 0 <= a < before.len() && before[a] == x;
                        assert(ranked@[a] == x);
                    }
                    assert forall|k: int| 0 <= k < j + 1 && lost@[k] == level implies ranked@.contains(
                        #[trigger] ids[k],
                    ) by {
                        if k < j {
                            assert(before.contains(ids[k]));
                        } else {
                            assert(ranked@[before.len() as int] == ids[k]);
                        }
                    }
                    assert forall|k: int|
                        0 <= k < ids.len() && level < lost@[k] <= self@.scheme.parity implies ranked@.contains(
                        #[trigger] ids[k],
                    ) by {
                        assert(before.contains(ids[k]));
                    }
                }
                j += 1;
            }
            proof {
                assert forall|a: int| 0 <= a < ranked@.len() implies self@.lost(#[trigger] ranked@[a]) > level - 1
                    && ids.contains(ranked@[a]) by {
                    if a >= start.len() {
                        assert(seen_before(ids, ids.len() as int, ranked@[a]));
                        let k = choose|k: int| 0 <= k < ids.len() && ids[k] == ranked@[a];
                        assert(ids.contains(ids[k]));
                    }
                }
            }
            level = level - 1;
        }
        proof {
            let set = self@.degraded();
            assert forall|s: StripeId| #[trigger] set.contains(s) <==> ranked@.contains(s) by {
                if set.contains(s) {
                    assert(affected@.contains_key(s));
                    let k = choose|k: int| 0 <= k < ids.len() && ids[k] == s;
                    assert(ranked@.contains(ids[k]));
                }
                if ranked@.contains(s) {
                    let a = choose|a: int| 0 <= a < ranked@.len() && ranked@[a] == s;
                    assert(self@.lost(ranked@[a]) > 0);
                    let k = choose|k: int| 0 <= k < ids.len() && ids[k] == s;
                    assert(affected@.contains_key(ids[k]));
                    assert(self@.stripes.contains_key(ids[k]));
                }
            }
            assert(order::is_ranking(ranked@, set, lt));
            order::lemma_is_the_ranking(ranked@, set, lt);
            assert forall|i: int| 0 <= i < ranked@.len() implies set.contains(#[trigger] ranked@[i]) by {
                assert(ranked@.contains(ranked@[i]));
            }
        }
        Ok(ranked)
    }

    /// The task for a degraded stripe.
    fn task(&self, id: StripeId, cnode: CNodeId) -> (r: Result<RebuildTask, Error>)
        requires
            self.wf(),
            self@.stripes.contains_key(id),
            self@.lost(id) <= self@.scheme.parity,
        ensures
            match r {
                Ok(t) => self@.task_for(id, cnode) == Ok::<_, ErrorView>(t@),
                Err(e) => self@.task_for(id, cnode) == Err::<TaskView, _>(e@),
            },
    {
        let read_from = match self.readable_members(id) {
            Ok(v) => v,
            Err(e) => {
                return Err(e);
            },
        };
        let lost: usize = match self.stripes.get(&id) {
            Some(members) => self.lost_among(members),
            None => 0,
        };
        let all = self.healthy_candidates(None);
        let mut spares: Vec<Candidate> = Vec::new();
        let ghost set = self@.spares(id);
        let ghost lt = |a: SNodeId, b: SNodeId| self@.emptier(a, b);
        let mut i: usize = 0;
        while i < all.len()
            invariant
                self.wf(),
                self@.stripes.contains_key(id),
                i <= all@.len(),
                set == self@.spares(id),
                forall|a: int, b: int|
                    0 <= a < all@.len() && 0 <= b < all@.len() && a != b ==> (#[trigger] all@[a]).id != (
                    #[trigger] all@[b]).id,
                forall|a: int|
                    0 <= a < all@.len() ==> {
                        &&& self@.healthy().contains((#[trigger] all@[a]).id)
                        &&& all@[a].shards == self@.domains[all@[a].id]
                        &&& all@[a].turn == 0
                    },
                forall|a: int, b: int|
                    0 <= a < spares@.len() && 0 <= b < spares@.len() && a != b ==> (#[trigger] spares@[a]).id != (
                    #[trigger] spares@[b]).id,
                forall|a: int|
                    0 <= a < spares@.len() ==> {
                        &&& set.contains((#[trigger] spares@[a]).id)
                        &&& spares@[a].shards == self@.domains[spares@[a].id]
                        &&& spares@[a].turn == 0
                        &&& exists|k: int| 0 <= k < i && all@[k].id == spares@[a].id
                    },
                forall|k: int|
                    0 <= k < i && set.contains((#[trigger] all@[k]).id) ==> exists|a: int|
                        0 <= a < spares@.len() && (#[trigger] spares@[a]).id == all@[k].id,
            decreases all.len() - i,
        {
            let c = &all[i];
            let ghost before = spares@;
            if !self.has_member(id, c.id) {
                spares.push(Candidate { id: c.id, shards: c.shards, turn: c.turn });
                assert(spares@[before.len() as int].id == all@[i as int].id);
                assert forall|a: int| 0 <= a < before.len() implies (#[trigger] spares@[a]).id != c.id by {
                    assert(spares@[a] == before[a]);
                    let k = choose|k: int| 0 <= k < i && all@[k].id == before[a].id;
                    assert(all@[k].id != all@[i as int].id);
                }
                assert forall|a: int| 0 <= a < spares@.len() implies exists|k: int|
                    0 <= k < i + 1 && all@[k].id == (#[trigger] spares@[a]).id by {
                    if a < before.len() {
                        let k = choose|k: int| 0 <= k < i && all@[k].id == before[a].id;
                        assert(all@[k].id == spares@[a].id);
                    } else {
                        assert(all@[i as int].id == spares@[a].id);
                    }
                }
            }
            assert forall|k: int| 0 <= k < i + 1 && set.contains((#[trigger] all@[k]).id) implies exists|a: int|
                0 <= a < spares@.len() && (#[trigger] spares@[a]).id == all@[k].id by {
                if k < i {
                    let a = choose|a: int| 0 <= a < before.len() && (#[trigger] before[a]).id == all@[k].id;
                    assert(spares@[a].id == all@[k].id);
                }
            }
            i += 1;
        }
        proof {
            self@.lemma_emptier();
            assert forall|d: SNodeId| #[trigger] set.contains(d) implies exists|a: int|
                0 <= a < spares@.len() && (#[trigger] spares@[a]).id == d by {
                assert(self@.healthy().contains(d));
                let k = choose|k: int| 0 <= k < all@.len() && (#[trigger] all@[k]).id == d;
                assert(set.contains(all@[k].id));
            }
            assert(candidates_of(spares@, set, lt));
            lemma_candidates_ranking(spares@, set, lt);
        }
        if spares.len() < lost {
            let mut msg = text::around("pool ", self.pool.0 as u64, " lacks spare fault domains for stripe ");
            msg.append(text::decimal_text(id.0).as_str());
            return Err(Error::Invalid(msg));
        }
        let write_to = first_candidates(&spares, lost, Ghost(set), Ghost(lt));
        Ok(RebuildTask { stripe: id, lost: lost as u8, assigned_to: cnode, read_from, write_to })
    }

    /// Whether a stripe has a shard on `d`.
    fn has_member(&self, id: StripeId, d: SNodeId) -> (b: bool)
        requires
            self.wf(),
            self@.stripes.contains_key(id),
        ensures
            b == self@.stripes[id].contains(d),
    {
        match self.stripes.get(&id) {
            Some(members) => {
                let mut i: usize = 0;
                while i < members.len()
                    invariant
                        self@.stripes[id] == members@,
                        i <= members@.len(),
                        forall|k: int| 0 <= k < i ==> members@[k] != d,
                    decreases members.len() - i,
                {
                    if members[i].0 == d.0 {
                        assert(members@[i as int] == d);
                        return true;
                    }
                    i += 1;
                }
                false
            },
            None => false,
        }
    }

    /// Plans a rebuild:
    /// - of the affected stripes only, from the index;
    /// - those with the most shards lost first;
    /// - dealt out evenly to the given nodes: the more nodes, the less each has
    ///   to do;
    /// - onto domains that are up and not in the stripe.
    pub fn plan_rebuild(&self, cnodes: &[CNodeId]) -> (r: Result<Vec<RebuildTask>, Error>)
        requires
            self.wf(),
        ensures
            match r {
                Ok(v) => self@.plan_rebuild(cnodes@) == Ok::<_, ErrorView>(task_views(v@)),
                Err(e) => self@.plan_rebuild(cnodes@) == Err::<Seq<TaskView>, _>(e@),
            },
    {
        if cnodes.len() == 0 {
            return Err(Error::Invalid(text::copy("no cnodes to rebuild")));
        }
        let ranked = match self.ranked_stripes() {
            Ok(v) => v,
            Err(e) => {
                return Err(e);
            },
        };
        let mut tasks: Vec<RebuildTask> = Vec::new();
        let mut i: usize = 0;
        assert(task_views(tasks@) =~= Seq::empty());
        while i < ranked.len()
            invariant
                self.wf(),
                cnodes@.len() > 0,
                i <= ranked@.len(),
                ranked@ == self@.by_risk(),
                ({
                    let ids = sorted_map::in_order::<StripeId>(self@.affected());
                    self@.first_beyond_repair(ids, ids.len()) is None
                }),
                forall|k: int| 0 <= k < ranked@.len() ==> self@.degraded().contains(#[trigger] ranked@[k]),
                self@.tasks_for(ranked@, cnodes@, i as nat) == Ok::<_, ErrorView>(task_views(tasks@)),
            decreases ranked.len() - i,
        {
            let id: StripeId = ranked[i];
            assert(self@.degraded().contains(ranked@[i as int]));
            match self.task(id, cnodes[i % cnodes.len()]) {
                Ok(t) => {
                    let ghost before = tasks@;
                    tasks.push(t);
                    assert(task_views(tasks@) =~= task_views(before).push(t@));
                },
                Err(e) => {
                    proof {
                        assert(self@.tasks_for(ranked@, cnodes@, (i + 1) as nat) == Err::<Seq<TaskView>, _>(e@));
                        self@.lemma_tasks_error(ranked@, cnodes@, (i + 1) as nat, ranked@.len());
                    }
                    return Err(e);
                },
            }
            i += 1;
        }
        Ok(tasks)
    }
}

impl StripesView {
    /// A reason found among some stripes is the reason for more.
    proof fn lemma_first_beyond_repair(self, ids: Seq<StripeId>, m: nat, n: nat)
        requires
            m <= n,
            self.first_beyond_repair(ids, m) is Some,
        ensures
            self.first_beyond_repair(ids, n) == self.first_beyond_repair(ids, m),
        decreases n,
    {
        if m < n {
            self.lemma_first_beyond_repair(ids, m, (n - 1) as nat);
        }
    }

    /// An error in the first tasks is the error of the plan.
    proof fn lemma_tasks_error(self, ids: Seq<StripeId>, cnodes: Seq<CNodeId>, m: nat, n: nat)
        requires
            m <= n,
            self.tasks_for(ids, cnodes, m) is Err,
        ensures
            self.tasks_for(ids, cnodes, n) == self.tasks_for(ids, cnodes, m),
        decreases n,
    {
        if m < n {
            self.lemma_tasks_error(ids, cnodes, m, (n - 1) as nat);
        }
    }
}

impl StripesView {
    /// The state after shard `i` of `stripe` has moved to domain `to`.
    pub open spec fn move_shard(self, stripe: StripeId, i: int, to: SNodeId) -> StripesView {
        let without = self.drop_shard(self.stripes[stripe][i], stripe);
        StripesView {
            domains: without.domains.insert(to, (without.domains[to] + 1) as u64),
            by_domain: without.by_domain.insert(to, without.listed(to).insert(stripe)),
            stripes: self.stripes.insert(stripe, self.stripes[stripe].update(i, to)),
            ..self
        }
    }

    /// The state after the first `n` shards of the task's stripe have been seen
    /// to, how many targets that took, and whether there were enough.
    pub open spec fn rebuilt(self, task: TaskView, n: nat) -> (StripesView, nat, bool)
        decreases n,
    {
        if n == 0 {
            (self, 0, true)
        } else {
            let (s, k, enough) = self.rebuilt(task, (n - 1) as nat);
            if !enough || !s.failed.contains(s.stripes[task.stripe][n - 1]) {
                (s, k, enough)
            } else if k >= task.write_to.len() {
                (s, k, false)
            } else {
                (s.move_shard(task.stripe, n - 1, task.write_to[k as int]), k + 1, true)
            }
        }
    }

    pub open spec fn apply_rebuild(self, task: TaskView) -> (StripesView, Result<(), ErrorView>) {
        if !self.stripes.contains_key(task.stripe) {
            (self, Err(no_stripe(task.stripe)))
        } else {
            let (s, k, enough) = self.rebuilt(task, self.stripes[task.stripe].len());
            (
                s,
                if enough {
                    Ok(())
                } else {
                    Err(ErrorView::Invalid("rebuild targets exhausted"@))
                },
            )
        }
    }

    /// Whether the target that shard `n` goes to, if it has to move, is a
    /// domain whose count can grow.
    pub open spec fn target_known(self, task: TaskView, n: int) -> bool {
        let (s, k, enough) = self.rebuilt(task, n as nat);
        let slot = s.stripes[task.stripe][n];
        let without = s.drop_shard(slot, task.stripe);
        enough && s.failed.contains(slot) && k < task.write_to.len() ==> {
            let to = task.write_to[k as int];
            without.domains.contains_key(to) && without.domains[to] < u64::MAX
        }
    }

    /// Whether every target that the task uses is a domain whose count can grow.
    pub open spec fn targets_known(self, task: TaskView) -> bool {
        self.stripes.contains_key(task.stripe) ==> forall|n: int|
            0 <= n < self.stripes[task.stripe].len() ==> #[trigger] self.target_known(task, n)
    }

    /// A rebuild keeps how many shards the stripe has, and what is down.
    proof fn lemma_rebuilt_shape(self, task: TaskView, n: nat)
        requires
            self.stripes.contains_key(task.stripe),
            n <= self.stripes[task.stripe].len(),
        ensures
            ({
                let s = self.rebuilt(task, n).0;
                &&& s.stripes.contains_key(task.stripe)
                &&& s.stripes[task.stripe].len() == self.stripes[task.stripe].len()
                &&& s.failed == self.failed
                &&& self.rebuilt(task, n).1 <= n
            }),
        decreases n,
    {
        if n > 0 {
            self.lemma_rebuilt_shape(task, (n - 1) as nat);
        }
    }

    /// Once targets have run out, nothing changes any more.
    proof fn lemma_rebuilt_stuck(self, task: TaskView, m: nat, n: nat)
        requires
            m <= n,
            !self.rebuilt(task, m).2,
        ensures
            self.rebuilt(task, n) == self.rebuilt(task, m),
        decreases n,
    {
        if m < n {
            self.lemma_rebuilt_stuck(task, m, (n - 1) as nat);
        }
    }
}

impl StripeManager {
    /// Carries out a rebuild task: the rebuilt shards are booked on their new
    /// domains, which take the place of the failed ones in the stripe.
    pub fn apply_rebuild(&mut self, task: &RebuildTask) -> (r: Result<(), Error>)
        requires
            old(self).wf(),
            old(self)@.targets_known(task@),
        ensures
            final(self).wf(),
            (final(self)@, types::outcome(r)) == old(self)@.apply_rebuild(task@),
            old(self)@.consistent() && protection_laws::task_fits(old(self)@, task@) ==> final(self)@.consistent(),
    {
        proof {
            if self@.consistent() && protection_laws::task_fits(self@, task@) {
                protection_laws::law_rebuild_restores_a_stripe(self@, task@);
            }
        }
        let id: StripeId = task.stripe;
        let count: usize = match self.stripes.get(&id) {
            Some(m) => m.len(),
            None => {
                return Err(Error::Invalid(text::numbered("no stripe ", id.0)));
            },
        };
        let ghost start = self@;
        let mut used: usize = 0;
        let mut i: usize = 0;
        while i < count
            invariant
                i <= count,
                self.wf(),
                id == task.stripe,
                start == old(self)@,
                start.stripes.contains_key(id),
                count == start.stripes[id].len(),
                start.targets_known(task@),
                start.consistent() && protection_laws::task_fits(start, task@) ==> start.apply_rebuild(
                    task@,
                ).0.consistent(),
                start.rebuilt(task@, i as nat) == (self@, used as nat, true),
                used <= i,
            decreases count - i,
        {
            proof {
                start.lemma_rebuilt_shape(task@, i as nat);
                assert(start.target_known(task@, i as int));
            }
            let slot: SNodeId = match self.stripes.get(&id) {
                Some(m) => m[i],
                None => {
                    return Ok(());
                },
            };
            if self.failed.contains_key(&slot) {
                if used >= task.write_to.len() {
                    proof {
                        start.lemma_rebuilt_stuck(task@, (i + 1) as nat, count as nat);
                    }
                    return Err(Error::Invalid(text::copy("rebuild targets exhausted")));
                }
                let to: SNodeId = task.write_to[used];
                let ghost before = self@;
                self.drop_shard(slot, id);
                assert(self@ == before.drop_shard(slot, id));
                match self.stripes.get_mut(&id) {
                    Some(m) => {
                        m.set(i, to);
                    },
                    None => {},
                }
                proof {
                    assert(self@.stripes =~= before.stripes.insert(id, before.stripes[id].update(i as int, to)));
                }
                self.add_shard(to, id);
                assert(self@ == before.move_shard(id, i as int, to));
                used += 1;
            }
            i += 1;
        }
        Ok(())
    }
}

} // verus!
