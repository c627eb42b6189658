//! Pools of like hardware, the balance between them, and tiering.
//!
//! - A pool is a group of like storage nodes with one media class; stripes and
//!   fault domains stay within it.
//! - Writes go to the pool of their media class with the most headroom.
//! - In the background, extents move from full pools to empty ones of the same
//!   class. Only cooling moves data to another class.
//! - A tenant can be bound to a pool of its own.

use vstd::prelude::*;

use crate::order;
use crate::sorted_map;
use crate::sorted_map::{Key, SortedMap};
use crate::text;
use crate::types;
use crate::types::{Error, ErrorView, MediaClass, PoolId, TenantId};

verus! {

/// What is known of a pool.
#[derive(Debug, Clone, Copy)]
pub struct PoolState {
    pub id: PoolId,
    pub media: MediaClass,
    pub capacity: u64,
    pub used: u64,
    /// How idle the pool is, in thousandths.
    pub load_headroom_permille: u32,
    /// The tenant that the pool belongs to; a shared pool has none.
    pub dedicated_to: Option<TenantId>,
}

impl PoolState {
    /// The thousandths of the pool that are in use, kept in 32 bits; a pool
    /// without capacity is full.
    pub open spec fn level(self) -> u32 {
        if self.capacity == 0 {
            1000
        } else {
            ((self.used * 1000 / self.capacity as int) % 0x1_0000_0000) as u32
        }
    }

    /// The merit of a pool with room left: headroom in capacity and in load
    /// count alike.
    pub open spec fn merit(self) -> int {
        1000 - self.level() + self.load_headroom_permille
    }

    /// Whether the level can be computed in 64 bits.
    pub open spec fn measurable(self) -> bool {
        self.capacity > 0 ==> self.used * 1000 <= u64::MAX
    }

    fn used_permille(&self) -> (r: u32)
        requires
            self.measurable(),
        ensures
            r == self.level(),
    {
        if self.capacity == 0 {
            return 1000;
        }
        (((self.used * 1000) / self.capacity) % 0x1_0000_0000) as u32
    }

    /// A pool with room left is less than full.
    proof fn lemma_room(self)
        requires
            self.used < self.capacity,
        ensures
            self.level() < 1000,
    {
        let (u, c) = (self.used as int, self.capacity as int);
        assert(0 <= u * 1000 / c < 1000) by (nonlinear_arith)
            requires
                0 <= u < c,
        ;
    }

    /// Whether the pool can take a write of a tenant.
    fn is_open(&self, media: MediaClass, tenant: TenantId, dedicated: Option<PoolId>) -> (b: bool)
        ensures
            b == {
                &&& self.media == media
                &&& match dedicated {
                    Some(pool) => self.id == pool,
                    None => self.dedicated_to is None || self.dedicated_to == Some(tenant),
                }
                &&& self.used < self.capacity
            },
    {
        let allowed = match dedicated {
            Some(pool) => self.id.0 == pool.0,
            None => match self.dedicated_to {
                None => true,
                Some(t) => t.0 == tenant.0,
            },
        };
        self.media == media && allowed && self.used < self.capacity
    }

    fn score(&self) -> (r: u64)
        requires
            self.measurable(),
            self.used < self.capacity,
        ensures
            r == self.merit(),
    {
        proof {
            self.lemma_room();
        }
        let capacity_headroom: u64 = 1000 - self.used_permille() as u64;
        capacity_headroom + self.load_headroom_permille as u64
    }
}

/// A proposal to move extents from one pool to another.
#[derive(Debug, Clone, Copy, PartialEq, Eq, Structural)]
pub struct RebalanceMove {
    pub from: PoolId,
    pub to: PoolId,
    pub extents: u64,
}

/// The pools.
pub struct EngineView {
    pub pools: Map<PoolId, PoolState>,
    /// By how many thousandths levels may differ before extents should move.
    pub watermark_diff_permille: u32,
}

impl EngineView {
    /// Whether a pool can take a write: of the media class, with room left, and
    /// either the very pool that the tenant is bound to, or, for a tenant that is
    /// not bound, a shared pool or one of its own.
    pub open spec fn open_to(self, id: PoolId, media: MediaClass, tenant: TenantId, dedicated: Option<PoolId>) -> bool {
        &&& self.pools.contains_key(id)
        &&& self.pools[id].media == media
        &&& match dedicated {
            Some(pool) => id == pool,
            None => self.pools[id].dedicated_to is None || self.pools[id].dedicated_to == Some(tenant),
        }
        &&& self.pools[id].used < self.pools[id].capacity
    }

    pub open spec fn candidates(self, media: MediaClass, tenant: TenantId, dedicated: Option<PoolId>) -> Set<PoolId> {
        Set::new(|id: PoolId| self.open_to(id, media, tenant, dedicated))
    }

    /// Which of two pools is taken first: the one with more merit, then by number.
    pub open spec fn preferred(self, a: PoolId, b: PoolId) -> bool {
        ||| self.pools[a].merit() > self.pools[b].merit()
        ||| self.pools[a].merit() == self.pools[b].merit() && a.0 < b.0
    }

    pub open spec fn select_pool(self, media: MediaClass, tenant: TenantId, dedicated: Option<PoolId>) -> Result<
        PoolId,
        ErrorView,
    > {
        let candidates = self.candidates(media, tenant, dedicated);
        if candidates.len() == 0 {
            Err(ErrorView::NoSpace { media })
        } else {
            Ok(order::ranking(candidates, |a: PoolId, b: PoolId| self.preferred(a, b))[0])
        }
    }

    /// Whether the merit of every candidate can be computed in 64 bits.
    pub open spec fn can_select(self, media: MediaClass, tenant: TenantId, dedicated: Option<PoolId>) -> bool {
        forall|id: PoolId| #[trigger]
            self.open_to(id, media, tenant, dedicated) ==> self.pools[id].measurable()
    }

    pub open spec fn commit(self, pool: PoolId, extents: u64) -> (EngineView, Result<(), ErrorView>) {
        if !self.pools.contains_key(pool) {
            (self, Err(ErrorView::Invalid("no pool "@ + text::decimal(pool.0 as nat))))
        } else {
            let p = self.pools[pool];
            let used = if p.used + extents <= p.capacity { (p.used + extents) as u64 } else { p.capacity };
            (EngineView { pools: self.pools.insert(pool, PoolState { used, ..p }), ..self }, Ok(()))
        }
    }

    /// The shared pools of a media class that have any capacity.
    pub open spec fn shared(self, media: MediaClass) -> Set<PoolId> {
        Set::new(
            |id: PoolId|
                self.pools.contains_key(id) && self.pools[id].media == media && self.pools[id].dedicated_to is None
                    && self.pools[id].capacity > 0,
        )
    }

    /// Which of two pools comes first by level, then by number.
    pub open spec fn lower(self, a: PoolId, b: PoolId) -> bool {
        ||| self.pools[a].level() < self.pools[b].level()
        ||| self.pools[a].level() == self.pools[b].level() && a.0 < b.0
    }

    /// The shared pools of a class, the emptiest first.
    pub open spec fn by_level(self, media: MediaClass) -> Seq<PoolId> {
        order::ranking(self.shared(media), |a: PoolId, b: PoolId| self.lower(a, b))
    }

    /// How much moves from the fullest pool to the emptiest: half of what would
    /// bring it down to the middle between the two.
    pub open spec fn amount(self, high: PoolId, low: PoolId) -> int {
        let h = self.pools[high].level() as int;
        let l = self.pools[low].level() as int;
        (h - (h + l) / 2) * self.pools[high].capacity / 1000 / 2
    }

    /// What should move within a class, if anything.
    pub open spec fn move_within(self, media: MediaClass) -> Option<RebalanceMove> {
        let ranked = self.by_level(media);
        let low = ranked[0];
        let high = ranked.last();
        if self.shared(media).len() < 2 || self.pools[high].level() - self.pools[low].level()
            <= self.watermark_diff_permille || self.amount(high, low) <= 0 {
            None
        } else {
            Some(RebalanceMove { from: high, to: low, extents: self.amount(high, low) as u64 })
        }
    }

    /// Whether what should move within a class can be computed in 64 bits.
    pub open spec fn can_plan(self, media: MediaClass) -> bool {
        let ranked = self.by_level(media);
        let low = ranked[0];
        let high = ranked.last();
        let h = self.pools[high].level() as int;
        let l = self.pools[low].level() as int;
        self.shared(media).len() >= 2 ==> {
            &&& forall|id: PoolId| #[trigger] self.shared(media).contains(id) ==> self.pools[id].measurable()
            &&& h - l > self.watermark_diff_permille ==> (h - (h + l) / 2) * self.pools[high].capacity <= u64::MAX
        }
    }

    pub open spec fn plan_rebalance(self) -> Seq<RebalanceMove> {
        listed(self.move_within(MediaClass::TlcNvme)) + listed(self.move_within(MediaClass::QlcNvme)) + listed(
            self.move_within(MediaClass::Hdd),
        )
    }

    /// Where data of a class goes when it has cooled down: to a pool of the next
    /// class down that has one, and in the end to the object store outside.
    pub open spec fn sink_target(self, from: MediaClass, tenant: TenantId) -> Option<(MediaClass, Option<PoolId>)>
        decreases 3 - types::depth(from),
    {
        match types::colder_tier(from) {
            None => None,
            Some(media) => if media == MediaClass::ExternalS3 {
                Some((media, None))
            } else {
                match self.select_pool(media, tenant, None) {
                    Ok(pool) => Some((media, Some(pool))),
                    Err(_) => self.sink_target(media, tenant),
                }
            },
        }
    }

    /// Whether the choice of such a pool can be made in 64 bits.
    pub open spec fn can_sink(self, from: MediaClass, tenant: TenantId) -> bool
        decreases 3 - types::depth(from),
    {
        match types::colder_tier(from) {
            None => true,
            Some(media) => media == MediaClass::ExternalS3 || (self.can_select(media, tenant, None) && (
            self.select_pool(media, tenant, None) is Ok || self.can_sink(media, tenant))),
        }
    }

    /// Every pool is filed under its own number.
    pub open spec fn filed(self) -> bool {
        &&& self.pools.dom().finite()
        &&& forall|id: PoolId| #[trigger] self.pools.contains_key(id) ==> self.pools[id].id == id
    }

    proof fn lemma_preferred(self)
        ensures
            order::strict_order(|a: PoolId, b: PoolId| self.preferred(a, b)),
    {
    }

    proof fn lemma_lower(self)
        ensures
            order::strict_order(|a: PoolId, b: PoolId| self.lower(a, b)),
    {
    }
}

/// An optional move as a listing.
pub open spec fn listed(m: Option<RebalanceMove>) -> Seq<RebalanceMove> {
    match m {
        Some(m) => seq![m],
        None => Seq::empty(),
    }
}

/// Decides where data goes.
#[derive(Debug)]
pub struct PlacementEngine {
    pools: SortedMap<PoolId, PoolState>,
    watermark_diff_permille: u32,
}

impl View for PlacementEngine {
    type V = EngineView;

    closed spec fn view(&self) -> EngineView {
        EngineView { pools: self.pools@, watermark_diff_permille: self.watermark_diff_permille }
    }
}

impl PlacementEngine {
    /// The map of pools is well-formed.
    pub closed spec fn parts_wf(&self) -> bool {
        self.pools.wf()
    }

    pub open spec fn wf(&self) -> bool {
        self.parts_wf() && self@.filed()
    }

    pub fn new(watermark_diff_permille: u32) -> (r: Self)
        ensures
            r.wf(),
            r@ == (EngineView { pools: Map::empty(), watermark_diff_permille }),
    {
        PlacementEngine { pools: SortedMap::new(), watermark_diff_permille }
    }

    pub fn upsert_pool(&mut self, state: PoolState)
        requires
            old(self).wf(),
        ensures
            final(self).wf(),
            final(self)@ == (EngineView { pools: old(self)@.pools.insert(state.id, state), ..old(self)@ }),
    {
        self.pools.insert(state.id, state);
    }

    pub fn pool(&self, id: PoolId) -> (r: Option<&PoolState>)
        requires
            self.wf(),
        ensures
            match r {
                Some(p) => self@.pools.contains_key(id) && self@.pools[id] == *p,
                None => !self@.pools.contains_key(id),
            },
    {
        self.pools.get(&id)
    }

    /// All pools, by number.
    pub fn pools(&self) -> (r: Vec<&PoolState>)
        requires
            self.wf(),
        ensures
            r@.len() == self@.pools.dom().len(),
            forall|i: int|
                0 <= i < r@.len() ==> *(#[trigger] r@[i]) == self@.pools[sorted_map::in_order::<PoolId>(
                    self@.pools.dom(),
                )[i]],
    {
        let mut r: Vec<&PoolState> = Vec::new();
        let mut i: usize = 0;
        proof {
            self.pools.lemma_entries();
        }
        while i < self.pools.len()
            invariant
                self.wf(),
                i <= self.pools.vals().len(),
                r@.len() == i,
                forall|k: int| 0 <= k < i ==> *(#[trigger] r@[k]) == self.pools.vals()[k],
            decreases self.pools.vals().len() - i,
        {
            r.push(self.pools.value_at(i));
            i += 1;
        }
        proof {
            self.pools.lemma_entries();
            let ks = self.pools.keys();
            assert forall|k: int| 0 <= k < r@.len() implies *(#[trigger] r@[k]) == self@.pools[ks[k]] by {
                assert(self.pools@[ks[k]] == self.pools.vals()[k]);
            }
        }
        r
    }

    /// Tests whether the merit of every candidate can be computed in 64 bits.
    pub(crate) fn selection_fits(&self, media: MediaClass, tenant: TenantId, dedicated: Option<PoolId>) -> (b: bool)
        requires
            self.wf(),
        ensures
            b == self@.can_select(media, tenant, dedicated),
    {
        let mut i: usize = 0;
        let ghost ks = self.pools.keys();
        while i < self.pools.len()
            invariant
                self.wf(),
                ks == self.pools.keys(),
                i <= ks.len(),
                forall|k: int|
                    0 <= k < i && self@.open_to(#[trigger] ks[k], media, tenant, dedicated)
                        ==> self@.pools[ks[k]].measurable(),
            decreases ks.len() - i,
        {
            proof {
                self.pools.lemma_entries();
            }
            let p: &PoolState = self.pools.value_at(i);
            assert(self@.pools.contains_key(ks[i as int]) && self@.pools[ks[i as int]] == p);
            let open = p.is_open(media, tenant, dedicated);
            assert(open == self@.open_to(ks[i as int], media, tenant, dedicated));
            if open && p.used > u64::MAX / 1000 {
                return false;
            }
            i += 1;
        }
        proof {
            self.pools.lemma_entries();
            assert forall|id: PoolId| #[trigger]
                self@.open_to(id, media, tenant, dedicated) implies self@.pools[id].measurable() by {
                assert(self.pools@.contains_key(id));
                let k = choose|k: int| 0 <= k < ks.len() && ks[k] == id;
                assert(self@.open_to(ks[k], media, tenant, dedicated));
            }
        }
        true
    }

    /// Chooses the pool for a write: the best of the media class.
    ///
    /// - A tenant that is bound to a pool uses that pool only.
    /// - A tenant that is not uses shared pools, or its own.
    pub fn select_pool(&self, media: MediaClass, tenant: TenantId, dedicated: Option<PoolId>) -> (r: Result<
        PoolId,
        Error,
    >)
        requires
            self.wf(),
            self@.can_select(media, tenant, dedicated),
        ensures
            types::outcome(r) == self@.select_pool(media, tenant, dedicated),
    {
        let mut best: Option<(PoolId, u64)> = None;
        let mut i: usize = 0;
        let ghost ks = self.pools.keys();
        let ghost v = self@;
        while i < self.pools.len()
            invariant
                self.wf(),
                v == self@,
                ks == self.pools.keys(),
                i <= ks.len(),
                v.can_select(media, tenant, dedicated),
                match best {
                    None => forall|k: int| 0 <= k < i ==> !v.open_to(#[trigger] ks[k], media, tenant, dedicated),
                    Some((b, score)) => {
                        &&& v.open_to(b, media, tenant, dedicated)
                        &&& score == v.pools[b].merit()
                        &&& exists|k: int| 0 <= k < i && #[trigger] ks[k] == b
                        &&& forall|k: int|
                            0 <= k < i && v.open_to(#[trigger] ks[k], media, tenant, dedicated) ==> ks[k] == b
                                || v.preferred(b, ks[k])
                    },
                },
            decreases ks.len() - i,
        {
            proof {
                self.pools.lemma_entries();
                PoolId::lemma_order();
            }
            let p: &PoolState = self.pools.value_at(i);
            assert(v.pools[ks[i as int]] == p);
            assert(v.pools.contains_key(ks[i as int]));
            assert(p.id == ks[i as int]);
            let open = p.is_open(media, tenant, dedicated);
            assert(open == v.open_to(ks[i as int], media, tenant, dedicated));
            if open {
                let score: u64 = p.score();
                match best {
                    None => {
                        best = Some((p.id, score));
                    },
                    Some((b, s)) => {
                        proof {
                            let k = choose|k: int| 0 <= k < i && #[trigger] ks[k] == b;
                            assert(sorted_map::key_order::<PoolId>()(ks[k], ks[i as int]));
                        }
                        if score > s {
                            best = Some((p.id, score));
                        }
                    },
                }
                assert(ks[i as int] == p.id);
            }
            i += 1;
        }
        proof {
            self.pools.lemma_entries();
            v.lemma_preferred();
            let set = v.candidates(media, tenant, dedicated);
            let lt = |a: PoolId, b: PoolId| v.preferred(a, b);
            assert(set.subset_of(v.pools.dom()));
            vstd::set_lib::lemma_len_subset(set, v.pools.dom());
            match best {
                None => {
                    assert(set =~= Set::empty()) by {
                        assert forall|id: PoolId| !set.contains(id) by {
                            if set.contains(id) {
                                let k = choose|k: int| 0 <= k < ks.len() && ks[k] == id;
                                assert(!v.open_to(ks[k], media, tenant, dedicated));
                            }
                        }
                    }
                },
                Some((b, s)) => {
                    assert forall|y: PoolId| #[trigger] set.contains(y) implies y == b || lt(b, y) by {
                        let k = choose|k: int| 0 <= k < ks.len() && ks[k] == y;
                        assert(v.open_to(ks[k], media, tenant, dedicated));
                    }
                    assert(set.contains(b));
                    order::lemma_ranking_first(set, lt, b);
                },
            }
        }
        match best {
            Some((b, _)) => Ok(b),
            None => Err(Error::NoSpace { media }),
        }
    }

    /// Books extents on a pool.
    pub fn commit(&mut self, pool: PoolId, extents: u64) -> (r: Result<(), Error>)
        requires
            old(self).wf(),
            old(self)@.pools.contains_key(pool) ==> old(self)@.pools[pool].used + extents <= u64::MAX,
        ensures
            final(self).wf(),
            (final(self)@, types::outcome(r)) == old(self)@.commit(pool, extents),
    {
        let p: PoolState = match self.pools.get(&pool) {
            Some(p) => *p,
            None => {
                return Err(Error::Invalid(text::numbered("no pool ", pool.0 as u64)));
            },
        };
        assert(self@.pools.contains_key(pool));
        let used: u64 = if p.used + extents <= p.capacity {
            p.used + extents
        } else {
            p.capacity
        };
        self.pools.insert(
            pool,
            PoolState {
                id: p.id,
                media: p.media,
                capacity: p.capacity,
                used,
                load_headroom_permille: p.load_headroom_permille,
                dedicated_to: p.dedicated_to,
            },
        );
        Ok(())
    }

    /// What should move within a class: from its fullest shared pool to its
    /// emptiest, if their levels differ too much.
    fn plan_within(&self, media: MediaClass) -> (r: Option<RebalanceMove>)
        requires
            self.wf(),
            self@.can_plan(media),
        ensures
            r == self@.move_within(media),
    {
        let ghost v = self@;
        let ghost ks = self.pools.keys();
        let ghost set = v.shared(media);
        let ghost lt = |a: PoolId, b: PoolId| v.lower(a, b);
        proof {
            self.pools.lemma_entries();
            PoolId::lemma_order();
            v.lemma_lower();
            assert(set.subset_of(v.pools.dom()));
            vstd::set_lib::lemma_len_subset(set, v.pools.dom());
        }
        let mut ids: Vec<PoolState> = Vec::new();
        let mut i: usize = 0;
        while i < self.pools.len()
            invariant
                self.wf(),
                v == self@,
                ks == self.pools.keys(),
                i <= ks.len(),
                set == v.shared(media),
                order::ascending(ks, sorted_map::key_order::<PoolId>()),
                forall|a: int, b: int| 0 <= a < b < ids@.len() ==> (#[trigger] ids@[a]).id.0 < (#[trigger] ids@[b]).id.0,
                forall|a: int|
                    0 <= a < ids@.len() ==> {
                        &&& set.contains((#[trigger] ids@[a]).id)
                        &&& v.pools[ids@[a].id] == ids@[a]
                        &&& seen_before(ks, i as int, ids@[a].id)
                    },
                forall|k: int|
                    0 <= k < i && set.contains(#[trigger] ks[k]) ==> exists|a: int|
                        0 <= a < ids@.len() && (#[trigger] ids@[a]).id == ks[k],
            decreases ks.len() - i,
        {
            proof {
                self.pools.lemma_entries();
            }
            let p: &PoolState = self.pools.value_at(i);
            assert(v.pools[ks[i as int]] == p);
            assert(v.pools.contains_key(ks[i as int]));
            let ghost before = ids@;
            if p.media == media && p.dedicated_to.is_none() && p.capacity > 0 {
                ids.push(*p);
                proof {
                    assert forall|a: int| 0 <= a < before.len() implies (#[trigger] ids@[a]).id.0 < p.id.0 by {
                        assert(ids@[a] == before[a]);
                        assert(seen_before(ks, i as int, before[a].id));
                        let k = choose|k: int| 0 <= k < i && ks[k] == before[a].id;
                        assert(sorted_map::key_order::<PoolId>()(ks[k], ks[i as int]));
                    }
                    assert(ids@[before.len() as int].id == ks[i as int]);
                }
            }
            proof {
                assert forall|a: int| 0 <= a < ids@.len() implies seen_before(ks, i + 1, (#[trigger] ids@[a]).id) by {
                    if a < before.len() {
                        assert(ids@[a] == before[a]);
                        assert(seen_before(ks, i as int, before[a].id));
                        let k = choose|k: int| 0 <= k < i && ks[k] == before[a].id;
                        assert(0 <= k < i + 1 && ks[k] == ids@[a].id);
                    } else {
                        assert(ks[i as int] == ids@[a].id);
                    }
                }
                assert forall|k: int| 0 <= k < i + 1 && set.contains(#[trigger] ks[k]) implies exists|a: int|
                    0 <= a < ids@.len() && (#[trigger] ids@[a]).id == ks[k] by {
                    if k < i {
                        let a = choose|a: int| 0 <= a < before.len() && (#[trigger] before[a]).id == ks[k];
                        assert(ids@[a].id == ks[k]);
                    }
                }
            }
            i += 1;
        }
        proof {
            self.pools.lemma_entries();
            let names = ids@.map_values(|p: PoolState| p.id);
            assert(names.no_duplicates()) by {
                assert forall|a: int, b: int| 0 <= a < names.len() && 0 <= b < names.len() && a != b implies names[a]
                    != names[b] by {
                    if a < b {
                        assert(ids@[a].id.0 < ids@[b].id.0);
                    } else {
                        assert(ids@[b].id.0 < ids@[a].id.0);
                    }
                }
            }
            assert(names.to_set() =~= set) by {
                assert forall|d: PoolId| names.to_set().contains(d) <==> set.contains(d) by {
                    if set.contains(d) {
                        let k = choose|k: int| 0 <= k < ks.len() && ks[k] == d;
                        assert(set.contains(ks[k]));
                        let a = choose|a: int| 0 <= a < ids@.len() && (#[trigger] ids@[a]).id == ks[k];
                        assert(names[a] == d);
                    }
                    if names.contains(d) {
                        let a = choose|a: int| 0 <= a < names.len() && names[a] == d;
                        assert(set.contains(ids@[a].id));
                    }
                }
            }
            names.unique_seq_to_set();
        }
        if ids.len() < 2 {
            return None;
        }
        assert(v.shared(media).contains(ids@[0].id));
        let mut low: usize = 0;
        let mut high: usize = 0;
        let mut low_level: u32 = ids[0].used_permille();
        let mut high_level: u32 = low_level;
        let mut j: usize = 1;
        while j < ids.len()
            invariant
                1 <= j <= ids@.len(),
                low < j,
                high < j,
                v.can_plan(media),
                set == v.shared(media),
                set.len() >= 2,
                low_level == v.pools[ids@[low as int].id].level(),
                high_level == v.pools[ids@[high as int].id].level(),
                forall|a: int, b: int| 0 <= a < b < ids@.len() ==> (#[trigger] ids@[a]).id.0 < (#[trigger] ids@[b]).id.0,
                forall|a: int|
                    0 <= a < ids@.len() ==> set.contains((#[trigger] ids@[a]).id) && v.pools[ids@[a].id] == ids@[a],
                forall|a: int| 0 <= a < j ==> a == low || v.lower(ids@[low as int].id, (#[trigger] ids@[a]).id),
                forall|a: int| 0 <= a < j ==> a == high || v.lower((#[trigger] ids@[a]).id, ids@[high as int].id),
            decreases ids.len() - j,
        {
            assert(v.shared(media).contains(ids@[j as int].id));
            assert(ids@[low as int].id.0 < ids@[j as int].id.0);
            assert(ids@[high as int].id.0 < ids@[j as int].id.0);
            let level: u32 = ids[j].used_permille();
            if level < low_level {
                low = j;
                low_level = level;
            }
            if level >= high_level {
                high = j;
                high_level = level;
            }
            j += 1;
        }
        proof {
            assert forall|y: PoolId| #[trigger] set.contains(y) implies y == ids@[low as int].id || lt(
                ids@[low as int].id,
                y,
            ) by {
                let k = choose|k: int| 0 <= k < ks.len() && ks[k] == y;
                assert(set.contains(ks[k]));
                let a = choose|a: int| 0 <= a < ids@.len() && (#[trigger] ids@[a]).id == ks[k];
                assert(a == low || v.lower(ids@[low as int].id, ids@[a].id));
            }
            assert forall|y: PoolId| #[trigger] set.contains(y) implies y == ids@[high as int].id || lt(
                y,
                ids@[high as int].id,
            ) by {
                let k = choose|k: int| 0 <= k < ks.len() && ks[k] == y;
                assert(set.contains(ks[k]));
                let a = choose|a: int| 0 <= a < ids@.len() && (#[trigger] ids@[a]).id == ks[k];
                assert(a == high || v.lower(ids@[a].id, ids@[high as int].id));
            }
            order::lemma_ranking_first(set, lt, ids@[low as int].id);
            order::lemma_ranking_last(set, lt, ids@[high as int].id);
        }
        if high_level - low_level <= self.watermark_diff_permille {
            return None;
        }
        let target: u64 = (high_level as u64 + low_level as u64) / 2;
        let extents: u64 = (high_level as u64 - target) * ids[high].capacity / 1000 / 2;
        if extents == 0 {
            return None;
        }
        Some(RebalanceMove { from: ids[high].id, to: ids[low].id, extents })
    }

    /// Plans the moves that even out the levels of the pools: within each media
    /// class, never from one to another, and never with a dedicated pool.
    pub fn plan_rebalance(&self) -> (r: Vec<RebalanceMove>)
        requires
            self.wf(),
            self@.can_plan(MediaClass::TlcNvme),
            self@.can_plan(MediaClass::QlcNvme),
            self@.can_plan(MediaClass::Hdd),
        ensures
            r@ == self@.plan_rebalance(),
    {
        let mut moves: Vec<RebalanceMove> = Vec::new();
        let a = self.plan_within(MediaClass::TlcNvme);
        let b = self.plan_within(MediaClass::QlcNvme);
        let c = self.plan_within(MediaClass::Hdd);
        if let Some(m) = a {
            moves.push(m);
        }
        assert(moves@ =~= listed(a));
        if let Some(m) = b {
            moves.push(m);
        }
        assert(moves@ =~= listed(a) + listed(b));
        if let Some(m) = c {
            moves.push(m);
        }
        assert(moves@ =~= listed(a) + listed(b) + listed(c));
        moves
    }

    /// Chooses where cold data of a media class goes: to the next tier down that
    /// has a pool for it, skipping tiers that are not there, and in the end to the
    /// object store outside, which always has room.
    pub fn select_sink_target(&self, from: MediaClass, tenant: TenantId) -> (r: Option<
        (MediaClass, Option<PoolId>),
    >)
        requires
            self.wf(),
            self@.can_sink(from, tenant),
        ensures
            r == self@.sink_target(from, tenant),
    {
        let mut at: MediaClass = from;
        loop
            invariant
                self.wf(),
                self@.can_sink(at, tenant),
                self@.sink_target(from, tenant) == self@.sink_target(at, tenant),
            decreases 3 - types::depth(at),
        {
            match at.colder() {
                None => {
                    return None;
                },
                Some(media) => {
                    if media == MediaClass::ExternalS3 {
                        return Some((MediaClass::ExternalS3, None));
                    }
                    match self.select_pool(media, tenant, None) {
                        Ok(pool) => {
                            return Some((media, Some(pool)));
                        },
                        Err(_) => {},
                    }
                    at = media;
                },
            }
        }
    }
}

/// Whether `x` is among the first `n` of `s`.
spec fn seen_before(s: Seq<PoolId>, n: int, x: PoolId) -> bool {
    exists|k: int| 0 <= k < n && s[k] == x
}

impl Default for PlacementEngine {
    fn default() -> (r: Self)
        ensures
            r.wf(),
            r@ == (EngineView { pools: Map::empty(), watermark_diff_permille: 0 }),
    {
        PlacementEngine::new(0)
    }
}

/// A write goes to a pool of its media class that has room, and pools are kept
/// apart: a tenant bound to a pool gets that pool and no other, and a tenant that
/// is not never gets another tenant's pool. No better candidate is passed over, and
/// of equally good ones the first by number is taken.
pub proof fn law_selection(v: EngineView, media: MediaClass, tenant: TenantId, dedicated: Option<PoolId>, other: PoolId)
    requires
        v.filed(),
    ensures
        match v.select_pool(media, tenant, dedicated) {
            Ok(p) => {
                &&& v.pools.contains_key(p)
                &&& v.pools[p].media == media
                &&& v.pools[p].used < v.pools[p].capacity
                &&& dedicated matches Some(d) ==> p == d
                &&& dedicated is None ==> v.pools[p].dedicated_to is None || v.pools[p].dedicated_to == Some(tenant)
                &&& v.open_to(other, media, tenant, dedicated) ==> {
                    &&& v.pools[p].merit() >= v.pools[other].merit()
                    &&& v.pools[p].merit() == v.pools[other].merit() ==> p.0 <= other.0
                }
            },
            Err(e) => e == (ErrorView::NoSpace { media }) && !v.open_to(other, media, tenant, dedicated),
        },
{
    let set = v.candidates(media, tenant, dedicated);
    let lt = |a: PoolId, b: PoolId| v.preferred(a, b);
    v.lemma_preferred();
    assert(set.subset_of(v.pools.dom()));
    vstd::set_lib::lemma_len_subset(set, v.pools.dom());
    order::lemma_ranking_exists(set, lt);
    let ranked = order::ranking(set, lt);
    order::lemma_ranking_len(ranked, set, lt);
    if set.len() > 0 {
        assert(ranked.contains(ranked[0]));
        assert(set.contains(ranked[0]));
        if set.contains(other) {
            assert(ranked.contains(other));
            let i = choose|i: int| 0 <= i < ranked.len() && ranked[i] == other;
            if i > 0 {
                assert(lt(ranked[0], ranked[i]));
            }
        }
    } else {
        assert(set =~= Set::empty());
        assert(!set.contains(other));
    }
}

/// Booking changes one pool only, and never fills it beyond its capacity.
pub proof fn law_commit(v: EngineView, pool: PoolId, extents: u64, other: PoolId)
    ensures
        ({
            let (w, r) = v.commit(pool, extents);
            &&& r is Ok <==> v.pools.contains_key(pool)
            &&& w.pools.dom() == v.pools.dom()
            &&& other != pool ==> w.pools[other] == v.pools[other]
            &&& r is Ok ==> w.pools[pool].used <= w.pools[pool].capacity
            &&& r is Err ==> w == v
        }),
{
    let w = v.commit(pool, extents).0;
    assert(w.pools.dom() =~= v.pools.dom());
}

/// Balancing stays within a media class, leaves dedicated pools alone, moves
/// something, from the fullest pool to the emptiest, which differ by more than the
/// threshold, and no more than is there.
pub proof fn law_rebalance(v: EngineView, media: MediaClass, other: PoolId)
    requires
        v.filed(),
        v.move_within(media) is Some,
        v.can_plan(media),
        forall|id: PoolId| #[trigger] v.pools.contains_key(id) ==> v.pools[id].used <= v.pools[id].capacity,
    ensures
        ({
            let m = v.move_within(media)->0;
            &&& m.from != m.to
            &&& v.pools.contains_key(m.from) && v.pools.contains_key(m.to)
            &&& v.pools[m.from].media == media && v.pools[m.to].media == media
            &&& v.pools[m.from].dedicated_to is None && v.pools[m.to].dedicated_to is None
            &&& v.pools[m.from].level() - v.pools[m.to].level() > v.watermark_diff_permille
            &&& v.shared(media).contains(other) ==> v.pools[m.to].level() <= v.pools[other].level()
                <= v.pools[m.from].level()
            &&& 0 < m.extents <= v.pools[m.from].used
        }),
{
    let set = v.shared(media);
    let lt = |a: PoolId, b: PoolId| v.lower(a, b);
    v.lemma_lower();
    assert(set.subset_of(v.pools.dom()));
    vstd::set_lib::lemma_len_subset(set, v.pools.dom());
    order::lemma_ranking_exists(set, lt);
    let ranked = v.by_level(media);
    order::lemma_ranking_len(ranked, set, lt);
    assert(ranked.contains(ranked[0]));
    assert(ranked.contains(ranked.last()));
    let low = ranked[0];
    let high = ranked.last();
    assert(set.contains(low));
    assert(set.contains(high));
    if set.contains(other) {
        assert(ranked.contains(other));
        let i = choose|i: int| 0 <= i < ranked.len() && ranked[i] == other;
        if i > 0 {
            assert(lt(low, ranked[i]));
        }
        if i < ranked.len() - 1 {
            assert(lt(ranked[i], ranked[ranked.len() - 1]));
        }
    }
    let (u, c) = (v.pools[high].used as int, v.pools[high].capacity as int);
    let h = v.pools[high].level() as int;
    let l = v.pools[low].level() as int;
    assert(0 <= u * 1000 / c <= 1000) by (nonlinear_arith)
        requires
            0 <= u <= c,
            c > 0,
    ;
    assert(h * c <= u * 1000) by (nonlinear_arith)
        requires
            h == u * 1000 / c,
            c > 0,
            u >= 0,
    ;
    let x = (h - (h + l) / 2) * c;
    assert(x <= u * 1000) by (nonlinear_arith)
        requires
            x == (h - (h + l) / 2) * c,
            h * c <= u * 1000,
            0 <= l <= h,
            c > 0,
    ;
}

/// Cold data always has somewhere to go, strictly further down; only what is
/// already in the object store outside has nowhere. A tier is skipped only if it
/// has no pool for the tenant.
pub proof fn law_sinking_descends(v: EngineView, from: MediaClass, tenant: TenantId)
    requires
        v.filed(),
    ensures
        v.sink_target(from, tenant) is None <==> from == MediaClass::ExternalS3,
        v.sink_target(from, tenant) matches Some((media, pool)) ==> {
            &&& types::depth(media) > types::depth(from)
            &&& pool is None <==> media == MediaClass::ExternalS3
            &&& pool matches Some(p) ==> v.pools.contains_key(p) && v.pools[p].media == media
            &&& forall|m: MediaClass|
                types::depth(from) < #[trigger] types::depth(m) < types::depth(media) ==> v.select_pool(
                    m,
                    tenant,
                    None,
                ) is Err
        },
    decreases 3 - types::depth(from),
{
    match types::colder_tier(from) {
        None => {},
        Some(media) => {
            law_selection(v, media, tenant, None, PoolId(0));
            if media != MediaClass::ExternalS3 {
                law_sinking_descends(v, media, tenant);
            }
        },
    }
}

/// A write goes where most is to spare. Free capacity and idleness, both in thousandths,
/// are added up, and of all pools that the write may go to (of its class, with room left,
/// the one that the tenant is bound to, or else shared or the tenant's own) the pool with
/// the greatest sum is taken, the first by number among equals. Only if there is no such
/// pool is the write refused.
pub proof fn law_most_headroom_wins(
    v: EngineView,
    media: MediaClass,
    tenant: TenantId,
    dedicated: Option<PoolId>,
    other: PoolId,
)
    requires
        v.filed(),
    ensures
        ({
            let usable = |id: PoolId| {
                &&& v.pools.contains_key(id)
                &&& v.pools[id].media == media
                &&& v.pools[id].used < v.pools[id].capacity
                &&& dedicated matches Some(d) ==> d == id
                &&& dedicated is None ==> (v.pools[id].dedicated_to matches Some(t) ==> t == tenant)
            };
            let spare = |id: PoolId|
                1000 - v.pools[id].used * 1000 / v.pools[id].capacity as int + v.pools[id].load_headroom_permille;
            match v.select_pool(media, tenant, dedicated) {
                Ok(p) => {
                    &&& usable(p)
                    &&& usable(other) ==> spare(p) >= spare(other)
                    &&& usable(other) && spare(p) == spare(other) ==> p.0 <= other.0
                },
                Err(e) => e == (ErrorView::NoSpace { media }) && !usable(other),
            }
        }),
{
    law_selection(v, media, tenant, dedicated, other);
    if v.open_to(other, media, tenant, dedicated) {
        lemma_level_with_room(v.pools[other]);
    }
    if let Ok(p) = v.select_pool(media, tenant, dedicated) {
        lemma_level_with_room(v.pools[p]);
    }
}

/// Between two pools that are equally full, in thousandths, the idler one is never passed
/// over for the other; between two that are equally idle, never the emptier one.
pub proof fn law_idler_pool_is_not_passed_over(
    v: EngineView,
    media: MediaClass,
    tenant: TenantId,
    dedicated: Option<PoolId>,
    busy: PoolId,
    idle: PoolId,
)
    requires
        v.filed(),
        v.pools.contains_key(idle),
        v.pools[idle].media == media,
        v.pools[idle].used < v.pools[idle].capacity,
        dedicated matches Some(d) ==> d == idle,
        dedicated is None ==> v.pools[idle].dedicated_to is None || v.pools[idle].dedicated_to == Some(tenant),
        ({
            let full = |id: PoolId| v.pools[id].used * 1000 / v.pools[id].capacity as int;
            let rest = |id: PoolId| v.pools[id].load_headroom_permille;
            ||| full(busy) >= full(idle) && rest(busy) < rest(idle)
            ||| full(busy) > full(idle) && rest(busy) <= rest(idle)
        }),
    ensures
        v.select_pool(media, tenant, dedicated) matches Ok(p) && p != busy,
{
    law_most_headroom_wins(v, media, tenant, dedicated, idle);
}

/// The level of a pool that is not beyond its capacity needs no cutting down to 32 bits.
proof fn lemma_level_with_room(p: PoolState)
    requires
        p.used <= p.capacity,
        p.capacity > 0,
    ensures
        p.level() == p.used * 1000 / p.capacity as int,
        0 <= p.level() <= 1000,
{
    let (u, c) = (p.used as int, p.capacity as int);
    assert(0 <= u * 1000 / c <= 1000) by (nonlinear_arith)
        requires
            0 <= u <= c,
            c > 0,
    ;
}

/// Booking adds up, as far as the capacity goes: what was in use and what came to it is
/// then in use, and nothing else about any pool changes. A pool that does not exist is
/// named in the refusal.
pub proof fn law_booking_adds_up(v: EngineView, pool: PoolId, extents: u64, other: PoolId)
    ensures
        ({
            let (w, r) = v.commit(pool, extents);
            let (p, q) = (v.pools[pool], w.pools[pool]);
            &&& w.watermark_diff_permille == v.watermark_diff_permille
            &&& w.pools.contains_key(other) <==> v.pools.contains_key(other)
            &&& other != pool ==> w.pools[other] == v.pools[other]
            &&& v.pools.contains_key(pool) ==> {
                &&& r is Ok
                &&& p.used + extents <= p.capacity ==> q.used == p.used + extents
                &&& p.used + extents > p.capacity ==> q.used == p.capacity
                &&& q.capacity == p.capacity && q.media == p.media && q.id == p.id
                &&& q.load_headroom_permille == p.load_headroom_permille && q.dedicated_to == p.dedicated_to
            }
            &&& !v.pools.contains_key(pool) ==> r == Err::<(), ErrorView>(
                ErrorView::Invalid("no pool "@ + text::decimal(pool.0 as nat)),
            )
        }),
{
}

/// What balancing does within a class, from its fullest shared pool and its emptiest one
/// (the last and the first by number among equals): if their levels, in thousandths kept
/// in 32 bits, are more than the threshold apart, then half of what would bring the fullest
/// down to the middle between the two should move, if that is anything; and otherwise
/// nothing.
pub proof fn law_balancing_moves_half_the_way(v: EngineView, media: MediaClass, high: PoolId, low: PoolId)
    requires
        v.filed(),
        v.can_plan(media),
        ({
            let shared = |id: PoolId| {
                &&& v.pools.contains_key(id)
                &&& v.pools[id].media == media
                &&& v.pools[id].dedicated_to is None
                &&& v.pools[id].capacity > 0
            };
            let level = |id: PoolId| (v.pools[id].used * 1000 / v.pools[id].capacity as int) % 0x1_0000_0000;
            &&& shared(high) && shared(low)
            &&& forall|id: PoolId|
                #![trigger v.pools.contains_key(id)]
                shared(id) ==> level(low) <= level(id) <= level(high) && (level(id) == level(low) ==> low.0 <= id.0)
                    && (level(id) == level(high) ==> id.0 <= high.0)
        }),
    ensures
        ({
            let h = (v.pools[high].used * 1000 / v.pools[high].capacity as int) % 0x1_0000_0000;
            let l = (v.pools[low].used * 1000 / v.pools[low].capacity as int) % 0x1_0000_0000;
            let way = (h - (h + l) / 2) * v.pools[high].capacity;
            match v.move_within(media) {
                Some(m) => {
                    &&& h - l > v.watermark_diff_permille
                    &&& m.from == high && m.to == low
                    &&& m.extents * 2000 <= way < (m.extents + 1) * 2000
                    &&& m.extents > 0
                },
                None => h - l <= v.watermark_diff_permille || way < 2000,
            }
        }),
{
    let set = v.shared(media);
    let lt = |a: PoolId, b: PoolId| v.lower(a, b);
    v.lemma_lower();
    assert(set.subset_of(v.pools.dom()));
    vstd::set_lib::lemma_len_subset(set, v.pools.dom());
    order::lemma_ranking_exists(set, lt);
    let ranked = v.by_level(media);
    order::lemma_ranking_len(ranked, set, lt);
    assert(set.contains(high) && set.contains(low));
    assert(ranked.contains(high) && ranked.contains(low));
    let first = ranked[0];
    let last = ranked.last();
    assert(ranked.contains(first) && ranked.contains(last));
    assert(set.contains(first) && set.contains(last));
    let i = choose|i: int| 0 <= i < ranked.len() && ranked[i] == high;
    let j = choose|j: int| 0 <= j < ranked.len() && ranked[j] == low;
    if i < ranked.len() - 1 {
        assert(lt(ranked[i], ranked[ranked.len() - 1]));
    }
    if j > 0 {
        assert(lt(ranked[0], ranked[j]));
    }
    assert(first == low && last == high);
    let h = v.pools[high].level() as int;
    let l = v.pools[low].level() as int;
    let c = v.pools[high].capacity as int;
    let way = (h - (h + l) / 2) * c;
    if set.len() < 2 {
        assert(high == low);
    }
    assert(0 <= way) by (nonlinear_arith)
        requires
            way == (h - (h + l) / 2) * c,
            l <= h,
            c >= 0,
    ;
}

/// What should move in all is what should move within each class, the fast classes
/// first; nothing moves between classes, and nothing in or out of the object store
/// outside.
pub proof fn law_plan_has_one_move_for_each_class(v: EngineView, m: RebalanceMove)
    ensures
        v.plan_rebalance().contains(m) <==> exists|media: MediaClass|
            media != MediaClass::ExternalS3 && #[trigger] v.move_within(media) == Some(m),
        v.plan_rebalance().len() == (if v.move_within(MediaClass::TlcNvme) is Some { 1int } else { 0 }) + (if v.move_within(
            MediaClass::QlcNvme,
        ) is Some { 1int } else { 0 }) + (if v.move_within(MediaClass::Hdd) is Some { 1int } else { 0 }),
        v.move_within(MediaClass::TlcNvme) matches Some(first) ==> v.plan_rebalance()[0] == first,
        v.move_within(MediaClass::Hdd) matches Some(end) ==> v.plan_rebalance().last() == end,
{
    let a = listed(v.move_within(MediaClass::TlcNvme));
    let b = listed(v.move_within(MediaClass::QlcNvme));
    let c = listed(v.move_within(MediaClass::Hdd));
    let plan = v.plan_rebalance();
    assert(plan == a + b + c);
    if plan.contains(m) {
        let i = choose|i: int| 0 <= i < plan.len() && plan[i] == m;
        if i < a.len() {
            assert(v.move_within(MediaClass::TlcNvme) == Some(m));
        } else if i < a.len() + b.len() {
            assert(v.move_within(MediaClass::QlcNvme) == Some(m));
        } else {
            assert(v.move_within(MediaClass::Hdd) == Some(m));
        }
    }
    if exists|media: MediaClass| media != MediaClass::ExternalS3 && #[trigger] v.move_within(media) == Some(m) {
        let media = choose|media: MediaClass|
            media != MediaClass::ExternalS3 && #[trigger] v.move_within(media) == Some(m);
        match media {
            MediaClass::TlcNvme => {
                assert(plan[0] == m);
            },
            MediaClass::QlcNvme => {
                assert(plan[a.len() as int] == m);
            },
            _ => {
                assert(plan[(a.len() + b.len()) as int] == m);
            },
        }
    }
}

/// Cold data sinks to the first class further down that has a pool for the tenant, and
/// there to the pool that a write of the tenant would go to; past the last class it goes
/// to the object store outside.
pub proof fn law_cold_data_sinks_one_class_at_a_time(v: EngineView, tenant: TenantId)
    ensures
        v.sink_target(MediaClass::ExternalS3, tenant) is None,
        v.sink_target(MediaClass::Hdd, tenant) == Some((MediaClass::ExternalS3, None::<PoolId>)),
        match v.select_pool(MediaClass::Hdd, tenant, None) {
            Ok(p) => v.sink_target(MediaClass::QlcNvme, tenant) == Some((MediaClass::Hdd, Some(p))),
            Err(_) => v.sink_target(MediaClass::QlcNvme, tenant) == v.sink_target(MediaClass::Hdd, tenant),
        },
        match v.select_pool(MediaClass::QlcNvme, tenant, None) {
            Ok(p) => v.sink_target(MediaClass::TlcNvme, tenant) == Some((MediaClass::QlcNvme, Some(p))),
            Err(_) => v.sink_target(MediaClass::TlcNvme, tenant) == v.sink_target(MediaClass::QlcNvme, tenant),
        },
{
    reveal_with_fuel(EngineView::sink_target, 2);
}

} // verus!
