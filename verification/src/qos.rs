//! Rate limits in three dimensions (metadata operations, data operations, data
//! bandwidth): token buckets, split over shards and rebalanced from time to time,
//! with a lower priority for background work.

use vstd::prelude::*;

use crate::types;
use crate::types::{Error, ErrorView};

verus! {

/// What is limited.
#[derive(Debug, Clone, Copy, PartialEq, Eq, Structural)]
pub enum Dimension {
    MetadataIops,
    DataIops,
    DataBw,
}

/// The name of a dimension as errors give it.
pub open spec fn dimension_name(d: Dimension) -> Seq<char> {
    match d {
        Dimension::MetadataIops => "metadata_iops"@,
        Dimension::DataIops => "data_iops"@,
        Dimension::DataBw => "data_bw"@,
    }
}

impl Dimension {
    fn name(self) -> (s: &'static str)
        ensures
            s@ == dimension_name(self),
    {
        match self {
            Dimension::MetadataIops => "metadata_iops",
            Dimension::DataIops => "data_iops",
            Dimension::DataBw => "data_bw",
        }
    }
}

/// Background work (tiering, rebalancing, collection) always gives way.
#[derive(Debug, Clone, Copy, PartialEq, Eq, Structural)]
pub enum Priority {
    Foreground,
    Background,
}

/// A token bucket.
pub struct TokensView {
    /// Tokens added per tick.
    pub rate: u64,
    pub capacity: u64,
    pub tokens: u64,
    /// What background requests must leave.
    pub floor: u64,
}

impl TokensView {
    /// A full bucket that holds `burst_multiple` ticks' worth of tokens, half of
    /// which are out of bounds for background requests.
    pub open spec fn full(rate: u64, burst_multiple: u64) -> TokensView {
        let burst = if burst_multiple == 0 { 1 } else { burst_multiple as int };
        let capacity = if rate * burst > u64::MAX { u64::MAX } else { (rate * burst) as u64 };
        TokensView { rate, capacity, tokens: capacity, floor: capacity / 2 }
    }

    pub open spec fn tick(self) -> TokensView {
        TokensView {
            tokens: if self.tokens + self.rate <= self.capacity {
                (self.tokens + self.rate) as u64
            } else {
                self.capacity
            },
            ..self
        }
    }

    /// What a request must leave.
    pub open spec fn reserve(self, prio: Priority) -> u64 {
        match prio {
            Priority::Foreground => 0,
            Priority::Background => self.floor,
        }
    }

    /// Whether a request is granted.
    pub open spec fn grants(self, amount: u64, prio: Priority) -> bool {
        self.tokens >= self.reserve(prio) + amount
    }

    pub open spec fn try_acquire(self, amount: u64, prio: Priority) -> (TokensView, bool) {
        if self.grants(amount, prio) {
            (TokensView { tokens: (self.tokens - amount) as u64, ..self }, true)
        } else {
            (self, false)
        }
    }

    /// No more tokens than the bucket holds, and half of it kept back.
    pub open spec fn sound(self) -> bool {
        &&& self.tokens <= self.capacity
        &&& self.floor == self.capacity / 2
    }
}

/// A token bucket. Time passes by calls of `tick`.
#[derive(Debug, Clone)]
pub struct TokenBucket {
    rate_per_tick: u64,
    capacity: u64,
    tokens: u64,
    background_floor: u64,
}

impl View for TokenBucket {
    type V = TokensView;

    closed spec fn view(&self) -> TokensView {
        TokensView {
            rate: self.rate_per_tick,
            capacity: self.capacity,
            tokens: self.tokens,
            floor: self.background_floor,
        }
    }
}

impl TokenBucket {
    pub open spec fn wf(&self) -> bool {
        self@.sound()
    }

    pub fn new(rate_per_tick: u64, burst_multiple: u64) -> (r: Self)
        ensures
            r.wf(),
            r@ == TokensView::full(rate_per_tick, burst_multiple),
    {
        let burst: u64 = if burst_multiple == 0 {
            1
        } else {
            burst_multiple
        };
        let capacity: u64 = match rate_per_tick.checked_mul(burst) {
            Some(c) => c,
            None => u64::MAX,
        };
        TokenBucket { rate_per_tick, capacity, tokens: capacity, background_floor: capacity / 2 }
    }

    /// One tick passes: tokens are added, up to the capacity.
    pub fn tick(&mut self)
        requires
            old(self).wf(),
            old(self)@.tokens + old(self)@.rate <= u64::MAX,
        ensures
            final(self).wf(),
            final(self)@ == old(self)@.tick(),
    {
        let sum: u64 = self.tokens + self.rate_per_tick;
        self.tokens = if sum <= self.capacity {
            sum
        } else {
            self.capacity
        };
    }

    pub fn try_acquire(&mut self, amount: u64, prio: Priority) -> (r: bool)
        requires
            old(self).wf(),
            old(self)@.reserve(prio) + amount <= u64::MAX,
        ensures
            final(self).wf(),
            (final(self)@, r) == old(self)@.try_acquire(amount, prio),
    {
        let floor: u64 = match prio {
            Priority::Foreground => 0,
            Priority::Background => self.background_floor,
        };
        if self.tokens >= floor + amount {
            self.tokens = self.tokens - amount;
            true
        } else {
            false
        }
    }

    pub fn available(&self) -> (n: u64)
        ensures
            n == self@.tokens,
    {
        self.tokens
    }

    /// Tests whether the addition of a tick fits in 64 bits.
    fn tick_fits(&self) -> (b: bool)
        ensures
            b == (self@.tokens + self@.rate <= u64::MAX),
    {
        self.tokens <= u64::MAX - self.rate_per_tick
    }
}

/// Limits in all three dimensions.
#[derive(Debug, Clone, Copy)]
pub struct QosSpec {
    pub metadata_iops: u64,
    pub data_iops: u64,
    pub data_bw_bytes: u64,
    pub burst_multiple: u64,
}

impl QosSpec {
    /// The limit in one dimension.
    pub open spec fn limit(self, dim: Dimension) -> u64 {
        match dim {
            Dimension::MetadataIops => self.metadata_iops,
            Dimension::DataIops => self.data_iops,
            Dimension::DataBw => self.data_bw_bytes,
        }
    }
}

/// The three buckets of a tenant, bucket or volume.
pub struct QosView {
    pub meta: TokensView,
    pub data_iops: TokensView,
    pub data_bw: TokensView,
}

impl QosView {
    pub open spec fn full(spec: QosSpec) -> QosView {
        QosView {
            meta: TokensView::full(spec.metadata_iops, spec.burst_multiple),
            data_iops: TokensView::full(spec.data_iops, spec.burst_multiple),
            data_bw: TokensView::full(spec.data_bw_bytes, spec.burst_multiple),
        }
    }

    pub open spec fn bucket(self, dim: Dimension) -> TokensView {
        match dim {
            Dimension::MetadataIops => self.meta,
            Dimension::DataIops => self.data_iops,
            Dimension::DataBw => self.data_bw,
        }
    }

    pub open spec fn with_bucket(self, dim: Dimension, b: TokensView) -> QosView {
        match dim {
            Dimension::MetadataIops => QosView { meta: b, ..self },
            Dimension::DataIops => QosView { data_iops: b, ..self },
            Dimension::DataBw => QosView { data_bw: b, ..self },
        }
    }

    pub open spec fn tick(self) -> QosView {
        QosView { meta: self.meta.tick(), data_iops: self.data_iops.tick(), data_bw: self.data_bw.tick() }
    }

    /// Whether the additions of a tick fit in 64 bits.
    pub open spec fn can_tick(self) -> bool {
        &&& self.meta.tokens + self.meta.rate <= u64::MAX
        &&& self.data_iops.tokens + self.data_iops.rate <= u64::MAX
        &&& self.data_bw.tokens + self.data_bw.rate <= u64::MAX
    }

    pub open spec fn acquire(self, dim: Dimension, amount: u64, prio: Priority) -> (QosView, Result<(), ErrorView>) {
        let (b, granted) = self.bucket(dim).try_acquire(amount, prio);
        (
            self.with_bucket(dim, b),
            if granted {
                Ok(())
            } else {
                Err(ErrorView::Throttled { dimension: dimension_name(dim) })
            },
        )
    }

    pub open spec fn sound(self) -> bool {
        self.meta.sound() && self.data_iops.sound() && self.data_bw.sound()
    }
}

/// The three buckets of a tenant, bucket or volume.
#[derive(Debug, Clone)]
pub struct QosEntity {
    meta: TokenBucket,
    data_iops: TokenBucket,
    data_bw: TokenBucket,
}

impl View for QosEntity {
    type V = QosView;

    closed spec fn view(&self) -> QosView {
        QosView { meta: self.meta@, data_iops: self.data_iops@, data_bw: self.data_bw@ }
    }
}

impl QosEntity {
    pub open spec fn wf(&self) -> bool {
        self@.sound()
    }

    pub fn new(spec: QosSpec) -> (r: Self)
        ensures
            r.wf(),
            r@ == QosView::full(spec),
    {
        QosEntity {
            meta: TokenBucket::new(spec.metadata_iops, spec.burst_multiple),
            data_iops: TokenBucket::new(spec.data_iops, spec.burst_multiple),
            data_bw: TokenBucket::new(spec.data_bw_bytes, spec.burst_multiple),
        }
    }

    pub fn tick(&mut self)
        requires
            old(self).wf(),
            old(self)@.can_tick(),
        ensures
            final(self).wf(),
            final(self)@ == old(self)@.tick(),
    {
        self.meta.tick();
        self.data_iops.tick();
        self.data_bw.tick();
    }

    /// Asks for tokens: granted at once or turned away, never queued.
    pub fn acquire(&mut self, dim: Dimension, amount: u64, prio: Priority) -> (r: Result<(), Error>)
        requires
            old(self).wf(),
            old(self)@.bucket(dim).reserve(prio) + amount <= u64::MAX,
        ensures
            final(self).wf(),
            (final(self)@, types::outcome(r)) == old(self)@.acquire(dim, amount, prio),
    {
        let granted = match dim {
            Dimension::MetadataIops => self.meta.try_acquire(amount, prio),
            Dimension::DataIops => self.data_iops.try_acquire(amount, prio),
            Dimension::DataBw => self.data_bw.try_acquire(amount, prio),
        };
        if granted {
            Ok(())
        } else {
            Err(Error::Throttled { dimension: dim.name() })
        }
    }

    /// Tests whether the additions of a tick fit in 64 bits.
    pub fn tick_fits(&self) -> (b: bool)
        ensures
            b == self@.can_tick(),
    {
        self.meta.tick_fits() && self.data_iops.tick_fits() && self.data_bw.tick_fits()
    }

    /// The tokens left in a dimension.
    pub fn available(&self, dim: Dimension) -> (n: u64)
        ensures
            n == self@.bucket(dim).tokens,
    {
        match dim {
            Dimension::MetadataIops => self.meta.available(),
            Dimension::DataIops => self.data_iops.available(),
            Dimension::DataBw => self.data_bw.available(),
        }
    }
}

/// Limits split over shards.
pub struct ShardedView {
    pub shards: Seq<QosView>,
    pub spec: QosSpec,
    /// What each shard has used since the last rebalancing.
    pub usage: Seq<u64>,
}

/// The larger of a number and one.
pub open spec fn at_least_one(n: u64) -> u64 {
    if n == 0 { 1 } else { n }
}

/// The sum of the first `n` numbers.
pub open spec fn total(usage: Seq<u64>, n: nat) -> nat
    decreases n,
{
    if n == 0 {
        0
    } else {
        total(usage, (n - 1) as nat) + usage[n - 1] as nat
    }
}

/// Whether a shard's part of the use is less than half of an even part.
pub open spec fn starves(used: u64, all: nat, shards: nat) -> bool {
    used * (2 * shards) < all
}

/// What a shard gets of `v` when limits are split anew: an even share if there was no
/// use at all, and otherwise a share in proportion to its use. Half of an even share is
/// what every shard must have; if proportion alone would leave `some` with less, each
/// gets that much first, and proportion decides about the rest. In any case a shard
/// gets at least one.
pub open spec fn portion(v: u64, used: u64, all: nat, shards: nat, some: bool) -> u64 {
    at_least_one(
        if all == 0 {
            (v as nat / shards) as u64
        } else if !some {
            (v * used / all as int) as u64
        } else {
            let least = v as nat / (2 * shards);
            (least + (v - shards * least) * used / all as int) as u64
        },
    )
}

impl ShardedView {
    pub open spec fn split(spec: QosSpec, shard_count: nat) -> ShardedView {
        let n = if shard_count == 0 { 1 } else { shard_count };
        let each = QosSpec {
            metadata_iops: at_least_one((spec.metadata_iops as nat / n) as u64),
            data_iops: at_least_one((spec.data_iops as nat / n) as u64),
            data_bw_bytes: at_least_one((spec.data_bw_bytes as nat / n) as u64),
            burst_multiple: spec.burst_multiple,
        };
        ShardedView {
            shards: Seq::new(n, |i: int| QosView::full(each)),
            spec,
            usage: Seq::new(n, |i: int| 0u64),
        }
    }

    /// The shard that a request goes to.
    pub open spec fn place(self, shard: nat) -> int {
        (shard % self.shards.len()) as int
    }

    pub open spec fn acquire(self, shard: nat, dim: Dimension, amount: u64, prio: Priority) -> (
        ShardedView,
        Result<(), ErrorView>,
    ) {
        let i = self.place(shard);
        let (s, r) = self.shards[i].acquire(dim, amount, prio);
        let used = if self.usage[i] + amount > u64::MAX {
            u64::MAX
        } else {
            (self.usage[i] + amount) as u64
        };
        (
            ShardedView {
                shards: self.shards.update(i, s),
                usage: if r is Ok { self.usage.update(i, used) } else { self.usage },
                ..self
            },
            r,
        )
    }

    pub open spec fn tick(self) -> ShardedView {
        ShardedView { shards: self.shards.map_values(|s: QosView| s.tick()), ..self }
    }

    /// Whether there is a shard that would get too little by its use alone.
    pub open spec fn some_starve(self) -> bool {
        exists|i: int|
            0 <= i < self.usage.len() && starves(
                #[trigger] self.usage[i],
                total(self.usage, self.usage.len()),
                self.shards.len(),
            )
    }

    /// The new limits of a shard.
    pub open spec fn portions(self, i: int) -> QosSpec {
        let all = total(self.usage, self.usage.len());
        let n = self.shards.len();
        let some = self.some_starve();
        QosSpec {
            metadata_iops: portion(self.spec.metadata_iops, self.usage[i], all, n, some),
            data_iops: portion(self.spec.data_iops, self.usage[i], all, n, some),
            data_bw_bytes: portion(self.spec.data_bw_bytes, self.usage[i], all, n, some),
            burst_multiple: self.spec.burst_multiple,
        }
    }

    pub open spec fn rebalance(self) -> ShardedView {
        ShardedView {
            shards: Seq::new(self.shards.len(), |i: int| QosView::full(self.portions(i))),
            usage: Seq::new(self.usage.len(), |i: int| 0u64),
            ..self
        }
    }

    pub open spec fn sound(self) -> bool {
        &&& self.shards.len() > 0
        &&& self.shards.len() == self.usage.len()
        &&& forall|i: int| 0 <= i < self.shards.len() ==> (#[trigger] self.shards[i]).sound()
    }
}

/// Limits split over shards, one for each place that enforces them (a frontend
/// node or a metadata bucket), and rebalanced by use.
#[derive(Debug)]
pub struct ShardedQos {
    shards: Vec<QosEntity>,
    spec: QosSpec,
    usage: Vec<u64>,
}

impl View for ShardedQos {
    type V = ShardedView;

    closed spec fn view(&self) -> ShardedView {
        ShardedView {
            shards: self.shards@.map_values(|s: QosEntity| s@),
            spec: self.spec,
            usage: self.usage@,
        }
    }
}

impl ShardedQos {
    pub open spec fn wf(&self) -> bool {
        self@.sound()
    }

    pub fn new(spec: QosSpec, shard_count: usize) -> (r: Self)
        ensures
            r.wf(),
            r@ == ShardedView::split(spec, shard_count as nat),
    {
        let count: usize = if shard_count == 0 {
            1
        } else {
            shard_count
        };
        let n: u64 = count as u64;
        let ghost (a, b, c) = (spec.metadata_iops as int, spec.data_iops as int, spec.data_bw_bytes as int);
        let ghost d = n as int;
        assert(a / d <= a && b / d <= b && c / d <= c) by (nonlinear_arith)
            requires
                d > 0,
                a >= 0,
                b >= 0,
                c >= 0,
        ;
        let per_shard = QosSpec {
            metadata_iops: larger(spec.metadata_iops / n, 1),
            data_iops: larger(spec.data_iops / n, 1),
            data_bw_bytes: larger(spec.data_bw_bytes / n, 1),
            burst_multiple: spec.burst_multiple,
        };
        let mut shards: Vec<QosEntity> = Vec::new();
        let mut usage: Vec<u64> = Vec::new();
        let mut i: usize = 0;
        while i < count
            invariant
                i <= count,
                shards@.len() == i,
                usage@.len() == i,
                forall|k: int| 0 <= k < i ==> (#[trigger] shards@[k])@ == QosView::full(per_shard),
                forall|k: int| 0 <= k < i ==> (#[trigger] shards@[k])@.sound(),
                forall|k: int| 0 <= k < i ==> #[trigger] usage@[k] == 0,
            decreases count - i,
        {
            shards.push(QosEntity::new(per_shard));
            usage.push(0);
            i += 1;
        }
        let r = ShardedQos { shards, spec, usage };
        proof {
            let want = ShardedView::split(spec, shard_count as nat);
            assert(r@.shards =~= want.shards);
            assert(r@.usage =~= want.usage);
        }
        r
    }

    pub fn shard_count(&self) -> (n: usize)
        ensures
            n == self@.shards.len(),
    {
        self.shards.len()
    }

    /// One of the shards.
    pub fn shard(&self, i: usize) -> (s: &QosEntity)
        requires
            i < self@.shards.len(),
        ensures
            s@ == self@.shards[i as int],
    {
        &self.shards[i]
    }

    /// Asks a shard for tokens.
    pub fn acquire(&mut self, shard: usize, dim: Dimension, amount: u64, prio: Priority) -> (r: Result<(), Error>)
        requires
            old(self).wf(),
            old(self)@.shards[old(self)@.place(shard as nat)].bucket(dim).reserve(prio) + amount <= u64::MAX,
        ensures
            final(self).wf(),
            (final(self)@, types::outcome(r)) == old(self)@.acquire(shard as nat, dim, amount, prio),
    {
        let idx: usize = shard % self.shards.len();
        let ghost before = self@;
        assert(self@.shards[idx as int].sound());
        let r = self.shards[idx].acquire(dim, amount, prio);
        assert(self@.shards =~= before.acquire(shard as nat, dim, amount, prio).0.shards);
        if r.is_ok() {
            let used: u64 = self.usage[idx].saturating_add(amount);
            self.usage.set(idx, used);
        }
        assert forall|i: int| 0 <= i < self@.shards.len() implies (#[trigger] self@.shards[i]).sound() by {
            if i != idx {
                assert(self@.shards[i] == before.shards[i]);
            }
        }
        r
    }

    pub fn tick(&mut self)
        requires
            old(self).wf(),
            forall|i: int| 0 <= i < old(self)@.shards.len() ==> (#[trigger] old(self)@.shards[i]).can_tick(),
        ensures
            final(self).wf(),
            final(self)@ == old(self)@.tick(),
    {
        let ghost start = self@;
        let mut i: usize = 0;
        while i < self.shards.len()
            invariant
                i <= self.shards@.len(),
                self@.shards.len() == start.shards.len(),
                self@.usage == start.usage,
                self@.spec == start.spec,
                start.sound(),
                forall|k: int| 0 <= k < start.shards.len() ==> (#[trigger] start.shards[k]).can_tick(),
                forall|k: int|
                    0 <= k < i ==> #[trigger] self@.shards[k] == start.shards[k].tick() && self@.shards[k].sound(),
                forall|k: int| i <= k < start.shards.len() ==> #[trigger] self@.shards[k] == start.shards[k],
            decreases self.shards@.len() - i,
        {
            let ghost before = self@;
            assert(self@.shards[i as int] == start.shards[i as int]);
            assert(start.shards[i as int].can_tick() && start.shards[i as int].sound());
            self.shards[i].tick();
            assert(self@.shards =~= before.shards.update(i as int, start.shards[i as int].tick()));
            i += 1;
        }
        assert(self@.shards =~= start.tick().shards);
    }

    /// Splits the limits anew, by what each shard has used: busy shards get more.
    pub fn rebalance(&mut self)
        requires
            old(self).wf(),
            total(old(self)@.usage, old(self)@.usage.len()) <= u64::MAX,
        ensures
            final(self).wf(),
            final(self)@ == old(self)@.rebalance(),
    {
        let ghost start = self@;
        let all: u64 = self.total_usage();
        let n: usize = self.shards.len();
        let some: bool = self.any_starves(all);
        let mut shards: Vec<QosEntity> = Vec::new();
        let mut usage: Vec<u64> = Vec::new();
        let mut i: usize = 0;
        while i < n
            invariant
                i <= n,
                n == start.shards.len(),
                n > 0,
                self@ == start,
                self.wf(),
                all == total(start.usage, start.usage.len()),
                some == start.some_starve(),
                shards@.len() == i,
                usage@.len() == i,
                forall|k: int| 0 <= k < i ==> (#[trigger] shards@[k])@ == QosView::full(start.portions(k)),
                forall|k: int| 0 <= k < i ==> (#[trigger] shards@[k])@.sound(),
                forall|k: int| 0 <= k < i ==> #[trigger] usage@[k] == 0,
            decreases n - i,
        {
            let used: u64 = self.usage[i];
            proof {
                lemma_part_of_total(start.usage, i as int, start.usage.len());
            }
            let spec = QosSpec {
                metadata_iops: portion_of(self.spec.metadata_iops, used, all, n, some),
                data_iops: portion_of(self.spec.data_iops, used, all, n, some),
                data_bw_bytes: portion_of(self.spec.data_bw_bytes, used, all, n, some),
                burst_multiple: self.spec.burst_multiple,
            };
            shards.push(QosEntity::new(spec));
            usage.push(0);
            i += 1;
        }
        self.shards = shards;
        self.usage = usage;
        proof {
            let want = start.rebalance();
            assert(self@.shards =~= want.shards);
            assert(self@.usage =~= want.usage);
        }
    }

    /// Tests whether there is a shard that would get too little by its use alone.
    fn any_starves(&self, all: u64) -> (b: bool)
        requires
            self.wf(),
            all == total(self@.usage, self@.usage.len()),
        ensures
            b == self@.some_starve(),
    {
        let n: u128 = self.shards.len() as u128;
        let mut i: usize = 0;
        while i < self.usage.len()
            invariant
                self.wf(),
                i <= self.usage@.len(),
                self@.usage == self.usage@,
                n == self@.shards.len(),
                0 < n <= usize::MAX,
                all == total(self@.usage, self@.usage.len()),
                forall|k: int|
                    0 <= k < i ==> !starves(#[trigger] self@.usage[k], all as nat, self@.shards.len()),
            decreases self.usage@.len() - i,
        {
            let used: u64 = self.usage[i];
            // What a shard must have used for its part to be no less than half of an even
            // one.
            let due: u128 = (all as u128 + (2 * n - 1)) / (2 * n);
            proof {
                let (a, d, u, q) = (all as int, 2 * n as int, used as int, due as int);
                assert(u < q <==> u * d < a) by (nonlinear_arith)
                    requires
                        d > 0,
                        a >= 0,
                        q == (a + (d - 1)) / d,
                ;
            }
            if (used as u128) < due {
                assert(starves(self@.usage[i as int], all as nat, self@.shards.len()));
                return true;
            }
            i += 1;
        }
        false
    }

    fn total_usage(&self) -> (n: u64)
        requires
            total(self@.usage, self@.usage.len()) <= u64::MAX,
        ensures
            n == total(self@.usage, self@.usage.len()),
    {
        let mut sum: u64 = 0;
        let mut i: usize = 0;
        while i < self.usage.len()
            invariant
                i <= self.usage@.len(),
                self@.usage == self.usage@,
                total(self@.usage, self@.usage.len()) <= u64::MAX,
                sum == total(self@.usage, i as nat),
            decreases self.usage@.len() - i,
        {
            proof {
                lemma_total_mono(self@.usage, (i + 1) as nat, self@.usage.len());
            }
            sum = sum + self.usage[i];
            i += 1;
        }
        sum
    }
}

fn larger(a: u64, b: u64) -> (r: u64)
    ensures
        r == (if a >= b { a } else { b }),
{
    if a >= b {
        a
    } else {
        b
    }
}

/// A part of a number is no more than the number, and the whole of it is all of it.
proof fn lemma_share(v: int, used: int, all: int)
    requires
        0 <= used <= all,
        all > 0,
        v >= 0,
    ensures
        0 <= v * used / all <= v,
        used == all ==> v * used / all == v,
{
    assert(0 <= v * used / all <= v) by (nonlinear_arith)
        requires
            0 <= used <= all,
            all > 0,
            v >= 0,
    ;
    if used == all {
        assert(v * used / all == v) by (nonlinear_arith)
            requires
                used == all,
                all > 0,
        ;
    }
}

/// The parts that make up a portion: half of an even share of `v`, and a part of
/// the rest, which together are no more than `v`.
proof fn lemma_portion(v: u64, used: u64, all: nat, shards: nat)
    requires
        used <= all,
        all > 0,
        shards > 0,
    ensures
        ({
            let least = v as nat / (2 * shards);
            let rest = v - shards * least;
            &&& 0 <= least <= v
            &&& shards * least <= v
            &&& 2 * (shards * least) <= v
            &&& 0 <= rest * used / all as int <= rest
            &&& least + rest * used / all as int <= v
            &&& used == all ==> rest * used / all as int == rest
        }),
{
    let least = v as nat / (2 * shards);
    let rest = v - shards * least;
    assert(2 * (shards * least) <= v && least <= shards * least) by (nonlinear_arith)
        requires
            shards > 0,
            least == v as nat / (2 * shards),
    ;
    lemma_share(rest, used as int, all as int);
}

/// What a shard gets of `v`.
fn portion_of(v: u64, used: u64, all: u64, shards: usize, some: bool) -> (r: u64)
    requires
        used <= all,
        shards > 0,
    ensures
        r == portion(v, used, all as nat, shards as nat, some),
{
    if all == 0 {
        proof {
            let (a, d) = (v as int, shards as int);
            assert(a / d <= a) by (nonlinear_arith)
                requires
                    d > 0,
                    a >= 0,
            ;
        }
        return larger(v / shards as u64, 1);
    }
    if !some {
        proof {
            lemma_share(v as int, used as int, all as int);
            assert(v * used <= u64::MAX * u64::MAX) by (nonlinear_arith)
                requires
                    v <= u64::MAX,
                    used <= u64::MAX,
            ;
        }
        return larger((v as u128 * used as u128 / all as u128) as u64, 1);
    }
    let n: u128 = shards as u128;
    let least: u128 = v as u128 / (2 * n);
    proof {
        lemma_portion(v, used, all as nat, shards as nat);
    }
    assert(n * least == shards * (v as nat / (2 * shards as nat)));
    let rest: u128 = v as u128 - n * least;
    assert(rest * used <= u64::MAX * u64::MAX) by (nonlinear_arith)
        requires
            rest <= u64::MAX,
            used <= u64::MAX,
    ;
    larger((least + rest * used as u128 / all as u128) as u64, 1)
}

proof fn lemma_total_mono(usage: Seq<u64>, m: nat, n: nat)
    requires
        m <= n,
    ensures
        total(usage, m) <= total(usage, n),
    decreases n,
{
    if m < n {
        lemma_total_mono(usage, m, (n - 1) as nat);
    }
}

/// One shard's use is part of the total.
proof fn lemma_part_of_total(usage: Seq<u64>, i: int, n: nat)
    requires
        0 <= i < n,
    ensures
        usage[i] <= total(usage, n),
{
    lemma_total_mono(usage, (i + 1) as nat, n);
}

/// Background work leaves room: whatever it is granted, half of the bucket is
/// still there afterwards for the foreground.
pub proof fn law_background_leaves_half(b: TokensView, amount: u64, wanted: u64)
    requires
        b.sound(),
    ensures
        b.grants(amount, Priority::Background) ==> {
            let after = b.try_acquire(amount, Priority::Background).0;
            &&& after.tokens >= b.capacity / 2
            &&& wanted <= b.capacity / 2 ==> after.grants(wanted, Priority::Foreground)
        },
        b.grants(amount, Priority::Background) ==> b.grants(amount, Priority::Foreground),
{
}

/// A request is granted in full or refused without any change; tokens never
/// exceed the capacity.
pub proof fn law_tokens(b: TokensView, amount: u64, prio: Priority)
    requires
        b.sound(),
    ensures
        ({
            let (after, granted) = b.try_acquire(amount, prio);
            &&& after.sound()
            &&& granted ==> after.tokens == b.tokens - amount
            &&& !granted ==> after == b
            &&& b.tick().sound()
            &&& b.tick().tokens >= b.tokens
        }),
{
}

/// What happens to a bucket: time passes, or tokens are asked for.
pub enum TokenEvent {
    Tick,
    Ask(u64, Priority),
}

impl TokensView {
    /// The bucket after a series of events.
    pub open spec fn after(self, events: Seq<TokenEvent>) -> TokensView
        decreases events.len(),
    {
        if events.len() == 0 {
            self
        } else {
            let b = self.after(events.drop_last());
            match events.last() {
                TokenEvent::Tick => b.tick(),
                TokenEvent::Ask(amount, prio) => b.try_acquire(amount, prio).0,
            }
        }
    }

    /// The tokens granted in a series of events.
    pub open spec fn granted(self, events: Seq<TokenEvent>) -> nat
        decreases events.len(),
    {
        if events.len() == 0 {
            0
        } else {
            let earlier = events.drop_last();
            self.granted(earlier) + (match events.last() {
                TokenEvent::Tick => 0nat,
                TokenEvent::Ask(amount, prio) => if self.after(earlier).grants(amount, prio) {
                    amount as nat
                } else {
                    0nat
                },
            })
        }
    }
}

/// How many ticks pass in a series of events.
pub open spec fn ticks(events: Seq<TokenEvent>) -> nat
    decreases events.len(),
{
    if events.len() == 0 {
        0
    } else {
        ticks(events.drop_last()) + (if events.last() is Tick { 1nat } else { 0nat })
    }
}

/// The rate is limited: whatever is asked for, and when, no more is granted than a full
/// bucket and what came in since.
pub proof fn law_rate_is_limited(b: TokensView, events: Seq<TokenEvent>)
    requires
        b.sound(),
    ensures
        b.granted(events) + b.after(events).tokens <= b.tokens + ticks(events) * b.rate,
        b.granted(events) <= b.capacity + ticks(events) * b.rate,
        b.after(events).sound(),
        b.after(events).rate == b.rate,
        b.after(events).capacity == b.capacity,
    decreases events.len(),
{
    if events.len() > 0 {
        let earlier = events.drop_last();
        law_rate_is_limited(b, earlier);
        let n = ticks(earlier);
        assert((n + 1) * b.rate == n * b.rate + b.rate) by (nonlinear_arith);
    }
}

/// The dimensions are independent: a request in one leaves the others alone.
pub proof fn law_dimensions_are_independent(
    e: QosView,
    dim: Dimension,
    amount: u64,
    prio: Priority,
    other: Dimension,
)
    requires
        other != dim,
    ensures
        e.acquire(dim, amount, prio).0.bucket(other) == e.bucket(other),
{
}

/// The limits in one dimension of the first `n` shards, added up.
pub open spec fn total_rate(shards: Seq<QosView>, dim: Dimension, n: nat) -> nat
    decreases n,
{
    if n == 0 {
        0
    } else {
        total_rate(shards, dim, (n - 1) as nat) + shards[n - 1].bucket(dim).rate as nat
    }
}

/// What every shard gets before proportion decides.
spec fn given_first(q: ShardedView, dim: Dimension) -> nat {
    if q.some_starve() { q.spec.limit(dim) as nat / (2 * q.shards.len()) } else { 0 }
}

/// What a shard gets is what all get first and a share of the rest, or one.
proof fn lemma_portion_parts(q: ShardedView, dim: Dimension, i: int)
    requires
        q.sound(),
        total(q.usage, q.usage.len()) > 0,
        0 <= i < q.shards.len(),
    ensures
        ({
            let v = q.spec.limit(dim);
            let n = q.shards.len();
            let all = total(q.usage, q.usage.len()) as int;
            let first = given_first(q, dim);
            let rest = v - n * first;
            let part = rest * q.usage[i] / all;
            let rate = q.rebalance().shards[i].bucket(dim).rate;
            &&& rest >= 0
            &&& 2 * (n * first) <= v
            &&& 0 <= part <= rest
            &&& first + part <= v
            &&& rate == at_least_one((first + part) as u64)
            &&& first + part >= v as nat / (2 * n)
            &&& v >= 2 * n ==> first + part >= 1
            &&& q.usage[i] == all ==> part == rest
        }),
{
    let v = q.spec.limit(dim);
    let n = q.shards.len();
    let all = total(q.usage, q.usage.len());
    let used = q.usage[i];
    lemma_part_of_total(q.usage, i, q.usage.len());
    lemma_portion(v, used, all, n);
    assert(q.rebalance().shards[i].bucket(dim).rate == portion(v, used, all, n, q.some_starve()));
    if q.some_starve() {
        let first = given_first(q, dim);
        assert(v >= 2 * n ==> first >= 1) by (nonlinear_arith)
            requires
                n > 0,
                first == v as nat / (2 * n),
        ;
    } else {
        assert(n * 0 == 0) by (nonlinear_arith);
        lemma_share(v as int, used as int, all as int);
        assert(!starves(q.usage[i], all, n));
        let (a, d, u, w) = (all as int, 2 * n as int, used as int, v as int);
        let (x, y) = (w * u, w / d);
        assert(y * d <= w && y >= 0) by (nonlinear_arith)
            requires
                d > 0,
                w >= 0,
                y == w / d,
        ;
        assert(x >= y * a) by (nonlinear_arith)
            requires
                u * d >= a,
                y * d <= w,
                y >= 0,
                u >= 0,
                x == w * u,
        ;
        assert(x / a >= y) by (nonlinear_arith)
            requires
                x >= y * a,
                a > 0,
        ;
        assert(w >= d ==> y >= 1) by (nonlinear_arith)
            requires
                d > 0,
                y == w / d,
        ;
    }
}

/// What the first `n` shards get is `n` times what all get first, and of the rest no
/// more than corresponds to their use.
proof fn lemma_portions_add_up(q: ShardedView, dim: Dimension, n: nat)
    requires
        q.sound(),
        total(q.usage, q.usage.len()) > 0,
        n <= q.shards.len(),
    ensures
        ({
            let v = q.spec.limit(dim);
            let shards = q.shards.len();
            let all = total(q.usage, q.usage.len());
            let first = given_first(q, dim);
            let sum = total_rate(q.rebalance().shards, dim, n);
            let due = n * first + (v - shards * first) * total(q.usage, n) / all as int;
            &&& sum <= due + n
            &&& v >= 2 * shards ==> sum <= due
        }),
    decreases n,
{
    let v = q.spec.limit(dim);
    let shards = q.shards.len();
    let all = total(q.usage, q.usage.len());
    let first = given_first(q, dim);
    let rest = v - shards * first;
    if n == 0 {
        assert(rest * 0 / all as int == 0) by (nonlinear_arith)
            requires
                all > 0,
        ;
    } else {
        let m = (n - 1) as nat;
        lemma_portions_add_up(q, dim, m);
        lemma_portion_parts(q, dim, m as int);
        let (t, u, d) = (total(q.usage, m) as int, q.usage[m as int] as int, all as int);
        assert(rest * t / d + rest * u / d <= rest * (t + u) / d) by (nonlinear_arith)
            requires
                d > 0,
                rest >= 0,
                t >= 0,
                u >= 0,
        ;
        assert(m * first + first == n * first) by (nonlinear_arith)
            requires
                n == m + 1,
        ;
    }
}

/// Shards that all have the same limit have so many times that limit.
proof fn lemma_even_shares_add_up(shards: Seq<QosView>, dim: Dimension, each: u64, n: nat)
    requires
        n <= shards.len(),
        forall|i: int| 0 <= i < shards.len() ==> (#[trigger] shards[i]).bucket(dim).rate == each,
    ensures
        total_rate(shards, dim, n) == n * each,
    decreases n,
{
    if n == 0 {
        assert(0 * each == 0) by (nonlinear_arith);
    } else {
        let m = (n - 1) as nat;
        lemma_even_shares_add_up(shards, dim, each, m);
        assert(m * each + each == n * each) by (nonlinear_arith)
            requires
                n == m + 1,
        ;
    }
}

/// However limits are split, to begin with or anew, the shards together never get
/// more than the whole in a dimension whose limit is at least two for each shard.
/// (A smaller limit may be exceeded, by one for each shard at most, since no shard
/// is left with nothing.)
pub proof fn law_shards_share_the_budget(q: ShardedView, dim: Dimension)
    requires
        q.sound(),
    ensures
        ({
            let v = q.spec.limit(dim);
            let n = q.shards.len();
            let fresh = ShardedView::split(q.spec, n);
            &&& v >= 2 * n ==> total_rate(q.rebalance().shards, dim, n) <= v
            &&& v >= 2 * n ==> total_rate(fresh.shards, dim, n) <= v
            &&& total_rate(q.rebalance().shards, dim, n) <= v + n
            &&& total_rate(fresh.shards, dim, n) <= v + n
        }),
{
    let v = q.spec.limit(dim);
    let n = q.shards.len();
    let all = total(q.usage, q.usage.len());
    let fresh = ShardedView::split(q.spec, n);
    let even = (v as nat / n) as u64;
    let (a, d, e) = (v as int, n as int, v as nat / n);
    assert(0 <= e <= a && d * e <= a && (a >= 2 * d ==> e >= 1) && d * 1 == d) by (nonlinear_arith)
        requires
            d > 0,
            a >= 0,
            e == a / d,
    ;
    assert forall|i: int| 0 <= i < n implies (#[trigger] fresh.shards[i]).bucket(dim).rate == at_least_one(even) by {}
    lemma_even_shares_add_up(fresh.shards, dim, at_least_one(even), n);
    if all == 0 {
        assert forall|i: int| 0 <= i < n implies (#[trigger] q.rebalance().shards[i]).bucket(dim).rate == at_least_one(
            even,
        ) by {}
        lemma_even_shares_add_up(q.rebalance().shards, dim, at_least_one(even), n);
    } else {
        lemma_portions_add_up(q, dim, n);
        let rest = v - n * given_first(q, dim);
        assert(rest * all / all as int == rest) by (nonlinear_arith)
            requires
                all > 0,
        ;
    }
}

/// The share of the rest grows with the use.
proof fn lemma_busier(rest: int, u: int, w: int, all: int)
    requires
        0 <= u <= w,
        all > 0,
        rest >= 0,
    ensures
        0 <= rest * u / all <= rest * w / all,
{
    assert(0 <= rest * u / all <= rest * w / all) by (nonlinear_arith)
        requires
            0 <= u <= w,
            all > 0,
            rest >= 0,
    ;
}

/// Rebalancing gives a busier shard no less than an idler one, and the only busy one
/// strictly more; without any use all get the same. Every shard gets at least half of
/// an even share, and at least one token per tick, has its new bucket full, and is
/// counted anew.
pub proof fn law_busy_shards_get_more(q: ShardedView, idle: int, busy: int, dim: Dimension)
    requires
        q.sound(),
        0 <= idle < q.shards.len(),
        0 <= busy < q.shards.len(),
        q.usage[idle] <= q.usage[busy],
    ensures
        ({
            let a = q.rebalance().shards[idle].bucket(dim);
            let b = q.rebalance().shards[busy].bucket(dim);
            let all = total(q.usage, q.usage.len());
            &&& 1 <= a.rate <= b.rate
            &&& a.rate >= q.spec.limit(dim) as nat / (2 * q.shards.len())
            &&& q.usage[idle] == 0 && 0 < q.usage[busy] == all && q.spec.limit(dim) >= 2 * q.shards.len() ==> a.rate
                < b.rate
            &&& all == 0 ==> a.rate == b.rate
            &&& a == TokensView::full(a.rate, q.spec.burst_multiple)
            &&& b == TokensView::full(b.rate, q.spec.burst_multiple)
            &&& a.grants(a.capacity, Priority::Foreground)
            &&& b.grants(b.capacity, Priority::Foreground)
            &&& q.rebalance().spec == q.spec
            &&& forall|i: int| 0 <= i < q.usage.len() ==> #[trigger] q.rebalance().usage[i] == 0
        }),
{
    let v = q.spec.limit(dim);
    let n = q.shards.len();
    let all = total(q.usage, q.usage.len());
    lemma_part_of_total(q.usage, idle, q.usage.len());
    lemma_part_of_total(q.usage, busy, q.usage.len());
    let a = q.rebalance().shards[idle].bucket(dim);
    let b = q.rebalance().shards[busy].bucket(dim);
    assert(a.rate == portion(v, q.usage[idle], all, n, q.some_starve()));
    assert(b.rate == portion(v, q.usage[busy], all, n, q.some_starve()));
    if all > 0 {
        let rest = v - n * given_first(q, dim);
        lemma_portion_parts(q, dim, idle);
        lemma_portion_parts(q, dim, busy);
        lemma_busier(rest, q.usage[idle] as int, q.usage[busy] as int, all as int);
        assert(rest * 0 / all as int == 0) by (nonlinear_arith)
            requires
                all > 0,
        ;
    } else {
        let (w, d) = (v as int, n as int);
        assert(w / (2 * d) <= w / d && w / d <= w) by (nonlinear_arith)
            requires
                d > 0,
                w >= 0,
        ;
    }
}

/// Where the use of every shard is at least half of an even part, limits are split in
/// proportion to use, and to nothing else.
pub proof fn law_limits_follow_use(q: ShardedView, i: int, dim: Dimension)
    requires
        q.sound(),
        0 <= i < q.shards.len(),
        total(q.usage, q.usage.len()) > 0,
        forall|k: int|
            0 <= k < q.usage.len() ==> (#[trigger] q.usage[k]) * (2 * q.shards.len()) >= total(
                q.usage,
                q.usage.len(),
            ),
        q.spec.limit(dim) >= 2 * q.shards.len(),
    ensures
        q.rebalance().shards[i].bucket(dim).rate == q.spec.limit(dim) * q.usage[i] / total(
            q.usage,
            q.usage.len(),
        ) as int,
{
    assert(!q.some_starve());
    lemma_portion_parts(q, dim, i);
    assert(q.shards.len() * 0 == 0) by (nonlinear_arith);
}

/// A new entity has in each dimension a full bucket: as many ticks' worth of that
/// dimension's rate as the burst allows, at least one, as far as 64 bits go; and half of it
/// is kept from background work.
pub proof fn law_new_buckets_are_full(spec: QosSpec)
    ensures
        ({
            let e = QosView::full(spec);
            let burst = if spec.burst_multiple < 1 { 1int } else { spec.burst_multiple as int };
            let full = |b: TokensView, rate: u64| {
                &&& b.rate == rate
                &&& b.tokens == b.capacity
                &&& rate * burst <= u64::MAX ==> b.capacity == rate * burst
                &&& rate * burst > u64::MAX ==> b.capacity == u64::MAX
                &&& b.capacity - 1 <= 2 * b.floor <= b.capacity
            };
            &&& full(e.meta, spec.metadata_iops)
            &&& full(e.data_iops, spec.data_iops)
            &&& full(e.data_bw, spec.data_bw_bytes)
        }),
{
}

/// A tick adds one tick's worth of tokens in every dimension, up to the capacity, whatever
/// was left; and changes nothing else.
pub proof fn law_a_tick_adds_the_rate(e: QosView)
    requires
        e.sound(),
    ensures
        ({
            let f = e.tick();
            let refilled = |a: TokensView, b: TokensView| {
                &&& a.tokens + a.rate <= a.capacity ==> b.tokens == a.tokens + a.rate
                &&& a.tokens + a.rate > a.capacity ==> b.tokens == a.capacity
                &&& b.rate == a.rate && b.capacity == a.capacity && b.floor == a.floor
            };
            &&& refilled(e.meta, f.meta)
            &&& refilled(e.data_iops, f.data_iops)
            &&& refilled(e.data_bw, f.data_bw)
        }),
{
}

/// A request of the foreground is granted if and only if there are as many tokens, one of
/// the background if and only if half of the bucket is then still there. What is granted is
/// taken from the bucket of its dimension and from nowhere else; a refusal names the
/// dimension and takes nothing.
pub proof fn law_what_is_there_is_granted(e: QosView, dim: Dimension, amount: u64, prio: Priority)
    requires
        e.sound(),
    ensures
        ({
            let (f, r) = e.acquire(dim, amount, prio);
            let (a, b) = match dim {
                Dimension::MetadataIops => (e.meta, f.meta),
                Dimension::DataIops => (e.data_iops, f.data_iops),
                Dimension::DataBw => (e.data_bw, f.data_bw),
            };
            let kept = if prio == Priority::Background { a.capacity / 2 } else { 0 };
            &&& r is Ok <==> amount + kept <= a.tokens
            &&& r is Ok ==> b.tokens + amount == a.tokens
            &&& b.rate == a.rate && b.capacity == a.capacity && b.floor == a.floor
            &&& r matches Err(x) ==> f == e && x == (ErrorView::Throttled {
                dimension: match dim {
                    Dimension::MetadataIops => "metadata_iops"@,
                    Dimension::DataIops => "data_iops"@,
                    Dimension::DataBw => "data_bw"@,
                },
            })
            &&& dim != Dimension::MetadataIops ==> f.meta == e.meta
            &&& dim != Dimension::DataIops ==> f.data_iops == e.data_iops
            &&& dim != Dimension::DataBw ==> f.data_bw == e.data_bw
        }),
{
}

/// Nobody is refused what was left plus what came in: right after a tick the foreground
/// gets any amount up to that, as far as the bucket goes, in every dimension.
pub proof fn law_what_was_left_is_not_lost(e: QosView, dim: Dimension, amount: u64, wanted: u64)
    requires
        e.sound(),
    ensures
        ({
            let (f, r) = e.acquire(dim, amount, Priority::Foreground);
            let a = match dim {
                Dimension::MetadataIops => e.meta,
                Dimension::DataIops => e.data_iops,
                Dimension::DataBw => e.data_bw,
            };
            r is Ok ==> (f.tick().acquire(dim, wanted, Priority::Foreground).1 is Ok <==> wanted <= a.tokens - amount
                + a.rate && wanted <= a.capacity)
        }),
{
}

/// Asking twice is asking for the sum: what the foreground gets at once it also gets in
/// two parts, and no more.
pub proof fn law_requests_add_up(e: QosView, dim: Dimension, first: u64, second: u64)
    requires
        e.sound(),
        first + second <= u64::MAX,
    ensures
        ({
            let (f, a) = e.acquire(dim, first, Priority::Foreground);
            let (g, b) = f.acquire(dim, second, Priority::Foreground);
            let (h, r) = e.acquire(dim, (first + second) as u64, Priority::Foreground);
            &&& r is Ok ==> a is Ok && b is Ok
            &&& a is Ok && b is Ok ==> r is Ok
            &&& r is Ok ==> g == h
        }),
{
}

/// The use of all shards is the sum of what each has used.
pub proof fn law_uses_add_up(usage: Seq<u64>, more: u64)
    ensures
        total(Seq::<u64>::empty(), 0) == 0,
        total(usage.push(more), usage.len() + 1) == total(usage, usage.len()) + more,
{
    lemma_total_of_start(usage, usage.push(more), usage.len());
}

/// The sum of the first numbers depends on those alone.
proof fn lemma_total_of_start(a: Seq<u64>, b: Seq<u64>, n: nat)
    requires
        n <= a.len(),
        n <= b.len(),
        forall|i: int| 0 <= i < n ==> a[i] == b[i],
    ensures
        total(a, n) == total(b, n),
    decreases n,
{
    if n > 0 {
        lemma_total_of_start(a, b, (n - 1) as nat);
    }
}

/// Limits that are split over shards, at least one, are split evenly in each dimension:
/// each shard has a full bucket for the whole part of an even share, or for one if that is
/// nothing, and has used nothing.
pub proof fn law_shards_start_even(spec: QosSpec, shard_count: nat, i: int)
    requires
        shard_count <= u64::MAX,
        0 <= i < ShardedView::split(spec, shard_count).shards.len(),
    ensures
        ({
            let q = ShardedView::split(spec, shard_count);
            let n = q.shards.len();
            let s = q.shards[i];
            let even = |v: u64, rate: u64| {
                &&& rate >= 1
                &&& n * rate <= v || rate == 1
                &&& v < n * (rate + 1)
            };
            &&& shard_count == 0 ==> n == 1
            &&& shard_count > 0 ==> n == shard_count
            &&& q.usage.len() == n && q.usage[i] == 0
            &&& q.spec == spec
            &&& even(spec.metadata_iops, s.meta.rate)
            &&& even(spec.data_iops, s.data_iops.rate)
            &&& even(spec.data_bw_bytes, s.data_bw.rate)
            &&& s == QosView::full(
                (QosSpec {
                    metadata_iops: s.meta.rate,
                    data_iops: s.data_iops.rate,
                    data_bw_bytes: s.data_bw.rate,
                    burst_multiple: spec.burst_multiple,
                }),
            )
        }),
{
    let n = ShardedView::split(spec, shard_count).shards.len();
    lemma_even_part(spec.metadata_iops, n);
    lemma_even_part(spec.data_iops, n);
    lemma_even_part(spec.data_bw_bytes, n);
}

/// The whole part of an even share, or one.
proof fn lemma_even_part(v: u64, n: nat)
    requires
        n > 0,
    ensures
        ({
            let rate = at_least_one((v as nat / n) as u64);
            &&& rate >= 1
            &&& n * rate <= v || rate == 1
            &&& v < n * (rate + 1)
        }),
{
    let (a, d, e) = (v as int, n as int, v as nat / n);
    assert(0 <= e <= a && d * e <= a && a < d * (e + 1) && (a < d * 1 ==> a < d * 2)) by (nonlinear_arith)
        requires
            d > 0,
            a >= 0,
            e == a / d,
    ;
    assert(d * 1 <= d * 2) by (nonlinear_arith)
        requires
            d > 0,
    ;
}

/// A request goes to one shard, the same for numbers that differ by the number of shards,
/// and is answered as that shard alone would answer it. Only what is granted counts as used
/// by the shard, and no other shard is touched.
pub proof fn law_a_request_meets_one_shard(
    q: ShardedView,
    shard: nat,
    dim: Dimension,
    amount: u64,
    prio: Priority,
    other: int,
)
    requires
        q.sound(),
        0 <= other < q.shards.len(),
    ensures
        ({
            let (w, r) = q.acquire(shard, dim, amount, prio);
            let n = q.shards.len();
            &&& q.acquire(shard + n, dim, amount, prio) == (w, r)
            &&& w.shards.len() == n && w.usage.len() == n && w.spec == q.spec
            &&& shard == other ==> {
                &&& (w.shards[other], r) == q.shards[other].acquire(dim, amount, prio)
                &&& r is Ok && q.usage[other] + amount <= u64::MAX ==> w.usage[other] == q.usage[other] + amount
                &&& r is Ok && q.usage[other] + amount > u64::MAX ==> w.usage[other] == u64::MAX
                &&& r is Err ==> w.usage[other] == q.usage[other]
            }
            &&& shard < n && shard != other ==> w.shards[other] == q.shards[other] && w.usage[other] == q.usage[other]
        }),
{
    let n = q.shards.len();
    assert((shard + n) % n == shard % n) by (nonlinear_arith)
        requires
            n > 0,
    ;
    if shard < n {
        assert(shard % n == shard) by (nonlinear_arith)
            requires
                n > 0,
                0 <= shard < n,
        ;
    }
    let i = q.place(shard);
    assert(0 <= i < n) by (nonlinear_arith)
        requires
            n > 0,
            i == (shard % n) as int,
    ;
}

/// A tick passes in every shard and changes nothing but the tokens.
pub proof fn law_time_passes_in_every_shard(q: ShardedView, i: int)
    requires
        0 <= i < q.shards.len(),
    ensures
        q.tick().shards.len() == q.shards.len(),
        q.tick().shards[i] == q.shards[i].tick(),
        q.tick().usage == q.usage,
        q.tick().spec == q.spec,
{
}

/// What a shard gets in a dimension when limits are split anew, to the token. Without any
/// use, the whole part of an even share. With use, the whole part of the share that
/// corresponds to its use, if every shard then has half of an even share at least; and
/// otherwise half of an even share, and of what is left over the whole part of the share
/// that corresponds to its use. Where that comes to nothing, one.
pub proof fn law_limits_are_split_to_the_token(q: ShardedView, i: int, dim: Dimension)
    requires
        q.sound(),
        0 <= i < q.shards.len(),
    ensures
        ({
            let v = match dim {
                Dimension::MetadataIops => q.spec.metadata_iops,
                Dimension::DataIops => q.spec.data_iops,
                Dimension::DataBw => q.spec.data_bw_bytes,
            };
            let s = q.rebalance().shards[i];
            let rate = match dim {
                Dimension::MetadataIops => s.meta.rate,
                Dimension::DataIops => s.data_iops.rate,
                Dimension::DataBw => s.data_bw.rate,
            };
            let n = q.shards.len() as int;
            let all = total(q.usage, q.usage.len()) as int;
            let used = q.usage[i];
            let least = v as int / (2 * n);
            let rest = v - n * least;
            let enough = forall|k: int| 0 <= k < n ==> 2 * n * (#[trigger] q.usage[k]) >= all;
            &&& rate >= 1
            &&& all == 0 ==> (n * rate <= v || rate == 1) && v < n * (rate + 1)
            &&& all > 0 && enough ==> (rate * all <= v * used || rate == 1) && v * used < (rate + 1) * all
            &&& all > 0 && !enough ==> ((rate - least) * all <= rest * used || rate == 1) && rest * used < (rate - least
                + 1) * all
        }),
{
    let v = q.spec.limit(dim);
    let n = q.shards.len();
    let all = total(q.usage, q.usage.len());
    let used = q.usage[i];
    let rate = q.rebalance().shards[i].bucket(dim).rate;
    assert(rate == portion(v, used, all, n, q.some_starve()));
    if all == 0 {
        lemma_even_part(v, n);
    } else {
        lemma_portion_parts(q, dim, i);
        let first = given_first(q, dim) as int;
        let rest = v - n * first;
        let part = rest * used / all as int;
        let (x, d) = (rest * used, all as int);
        assert(part * d <= x < (part + 1) * d) by (nonlinear_arith)
            requires
                d > 0,
                part == x / d,
        ;
        assert((part + 1) * d <= (part + 2) * d) by (nonlinear_arith)
            requires
                d > 0,
        ;
        let two = 2 * n as int;
        assert forall|k: int| 0 <= k < n implies (starves(#[trigger] q.usage[k], all, n) <==> !(two * q.usage[k] >= all))
            by {
            let u = q.usage[k] as int;
            assert(u * (2 * n) == two * u) by (nonlinear_arith)
                requires
                    two == 2 * n,
            ;
        }
        let enough = forall|k: int| 0 <= k < n ==> 2 * n * (#[trigger] q.usage[k]) >= all;
        assert(enough == !q.some_starve()) by {
            if q.some_starve() {
                let k = choose|k: int| 0 <= k < q.usage.len() && starves(#[trigger] q.usage[k], all, n);
                assert(!(2 * n * q.usage[k] >= all));
            }
        }
        if enough {
            assert(n * first == 0) by (nonlinear_arith)
                requires
                    first == 0,
            ;
        }
    }
}

/// Little is wasted: what the shards get together is less than one token each short of
/// the whole.
pub proof fn law_the_budget_is_handed_out(q: ShardedView, dim: Dimension)
    requires
        q.sound(),
    ensures
        total_rate(q.rebalance().shards, dim, q.shards.len()) + q.shards.len() > q.spec.limit(dim),
{
    let v = q.spec.limit(dim);
    let n = q.shards.len();
    let all = total(q.usage, q.usage.len());
    if all == 0 {
        let each = at_least_one((v as nat / n) as u64);
        lemma_even_part(v, n);
        assert forall|i: int| 0 <= i < n implies (#[trigger] q.rebalance().shards[i]).bucket(dim).rate == each by {
        }
        lemma_even_shares_add_up(q.rebalance().shards, dim, each, n);
        assert(n * (each + 1) == n * each + n) by (nonlinear_arith);
    } else {
        lemma_portions_reach(q, dim, n);
        let first = given_first(q, dim) as int;
        let rest = v - n * first;
        lemma_portion_parts(q, dim, 0);
        let sum = total_rate(q.rebalance().shards, dim, n) as int;
        let d = all as int;
        assert(sum + n > n * first + rest) by (nonlinear_arith)
            requires
                (sum + n - n * first) * d > rest * d,
                d > 0,
        ;
    }
}

/// What the first `n` shards get falls short of what corresponds to their use by less
/// than one each.
proof fn lemma_portions_reach(q: ShardedView, dim: Dimension, n: nat)
    requires
        q.sound(),
        total(q.usage, q.usage.len()) > 0,
        n <= q.shards.len(),
    ensures
        ({
            let all = total(q.usage, q.usage.len()) as int;
            let first = given_first(q, dim) as int;
            let rest = q.spec.limit(dim) - q.shards.len() * first;
            let sum = total_rate(q.rebalance().shards, dim, n) as int;
            &&& (sum + n - n * first) * all >= rest * total(q.usage, n)
            &&& n > 0 ==> (sum + n - n * first) * all > rest * total(q.usage, n)
        }),
    decreases n,
{
    let all = total(q.usage, q.usage.len()) as int;
    let first = given_first(q, dim) as int;
    let rest = q.spec.limit(dim) - q.shards.len() * first;
    if n == 0 {
        assert(rest * 0 == 0 && (0 + 0 - 0 * first) * all == 0) by (nonlinear_arith);
    } else {
        let m = (n - 1) as nat;
        lemma_portions_reach(q, dim, m);
        lemma_portion_parts(q, dim, m as int);
        let (t, u) = (total(q.usage, m) as int, q.usage[m as int] as int);
        let part = rest * u / all;
        let rate = q.rebalance().shards[m as int].bucket(dim).rate as int;
        let sum = total_rate(q.rebalance().shards, dim, m) as int;
        let k = m as int;
        assert(rate >= first + part);
        assert((sum + rate + k + 1 - (k + 1) * first) * all > rest * (t + u)) by (nonlinear_arith)
            requires
                (sum + k - k * first) * all >= rest * t,
                part == rest * u / all,
                rate >= first + part,
                all > 0,
        ;
    }
}

} // verus!
