//! A cluster: tenants, limits, quotas, metadata buckets, placement, protection and
//! snapshots, put together into one write path.
//!
//! A write takes the tenant's key, tokens and quota; then a pool, extents and a
//! stripe; and is then recorded in its metadata bucket and in the tenant's
//! versioned namespace.

use vstd::prelude::*;

use crate::accounts;
use crate::bytes;
use crate::extent::{AllocatorView, ExtentAllocator, PoolWatermarks, Purpose};
use crate::metadata;
use crate::metadata::{BucketProcess, BucketRouter, ProcessView, RecordView, SharedState, StateView};
use crate::placement;
use crate::placement::{EngineView, PlacementEngine, PoolState};
use crate::protection::{ProtectionScheme, StripeId, StripeManager, StripesView, TaskView};
use crate::protection_laws;
use crate::qos::{Dimension, Priority, QosEntity, QosSpec, QosView};
use crate::quota::{QuotaLimit, QuotaManager, QuotasView};
use crate::snapshot::{HeadId, NamespaceView, SnapshotId, VersionedNamespace};
use crate::snapshot_laws;
use crate::sorted_map;
use crate::sorted_map::{Key, SortedMap};
use crate::tenant::{Placement, RegistryView, SpecView, TenantRegistry, TenantSpec};
use crate::text;
use crate::types;
use crate::types::{
    BucketId, CNodeId, Error, ErrorView, ExtentId, MediaClass, MetaKey, MetaKeyView, PoolId, SNodeId, TenantId,
};

verus! {

/// The state of a cluster.
pub struct ClusterView {
    pub tenants: RegistryView,
    pub quotas: QuotasView,
    pub placement: EngineView,
    pub extents: AllocatorView,
    /// The number of metadata buckets.
    pub bucket_count: u32,
    /// What the shared pool holds of each bucket.
    pub shared: Map<BucketId, StateView>,
    /// The buckets that run.
    pub running: Map<BucketId, ProcessView>,
    pub qos: Map<TenantId, QosView>,
    /// The stripes of each protected pool.
    pub stripes: Map<PoolId, StripesView>,
    /// The versioned namespace of each tenant.
    pub namespaces: Map<TenantId, NamespaceView>,
}

/// Tokens for a write: one metadata operation, one data operation, its bandwidth.
pub open spec fn write_tokens(q: QosView, size: u64) -> (QosView, Result<(), ErrorView>) {
    let (a, first) = q.acquire(Dimension::MetadataIops, 1, Priority::Foreground);
    if first is Err {
        (a, first)
    } else {
        let (b, second) = a.acquire(Dimension::DataIops, 1, Priority::Foreground);
        if second is Err {
            (b, second)
        } else {
            b.acquire(Dimension::DataBw, size, Priority::Foreground)
        }
    }
}

/// The pool that a placement binds a tenant to.
pub open spec fn bound_pool(p: Placement) -> Option<PoolId> {
    match p {
        Placement::DedicatedPool(pool) => Some(pool),
        Placement::Shared => None,
    }
}

/// The metadata key of an object.
pub open spec fn object_key(tenant: TenantId, key: Seq<char>) -> MetaKeyView {
    MetaKeyView { tenant, key: vstd::utf8::encode_utf8(key) }
}

/// The stripes of a pool with more domains registered.
pub open spec fn with_domains(v: StripesView, snodes: Seq<SNodeId>, n: nat) -> StripesView
    decreases n,
{
    if n == 0 {
        v
    } else {
        with_domains(v, snodes, (n - 1) as nat).add_domain(snodes[n - 1])
    }
}

/// The stripes of a pool that has none yet.
pub open spec fn no_stripes(pool: PoolId, scheme: ProtectionScheme) -> StripesView {
    StripesView {
        pool,
        scheme,
        domains: Map::empty(),
        failed: Set::empty(),
        stripes: Map::empty(),
        by_domain: Map::empty(),
        next_stripe: 0,
    }
}

impl ClusterView {
    pub open spec fn empty(bucket_count: u32, extents: u64) -> ClusterView {
        ClusterView {
            tenants: RegistryView::empty(),
            quotas: QuotasView::empty(),
            placement: EngineView { pools: Map::empty(), watermark_diff_permille: 150 },
            extents: AllocatorView {
                total: extents,
                free: extents,
                watermarks: PoolWatermarks { sink_free_permille: 300, protect_free_permille: 100 },
                next_id: 0,
                meta_used: 0,
                data_used: 0,
            },
            bucket_count: if bucket_count == 0 { 1 } else { bucket_count },
            shared: Map::empty(),
            running: Map::empty(),
            qos: Map::empty(),
            stripes: Map::empty(),
            namespaces: Map::empty(),
        }
    }

    pub open spec fn add_pool(self, state: PoolState) -> ClusterView {
        ClusterView {
            placement: EngineView { pools: self.placement.pools.insert(state.id, state), ..self.placement },
            ..self
        }
    }

    pub open spec fn protect_pool(self, pool: PoolId, scheme: ProtectionScheme, snodes: Seq<SNodeId>) -> ClusterView {
        let before = if self.stripes.contains_key(pool) {
            self.stripes[pool]
        } else {
            no_stripes(pool, scheme)
        };
        ClusterView {
            stripes: self.stripes.insert(pool, with_domains(before, snodes, snodes.len())),
            ..self
        }
    }

    pub open spec fn create_tenant(self, name: Seq<char>, quota: QuotaLimit, qos: QosSpec, placement: Placement) -> (
        ClusterView,
        Result<TenantId, ErrorView>,
    ) {
        let (tenants, r) = self.tenants.create(SpecView { name, placement });
        match r {
            Err(e) => (ClusterView { tenants, ..self }, Err(e)),
            Ok(id) => (
                ClusterView {
                    tenants,
                    quotas: self.quotas.set_tenant_limit(id, quota),
                    qos: self.qos.insert(id, QosView::full(qos)),
                    ..self
                },
                Ok(id),
            ),
        }
    }

    pub open spec fn delete_tenant(self, tenant: TenantId) -> (ClusterView, Result<(), ErrorView>) {
        let (tenants, r) = self.tenants.delete(tenant);
        match r {
            Err(e) => (ClusterView { tenants, ..self }, Err(e)),
            Ok(_) => (
                ClusterView {
                    tenants,
                    quotas: self.quotas.remove_tenant(tenant),
                    qos: self.qos.remove(tenant),
                    namespaces: self.namespaces.remove(tenant),
                    ..self
                },
                Ok(()),
            ),
        }
    }

    /// Whether every tenant's tokens can be refilled in 64 bits.
    pub open spec fn can_tick(self) -> bool {
        forall|t: TenantId| #[trigger] self.qos.contains_key(t) ==> self.qos[t].can_tick()
    }

    pub open spec fn tick(self) -> ClusterView {
        ClusterView { qos: self.qos.map_values(|q: QosView| q.tick()), ..self }
    }

    /// The bucket of an object.
    pub open spec fn bucket_of(self, tenant: TenantId, key: Seq<char>) -> BucketId {
        metadata::bucket_of(object_key(tenant, key), self.bucket_count)
    }

    /// The state with a bucket running: started on the first node, unless it runs.
    pub open spec fn with_bucket(self, b: BucketId) -> ClusterView {
        if self.running.contains_key(b) {
            self
        } else {
            let shared = if self.shared.contains_key(b) { self.shared[b] } else { StateView::empty() };
            let (p, s) = ProcessView::take_over(b, CNodeId(0), shared);
            ClusterView { running: self.running.insert(b, p), shared: self.shared.insert(b, s), ..self }
        }
    }

    /// Admission of a write: the tenant's key must be there, and tokens.
    pub open spec fn accept(self, tenant: TenantId, size: u64) -> (ClusterView, Result<(), ErrorView>) {
        match self.tenants.key(tenant) {
            Err(e) => (self, Err(e)),
            Ok(_) => if !self.qos.contains_key(tenant) {
                (self, Err(ErrorView::UnknownTenant(tenant)))
            } else {
                let (q, r) = write_tokens(self.qos[tenant], size);
                (ClusterView { qos: self.qos.insert(tenant, q), ..self }, r)
            },
        }
    }

    /// Reservation of space for the data of a write: quota, pool, extent and, in a
    /// protected pool, a stripe. What fails is rolled back.
    pub open spec fn reserve_data(self, tenant: TenantId, scope: Seq<char>, size: u64) -> (
        ClusterView,
        Result<(PoolId, ExtentId, Option<StripeId>), ErrorView>,
    ) {
        let (quotas, charged) = self.quotas.charge(tenant, scope, size, 1);
        let back = quotas.release(tenant, scope, size, 1);
        match charged {
            Err(e) => (ClusterView { quotas, ..self }, Err(e)),
            Ok(_) => match self.tenants.placement(tenant) {
                Err(e) => (ClusterView { quotas, ..self }, Err(e)),
                Ok(p) => match self.placement.select_pool(MediaClass::TlcNvme, tenant, bound_pool(p)) {
                    Err(e) => (ClusterView { quotas: back, ..self }, Err(e)),
                    Ok(pool) => {
                        let (extents, allocated) = self.extents.allocate(Purpose::Data);
                        match allocated {
                            Err(e) => (ClusterView { quotas: back, extents, ..self }, Err(e)),
                            Ok((extent, _)) => if !self.stripes.contains_key(pool) {
                                (ClusterView { quotas, extents, ..self }, Ok((pool, extent, None)))
                            } else {
                                let (m, placed) = self.stripes[pool].place_stripe();
                                let stripes = self.stripes.insert(pool, m);
                                match placed {
                                    Err(e) => (
                                        ClusterView {
                                            quotas: back,
                                            extents: extents.release(Purpose::Data),
                                            stripes,
                                            ..self
                                        },
                                        Err(e),
                                    ),
                                    Ok((id, _)) => (
                                        ClusterView { quotas, extents, stripes, ..self },
                                        Ok((pool, extent, Some(id))),
                                    ),
                                }
                            },
                        }
                    },
                },
            },
        }
    }

    /// The stripes after the one placed for a write was given up, if there was one.
    pub open spec fn without_stripe(self, pool: PoolId, stripe: Option<StripeId>) -> Map<PoolId, StripesView> {
        match stripe {
            None => self.stripes,
            Some(id) => self.stripes.insert(pool, self.stripes[pool].release_stripe(id).0),
        }
    }

    /// Reservation of all that a write takes: what its data takes, and an extent for
    /// its metadata. If that is refused, what the data took is given back.
    pub open spec fn reserve(self, tenant: TenantId, scope: Seq<char>, size: u64) -> (
        ClusterView,
        Result<(PoolId, ExtentId), ErrorView>,
    ) {
        let (b, reserved) = self.reserve_data(tenant, scope, size);
        match reserved {
            Err(e) => (b, Err(e)),
            Ok((pool, extent, stripe)) => {
                let (extents, allocated) = b.extents.allocate(Purpose::Metadata);
                match allocated {
                    Err(e) => (
                        ClusterView {
                            quotas: b.quotas.release(tenant, scope, size, 1),
                            extents: extents.release(Purpose::Data),
                            stripes: b.without_stripe(pool, stripe),
                            ..b
                        },
                        Err(e),
                    ),
                    Ok(_) => (ClusterView { extents, ..b }, Ok((pool, extent))),
                }
            },
        }
    }

    /// The namespace of a tenant; a tenant that has none starts with an empty one.
    pub open spec fn namespace(self, tenant: TenantId) -> NamespaceView {
        if self.namespaces.contains_key(tenant) {
            self.namespaces[tenant]
        } else {
            NamespaceView::empty()
        }
    }

    /// The record of a write: on its pool, in its bucket, and in the tenant's
    /// namespace.
    pub open spec fn record(self, tenant: TenantId, key: Seq<char>, size: u64, pool: PoolId, extent: ExtentId) -> (
        ClusterView,
        Result<(), ErrorView>,
    ) {
        let (placement, committed) = self.placement.commit(pool, 1);
        let s = ClusterView { placement, ..self };
        if committed is Err {
            (s, committed)
        } else {
            let b = s.bucket_of(tenant, key);
            let t = s.with_bucket(b);
            let put = RecordView::Put { key: object_key(tenant, key), value: bytes::be64(size) };
            let (p, shared, written) = t.running[b].append(t.shared[b], put);
            let u = ClusterView { running: t.running.insert(b, p), shared: t.shared.insert(b, shared), ..t };
            if written is Err {
                (u, written)
            } else {
                let (n, r) = u.namespace(tenant).write(HeadId(0), vstd::utf8::encode_utf8(key), Some(extent));
                (ClusterView { namespaces: u.namespaces.insert(tenant, n), ..u }, r)
            }
        }
    }

    pub open spec fn put_object(self, tenant: TenantId, scope: Seq<char>, key: Seq<char>, size: u64) -> (
        ClusterView,
        Result<(), ErrorView>,
    ) {
        let (a, admitted) = self.accept(tenant, size);
        match admitted {
            Err(e) => (a, Err(e)),
            Ok(_) => {
                let (b, reserved) = a.reserve(tenant, scope, size);
                match reserved {
                    Err(e) => (b, Err(e)),
                    Ok((pool, extent)) => b.record(tenant, key, size, pool, extent),
                }
            },
        }
    }

    /// Whether the numbers that come up in a reservation for data fit.
    pub open spec fn can_reserve_data(self, tenant: TenantId, scope: Seq<char>, size: u64) -> bool {
        &&& self.quotas.can_charge(tenant, scope, size, 1)
        &&& self.quotas.charge(tenant, scope, size, 1).1 is Ok && self.tenants.placement(tenant) is Ok ==> {
            let bound = bound_pool(self.tenants.placement(tenant)->Ok_0);
            let chosen = self.placement.select_pool(MediaClass::TlcNvme, tenant, bound);
            &&& self.placement.can_select(MediaClass::TlcNvme, tenant, bound)
            &&& chosen matches Ok(pool) ==> {
                &&& self.extents.can_allocate(Purpose::Data)
                &&& !self.extents.refuses(Purpose::Data) && self.stripes.contains_key(pool)
                    ==> self.stripes[pool].can_place()
            }
        }
    }

    /// Whether the numbers that come up in a reservation fit.
    pub open spec fn can_reserve(self, tenant: TenantId, scope: Seq<char>, size: u64) -> bool {
        let (b, reserved) = self.reserve_data(tenant, scope, size);
        self.can_reserve_data(tenant, scope, size) && (reserved is Ok ==> b.extents.can_allocate(
            Purpose::Metadata,
        ))
    }

    /// Whether the numbers that come up in a write fit.
    pub open spec fn can_put(self, tenant: TenantId, scope: Seq<char>, size: u64) -> bool {
        let (a, admitted) = self.accept(tenant, size);
        admitted is Ok ==> a.can_reserve(tenant, scope, size)
    }

    /// Whether a bucket is in order: its process may write and knows everything
    /// that was written, and every value is the size of an object.
    pub open spec fn bucket_in_order(self, b: BucketId) -> bool {
        &&& self.shared.contains_key(b)
        &&& self.running[b].current(self.shared[b])
        &&& metadata::in_step(self.running[b], self.shared[b])
        &&& forall|k: MetaKeyView| #[trigger]
            self.running[b].entries.contains_key(k) ==> self.running[b].entries[k].len() == 8
    }

    /// Whether a namespace is in order: consistent, and referring only to extents
    /// that were handed out.
    pub open spec fn namespace_in_order(self, t: TenantId) -> bool {
        &&& self.namespaces[t].consistent()
        &&& forall|e: ExtentId| #[trigger]
            self.namespaces[t].refcounts.contains_key(e) ==> e.0 <= self.extents.next_id
    }

    /// Whether a version of one of a tenant's objects refers to an extent.
    pub open spec fn holds(self, t: TenantId, e: ExtentId) -> bool {
        self.namespaces.contains_key(t) && self.namespaces[t].refcounts.contains_key(e)
    }

    /// The extents that versions of objects refer to.
    pub open spec fn held(self) -> Set<ExtentId> {
        Set::new(|e: ExtentId| exists|t: TenantId| #[trigger] self.holds(t, e))
    }

    /// Whether no two tenants refer to the same extent.
    pub open spec fn unshared(self) -> bool {
        forall|s: TenantId, t: TenantId, e: ExtentId| #[trigger]
            self.holds(s, e) && #[trigger] self.holds(t, e) ==> s == t
    }

    /// Whether extents are accounted for: each is free or in use, and those that
    /// objects refer to are in use for data. Every operation keeps this, but none needs
    /// it, so that extents can also be given back from outside, once their data has
    /// been moved to colder media.
    pub open spec fn accounted(self) -> bool {
        &&& self.extents.balanced()
        &&& self.held().finite()
        &&& self.held().len() <= self.extents.data_used
    }

    /// What every operation needs and keeps.
    pub open spec fn in_order(self) -> bool {
        &&& self.bucket_count > 0
        &&& self.running.dom() == self.shared.dom()
        &&& forall|b: BucketId| #[trigger] self.running.contains_key(b) ==> self.bucket_in_order(b)
        &&& self.stripes.dom().finite()
        &&& forall|p: PoolId| #[trigger] self.stripes.contains_key(p) ==> self.stripes[p].consistent()
        &&& forall|t: TenantId| #[trigger] self.namespaces.contains_key(t) ==> self.namespace_in_order(t)
        &&& self.unshared()
    }
}

/// A cluster in one process.
pub struct Cluster {
    pub tenants: TenantRegistry,
    pub quotas: QuotaManager,
    pub placement: PlacementEngine,
    pub tlc_extents: ExtentAllocator,
    /// What only the cluster itself works with.
    pub parts: Parts,
}

/// The parts of a cluster that are its own: routing, buckets, limits, stripes and
/// namespaces.
pub struct Parts {
    router: BucketRouter,
    /// The state of each bucket in shared storage, apart from its process.
    shared: SortedMap<BucketId, SharedState>,
    /// The processes that run.
    buckets: SortedMap<BucketId, BucketProcess>,
    tenant_qos: SortedMap<TenantId, QosEntity>,
    /// The stripes of each protected pool.
    stripes: SortedMap<PoolId, StripeManager>,
    namespaces: SortedMap<TenantId, VersionedNamespace>,
}

impl Parts {
    pub closed spec fn bucket_count(&self) -> u32 {
        self.router.buckets()
    }

    pub closed spec fn shared(&self) -> Map<BucketId, StateView> {
        self.shared@.map_values(|s: SharedState| s@)
    }

    pub closed spec fn running(&self) -> Map<BucketId, ProcessView> {
        self.buckets@.map_values(|p: BucketProcess| p@)
    }

    pub closed spec fn qos(&self) -> Map<TenantId, QosView> {
        self.tenant_qos@.map_values(|q: QosEntity| q@)
    }

    pub closed spec fn stripes(&self) -> Map<PoolId, StripesView> {
        self.stripes@.map_values(|m: StripeManager| m@)
    }

    pub closed spec fn namespaces(&self) -> Map<TenantId, NamespaceView> {
        self.namespaces@.map_values(|n: VersionedNamespace| n@)
    }

    pub closed spec fn wf(&self) -> bool {
        &&& self.router.wf()
        &&& self.shared.wf()
        &&& self.buckets.wf()
        &&& self.tenant_qos.wf()
        &&& self.stripes.wf()
        &&& self.namespaces.wf()
        &&& forall|b: BucketId| #[trigger] self.shared@.contains_key(b) ==> self.shared@[b].wf()
        &&& forall|b: BucketId| #[trigger] self.buckets@.contains_key(b) ==> self.buckets@[b].wf()
        &&& forall|t: TenantId| #[trigger] self.tenant_qos@.contains_key(t) ==> self.tenant_qos@[t].wf()
        &&& forall|p: PoolId| #[trigger] self.stripes@.contains_key(p) ==> self.stripes@[p].wf()
        &&& forall|t: TenantId| #[trigger] self.namespaces@.contains_key(t) ==> self.namespaces@[t].wf()
    }
}

impl View for Cluster {
    type V = ClusterView;

    open spec fn view(&self) -> ClusterView {
        ClusterView {
            tenants: self.tenants@,
            quotas: self.quotas@,
            placement: self.placement@,
            extents: self.tlc_extents@,
            bucket_count: self.parts.bucket_count(),
            shared: self.parts.shared(),
            running: self.parts.running(),
            qos: self.parts.qos(),
            stripes: self.parts.stripes(),
            namespaces: self.parts.namespaces(),
        }
    }
}

impl Cluster {
    /// Each part is well-formed.
    pub open spec fn parts_wf(&self) -> bool {
        &&& self.tenants.wf()
        &&& self.quotas.wf()
        &&& self.placement.wf()
        &&& self.tlc_extents.wf()
        &&& self.parts.wf()
    }

    /// Each part is well-formed, and they go together.
    pub open spec fn wf(&self) -> bool {
        self.parts_wf() && self@.in_order()
    }

    pub fn new(bucket_count: u32, tlc_extents: u64) -> (r: Self)
        ensures
            r.wf(),
            r@ == ClusterView::empty(bucket_count, tlc_extents),
            r@.accounted(),
    {
        let r = Cluster {
            tenants: TenantRegistry::new(),
            quotas: QuotaManager::new(),
            placement: PlacementEngine::new(150),
            tlc_extents: ExtentAllocator::new(tlc_extents, PoolWatermarks::default()),
            parts: Parts {
                router: BucketRouter::new(bucket_count),
                shared: SortedMap::new(),
                buckets: SortedMap::new(),
                tenant_qos: SortedMap::new(),
                stripes: SortedMap::new(),
                namespaces: SortedMap::new(),
            },
        };
        proof {
            let want = ClusterView::empty(bucket_count, tlc_extents);
            assert(r@.shared =~= want.shared);
            assert(r@.running =~= want.running);
            assert(r@.qos =~= want.qos);
            assert(r@.stripes =~= want.stripes);
            assert(r@.namespaces =~= want.namespaces);
            assert(want.held() =~= Set::empty());
        }
        r
    }

    pub fn add_pool(&mut self, state: PoolState)
        requires
            old(self).wf(),
        ensures
            final(self).wf(),
            final(self)@ == old(self)@.add_pool(state),
            old(self)@.accounted() ==> final(self)@.accounted(),
    {
        proof {
            accounts::lemma_nothing_moved(self@, self@.add_pool(state));
        }
        self.placement.upsert_pool(state);
        proof {
            old(self)@.lemma_in_order_unless(self@);
        }
    }

    /// Protects a pool with stripes and registers its fault domains, the storage
    /// nodes. Stripes are built strictly within the pool. A pool that is protected
    /// keeps its scheme.
    pub fn protect_pool(&mut self, pool: PoolId, scheme: ProtectionScheme, snodes: &[SNodeId])
        requires
            old(self).wf(),
        ensures
            final(self).wf(),
            final(self)@ == old(self)@.protect_pool(pool, scheme, snodes@),
            old(self)@.accounted() ==> final(self)@.accounted(),
    {
        proof {
            accounts::lemma_nothing_moved(self@, self@.protect_pool(pool, scheme, snodes@));
        }
        let ghost start = self@;
        if !self.parts.stripes.contains_key(&pool) {
            self.parts.stripes.insert(pool, StripeManager::new(pool, scheme));
            proof {
                protection_laws::law_new_pool_is_consistent(pool, scheme);
            }
        }
        let ghost first = if start.stripes.contains_key(pool) {
            start.stripes[pool]
        } else {
            no_stripes(pool, scheme)
        };
        let mut i: usize = 0;
        assert(self@.stripes =~= start.stripes.insert(pool, first));
        while i < snodes.len()
            invariant
                i <= snodes@.len(),
                self.parts_wf(),
                first == (if start.stripes.contains_key(pool) {
                    start.stripes[pool]
                } else {
                    no_stripes(pool, scheme)
                }),
                self@ == (ClusterView {
                    stripes: start.stripes.insert(pool, with_domains(first, snodes@, i as nat)),
                    ..start
                }),
                with_domains(first, snodes@, i as nat).consistent(),
            decreases snodes.len() - i,
        {
            let ghost now = with_domains(first, snodes@, i as nat);
            assert(self@.stripes.contains_key(pool));
            assert(self.parts.stripes@.contains_key(pool));
            assert(self.parts.stripes@[pool]@ == self@.stripes[pool]);
            let ghost before = self@;
            match self.parts.stripes.get_mut(&pool) {
                Some(m) => {
                    m.add_domain(snodes[i]);
                },
                None => {},
            }
            proof {
                protection_laws::law_add_domain_consistent(now, snodes@[i as int]);
                assert(self@.stripes =~= before.stripes.insert(pool, now.add_domain(snodes@[i as int])));
                assert(self@.stripes =~= start.stripes.insert(pool, with_domains(first, snodes@, (i + 1) as nat)));
            }
            i += 1;
        }
        proof {
            let last = with_domains(first, snodes@, snodes@.len());
            assert forall|p: PoolId| #[trigger] self@.stripes.contains_key(p) implies self@.stripes[p].consistent() by {
                if p != pool {
                    assert(start.stripes.contains_key(p));
                }
            }
            start.lemma_in_order_unless(self@);
        }
    }

    /// Creates a tenant, with its quota and its limits.
    pub fn create_tenant(&mut self, name: &str, quota: QuotaLimit, qos: QosSpec, placement: Placement) -> (r: Result<
        TenantId,
        Error,
    >)
        requires
            old(self).wf(),
            !old(self)@.tenants.name_taken(name@) ==> old(self)@.tenants.next_id < u32::MAX,
        ensures
            final(self).wf(),
            (final(self)@, types::outcome(r)) == old(self)@.create_tenant(name@, quota, qos, placement),
            old(self)@.accounted() ==> final(self)@.accounted(),
    {
        proof {
            accounts::lemma_nothing_moved(self@, self@.create_tenant(name@, quota, qos, placement).0);
        }
        let ghost start = self@;
        let r = self.tenants.create(TenantSpec { name: text::copy(name), placement });
        match r {
            Ok(id) => {
                self.quotas.set_tenant_limit(id, quota);
                self.parts.tenant_qos.insert(id, QosEntity::new(qos));
                proof {
                    assert(self@.qos =~= start.qos.insert(id, QosView::full(qos)));
                    start.lemma_in_order_unless(self@);
                }
                Ok(id)
            },
            Err(e) => {
                proof {
                    start.lemma_in_order_unless(self@);
                }
                Err(e)
            },
        }
    }

    /// Deletes a tenant: its key is destroyed, and its quota, limits and namespace
    /// are forgotten.
    pub fn delete_tenant(&mut self, tenant: TenantId) -> (r: Result<(), Error>)
        requires
            old(self).wf(),
        ensures
            final(self).wf(),
            (final(self)@, types::outcome(r)) == old(self)@.delete_tenant(tenant),
            old(self)@.accounted() ==> final(self)@.accounted(),
    {
        proof {
            accounts::law_delete_tenant_keeps_accounts(self@, tenant);
        }
        let ghost start = self@;
        match self.tenants.delete(tenant) {
            Ok(()) => {},
            Err(e) => {
                proof {
                    start.lemma_in_order_unless(self@);
                }
                return Err(e);
            },
        }
        self.quotas.remove_tenant(tenant);
        self.parts.tenant_qos.remove(&tenant);
        self.parts.namespaces.remove(&tenant);
        proof {
            assert(self@.qos =~= start.qos.remove(tenant));
            assert(self@.namespaces =~= start.namespaces.remove(tenant));
            assert forall|t: TenantId| #[trigger] self@.namespaces.contains_key(t) implies self@.namespace_in_order(
                t,
            ) by {
                assert(start.namespaces.contains_key(t));
                assert(start.namespace_in_order(t));
            }
            assert forall|t: TenantId, e: ExtentId| #[trigger] self@.holds(t, e) implies start.holds(t, e) by {}
            start.lemma_unshared_unless(self@);
            start.lemma_in_order_unless(self@);
        }
        Ok(())
    }

    /// The number of buckets that run.
    pub fn active_buckets(&self) -> (n: usize)
        requires
            self.wf(),
        ensures
            n == self@.running.dom().len(),
    {
        assert(self@.running.dom() =~= self.parts.buckets@.dom());
        self.parts.buckets.len()
    }
}

impl ClusterView {
    /// What is held depends on the namespaces only.
    pub proof fn lemma_same_held(self, after: ClusterView)
        requires
            after.namespaces == self.namespaces,
        ensures
            after.held() == self.held(),
    {
        assert forall|t: TenantId, e: ExtentId| #[trigger] after.holds(t, e) == self.holds(t, e) by {}
        assert forall|e: ExtentId| after.held().contains(e) <==> self.held().contains(e) by {
            if self.held().contains(e) {
                let t = choose|t: TenantId| #[trigger] self.holds(t, e);
                assert(after.holds(t, e));
            }
        }
        assert(after.held() =~= self.held());
    }

    /// Extents stay unshared if no more of them are referred to.
    pub proof fn lemma_unshared_unless(self, after: ClusterView)
        requires
            self.unshared(),
            forall|t: TenantId, e: ExtentId| #[trigger] after.holds(t, e) ==> self.holds(t, e),
        ensures
            after.unshared(),
    {
    }

    /// Extents stay accounted for if more of them are in use for data, or fewer
    /// referred to.
    pub proof fn lemma_accounted_unless(self, after: ClusterView)
        requires
            self.accounted(),
            after.extents.balanced(),
            after.extents.data_used >= self.extents.data_used,
            forall|t: TenantId, e: ExtentId| #[trigger] after.holds(t, e) ==> self.holds(t, e),
        ensures
            after.accounted(),
    {
        assert forall|e: ExtentId| #[trigger] after.held().contains(e) implies self.held().contains(e) by {
            let t = choose|t: TenantId| #[trigger] after.holds(t, e);
            assert(self.holds(t, e));
        }
        assert(after.held().subset_of(self.held()));
        vstd::set_lib::lemma_len_subset(after.held(), self.held());
    }

    /// A state stays in order if buckets stay as they are and stripes and
    /// namespaces stay in order.
    pub proof fn lemma_in_order_unless(self, after: ClusterView)
        requires
            self.in_order(),
            after.bucket_count == self.bucket_count,
            after.running == self.running,
            after.shared == self.shared,
            after.stripes == self.stripes || ({
                &&& after.stripes.dom().finite()
                &&& forall|p: PoolId| #[trigger] after.stripes.contains_key(p) ==> after.stripes[p].consistent()
            }),
            ({
                &&& after.namespaces == self.namespaces
                &&& after.extents.next_id >= self.extents.next_id
            }) || ({
                &&& forall|t: TenantId| #[trigger] after.namespaces.contains_key(t) ==> after.namespace_in_order(t)
                &&& after.unshared()
            }),
        ensures
            after.in_order(),
    {
        if !after.unshared() {
            assert forall|t: TenantId, e: ExtentId| #[trigger] after.holds(t, e) implies self.holds(t, e) by {}
            self.lemma_unshared_unless(after);
        }
        assert forall|b: BucketId| #[trigger] after.running.contains_key(b) implies after.bucket_in_order(b) by {
            assert(self.bucket_in_order(b));
        }
        assert forall|t: TenantId| #[trigger] after.namespaces.contains_key(t) implies after.namespace_in_order(t) by {
            if after.namespaces == self.namespaces && after.extents.next_id >= self.extents.next_id {
                assert(self.namespace_in_order(t));
                assert forall|e: ExtentId| #[trigger] after.namespaces[t].refcounts.contains_key(e) implies e.0
                    <= after.extents.next_id by {
                    assert(self.namespaces[t].refcounts.contains_key(e));
                }
            }
        }
        assert forall|p: PoolId| #[trigger] after.stripes.contains_key(p) implies after.stripes[p].consistent() by {
            if after.stripes == self.stripes {
                assert(self.stripes.contains_key(p));
            }
        }
    }
}

impl Cluster {
    /// Time passes: every tenant's tokens are refilled.
    pub fn tick(&mut self)
        requires
            old(self).wf(),
            old(self)@.can_tick(),
        ensures
            final(self).wf(),
            final(self)@ == old(self)@.tick(),
            old(self)@.accounted() ==> final(self)@.accounted(),
    {
        proof {
            accounts::lemma_nothing_moved(self@, self@.tick());
        }
        let ghost start = self@;
        let ghost ks = self.parts.tenant_qos.keys();
        let mut i: usize = 0;
        let n: usize = self.parts.tenant_qos.len();
        proof {
            self.parts.tenant_qos.lemma_entries();
            TenantId::lemma_order();
            crate::order::lemma_ranking_len(ks, self.parts.tenant_qos@.dom(), sorted_map::key_order::<TenantId>());
        }
        while i < n
            invariant
                n == ks.len(),
                i <= n,
                self.parts_wf(),
                ks == self.parts.tenant_qos.keys(),
                ks.no_duplicates(),
                self.parts.tenant_qos@.dom() == start.qos.dom(),
                self@ == (ClusterView { qos: self@.qos, ..start }),
                forall|t: TenantId| #[trigger] start.qos.contains_key(t) ==> start.qos[t].can_tick(),
                forall|k: int| 0 <= k < i ==> self@.qos[#[trigger] ks[k]] == start.qos[ks[k]].tick(),
                forall|k: int| i <= k < n ==> self@.qos[#[trigger] ks[k]] == start.qos[ks[k]],
            decreases n - i,
        {
            proof {
                self.parts.tenant_qos.lemma_entries();
            }
            let t: TenantId = *self.parts.tenant_qos.key_at(i);
            let ghost before = *self;
            assert(ks[i as int] == t);
            assert(self.parts.tenant_qos@.contains_key(ks[i as int]));
            assert(start.qos.contains_key(t));
            assert(self@.qos[t] == start.qos[t]);
            match self.parts.tenant_qos.get_mut(&t) {
                Some(q) => {
                    q.tick();
                },
                None => {},
            }
            proof {
                self.parts.tenant_qos.lemma_entries();
                assert(self.parts.tenant_qos@.dom() =~= before.parts.tenant_qos@.dom());
                assert(self@.qos =~= before@.qos.insert(t, start.qos[t].tick()));
            }
            i += 1;
        }
        proof {
            self.parts.tenant_qos.lemma_entries();
            assert forall|t: TenantId| #[trigger] start.qos.contains_key(t) implies self@.qos[t] == start.qos[t].tick() by {
                assert(self.parts.tenant_qos@.contains_key(t));
                let k = choose|k: int| 0 <= k < ks.len() && ks[k] == t;
                assert(self@.qos[ks[k]] == start.qos[ks[k]].tick());
            }
            assert(self@.qos =~= start.tick().qos);
            start.lemma_in_order_unless(self@);
        }
    }

    /// The bucket of a key, started if it does not run.
    fn bucket_for(&mut self, key: &MetaKey) -> (b: BucketId)
        requires
            old(self).wf(),
        ensures
            final(self).wf(),
            b == metadata::bucket_of(key@, old(self)@.bucket_count),
            final(self)@ == old(self)@.with_bucket(b),
    {
        let ghost start = self@;
        let id: BucketId = self.parts.router.route(key);
        if self.parts.buckets.contains_key(&id) {
            return id;
        }
        proof {
            assert(!start.running.dom().contains(id));
            assert(!start.shared.dom().contains(id));
        }
        let mut shared = SharedState::default();
        let process = BucketProcess::take_over(id, CNodeId(0), &mut shared);
        let ghost (p, s) = (process@, shared@);
        self.parts.shared.insert(id, shared);
        self.parts.buckets.insert(id, process);
        proof {
            assert(self@.shared =~= start.shared.insert(id, s));
            assert(self@.running =~= start.running.insert(id, p));
            start.lemma_with_bucket(id);
        }
        id
    }

    /// Admits a write: takes tokens, if the tenant's key is there.
    fn accept(&mut self, tenant: TenantId, size: u64) -> (r: Result<(), Error>)
        requires
            old(self).wf(),
        ensures
            final(self).wf(),
            (final(self)@, types::outcome(r)) == old(self)@.accept(tenant, size),
    {
        let ghost start = self@;
        match self.tenants.key(tenant) {
            Ok(_) => {},
            Err(e) => {
                return Err(e);
            },
        }
        let r = match self.parts.tenant_qos.get_mut(&tenant) {
            Some(q) => take_write_tokens(q, size),
            None => {
                return Err(Error::UnknownTenant(tenant));
            },
        };
        proof {
            assert(self@.qos =~= start.qos.insert(tenant, write_tokens(start.qos[tenant], size).0));
            start.lemma_in_order_unless(self@);
        }
        r
    }

    /// Reserves space for the data of a write.
    fn reserve_data(&mut self, tenant: TenantId, scope: &str, size: u64) -> (r: Result<
        (PoolId, ExtentId, Option<StripeId>),
        Error,
    >)
        requires
            old(self).wf(),
            old(self)@.can_reserve_data(tenant, scope@, size),
        ensures
            final(self).wf(),
            (final(self)@, types::outcome(r)) == old(self)@.reserve_data(tenant, scope@, size),
            r matches Ok((pool, extent, stripe)) ==> {
                &&& old(self)@.placement.pools.contains_key(pool)
                &&& old(self)@.placement.pools[pool].used < old(self)@.placement.pools[pool].capacity
                &&& final(self)@.placement == old(self)@.placement
                &&& extent.0 == final(self)@.extents.next_id
                &&& extent.0 > old(self)@.extents.next_id
                &&& final(self)@.namespaces == old(self)@.namespaces
                &&& final(self)@.extents.free < final(self)@.extents.total
                &&& final(self)@.extents.data_used == old(self)@.extents.data_used + 1
                &&& stripe is Some ==> final(self)@.stripes.contains_key(pool)
            },
    {
        let ghost start = self@;
        match self.quotas.charge(tenant, scope, size, 1) {
            Ok(()) => {},
            Err(e) => {
                proof {
                    start.lemma_in_order_unless(self@);
                }
                return Err(e);
            },
        }
        let placement = match self.tenants.placement(tenant) {
            Ok(p) => p,
            Err(e) => {
                proof {
                    start.lemma_in_order_unless(self@);
                }
                return Err(e);
            },
        };
        let dedicated = match placement {
            Placement::DedicatedPool(p) => Some(p),
            Placement::Shared => None,
        };
        let pool: PoolId = match self.placement.select_pool(MediaClass::TlcNvme, tenant, dedicated) {
            Ok(p) => p,
            Err(e) => {
                self.quotas.release(tenant, scope, size, 1);
                proof {
                    start.lemma_in_order_unless(self@);
                }
                return Err(e);
            },
        };
        proof {
            placement::law_selection(start.placement, MediaClass::TlcNvme, tenant, dedicated, pool);
        }
        let extent: ExtentId = match self.tlc_extents.allocate(Purpose::Data) {
            Ok((e, _)) => e,
            Err(e) => {
                self.quotas.release(tenant, scope, size, 1);
                proof {
                    start.lemma_in_order_unless(self@);
                }
                return Err(e);
            },
        };
        let placed = match self.parts.stripes.get_mut(&pool) {
            Some(m) => match m.place_stripe() {
                Ok((id, _)) => Ok(id),
                Err(e) => Err(e),
            },
            None => {
                proof {
                    start.lemma_in_order_unless(self@);
                }
                return Ok((pool, extent, None));
            },
        };
        proof {
            assert(start.stripes.contains_key(pool));
            let m = start.stripes[pool].place_stripe().0;
            protection_laws::law_place_stripe_consistent(start.stripes[pool]);
            assert(self@.stripes =~= start.stripes.insert(pool, m));
            assert forall|p: PoolId| #[trigger] self@.stripes.contains_key(p) implies self@.stripes[p].consistent() by {
                assert(start.stripes.contains_key(p));
            }
        }
        match placed {
            Ok(id) => {
                proof {
                    start.lemma_in_order_unless(self@);
                }
                Ok((pool, extent, Some(id)))
            },
            Err(e) => {
                self.tlc_extents.release(Purpose::Data);
                self.quotas.release(tenant, scope, size, 1);
                proof {
                    start.lemma_in_order_unless(self@);
                }
                Err(e)
            },
        }
    }

    /// Gives up the stripe that was placed for a write, if there was one.
    fn give_up_stripe(&mut self, pool: PoolId, stripe: Option<StripeId>)
        requires
            old(self).wf(),
            stripe is Some ==> old(self)@.stripes.contains_key(pool),
        ensures
            final(self).wf(),
            final(self)@ == (ClusterView { stripes: old(self)@.without_stripe(pool, stripe), ..old(self)@ }),
    {
        let ghost start = self@;
        if let Some(id) = stripe {
            match self.parts.stripes.get_mut(&pool) {
                Some(m) => {
                    let _ = m.release_stripe(id);
                },
                None => {},
            }
            proof {
                protection_laws::law_release_stripe_consistent(start.stripes[pool], id);
                assert(self@.stripes =~= start.without_stripe(pool, stripe));
                assert forall|p: PoolId| #[trigger] self@.stripes.contains_key(p) implies self@.stripes[p].consistent() by {
                    assert(start.stripes.contains_key(p));
                }
                start.lemma_in_order_unless(self@);
            }
        }
    }

    /// Reserves all that a write takes.
    fn reserve(&mut self, tenant: TenantId, scope: &str, size: u64) -> (r: Result<(PoolId, ExtentId), Error>)
        requires
            old(self).wf(),
            old(self)@.can_reserve(tenant, scope@, size),
        ensures
            final(self).wf(),
            (final(self)@, types::outcome(r)) == old(self)@.reserve(tenant, scope@, size),
            r matches Ok((pool, extent)) ==> {
                &&& old(self)@.placement.pools.contains_key(pool)
                &&& old(self)@.placement.pools[pool].used < old(self)@.placement.pools[pool].capacity
                &&& final(self)@.placement == old(self)@.placement
                &&& extent.0 <= final(self)@.extents.next_id
                &&& extent.0 > old(self)@.extents.next_id
                &&& final(self)@.namespaces == old(self)@.namespaces
                &&& final(self)@.extents.data_used == old(self)@.extents.data_used + 1
            },
    {
        let ghost start = self@;
        let (pool, extent, stripe) = match self.reserve_data(tenant, scope, size) {
            Ok(v) => v,
            Err(e) => {
                return Err(e);
            },
        };
        let ghost mid = self@;
        match self.tlc_extents.allocate(Purpose::Metadata) {
            Ok(_) => {
                proof {
                    mid.lemma_in_order_unless(self@);
                }
                Ok((pool, extent))
            },
            Err(e) => {
                self.give_up_stripe(pool, stripe);
                self.tlc_extents.release(Purpose::Data);
                self.quotas.release(tenant, scope, size, 1);
                proof {
                    let w = self@;
                    start.lemma_same_held(w);
                    assert forall|p: PoolId| #[trigger] w.stripes.contains_key(p) implies w.stripes[p].consistent() by {
                        assert(mid.stripes.contains_key(p));
                        assert(mid.without_stripe(pool, stripe) == w.stripes);
                        if let Some(id) = stripe {
                            protection_laws::law_release_stripe_consistent(mid.stripes[pool], id);
                        }
                    }
                    start.lemma_in_order_unless(w);
                }
                Err(e)
            },
        }
    }

    /// Records a write.
    fn record(&mut self, tenant: TenantId, key: &str, size: u64, pool: PoolId, extent: ExtentId) -> (r: Result<
        (),
        Error,
    >)
        requires
            old(self).wf(),
            old(self)@.placement.pools.contains_key(pool) ==> old(self)@.placement.pools[pool].used < u64::MAX,
            extent.0 <= old(self)@.extents.next_id,
            !old(self)@.held().contains(extent),
        ensures
            final(self).wf(),
            (final(self)@, types::outcome(r)) == old(self)@.record(tenant, key@, size, pool, extent),
    {
        let ghost start = self@;
        match self.placement.commit(pool, 1) {
            Ok(()) => {},
            Err(e) => {
                proof {
                    start.lemma_in_order_unless(self@);
                }
                return Err(e);
            },
        }
        proof {
            start.lemma_in_order_unless(self@);
        }
        let meta_key = MetaKey::new(tenant, key);
        let bucket: BucketId = self.bucket_for(&meta_key);
        let ghost mid = self@;
        let ghost mk = meta_key@;
        let ghost put = RecordView::Put { key: mk, value: bytes::be64(size) };
        proof {
            start.lemma_bucket_runs(bucket);
            assert(mid.running.contains_key(bucket) && mid.bucket_in_order(bucket));
        }
        let written = match self.parts.shared.get_mut(&bucket) {
            Some(shared) => match self.parts.buckets.get_mut(&bucket) {
                Some(p) => p.put(shared, meta_key, bytes::be64_bytes(size)),
                None => Err(Error::BucketUnavailable(bucket)),
            },
            None => Err(Error::BucketUnavailable(bucket)),
        };
        proof {
            let (p, s, w) = mid.running[bucket].append(mid.shared[bucket], put);
            start.lemma_same_held(self@);
            assert(self@.running =~= mid.running.insert(bucket, p));
            assert(self@.shared =~= mid.shared.insert(bucket, s));
            mid.lemma_after_append(bucket, put, self@);
        }
        match written {
            Ok(()) => {},
            Err(e) => {
                return Err(e);
            },
        }
        self.write_version(tenant, key, extent)
    }

    /// Writes a version of an object into the tenant's namespace.
    fn write_version(&mut self, tenant: TenantId, key: &str, extent: ExtentId) -> (r: Result<(), Error>)
        requires
            old(self).wf(),
            extent.0 <= old(self)@.extents.next_id,
            !old(self)@.held().contains(extent),
        ensures
            final(self).wf(),
            ({
                let (n, w) = old(self)@.namespace(tenant).write(
                    HeadId(0),
                    vstd::utf8::encode_utf8(key@),
                    Some(extent),
                );
                &&& final(self)@ == (ClusterView {
                    namespaces: old(self)@.namespaces.insert(tenant, n),
                    ..old(self)@
                })
                &&& types::outcome(r) == w
            }),
    {
        let ghost start = self@;
        self.open_namespace(tenant);
        let ghost ns = self@.namespaces[tenant];
        assert(ns.refcount(extent) == 0) by {
            if ns.refcounts.contains_key(extent) {
                assert(start.holds(tenant, extent));
            }
        }
        assert(self.parts.namespaces@.contains_key(tenant));
        assert(self.parts.namespaces@[tenant]@ == ns);
        let ghost before = self@;
        let r = match self.parts.namespaces.get_mut(&tenant) {
            Some(ns) => {
                let head = ns.live_head();
                ns.put(head, key, extent)
            },
            None => Err(Error::UnknownTenant(tenant)),
        };
        proof {
            let k = vstd::utf8::encode_utf8(key@);
            let n = ns.write(HeadId(0), k, Some(extent)).0;
            assert(self@.namespaces =~= before.namespaces.insert(tenant, n));
            assert(self@.namespaces =~= start.namespaces.insert(tenant, n));
            assert(start.with_namespace(tenant).namespace_in_order(tenant));
            snapshot_laws::law_write_consistent(ns, HeadId(0), k, Some(extent));
            assert forall|t: TenantId| #[trigger] self@.namespaces.contains_key(t) implies self@.namespace_in_order(
                t,
            ) by {
                if t != tenant {
                    assert(start.namespaces.contains_key(t));
                    assert(start.namespace_in_order(t));
                } else {
                    assert forall|e: ExtentId| #[trigger] self@.namespaces[t].refcounts.contains_key(e) implies e.0
                        <= self@.extents.next_id by {
                        if e != extent {
                            assert(ns.refcounts.contains_key(e));
                        }
                    }
                }
            }
            start.lemma_one_more_unshared(tenant, extent, self@);
            start.lemma_in_order_unless(self@);
        }
        r
    }

    /// Makes sure that a tenant has a namespace.
    fn open_namespace(&mut self, tenant: TenantId)
        requires
            old(self).wf(),
        ensures
            final(self).wf(),
            final(self)@ == old(self)@.with_namespace(tenant),
            final(self)@.namespaces.contains_key(tenant),
    {
        let ghost start = self@;
        if !self.parts.namespaces.contains_key(&tenant) {
            self.parts.namespaces.insert(tenant, VersionedNamespace::new());
        }
        proof {
            assert(self@.namespaces =~= start.with_namespace(tenant).namespaces);
            start.lemma_with_namespace(tenant);
        }
    }

    /// Writes an object: the whole foreground path.
    pub fn put_object(&mut self, tenant: TenantId, scope: &str, key: &str, size_bytes: u64) -> (r: Result<(), Error>)
        requires
            old(self).wf(),
            old(self)@.can_put(tenant, scope@, size_bytes),
        ensures
            final(self).wf(),
            (final(self)@, types::outcome(r)) == old(self)@.put_object(tenant, scope@, key@, size_bytes),
            old(self)@.accounted() ==> final(self)@.accounted(),
    {
        proof {
            accounts::law_put_keeps_accounts(self@, tenant, scope@, key@, size_bytes);
        }
        match self.accept(tenant, size_bytes) {
            Ok(()) => {},
            Err(e) => {
                return Err(e);
            },
        }
        let ghost admitted = self@;
        match self.reserve(tenant, scope, size_bytes) {
            Ok((pool, extent)) => {
                proof {
                    admitted.lemma_same_held(self@);
                    if admitted.held().contains(extent) {
                        let t = choose|t: TenantId| #[trigger] admitted.holds(t, extent);
                        assert(admitted.namespace_in_order(t));
                    }
                }
                self.record(tenant, key, size_bytes, pool, extent)
            },
            Err(e) => Err(e),
        }
    }

    /// Looks an object up: its size.
    pub fn stat(&mut self, tenant: TenantId, key: &str) -> (r: Result<u64, Error>)
        requires
            old(self).wf(),
        ensures
            final(self).wf(),
            (final(self)@, types::outcome(r)) == old(self)@.stat(tenant, key@),
            old(self)@.accounted() ==> final(self)@.accounted(),
    {
        proof {
            accounts::law_stat_keeps_accounts(self@, tenant, key@);
        }
        let ghost start = self@;
        match self.tenants.key(tenant) {
            Ok(_) => {},
            Err(e) => {
                return Err(e);
            },
        }
        match self.take_lookup_token(tenant) {
            Ok(()) => {},
            Err(e) => {
                return Err(e);
            },
        }
        let meta_key = MetaKey::new(tenant, key);
        let ghost mid = self@;
        let bucket: BucketId = self.bucket_for(&meta_key);
        proof {
            mid.lemma_bucket_runs(bucket);
            assert(self@.running.contains_key(bucket) && self@.bucket_in_order(bucket));
        }
        let found = match self.parts.buckets.get(&bucket) {
            Some(p) => p.get(&meta_key),
            None => None,
        };
        match found {
            Some(v) => {
                assert(self@.running[bucket].entries.contains_key(meta_key@));
                Ok(bytes::read_be64(v.as_slice()))
            },
            None => Err(Error::Invalid(text::join("not found: ", key))),
        }
    }

    /// Takes one token for a metadata operation.
    fn take_lookup_token(&mut self, tenant: TenantId) -> (r: Result<(), Error>)
        requires
            old(self).wf(),
        ensures
            final(self).wf(),
            (final(self)@, types::outcome(r)) == old(self)@.lookup_token(tenant),
    {
        let ghost start = self@;
        let r = match self.parts.tenant_qos.get_mut(&tenant) {
            Some(q) => q.acquire(Dimension::MetadataIops, 1, Priority::Foreground),
            None => {
                return Err(Error::UnknownTenant(tenant));
            },
        };
        proof {
            let q = start.qos[tenant].acquire(Dimension::MetadataIops, 1, Priority::Foreground).0;
            assert(self@.qos =~= start.qos.insert(tenant, q));
            start.lemma_in_order_unless(self@);
        }
        r
    }
}

/// Takes the tokens for a write.
fn take_write_tokens(q: &mut QosEntity, size: u64) -> (r: Result<(), Error>)
    requires
        old(q).wf(),
    ensures
        final(q).wf(),
        (final(q)@, types::outcome(r)) == write_tokens(old(q)@, size),
{
    match q.acquire(Dimension::MetadataIops, 1, Priority::Foreground) {
        Ok(()) => {},
        Err(e) => {
            return Err(e);
        },
    }
    match q.acquire(Dimension::DataIops, 1, Priority::Foreground) {
        Ok(()) => {},
        Err(e) => {
            return Err(e);
        },
    }
    q.acquire(Dimension::DataBw, size, Priority::Foreground)
}

impl ClusterView {
    /// The state after one token for a metadata operation was asked for.
    pub open spec fn lookup_token(self, tenant: TenantId) -> (ClusterView, Result<(), ErrorView>) {
        if !self.qos.contains_key(tenant) {
            (self, Err(ErrorView::UnknownTenant(tenant)))
        } else {
            let (q, r) = self.qos[tenant].acquire(Dimension::MetadataIops, 1, Priority::Foreground);
            (ClusterView { qos: self.qos.insert(tenant, q), ..self }, r)
        }
    }

    pub open spec fn stat(self, tenant: TenantId, key: Seq<char>) -> (ClusterView, Result<u64, ErrorView>) {
        match self.tenants.key(tenant) {
            Err(e) => (self, Err(e)),
            Ok(_) => {
                let (s, granted) = self.lookup_token(tenant);
                match granted {
                    Err(e) => (s, Err(e)),
                    Ok(_) => {
                        let b = s.bucket_of(tenant, key);
                        let t = s.with_bucket(b);
                        let entries = t.running[b].entries;
                        let k = object_key(tenant, key);
                        (
                            t,
                            if entries.contains_key(k) {
                                Ok(bytes::from_be64(entries[k]) as u64)
                            } else {
                                Err(ErrorView::Invalid("not found: "@ + key))
                            },
                        )
                    },
                }
            },
        }
    }

    /// The state with a namespace for a tenant.
    pub open spec fn with_namespace(self, tenant: TenantId) -> ClusterView {
        ClusterView { namespaces: self.namespaces.insert(tenant, self.namespace(tenant)), ..self }
    }

    /// Opening a namespace keeps a state in order.
    proof fn lemma_with_namespace(self, tenant: TenantId)
        requires
            self.in_order(),
        ensures
            self.with_namespace(tenant).in_order(),
    {
        let after = self.with_namespace(tenant);
        snapshot_laws::law_empty_is_consistent();
        assert forall|t: TenantId| #[trigger] after.namespaces.contains_key(t) implies after.namespace_in_order(t) by {
            if self.namespaces.contains_key(t) {
                assert(self.namespace_in_order(t));
            }
        }
        assert forall|t: TenantId, e: ExtentId| #[trigger] after.holds(t, e) implies self.holds(t, e) by {}
        self.lemma_unshared_unless(after);
        self.lemma_in_order_unless(after);
    }

    /// With one more extent referred to, a new one, extents stay unshared.
    pub proof fn lemma_one_more_unshared(self, tenant: TenantId, extent: ExtentId, after: ClusterView)
        requires
            self.unshared(),
            !self.held().contains(extent),
            forall|t: TenantId, e: ExtentId| #[trigger]
                after.holds(t, e) ==> self.holds(t, e) || (t == tenant && e == extent),
        ensures
            after.unshared(),
    {
        assert forall|t: TenantId| !#[trigger] self.holds(t, extent) by {}
    }

    /// With one more extent referred to, and one more in use, extents stay accounted
    /// for.
    pub proof fn lemma_one_more_accounted(self, tenant: TenantId, extent: ExtentId, after: ClusterView)
        requires
            self.accounted(),
            after.extents.balanced(),
            after.extents.data_used >= self.extents.data_used + 1,
            forall|t: TenantId, e: ExtentId| #[trigger]
                after.holds(t, e) ==> self.holds(t, e) || (t == tenant && e == extent),
        ensures
            after.accounted(),
    {
        let more = self.held().insert(extent);
        assert forall|e: ExtentId| #[trigger] after.held().contains(e) implies more.contains(e) by {
            let t = choose|t: TenantId| #[trigger] after.holds(t, e);
            if e != extent {
                assert(self.holds(t, e));
            }
        }
        assert(after.held().subset_of(more));
        vstd::set_lib::lemma_len_subset(after.held(), more);
    }

    /// Starting a bucket keeps a state in order.
    pub proof fn lemma_with_bucket(self, b: BucketId)
        requires
            self.in_order(),
        ensures
            self.with_bucket(b).in_order(),
    {
        let after = self.with_bucket(b);
        if !self.running.contains_key(b) {
            assert(!self.shared.dom().contains(b));
            assert(after.running.dom() =~= after.shared.dom());
            assert forall|x: BucketId| #[trigger] after.running.contains_key(x) implies after.bucket_in_order(x) by {
                if x != b {
                    assert(self.running.contains_key(x));
                    assert(self.bucket_in_order(x));
                }
            }
            assert forall|t: TenantId| #[trigger] after.namespaces.contains_key(t) implies after.namespace_in_order(
                t,
            ) by {
                assert(self.namespace_in_order(t));
            }
            assert forall|p: PoolId| #[trigger] after.stripes.contains_key(p) implies after.stripes[p].consistent() by {
                assert(self.stripes.contains_key(p));
            }
            assert forall|t: TenantId, e: ExtentId| #[trigger] after.holds(t, e) implies self.holds(t, e) by {}
            self.lemma_unshared_unless(after);
        }
    }

    /// A bucket that was started runs.
    proof fn lemma_bucket_runs(self, b: BucketId)
        ensures
            self.with_bucket(b).running.contains_key(b),
    {
    }

    /// A write to a bucket keeps a state in order.
    pub proof fn lemma_after_append(self, b: BucketId, put: RecordView, after: ClusterView)
        requires
            self.in_order(),
            self.running.contains_key(b),
            put is Put,
            put->value.len() == 8,
            after.bucket_count == self.bucket_count,
            after.stripes == self.stripes,
            after.namespaces == self.namespaces,
            after.extents.next_id >= self.extents.next_id,
            after.running == self.running.insert(b, self.running[b].append(self.shared[b], put).0),
            after.shared == self.shared.insert(b, self.running[b].append(self.shared[b], put).1),
        ensures
            after.in_order(),
    {
        assert(self.bucket_in_order(b));
        metadata::law_writer_stays_in_step(b, CNodeId(0), self.running[b], self.shared[b], put);
        assert(after.running.dom() =~= self.running.dom());
        assert(after.shared.dom() =~= self.shared.dom());
        assert forall|x: BucketId| #[trigger] after.running.contains_key(x) implies after.bucket_in_order(x) by {
            assert(self.running.contains_key(x));
            assert(self.bucket_in_order(x));
            if x == b {
                assert forall|k: MetaKeyView| #[trigger] after.running[x].entries.contains_key(k) implies
                    after.running[x].entries[k].len() == 8 by {
                    if k != put->Put_key {
                        assert(self.running[x].entries.contains_key(k));
                    }
                }
            }
        }
        assert forall|t: TenantId| #[trigger] after.namespaces.contains_key(t) implies after.namespace_in_order(t) by {
            assert(self.namespace_in_order(t));
            assert forall|e: ExtentId| #[trigger] after.namespaces[t].refcounts.contains_key(e) implies e.0
                <= after.extents.next_id by {
                assert(self.namespaces[t].refcounts.contains_key(e));
            }
        }
        assert forall|p: PoolId| #[trigger] after.stripes.contains_key(p) implies after.stripes[p].consistent() by {
            assert(self.stripes.contains_key(p));
        }
        assert forall|t: TenantId, e: ExtentId| #[trigger] after.holds(t, e) implies self.holds(t, e) by {}
        self.lemma_unshared_unless(after);
    }
}

/// The pool after `n` data extents came back.
pub open spec fn after_releases(extents: AllocatorView, n: nat) -> AllocatorView
    decreases n,
{
    if n == 0 {
        extents
    } else {
        after_releases(extents, (n - 1) as nat).release(Purpose::Data)
    }
}

/// What comes back is free again, up to all there is.
pub proof fn lemma_releases(a: AllocatorView, n: nat)
    requires
        a.free <= a.total,
    ensures
        ({
            let w = after_releases(a, n);
            &&& w.free == (if a.free + n <= a.total { a.free + n } else { a.total as int })
            &&& w.data_used == (if n <= a.data_used { a.data_used - n } else { 0 })
            &&& w == (AllocatorView { free: w.free, data_used: w.data_used, ..a })
        }),
    decreases n,
{
    if n > 0 {
        lemma_releases(a, (n - 1) as nat);
    }
}

/// The stripes of a pool after the first `n` tasks of a plan, or up to the first
/// that fails.
pub open spec fn after_rebuilds(v: StripesView, tasks: Seq<TaskView>, n: nat) -> (StripesView, Result<(), ErrorView>)
    decreases n,
{
    if n == 0 {
        (v, Ok(()))
    } else {
        let (w, r) = after_rebuilds(v, tasks, (n - 1) as nat);
        match r {
            Err(e) => (w, Err(e)),
            Ok(_) => w.apply_rebuild(tasks[n - 1]),
        }
    }
}

/// A pool rebuilt: planned, and carried out.
pub open spec fn rebuilt_pool(v: StripesView, cnodes: Seq<CNodeId>) -> (StripesView, Result<nat, ErrorView>) {
    match v.plan_rebuild(cnodes) {
        Err(e) => (v, Err(e)),
        Ok(tasks) => {
            let (w, r) = after_rebuilds(v, tasks, tasks.len());
            (
                w,
                match r {
                    Err(e) => Err(e),
                    Ok(_) => Ok(tasks.len()),
                },
            )
        },
    }
}

impl ClusterView {
    pub open spec fn create_snapshot(self, tenant: TenantId, name: Seq<char>) -> (
        ClusterView,
        Result<SnapshotId, ErrorView>,
    ) {
        match self.tenants.key(tenant) {
            Err(e) => (self, Err(e)),
            Ok(_) => {
                let (n, r) = self.namespace(tenant).create_snapshot(HeadId(0), name);
                (ClusterView { namespaces: self.namespaces.insert(tenant, n), ..self }, r)
            },
        }
    }

    pub open spec fn stat_at(self, tenant: TenantId, snap: SnapshotId, key: Seq<char>) -> (
        ClusterView,
        Result<ExtentId, ErrorView>,
    ) {
        let (s, granted) = self.lookup_token(tenant);
        match granted {
            Err(e) => (s, Err(e)),
            Ok(_) => match self.tenants.key(tenant) {
                Err(e) => (s, Err(e)),
                Ok(_) => (
                    s.with_namespace(tenant),
                    match self.namespace(tenant).get_at(snap, vstd::utf8::encode_utf8(key)) {
                        Err(e) => Err(e),
                        Ok(None) => Err(ErrorView::Invalid("not found in snapshot: "@ + key)),
                        Ok(Some(e)) => Ok(e),
                    },
                ),
            },
        }
    }

    pub open spec fn clone_snapshot(self, tenant: TenantId, snap: SnapshotId) -> (
        ClusterView,
        Result<HeadId, ErrorView>,
    ) {
        match self.tenants.key(tenant) {
            Err(e) => (self, Err(e)),
            Ok(_) => {
                let (n, r) = self.namespace(tenant).clone_from(snap);
                (ClusterView { namespaces: self.namespaces.insert(tenant, n), ..self }, r)
            },
        }
    }

    pub open spec fn delete_snapshot(self, tenant: TenantId, snap: SnapshotId) -> (
        ClusterView,
        Result<nat, ErrorView>,
    ) {
        match self.tenants.key(tenant) {
            Err(e) => (self, Err(e)),
            Ok(_) => {
                let (n, r) = self.namespace(tenant).delete_snapshot(snap);
                let s = ClusterView { namespaces: self.namespaces.insert(tenant, n), ..self };
                match r {
                    Err(e) => (s, Err(e)),
                    Ok(freed) => (
                        ClusterView { extents: after_releases(s.extents, freed.len()), ..s },
                        Ok(freed.len()),
                    ),
                }
            },
        }
    }

    /// Whether the count of free extents fits when a snapshot is deleted.
    pub open spec fn can_delete_snapshot(self, tenant: TenantId, snap: SnapshotId) -> bool {
        self.tenants.key(tenant) is Ok ==> {
            let (n, r) = self.namespace(tenant).delete_snapshot(snap);
            r matches Ok(freed) ==> self.extents.total < u64::MAX || self.extents.free + freed.len() <= u64::MAX
        }
    }

    pub open spec fn fail_snode(self, snode: SNodeId) -> ClusterView {
        ClusterView {
            stripes: self.stripes.map_values(
                |v: StripesView| StripesView { failed: v.failed.insert(snode), ..v },
            ),
            ..self
        }
    }

    /// How many stripes, in the first `n` pools listed, have a shard on a node.
    pub open spec fn stripes_with(self, snode: SNodeId, pools: Seq<PoolId>, n: nat) -> nat
        decreases n,
    {
        if n == 0 {
            0
        } else {
            self.stripes_with(snode, pools, (n - 1) as nat) + self.stripes[pools[n - 1]].listed(snode).len()
        }
    }

    /// The protected pools by number.
    pub open spec fn protected_pools(self) -> Seq<PoolId> {
        sorted_map::in_order::<PoolId>(self.stripes.dom())
    }

    /// The stripes after the first `n` pools listed were rebuilt, or up to the first
    /// that fails; and how many stripes that rebuilt.
    pub open spec fn rebuilt_pools(self, cnodes: Seq<CNodeId>, pools: Seq<PoolId>, n: nat) -> (
        Map<PoolId, StripesView>,
        Result<nat, ErrorView>,
    )
        decreases n,
    {
        if n == 0 {
            (self.stripes, Ok(0))
        } else {
            let (done, r) = self.rebuilt_pools(cnodes, pools, (n - 1) as nat);
            match r {
                Err(e) => (done, Err(e)),
                Ok(count) => {
                    let p = pools[n - 1];
                    let (v, more) = rebuilt_pool(done[p], cnodes);
                    (
                        done.insert(p, v),
                        match more {
                            Err(e) => Err(e),
                            Ok(k) => Ok(count + k),
                        },
                    )
                },
            }
        }
    }

    pub open spec fn rebuild(self, cnodes: Seq<CNodeId>) -> (ClusterView, Result<nat, ErrorView>) {
        let pools = self.protected_pools();
        let (stripes, r) = self.rebuilt_pools(cnodes, pools, pools.len());
        (ClusterView { stripes, ..self }, r)
    }

    /// Whether the count of rebuilt stripes fits.
    pub open spec fn can_rebuild(self, cnodes: Seq<CNodeId>) -> bool {
        forall|n: nat|
            n <= self.protected_pools().len() ==> (#[trigger] self.rebuilt_pools(
                cnodes,
                self.protected_pools(),
                n,
            ).1 matches Ok(count) ==> count <= usize::MAX)
    }
}

/// Carrying a plan out in a consistent pool always works.
pub proof fn lemma_after_rebuilds(v: StripesView, cnodes: Seq<CNodeId>, n: nat)
    requires
        v.consistent(),
        v.plan_rebuild(cnodes) is Ok,
        n <= v.plan_rebuild(cnodes)->Ok_0.len(),
    ensures
        ({
            let tasks = v.plan_rebuild(cnodes)->Ok_0;
            &&& after_rebuilds(v, tasks, n) == (protection_laws::after_tasks(v, tasks, n), Ok::<(), ErrorView>(()))
            &&& n < tasks.len() ==> protection_laws::after_tasks(v, tasks, n).targets_known(tasks[n as int])
        }),
    decreases n,
{
    let tasks = v.plan_rebuild(cnodes)->Ok_0;
    protection_laws::law_plan_can_be_carried_out(v, cnodes);
    if n > 0 {
        lemma_after_rebuilds(v, cnodes, (n - 1) as nat);
        let mid = protection_laws::after_tasks(v, tasks, (n - 1) as nat);
        assert(mid.apply_rebuild(tasks[n - 1]).1 is Ok);
    }
    if n < tasks.len() {
        assert(protection_laws::after_tasks(v, tasks, n as nat).targets_known(tasks[n as int]));
    }
}

/// A rebuilt pool stays consistent, and the rebuild works if the plan could be made.
proof fn lemma_rebuilt_pool(v: StripesView, cnodes: Seq<CNodeId>)
    requires
        v.consistent(),
    ensures
        rebuilt_pool(v, cnodes).0.consistent(),
        rebuilt_pool(v, cnodes).1 is Ok <==> v.plan_rebuild(cnodes) is Ok,
{
    if v.plan_rebuild(cnodes) is Ok {
        let tasks = v.plan_rebuild(cnodes)->Ok_0;
        protection_laws::law_plan_can_be_carried_out(v, cnodes);
        lemma_after_rebuilds(v, cnodes, tasks.len());
    }
}

/// Rebuilds a pool.
fn rebuild_pool(m: &mut StripeManager, cnodes: &[CNodeId]) -> (r: Result<usize, Error>)
    requires
        old(m).wf(),
        old(m)@.consistent(),
    ensures
        final(m).wf(),
        final(m)@ == rebuilt_pool(old(m)@, cnodes@).0,
        match r {
            Ok(n) => rebuilt_pool(old(m)@, cnodes@).1 == Ok::<nat, ErrorView>(n as nat),
            Err(e) => rebuilt_pool(old(m)@, cnodes@).1 == Err::<nat, _>(e@),
        },
{
    let ghost start = m@;
    let tasks = match m.plan_rebuild(cnodes) {
        Ok(v) => v,
        Err(e) => {
            return Err(e);
        },
    };
    let ghost plan = crate::protection::task_views(tasks@);
    let mut i: usize = 0;
    while i < tasks.len()
        invariant
            m.wf(),
            i <= tasks@.len(),
            start == old(m)@,
            start.consistent(),
            plan == crate::protection::task_views(tasks@),
            start.plan_rebuild(cnodes@) == Ok::<_, ErrorView>(plan),
            after_rebuilds(start, plan, i as nat) == (m@, Ok::<(), ErrorView>(())),
        decreases tasks.len() - i,
    {
        proof {
            lemma_after_rebuilds(start, cnodes@, i as nat);
            lemma_after_rebuilds(start, cnodes@, (i + 1) as nat);
            assert(plan[i as int] == tasks@[i as int]@);
        }
        match m.apply_rebuild(&tasks[i]) {
            Ok(()) => {},
            Err(e) => {
                return Err(e);
            },
        }
        i += 1;
    }
    Ok(tasks.len())
}

impl Cluster {
    /// Takes a snapshot of a tenant's namespace. One step of metadata.
    pub fn create_snapshot(&mut self, tenant: TenantId, name: &str) -> (r: Result<SnapshotId, Error>)
        requires
            old(self).wf(),
            old(self)@.tenants.key(tenant) is Ok ==> {
                &&& old(self)@.namespace(tenant).next_snapshot < u32::MAX
                &&& old(self)@.namespace(tenant).next_gen < u64::MAX
            },
        ensures
            final(self).wf(),
            (final(self)@, types::outcome(r)) == old(self)@.create_snapshot(tenant, name@),
            old(self)@.accounted() ==> final(self)@.accounted(),
    {
        proof {
            accounts::law_create_snapshot_keeps_accounts(self@, tenant, name@);
        }
        let ghost start = self@;
        match self.tenants.key(tenant) {
            Ok(_) => {},
            Err(e) => {
                return Err(e);
            },
        }
        self.open_namespace(tenant);
        let ghost before = self@;
        let ghost ns = self@.namespaces[tenant];
        assert(self.parts.namespaces@[tenant]@ == ns);
        let r = match self.parts.namespaces.get_mut(&tenant) {
            Some(ns) => {
                let head = ns.live_head();
                ns.create_snapshot(head, name)
            },
            None => Err(Error::UnknownTenant(tenant)),
        };
        proof {
            let n = ns.create_snapshot(HeadId(0), name@).0;
            assert(self@.namespaces =~= before.namespaces.insert(tenant, n));
            assert(self@.namespaces =~= start.namespaces.insert(tenant, n));
            assert(before.namespace_in_order(tenant));
            snapshot_laws::law_create_snapshot_consistent(ns, HeadId(0), name@);
            start.lemma_namespace_changed(tenant, n, self@);
        }
        r
    }

    /// Looks an object up in a snapshot: where its data is.
    pub fn stat_at(&mut self, tenant: TenantId, snap: SnapshotId, key: &str) -> (r: Result<ExtentId, Error>)
        requires
            old(self).wf(),
        ensures
            final(self).wf(),
            (final(self)@, types::outcome(r)) == old(self)@.stat_at(tenant, snap, key@),
            old(self)@.accounted() ==> final(self)@.accounted(),
    {
        proof {
            accounts::law_stat_at_keeps_accounts(self@, tenant, snap, key@);
        }
        match self.take_lookup_token(tenant) {
            Ok(()) => {},
            Err(e) => {
                return Err(e);
            },
        }
        match self.tenants.key(tenant) {
            Ok(_) => {},
            Err(e) => {
                return Err(e);
            },
        }
        self.open_namespace(tenant);
        assert(self.parts.namespaces@[tenant]@ == self@.namespaces[tenant]);
        let found = match self.parts.namespaces.get(&tenant) {
            Some(ns) => ns.get_at(snap, key.as_bytes()),
            None => Err(Error::UnknownTenant(tenant)),
        };
        match found {
            Ok(Some(e)) => Ok(e),
            Ok(None) => Err(Error::Invalid(text::join("not found in snapshot: ", key))),
            Err(e) => Err(e),
        }
    }

    /// Branches a writable clone off a snapshot.
    pub fn clone_snapshot(&mut self, tenant: TenantId, snap: SnapshotId) -> (r: Result<HeadId, Error>)
        requires
            old(self).wf(),
            old(self)@.tenants.key(tenant) is Ok && old(self)@.namespace(tenant).snapshots.contains_key(snap) ==> {
                &&& old(self)@.namespace(tenant).next_head < u32::MAX
                &&& old(self)@.namespace(tenant).next_gen < u64::MAX
            },
        ensures
            final(self).wf(),
            (final(self)@, types::outcome(r)) == old(self)@.clone_snapshot(tenant, snap),
            old(self)@.accounted() ==> final(self)@.accounted(),
    {
        proof {
            accounts::law_clone_snapshot_keeps_accounts(self@, tenant, snap);
        }
        let ghost start = self@;
        match self.tenants.key(tenant) {
            Ok(_) => {},
            Err(e) => {
                return Err(e);
            },
        }
        self.open_namespace(tenant);
        let ghost before = self@;
        let ghost ns = self@.namespaces[tenant];
        assert(self.parts.namespaces@[tenant]@ == ns);
        let r = match self.parts.namespaces.get_mut(&tenant) {
            Some(ns) => ns.clone_from(snap),
            None => Err(Error::UnknownTenant(tenant)),
        };
        proof {
            let n = ns.clone_from(snap).0;
            assert(self@.namespaces =~= before.namespaces.insert(tenant, n));
            assert(self@.namespaces =~= start.namespaces.insert(tenant, n));
            assert(before.namespace_in_order(tenant));
            if ns.snapshots.contains_key(snap) {
                snapshot_laws::law_clone_consistent(ns, snap);
            }
            start.lemma_namespace_changed(tenant, n, self@);
        }
        r
    }

    /// Deletes a snapshot: the extents that no view refers to any more go back to
    /// the pool. Returns how many.
    pub fn delete_snapshot(&mut self, tenant: TenantId, snap: SnapshotId) -> (r: Result<usize, Error>)
        requires
            old(self).wf(),
            old(self)@.can_delete_snapshot(tenant, snap),
        ensures
            final(self).wf(),
            final(self)@ == old(self)@.delete_snapshot(tenant, snap).0,
            match r {
                Ok(n) => old(self)@.delete_snapshot(tenant, snap).1 == Ok::<nat, ErrorView>(n as nat),
                Err(e) => old(self)@.delete_snapshot(tenant, snap).1 == Err::<nat, _>(e@),
            },
            old(self)@.accounted() ==> final(self)@.accounted(),
    {
        proof {
            accounts::law_delete_snapshot_keeps_accounts(self@, tenant, snap);
        }
        let ghost start = self@;
        match self.tenants.key(tenant) {
            Ok(_) => {},
            Err(e) => {
                return Err(e);
            },
        }
        self.open_namespace(tenant);
        let ghost before = self@;
        let ghost ns = self@.namespaces[tenant];
        assert(self.parts.namespaces@[tenant]@ == ns);
        let deleted = match self.parts.namespaces.get_mut(&tenant) {
            Some(ns) => ns.delete_snapshot(snap),
            None => Err(Error::UnknownTenant(tenant)),
        };
        let ghost n = ns.delete_snapshot(snap).0;
        proof {
            assert(self@.namespaces =~= before.namespaces.insert(tenant, n));
            assert(self@.namespaces =~= start.namespaces.insert(tenant, n));
            start.lemma_after_deletion(tenant, snap);
            start.lemma_namespace_changed(tenant, n, self@);
        }
        let freed = match deleted {
            Ok(v) => v,
            Err(e) => {
                return Err(e);
            },
        };
        let ghost mid = self@;
        let mut i: usize = 0;
        while i < freed.len()
            invariant
                i <= freed@.len(),
                self.wf(),
                mid.in_order(),
                mid.extents.sound(),
                mid.extents.total < u64::MAX || mid.extents.free + freed@.len() <= u64::MAX,
                self@ == (ClusterView { extents: after_releases(mid.extents, i as nat), ..mid }),
            decreases freed.len() - i,
        {
            proof {
                lemma_releases(mid.extents, i as nat);
                lemma_releases(mid.extents, (i + 1) as nat);
            }
            self.tlc_extents.release(Purpose::Data);
            proof {
                mid.lemma_in_order_unless(self@);
            }
            i += 1;
        }
        Ok(freed.len())
    }

    /// A storage node fails: its fault domain is marked in every protected pool.
    /// Returns how many stripes that affects.
    pub fn fail_snode(&mut self, snode: SNodeId) -> (n: usize)
        requires
            old(self).wf(),
            old(self)@.stripes_with(snode, old(self)@.protected_pools(), old(self)@.protected_pools().len())
                <= usize::MAX,
        ensures
            final(self).wf(),
            final(self)@ == old(self)@.fail_snode(snode),
            n == old(self)@.stripes_with(snode, old(self)@.protected_pools(), old(self)@.protected_pools().len()),
            old(self)@.accounted() ==> final(self)@.accounted(),
    {
        proof {
            accounts::lemma_nothing_moved(self@, self@.fail_snode(snode));
        }
        let ghost start = self@;
        let ghost ks = self.parts.stripes.keys();
        let count: usize = self.parts.stripes.len();
        let mut sum: usize = 0;
        let mut i: usize = 0;
        proof {
            self.parts.stripes.lemma_entries();
            PoolId::lemma_order();
            crate::order::lemma_ranking_len(ks, self.parts.stripes@.dom(), sorted_map::key_order::<PoolId>());
            assert(start.stripes.dom() =~= self.parts.stripes@.dom());
        }
        while i < count
            invariant
                count == ks.len(),
                i <= count,
                self.parts_wf(),
                ks == self.parts.stripes.keys(),
                ks == start.protected_pools(),
                ks.no_duplicates(),
                start.in_order(),
                self.parts.stripes@.dom() == start.stripes.dom(),
                self@ == (ClusterView { stripes: self@.stripes, ..start }),
                start.stripes_with(snode, ks, ks.len()) <= usize::MAX,
                sum == start.stripes_with(snode, ks, i as nat),
                forall|k: int|
                    0 <= k < i ==> self@.stripes[#[trigger] ks[k]] == (StripesView {
                        failed: start.stripes[ks[k]].failed.insert(snode),
                        ..start.stripes[ks[k]]
                    }),
                forall|k: int| i <= k < count ==> self@.stripes[#[trigger] ks[k]] == start.stripes[ks[k]],
            decreases count - i,
        {
            proof {
                self.parts.stripes.lemma_entries();
                start.lemma_stripes_with_grow(snode, ks, (i + 1) as nat, ks.len());
            }
            let p: PoolId = *self.parts.stripes.key_at(i);
            let ghost before = *self;
            assert(ks[i as int] == p);
            assert(self.parts.stripes@.contains_key(ks[i as int]));
            assert(self@.stripes[p] == start.stripes[p]);
            let affected: usize = match self.parts.stripes.get_mut(&p) {
                Some(m) => m.fail_domain(snode),
                None => 0,
            };
            proof {
                self.parts.stripes.lemma_entries();
                assert(self.parts.stripes@.dom() =~= before.parts.stripes@.dom());
                assert(self@.stripes =~= before@.stripes.insert(
                    p,
                    StripesView { failed: start.stripes[p].failed.insert(snode), ..start.stripes[p] },
                ));
            }
            sum = sum + affected;
            i += 1;
        }
        proof {
            self.parts.stripes.lemma_entries();
            let want = start.fail_snode(snode);
            assert forall|p: PoolId| #[trigger] start.stripes.contains_key(p) implies self@.stripes[p]
                == want.stripes[p] && self@.stripes[p].consistent() by {
                assert(self.parts.stripes@.contains_key(p));
                let k = choose|k: int| 0 <= k < ks.len() && ks[k] == p;
                assert(self@.stripes[ks[k]] == want.stripes[ks[k]]);
                protection_laws::law_failures_consistent(
                    start.stripes[p],
                    start.stripes[p].failed.insert(snode),
                );
            }
            assert(self@.stripes =~= want.stripes);
            assert forall|p: PoolId| #[trigger] self@.stripes.contains_key(p) implies self@.stripes[p].consistent() by {
                assert(start.stripes.contains_key(p));
            }
            start.lemma_in_order_unless(self@);
        }
        sum
    }

    /// Rebuilds every protected pool, in order of their numbers: plans the tasks and
    /// carries them out. Returns how many stripes were rebuilt.
    pub fn rebuild(&mut self, cnodes: &[CNodeId]) -> (r: Result<usize, Error>)
        requires
            old(self).wf(),
            old(self)@.can_rebuild(cnodes@),
        ensures
            final(self).wf(),
            final(self)@ == old(self)@.rebuild(cnodes@).0,
            match r {
                Ok(n) => old(self)@.rebuild(cnodes@).1 == Ok::<nat, ErrorView>(n as nat),
                Err(e) => old(self)@.rebuild(cnodes@).1 == Err::<nat, _>(e@),
            },
            old(self)@.accounted() ==> final(self)@.accounted(),
    {
        proof {
            accounts::lemma_nothing_moved(self@, self@.rebuild(cnodes@).0);
        }
        let ghost start = self@;
        let ghost ks = self.parts.stripes.keys();
        let count: usize = self.parts.stripes.len();
        let mut rebuilt: usize = 0;
        let mut i: usize = 0;
        proof {
            self.parts.stripes.lemma_entries();
            assert(start.stripes.dom() =~= self.parts.stripes@.dom());
        }
        while i < count
            invariant
                count == ks.len(),
                i <= count,
                self.wf(),
                start == old(self)@,
                start.can_rebuild(cnodes@),
                start.accounted() ==> start.rebuild(cnodes@).0.accounted(),
                ks == self.parts.stripes.keys(),
                ks == start.protected_pools(),
                self.parts.stripes@.dom() == start.stripes.dom(),
                self@ == (ClusterView { stripes: self@.stripes, ..start }),
                start.rebuilt_pools(cnodes@, ks, i as nat) == (self@.stripes, Ok::<nat, ErrorView>(rebuilt as nat)),
            decreases count - i,
        {
            proof {
                self.parts.stripes.lemma_entries();
            }
            let p: PoolId = *self.parts.stripes.key_at(i);
            let ghost before = *self;
            let ghost v = before@.stripes[p];
            assert(ks[i as int] == p);
            assert(self.parts.stripes@.contains_key(ks[i as int]));
            assert(before@.stripes.contains_key(p));
            assert(self.parts.stripes@[p]@ == v);
            let done = match self.parts.stripes.get_mut(&p) {
                Some(m) => rebuild_pool(m, cnodes),
                None => Ok(0),
            };
            proof {
                self.parts.stripes.lemma_entries();
                lemma_rebuilt_pool(v, cnodes@);
                assert(self.parts.stripes@.dom() =~= before.parts.stripes@.dom());
                assert(self@.stripes =~= before@.stripes.insert(p, rebuilt_pool(v, cnodes@).0));
                assert forall|q: PoolId| #[trigger] self@.stripes.contains_key(q) implies
                    self@.stripes[q].consistent() by {
                    assert(before@.stripes.contains_key(q));
                }
                before@.lemma_in_order_unless(self@);
                let next = start.rebuilt_pools(cnodes@, ks, (i + 1) as nat);
                assert(next.0 == self@.stripes);
            }
            match done {
                Ok(n) => {
                    assert(start.rebuilt_pools(cnodes@, start.protected_pools(), (i + 1) as nat).1 matches Ok(c)
                        ==> c <= usize::MAX);
                    rebuilt = rebuilt + n;
                },
                Err(e) => {
                    proof {
                        start.lemma_rebuild_stops(cnodes@, ks, (i + 1) as nat, ks.len());
                    }
                    return Err(e);
                },
            }
            i += 1;
        }
        Ok(rebuilt)
    }
}

impl ClusterView {
    /// A state stays in order if one namespace changes and stays in order.
    proof fn lemma_namespace_changed(self, tenant: TenantId, n: NamespaceView, after: ClusterView)
        requires
            self.in_order(),
            after == (ClusterView { namespaces: self.namespaces.insert(tenant, n), ..self }),
            n.consistent(),
            forall|e: ExtentId| #[trigger]
                n.refcounts.contains_key(e) ==> self.namespace(tenant).refcounts.contains_key(e),
        ensures
            after.in_order(),
    {
        assert forall|t: TenantId| #[trigger] after.namespaces.contains_key(t) implies after.namespace_in_order(t) by {
            if self.namespaces.contains_key(t) {
                assert(self.namespace_in_order(t));
            }
            if t == tenant {
                assert forall|e: ExtentId| #[trigger] after.namespaces[t].refcounts.contains_key(e) implies e.0
                    <= after.extents.next_id by {
                    assert(n.refcounts.contains_key(e));
                }
            }
        }
        assert forall|t: TenantId, e: ExtentId| #[trigger] after.holds(t, e) implies self.holds(t, e) by {
            if t == tenant {
                assert(n.refcounts.contains_key(e));
            }
        }
        self.lemma_unshared_unless(after);
        self.lemma_in_order_unless(after);
    }

    /// The namespace of a tenant without one of its snapshots refers to nothing new.
    proof fn lemma_after_deletion(self, tenant: TenantId, snap: SnapshotId)
        requires
            self.in_order(),
        ensures
            ({
                let ns = self.namespace(tenant);
                let n = ns.delete_snapshot(snap).0;
                &&& ns.consistent()
                &&& n.consistent()
                &&& forall|e: ExtentId| #[trigger] n.refcounts.contains_key(e) ==> ns.refcounts.contains_key(e)
            }),
    {
        let ns = self.namespace(tenant);
        snapshot_laws::law_empty_is_consistent();
        if self.namespaces.contains_key(tenant) {
            assert(self.namespace_in_order(tenant));
        }
        snapshot_laws::law_delete_snapshot_consistent(ns, snap);
        if ns.snapshots.contains_key(snap) {
            snapshot_laws::law_delete_snapshot_lets_go(ns, snap);
        }
    }

    /// The extents that a deleted snapshot frees were held, and are no longer; so, if
    /// extents are accounted for, they can all be given back.
    pub proof fn lemma_freed_extents(self, tenant: TenantId, snap: SnapshotId)
        requires
            self.in_order(),
            self.accounted(),
        ensures
            ({
                let (n, r) = self.namespace(tenant).delete_snapshot(snap);
                let after = ClusterView { namespaces: self.namespaces.insert(tenant, n), ..self };
                &&& after.held().finite()
                &&& after.held().len() <= self.extents.data_used
                &&& r matches Ok(freed) ==> after.held().len() + freed.len() <= self.extents.data_used
            }),
    {
        let ns = self.namespace(tenant);
        let (n, r) = ns.delete_snapshot(snap);
        let after = ClusterView { namespaces: self.namespaces.insert(tenant, n), ..self };
        self.lemma_after_deletion(tenant, snap);
        assert forall|e: ExtentId| #[trigger] after.held().contains(e) implies self.held().contains(e) by {
            let t = choose|t: TenantId| #[trigger] after.holds(t, e);
            assert(self.holds(t, e));
        }
        assert(after.held().subset_of(self.held()));
        vstd::set_lib::lemma_len_subset(after.held(), self.held());
        if ns.snapshots.contains_key(snap) {
            let freed = r->Ok_0;
            snapshot_laws::law_delete_snapshot_frees_only_garbage(ns, snap);
            snapshot_laws::law_delete_snapshot_lets_go(ns, snap);
            let gone = freed.to_set();
            freed.unique_seq_to_set();
            assert forall|e: ExtentId| #[trigger] after.held().contains(e) implies !gone.contains(e) by {
                let t = choose|t: TenantId| #[trigger] after.holds(t, e);
                assert(self.holds(t, e));
                if gone.contains(e) {
                    assert(freed.contains(e));
                    assert(self.holds(tenant, e));
                    assert(t == tenant);
                }
            }
            assert forall|e: ExtentId| #[trigger] gone.contains(e) implies self.held().contains(e) by {
                assert(freed.contains(e));
                assert(self.holds(tenant, e));
            }
            vstd::set_lib::lemma_set_disjoint_lens(after.held(), gone);
            assert((after.held() + gone).subset_of(self.held()));
            vstd::set_lib::lemma_len_subset(after.held() + gone, self.held());
        }
    }

    /// More pools have no fewer stripes.
    proof fn lemma_stripes_with_grow(self, snode: SNodeId, pools: Seq<PoolId>, m: nat, n: nat)
        requires
            m <= n,
        ensures
            self.stripes_with(snode, pools, m) <= self.stripes_with(snode, pools, n),
        decreases n,
    {
        if m < n {
            self.lemma_stripes_with_grow(snode, pools, m, (n - 1) as nat);
        }
    }

    /// A rebuild stops at the first pool that fails.
    proof fn lemma_rebuild_stops(self, cnodes: Seq<CNodeId>, pools: Seq<PoolId>, m: nat, n: nat)
        requires
            m <= n,
            self.rebuilt_pools(cnodes, pools, m).1 is Err,
        ensures
            self.rebuilt_pools(cnodes, pools, n) == self.rebuilt_pools(cnodes, pools, m),
        decreases n,
    {
        if m < n {
            self.lemma_rebuild_stops(cnodes, pools, m, (n - 1) as nat);
        }
    }
}

impl Cluster {
    /// Tests whether every tenant's tokens can be refilled in 64 bits.
    pub fn tick_fits(&self) -> (b: bool)
        requires
            self.wf(),
        ensures
            b == self@.can_tick(),
    {
        let mut i: usize = 0;
        let ghost ks = self.parts.tenant_qos.keys();
        while i < self.parts.tenant_qos.len()
            invariant
                self.wf(),
                ks == self.parts.tenant_qos.keys(),
                i <= ks.len(),
                forall|k: int| 0 <= k < i ==> self@.qos[#[trigger] ks[k]].can_tick(),
            decreases ks.len() - i,
        {
            proof {
                self.parts.tenant_qos.lemma_entries();
            }
            let q: &QosEntity = self.parts.tenant_qos.value_at(i);
            assert(self.parts.tenant_qos@[ks[i as int]] == q);
            assert(self@.qos.contains_key(ks[i as int]) && self@.qos[ks[i as int]] == q@);
            if !q.tick_fits() {
                return false;
            }
            i += 1;
        }
        proof {
            self.parts.tenant_qos.lemma_entries();
            assert forall|t: TenantId| #[trigger] self@.qos.contains_key(t) implies self@.qos[t].can_tick() by {
                assert(self.parts.tenant_qos@.contains_key(t));
                let k = choose|k: int| 0 <= k < ks.len() && ks[k] == t;
                assert(self@.qos[ks[k]].can_tick());
            }
        }
        true
    }

    /// Tests whether a write would be accepted.
    fn would_accept(&self, tenant: TenantId, size: u64) -> (b: bool)
        requires
            self.wf(),
        ensures
            b == self@.accept(tenant, size).1 is Ok,
    {
        if self.tenants.key(tenant).is_err() {
            return false;
        }
        match self.parts.tenant_qos.get(&tenant) {
            Some(q) => {
                assert(self@.qos[tenant] == q@);
                q.available(Dimension::MetadataIops) >= 1 && q.available(Dimension::DataIops) >= 1 && q.available(
                    Dimension::DataBw,
                ) >= size
            },
            None => false,
        }
    }

    /// Tests whether the numbers that come up in a write fit in 64 bits.
    pub fn put_fits(&self, tenant: TenantId, scope: &str, size_bytes: u64) -> (b: bool)
        requires
            self.wf(),
        ensures
            b == self@.can_put(tenant, scope@, size_bytes),
    {
        if !self.would_accept(tenant, size_bytes) {
            return true;
        }
        if !self.quotas.charge_fits(tenant, scope, size_bytes, 1) {
            return false;
        }
        if self.quotas.check(tenant, scope, size_bytes, 1).is_err() {
            return true;
        }
        let bound: Option<PoolId> = match self.tenants.placement(tenant) {
            Ok(Placement::DedicatedPool(p)) => Some(p),
            Ok(Placement::Shared) => None,
            Err(_) => {
                return true;
            },
        };
        if !self.placement.selection_fits(MediaClass::TlcNvme, tenant, bound) {
            return false;
        }
        let pool: PoolId = match self.placement.select_pool(MediaClass::TlcNvme, tenant, bound) {
            Ok(p) => p,
            Err(_) => {
                return true;
            },
        };
        if !self.tlc_extents.allocation_fits(Purpose::Data) {
            return false;
        }
        if self.tlc_extents.free_extents() == 0 || self.tlc_extents.refuses(Purpose::Data) {
            return true;
        }
        match self.parts.stripes.get(&pool) {
            Some(m) => {
                proof {
                    assert(self@.stripes.contains_key(pool) && self@.stripes[pool] == m@);
                }
                if !m.has_domains() {
                    return true;
                }
                proof {
                    if m@.next_stripe < u64::MAX {
                        protection_laws::law_room_for_a_stripe(m@);
                    }
                }
                if m.next_number() == u64::MAX {
                    return false;
                }
            },
            None => {
                assert(!self@.stripes.contains_key(pool));
            },
        }
        // An extent for the metadata is still to come.
        self.tlc_extents.free_extents() == 1 || self.tlc_extents.last_number() < u64::MAX - 1
    }
}

} // verus!
