//! What requests to a cluster cost, when they are granted, and what they are told
//! otherwise, in the numbers of tokens, quotas, pools, extents and domains.

use vstd::prelude::*;

use crate::bytes;
use crate::cluster;
use crate::cluster::ClusterView;
use crate::cluster_laws;
use crate::extent;
use crate::extent::Purpose;
use crate::metadata::ProcessView;
use crate::placement;
use crate::placement::PoolState;
use crate::protection::{ProtectionScheme, StripesView};
use crate::protection_laws;
use crate::qos::{QosSpec, QosView};
use crate::quota;
use crate::quota::{Account, QuotaLimit, Usage};
use crate::snapshot::{HeadId, SnapshotId};
use crate::tenant::{Placement, SpecView};
use crate::types;
use crate::types::{BucketId, CNodeId, ErrorView, ExtentId, MediaClass, PoolId, SNodeId, TenantId};

verus! {

/// What a write costs in tokens, whatever becomes of it: one metadata operation, one data
/// operation, and its size in bandwidth, asked for in this order. The first that is short
/// stops the write; what was taken before stays taken. A tenant that is not known, or has
/// no key, pays nothing.
pub proof fn law_writes_pay_in_tokens(
    c: ClusterView,
    tenant: TenantId,
    scope: Seq<char>,
    key: Seq<char>,
    size: u64,
)
    requires
        c.in_order(),
        c.placement.filed(),
        c.extents.sound(),
        c.can_put(tenant, scope, size),
    ensures
        ({
            let (w, r) = c.put_object(tenant, scope, key, size);
            let (q, p) = (c.qos[tenant], w.qos[tenant]);
            let known = c.tenants.tenants.contains_key(tenant) && c.tenants.tenants[tenant].kek is Some
                && c.qos.contains_key(tenant);
            let short = |name: Seq<char>| r == Err::<(), ErrorView>(ErrorView::Throttled { dimension: name });
            &&& !known ==> w == c && r == Err::<(), ErrorView>(ErrorView::UnknownTenant(tenant))
            &&& known && q.meta.tokens < 1 ==> short("metadata_iops"@) && p == q
            &&& known && q.meta.tokens >= 1 ==> {
                &&& p.meta.tokens == q.meta.tokens - 1
                &&& q.data_iops.tokens < 1 ==> short("data_iops"@) && p.data_iops == q.data_iops && p.data_bw
                    == q.data_bw
                &&& q.data_iops.tokens >= 1 ==> {
                    &&& p.data_iops.tokens == q.data_iops.tokens - 1
                    &&& q.data_bw.tokens < size ==> short("data_bw"@) && p.data_bw == q.data_bw
                    &&& q.data_bw.tokens >= size ==> p.data_bw.tokens == q.data_bw.tokens - size
                }
            }
        }),
{
    cluster_laws::lemma_accept(c, tenant, size);
    let (a, admitted) = c.accept(tenant, size);
    if admitted is Ok {
        let (b, reserved) = a.reserve(tenant, scope, size);
        if reserved is Ok {
            cluster_laws::lemma_reserve_ok(a, tenant, scope, size);
            cluster_laws::lemma_record(b, tenant, key, size, reserved->Ok_0.0, reserved->Ok_0.1);
        }
    }
}

/// When a write is granted: if and only if the tenant is known and has its key; there are
/// tokens in all three dimensions; with it the tenant, and the scope if that is limited, are
/// within their quotas; there is a pool for it on the primary tier; two extents are free, and
/// not so few that data is refused; and if the pool is protected, a stripe has as many
/// domains that are up as it has shards.
pub proof fn law_when_a_write_is_granted(
    c: ClusterView,
    tenant: TenantId,
    scope: Seq<char>,
    key: Seq<char>,
    size: u64,
)
    requires
        c.in_order(),
        c.placement.filed(),
        c.extents.sound(),
        c.can_put(tenant, scope, size),
    ensures
        ({
            let entry = c.tenants.tenants[tenant];
            let q = c.qos[tenant];
            let within = |a: Account| {
                &&& a.limit.capacity_bytes matches Some(l) ==> l == u64::MAX || a.usage.bytes + size <= l
                &&& a.limit.object_count matches Some(l) ==> l == u64::MAX || a.usage.objects + 1 <= l
            };
            let bound = match entry.spec.placement {
                Placement::DedicatedPool(p) => Some(p),
                Placement::Shared => None,
            };
            let pool = c.placement.select_pool(MediaClass::TlcNvme, tenant, bound);
            c.put_object(tenant, scope, key, size).1 is Ok <==> {
                &&& c.tenants.tenants.contains_key(tenant) && entry.kek is Some
                &&& c.qos.contains_key(tenant)
                &&& q.meta.tokens >= 1 && q.data_iops.tokens >= 1 && q.data_bw.tokens >= size
                &&& c.quotas.tenants.contains_key(tenant) && within(c.quotas.tenants[tenant])
                &&& c.quotas.scopes.contains_key((tenant, scope)) ==> within(c.quotas.scopes[(tenant, scope)])
                &&& pool is Ok
                &&& c.extents.free >= 2
                &&& c.extents.free * 1000 >= c.extents.watermarks.protect_free_permille * c.extents.total
                &&& c.stripes.contains_key(pool->Ok_0) ==> {
                    let v = c.stripes[pool->Ok_0];
                    v.domains.dom().difference(v.failed).len() >= v.scheme.data + v.scheme.parity
                }
            }
        }),
{
    cluster_laws::lemma_accept(c, tenant, size);
    let (a, admitted) = c.accept(tenant, size);
    quota::law_admitted_if_and_only_if_within(c.quotas, tenant, scope, size, 1);
    extent::law_watermark_decides_for_data(c.extents, Purpose::Data);
    let taken = c.extents.allocate(Purpose::Data).0;
    let bound = cluster::bound_pool(c.tenants.tenants[tenant].spec.placement);
    let pool = c.placement.select_pool(MediaClass::TlcNvme, tenant, bound);
    if pool is Ok && c.stripes.contains_key(pool->Ok_0) {
        let v = c.stripes[pool->Ok_0];
        assert(v.consistent());
        protection_laws::law_new_stripe_takes_the_emptiest(v, SNodeId(0));
    }
    if admitted is Ok {
        let (b, reserved) = a.reserve(tenant, scope, size);
        if reserved is Ok {
            cluster_laws::lemma_reserve_ok(a, tenant, scope, size);
            cluster_laws::lemma_record(b, tenant, key, size, reserved->Ok_0.0, reserved->Ok_0.1);
        }
        if c.extents.allocate(Purpose::Data).1 is Ok {
            extent::law_metadata_comes_first(taken);
        }
    }
}

/// Why a write with tokens is refused, by what comes first: quota, a pool on the primary
/// tier, an extent for its data, a stripe, an extent for its metadata.
pub proof fn law_refused_writes_say_why(
    c: ClusterView,
    tenant: TenantId,
    scope: Seq<char>,
    key: Seq<char>,
    size: u64,
)
    requires
        c.in_order(),
        c.placement.filed(),
        c.extents.sound(),
        c.can_put(tenant, scope, size),
        c.tenants.tenants.contains_key(tenant),
        c.tenants.tenants[tenant].kek is Some,
        c.qos.contains_key(tenant),
        c.qos[tenant].meta.tokens >= 1,
        c.qos[tenant].data_iops.tokens >= 1,
        c.qos[tenant].data_bw.tokens >= size,
    ensures
        ({
            let r = c.put_object(tenant, scope, key, size).1;
            let charged = c.quotas.charge(tenant, scope, size, 1).1;
            let bound = match c.tenants.tenants[tenant].spec.placement {
                Placement::DedicatedPool(p) => Some(p),
                Placement::Shared => None,
            };
            let pool = c.placement.select_pool(MediaClass::TlcNvme, tenant, bound);
            let full = Err::<(), ErrorView>(ErrorView::NoSpace { media: MediaClass::TlcNvme });
            let enough = c.extents.free > 0 && c.extents.free * 1000 >= c.extents.watermarks.protect_free_permille
                * c.extents.total;
            &&& charged matches Err(e) ==> r == Err::<(), ErrorView>(e)
            &&& charged is Ok && pool is Err ==> r == full
            &&& charged is Ok && pool is Ok && !enough ==> r == full
            &&& charged is Ok && pool is Ok && enough ==> {
                let placed = c.stripes[pool->Ok_0].place_stripe().1;
                if c.stripes.contains_key(pool->Ok_0) && placed is Err {
                    r == Err::<(), ErrorView>(placed->Err_0)
                } else {
                    c.extents.free < 2 ==> r == full
                }
            }
        }),
{
    cluster_laws::lemma_accept(c, tenant, size);
    let bound = cluster::bound_pool(c.tenants.tenants[tenant].spec.placement);
    placement::law_selection(c.placement, MediaClass::TlcNvme, tenant, bound, PoolId(0));
    extent::law_watermark_decides_for_data(c.extents, Purpose::Data);
}

/// A write to a protected pool places one stripe there, as that pool places stripes; no
/// other pool's stripes change, and none if the pool is not protected.
pub proof fn law_a_write_places_one_stripe(
    c: ClusterView,
    tenant: TenantId,
    scope: Seq<char>,
    key: Seq<char>,
    size: u64,
    other: PoolId,
)
    requires
        c.in_order(),
        c.placement.filed(),
        c.extents.sound(),
        c.can_put(tenant, scope, size),
        c.put_object(tenant, scope, key, size).1 is Ok,
    ensures
        ({
            let w = c.put_object(tenant, scope, key, size).0;
            let bound = match c.tenants.tenants[tenant].spec.placement {
                Placement::DedicatedPool(p) => Some(p),
                Placement::Shared => None,
            };
            let pool = c.placement.select_pool(MediaClass::TlcNvme, tenant, bound)->Ok_0;
            &&& w.stripes.dom() == c.stripes.dom()
            &&& c.stripes.contains_key(pool) ==> {
                &&& w.stripes[pool] == c.stripes[pool].place_stripe().0
                &&& w.stripes[pool].next_stripe == c.stripes[pool].next_stripe + 1
            }
            &&& other != pool ==> w.stripes[other] == c.stripes[other]
        }),
{
    cluster_laws::lemma_accept(c, tenant, size);
    let a = c.accept(tenant, size).0;
    cluster_laws::lemma_reserve_ok(a, tenant, scope, size);
    let (b, reserved) = a.reserve(tenant, scope, size);
    cluster_laws::lemma_record(b, tenant, key, size, reserved->Ok_0.0, reserved->Ok_0.1);
    let w = c.put_object(tenant, scope, key, size).0;
    assert(w.stripes.dom() =~= c.stripes.dom());
}

/// What a lookup costs and finds. It takes one token for metadata, and is turned away
/// without; it gives the size that was last recorded of the object, read from its bytes, or
/// says which name was not found. It changes no object, and nothing but tokens and the
/// running of its bucket.
pub proof fn law_lookups_cost_one_token(
    c: ClusterView,
    tenant: TenantId,
    key: Seq<char>,
    other: TenantId,
    other_key: Seq<char>,
)
    requires
        c.in_order(),
    ensures
        ({
            let (w, r) = c.stat(tenant, key);
            let known = c.tenants.tenants.contains_key(tenant) && c.tenants.tenants[tenant].kek is Some
                && c.qos.contains_key(tenant);
            let paid = known && c.qos[tenant].meta.tokens >= 1;
            &&& !known ==> w == c && r == Err::<u64, ErrorView>(ErrorView::UnknownTenant(tenant))
            &&& known && !paid ==> w == c && r == Err::<u64, ErrorView>(
                ErrorView::Throttled { dimension: "metadata_iops"@ },
            )
            &&& paid ==> {
                &&& w.qos[tenant].meta.tokens == c.qos[tenant].meta.tokens - 1
                &&& w.qos[tenant].data_iops == c.qos[tenant].data_iops && w.qos[tenant].data_bw
                    == c.qos[tenant].data_bw
                &&& match c.recorded(tenant, key) {
                    Some(s) => r == Ok::<u64, ErrorView>(bytes::from_be64(s) as u64),
                    None => r == Err::<u64, ErrorView>(ErrorView::Invalid("not found: "@ + key)),
                }
            }
            &&& other != tenant ==> w.qos[other] == c.qos[other]
            &&& w.recorded(other, other_key) == c.recorded(other, other_key)
            &&& w.tenants == c.tenants && w.quotas == c.quotas && w.placement == c.placement && w.extents
                == c.extents && w.stripes == c.stripes && w.namespaces == c.namespaces && w.bucket_count
                == c.bucket_count
        }),
{
    let (w, r) = c.stat(tenant, key);
    let known = c.tenants.tenants.contains_key(tenant) && c.tenants.tenants[tenant].kek is Some && c.qos.contains_key(
        tenant,
    );
    if known && c.qos[tenant].meta.tokens < 1 {
        assert(w.qos =~= c.qos);
    }
    if known && c.qos[tenant].meta.tokens >= 1 {
        let b = c.bucket_of(tenant, key);
        let s = c.lookup_token(tenant).0;
        assert(s.bucket_of(tenant, key) == b);
        if !c.running.contains_key(b) {
            assert(!c.shared.dom().contains(b));
            assert(s.with_bucket(b).running[b].entries =~= Map::empty());
        }
    }
}

/// What a lookup in a snapshot costs and finds: one token for metadata, and where the data
/// is that the snapshot reads, or what was not found.
pub proof fn law_snapshot_lookups_cost_one_token(c: ClusterView, tenant: TenantId, snap: SnapshotId, key: Seq<char>)
    ensures
        ({
            let (w, r) = c.stat_at(tenant, snap, key);
            let paid = c.qos.contains_key(tenant) && c.qos[tenant].meta.tokens >= 1;
            let known = c.tenants.tenants.contains_key(tenant) && c.tenants.tenants[tenant].kek is Some;
            let unknown = Err::<ExtentId, ErrorView>(ErrorView::UnknownTenant(tenant));
            &&& !c.qos.contains_key(tenant) ==> w == c && r == unknown
            &&& c.qos.contains_key(tenant) && !paid ==> r == Err::<ExtentId, ErrorView>(
                ErrorView::Throttled { dimension: "metadata_iops"@ },
            )
            &&& paid ==> w.qos[tenant].meta.tokens == c.qos[tenant].meta.tokens - 1
            &&& paid && !known ==> r == unknown
            &&& paid && known ==> match c.namespace(tenant).get_at(snap, vstd::utf8::encode_utf8(key)) {
                Ok(Some(e)) => r == Ok::<ExtentId, ErrorView>(e),
                Ok(None) => r == Err::<ExtentId, ErrorView>(
                    ErrorView::Invalid("not found in snapshot: "@ + key),
                ),
                Err(e) => r == Err::<ExtentId, ErrorView>(e),
            }
            &&& forall|t: TenantId| #[trigger] w.namespace(t) == c.namespace(t)
            &&& forall|t: TenantId| t != tenant ==> #[trigger] w.qos[t] == c.qos[t]
            &&& w.tenants == c.tenants && w.quotas == c.quotas && w.placement == c.placement && w.extents
                == c.extents && w.stripes == c.stripes && w.running == c.running && w.shared == c.shared
        }),
{
}

/// Snapshots and clones are made of the tenant's own namespace, snapshots of its live head,
/// and change nothing else. They need the tenant's key.
pub proof fn law_snapshots_are_of_the_live_head(
    c: ClusterView,
    tenant: TenantId,
    name: Seq<char>,
    snap: SnapshotId,
    other: TenantId,
)
    ensures
        ({
            let (v, made) = c.create_snapshot(tenant, name);
            let (w, cloned) = c.clone_snapshot(tenant, snap);
            let (x, deleted) = c.delete_snapshot(tenant, snap);
            let n = c.namespace(tenant);
            let unknown = ErrorView::UnknownTenant(tenant);
            if c.tenants.tenants.contains_key(tenant) && c.tenants.tenants[tenant].kek is Some {
                &&& (v.namespace(tenant), made) == n.create_snapshot(HeadId(0), name)
                &&& (w.namespace(tenant), cloned) == n.clone_from(snap)
                &&& x.namespace(tenant) == n.delete_snapshot(snap).0
                &&& deleted is Ok <==> n.delete_snapshot(snap).1 is Ok
                &&& deleted matches Err(e) ==> n.delete_snapshot(snap).1->Err_0 == e && x.extents == c.extents
                &&& other != tenant ==> v.namespace(other) == c.namespace(other) && w.namespace(other)
                    == c.namespace(other) && x.namespace(other) == c.namespace(other)
                &&& v == (ClusterView { namespaces: v.namespaces, ..c })
                &&& w == (ClusterView { namespaces: w.namespaces, ..c })
                &&& x == (ClusterView { namespaces: x.namespaces, extents: x.extents, ..c })
            } else {
                &&& (v, made) == (c, Err::<SnapshotId, ErrorView>(unknown))
                &&& (w, cloned) == (c, Err::<HeadId, ErrorView>(unknown))
                &&& (x, deleted) == (c, Err::<nat, ErrorView>(unknown))
            }
        }),
{
}

/// A new cluster has all its extents free, no tenant, no pool and no running bucket; at
/// least one bucket; and its thresholds: balancing from 15 percent on, sinking below 30
/// percent free, protection below 10 percent.
pub proof fn law_a_new_cluster_is_empty(bucket_count: u32, extents: u64)
    ensures
        ({
            let c = ClusterView::empty(bucket_count, extents);
            &&& c.extents.total == extents && c.extents.free == extents
            &&& c.extents.meta_used == 0 && c.extents.data_used == 0 && c.extents.next_id == 0
            &&& c.extents.watermarks.sink_free_permille == 300 && c.extents.watermarks.protect_free_permille == 100
            &&& c.placement.watermark_diff_permille == 150
            &&& bucket_count > 0 ==> c.bucket_count == bucket_count
            &&& bucket_count == 0 ==> c.bucket_count == 1
            &&& forall|t: TenantId| !#[trigger] c.tenants.tenants.contains_key(t)
            &&& c.tenants.next_id == 0
            &&& forall|t: TenantId| !#[trigger] c.quotas.tenants.contains_key(t)
            &&& forall|t: TenantId| !#[trigger] c.qos.contains_key(t)
            &&& forall|p: PoolId| !#[trigger] c.placement.pools.contains_key(p)
            &&& forall|p: PoolId| !#[trigger] c.stripes.contains_key(p)
            &&& forall|b: BucketId| !#[trigger] c.running.contains_key(b)
        }),
{
}

/// A pool that is added is on record as given, in place of one with its number; no other
/// pool changes, and nothing else.
pub proof fn law_a_pool_is_entered(c: ClusterView, state: PoolState, other: PoolId)
    ensures
        ({
            let w = c.add_pool(state);
            &&& w.placement.pools.contains_key(state.id) && w.placement.pools[state.id] == state
            &&& other != state.id ==> (w.placement.pools.contains_key(other) <==> c.placement.pools.contains_key(
                other,
            )) && w.placement.pools[other] == c.placement.pools[other]
            &&& w.placement.watermark_diff_permille == c.placement.watermark_diff_permille
            &&& w == (ClusterView { placement: w.placement, ..c })
        }),
{
}

/// A tenant is created with its name, placement, quota and limits: its buckets are full,
/// and nothing is used, unless its number was in use before. No other tenant changes. A
/// name that is taken changes nothing.
pub proof fn law_a_tenant_is_set_up(
    c: ClusterView,
    name: Seq<char>,
    limit: QuotaLimit,
    qos: QosSpec,
    place: Placement,
    other: TenantId,
)
    ensures
        ({
            let (w, r) = c.create_tenant(name, limit, qos, place);
            let (registry, created) = c.tenants.create(SpecView { name, placement: place });
            &&& r == created
            &&& w.tenants == registry
            &&& r is Err ==> w == c
            &&& r matches Ok(id) ==> {
                &&& w.quotas.tenants.contains_key(id) && w.quotas.tenants[id].limit == limit
                &&& !c.quotas.tenants.contains_key(id) ==> w.quotas.tenants[id].usage == (Usage { bytes: 0, objects: 0 })
                &&& w.quotas.scopes == c.quotas.scopes
                &&& w.qos.contains_key(id) && w.qos[id] == QosView::full(qos)
                &&& other != id ==> w.quotas.tenants[other] == c.quotas.tenants[other] && w.qos[other]
                    == c.qos[other] && (w.quotas.tenants.contains_key(other) <==> c.quotas.tenants.contains_key(other))
                    && (w.qos.contains_key(other) <==> c.qos.contains_key(other))
                &&& w == (ClusterView { tenants: w.tenants, quotas: w.quotas, qos: w.qos, ..c })
            }
        }),
{
}

/// A tenant that is deleted loses its entry, quotas, limits and namespace; no other tenant
/// loses anything, and no extent, pool, bucket or stripe changes. One that is not known is
/// refused by its number.
pub proof fn law_a_tenant_is_cleared_away(c: ClusterView, tenant: TenantId, other: TenantId, scope: Seq<char>)
    ensures
        ({
            let (w, r) = c.delete_tenant(tenant);
            if !c.tenants.tenants.contains_key(tenant) {
                w == c && r == Err::<(), ErrorView>(ErrorView::UnknownTenant(tenant))
            } else {
                &&& r is Ok
                &&& w.tenants.tenants.contains_key(other) <==> c.tenants.tenants.contains_key(other) && other != tenant
                &&& w.quotas.tenants.contains_key(other) <==> c.quotas.tenants.contains_key(other) && other != tenant
                &&& w.quotas.scopes.contains_key((other, scope)) <==> c.quotas.scopes.contains_key((other, scope))
                    && other != tenant
                &&& w.qos.contains_key(other) <==> c.qos.contains_key(other) && other != tenant
                &&& w.namespaces.contains_key(other) <==> c.namespaces.contains_key(other) && other != tenant
                &&& other != tenant ==> {
                    &&& w.tenants.tenants[other] == c.tenants.tenants[other]
                    &&& w.qos[other] == c.qos[other]
                    &&& w.namespaces[other] == c.namespaces[other]
                    &&& c.quotas.tenants.contains_key(other) ==> w.quotas.tenants[other] == c.quotas.tenants[other]
                    &&& c.quotas.scopes.contains_key((other, scope)) ==> w.quotas.scopes[(other, scope)]
                        == c.quotas.scopes[(other, scope)]
                }
                &&& w.tenants.next_id == c.tenants.next_id
                &&& w.placement == c.placement && w.extents == c.extents && w.stripes == c.stripes
                &&& w.running == c.running && w.shared == c.shared && w.bucket_count == c.bucket_count
            }
        }),
{
}

/// A tick passes for every tenant alike, and changes nothing but tokens.
pub proof fn law_time_passes_for_every_tenant(c: ClusterView, tenant: TenantId)
    ensures
        ({
            let w = c.tick();
            &&& w.qos.contains_key(tenant) <==> c.qos.contains_key(tenant)
            &&& c.qos.contains_key(tenant) ==> w.qos[tenant] == c.qos[tenant].tick()
            &&& w == (ClusterView { qos: w.qos, ..c })
        }),
{
}

/// Protecting a pool registers the nodes given beside those that it has; the nodes that are
/// new have no shards. A pool that is protected keeps its scheme and its stripes, and one
/// that is not starts with the scheme given and without stripes. No other pool changes.
pub proof fn law_protecting_registers_the_nodes(
    c: ClusterView,
    pool: PoolId,
    scheme: ProtectionScheme,
    snodes: Seq<SNodeId>,
    d: SNodeId,
    other: PoolId,
)
    ensures
        ({
            let w = c.protect_pool(pool, scheme, snodes);
            let v = w.stripes[pool];
            let was = c.stripes[pool];
            let before = c.stripes.contains_key(pool);
            &&& w.stripes.contains_key(pool)
            &&& v.domains.contains_key(d) <==> snodes.contains(d) || (before && was.domains.contains_key(d))
            &&& before ==> {
                &&& was.domains.contains_key(d) ==> v.domains[d] == was.domains[d]
                &&& !was.domains.contains_key(d) && snodes.contains(d) ==> v.domains[d] == 0
                &&& v == (StripesView { domains: v.domains, ..was })
            }
            &&& !before ==> {
                &&& snodes.contains(d) ==> v.domains[d] == 0
                &&& v.pool == pool && v.scheme == scheme && v.next_stripe == 0 && !v.failed.contains(d)
                &&& forall|s: crate::protection::StripeId| !#[trigger] v.stripes.contains_key(s)
            }
            &&& other != pool ==> (w.stripes.contains_key(other) <==> c.stripes.contains_key(other))
                && w.stripes[other] == c.stripes[other]
            &&& w == (ClusterView { stripes: w.stripes, ..c })
        }),
{
    let first = if c.stripes.contains_key(pool) {
        c.stripes[pool]
    } else {
        cluster::no_stripes(pool, scheme)
    };
    lemma_registered(first, snodes, snodes.len(), d);
    assert(snodes.take(snodes.len() as int) =~= snodes);
}

/// The domains after the first nodes were registered.
proof fn lemma_registered(v: StripesView, snodes: Seq<SNodeId>, n: nat, d: SNodeId)
    requires
        n <= snodes.len(),
    ensures
        ({
            let w = cluster::with_domains(v, snodes, n);
            &&& w.domains.contains_key(d) <==> v.domains.contains_key(d) || snodes.take(n as int).contains(d)
            &&& v.domains.contains_key(d) ==> w.domains[d] == v.domains[d]
            &&& !v.domains.contains_key(d) && snodes.take(n as int).contains(d) ==> w.domains[d] == 0
            &&& w == (StripesView { domains: w.domains, ..v })
        }),
    decreases n,
{
    if n > 0 {
        let m = (n - 1) as nat;
        lemma_registered(v, snodes, m, d);
        let (a, b) = (snodes.take(m as int), snodes.take(n as int));
        assert(b =~= a.push(snodes[m as int]));
        if a.contains(d) {
            let i = choose|i: int| 0 <= i < a.len() && a[i] == d;
            assert(b[i] == d);
        }
        if b.contains(d) && d != snodes[m as int] {
            let i = choose|i: int| 0 <= i < b.len() && b[i] == d;
            assert(a[i] == d);
        }
        if d == snodes[m as int] {
            assert(b[m as int] == d);
        }
    }
}

/// A node that fails is down in every protected pool, and nothing else changes; what is
/// counted are the stripes that have a shard on it, pool by pool.
pub proof fn law_a_node_fails_everywhere(
    c: ClusterView,
    snode: SNodeId,
    pool: PoolId,
    d: SNodeId,
    pools: Seq<PoolId>,
)
    ensures
        ({
            let w = c.fail_snode(snode);
            &&& w.stripes.contains_key(pool) <==> c.stripes.contains_key(pool)
            &&& c.stripes.contains_key(pool) ==> {
                &&& w.stripes[pool].failed.contains(d) <==> c.stripes[pool].failed.contains(d) || d == snode
                &&& w.stripes[pool] == (StripesView { failed: w.stripes[pool].failed, ..c.stripes[pool] })
            }
            &&& w == (ClusterView { stripes: w.stripes, ..c })
            &&& c.stripes_with(snode, Seq::empty(), 0) == 0
            &&& c.stripes_with(snode, pools.push(pool), pools.len() + 1) == c.stripes_with(snode, pools, pools.len())
                + c.stripes[pool].listed(snode).len()
        }),
{
    lemma_count_of_start(c, snode, pools, pools.push(pool), pools.len());
}

/// The count over the first pools depends on those alone.
proof fn lemma_count_of_start(c: ClusterView, snode: SNodeId, a: Seq<PoolId>, b: Seq<PoolId>, n: nat)
    requires
        n <= a.len(),
        n <= b.len(),
        forall|i: int| 0 <= i < n ==> a[i] == b[i],
    ensures
        c.stripes_with(snode, a, n) == c.stripes_with(snode, b, n),
    decreases n,
{
    if n > 0 {
        lemma_count_of_start(c, snode, a, b, (n - 1) as nat);
    }
}

/// When a cluster can be rebuilt: if and only if for every protected pool a plan can be
/// made; and otherwise the reason is that of the first pool, by number, without one.
pub proof fn law_when_a_cluster_can_be_rebuilt(c: ClusterView, cnodes: Seq<CNodeId>, pool: PoolId)
    requires
        c.in_order(),
    ensures
        c.rebuild(cnodes).1 is Ok <==> forall|p: PoolId| #[trigger]
            c.stripes.contains_key(p) ==> c.stripes[p].plan_rebuild(cnodes) is Ok,
        c.stripes.contains_key(pool) && c.stripes[pool].plan_rebuild(cnodes) is Err && (forall|p: PoolId| #[trigger]
            c.stripes.contains_key(p) && p.0 < pool.0 ==> c.stripes[p].plan_rebuild(cnodes) is Ok) ==> c.rebuild(
            cnodes,
        ).1 == Err::<nat, ErrorView>(c.stripes[pool].plan_rebuild(cnodes)->Err_0),
{
    let pools = c.protected_pools();
    let lt = crate::sorted_map::key_order::<PoolId>();
    <PoolId as crate::sorted_map::Key>::lemma_order();
    crate::order::lemma_ranking_exists(c.stripes.dom(), lt);
    crate::order::lemma_ranking_len(pools, c.stripes.dom(), lt);
    assert forall|i: int| 0 <= i < pools.len() implies c.stripes.contains_key(#[trigger] pools[i]) by {
        assert(pools.contains(pools[i]));
        assert(c.stripes.dom().contains(pools[i]));
    }
    if forall|p: PoolId| #[trigger] c.stripes.contains_key(p) ==> c.stripes[p].plan_rebuild(cnodes) is Ok {
        lemma_pools_rebuilt(c, cnodes, pools, pools.len());
    }
    assert forall|p: PoolId| #[trigger]
        c.stripes.contains_key(p) && c.stripes[p].plan_rebuild(cnodes) is Err implies c.rebuild(cnodes).1 is Err by {
        assert(c.stripes.dom().contains(p));
        let i = choose|i: int| 0 <= i < pools.len() && pools[i] == p;
        lemma_stops_at_a_pool(c, cnodes, pools, i, pools.len());
    }
    if c.stripes.contains_key(pool) && c.stripes[pool].plan_rebuild(cnodes) is Err && (forall|p: PoolId| #[trigger]
        c.stripes.contains_key(p) && p.0 < pool.0 ==> c.stripes[p].plan_rebuild(cnodes) is Ok) {
        assert(c.stripes.dom().contains(pool));
        let i = choose|i: int| 0 <= i < pools.len() && pools[i] == pool;
        assert forall|k: int| 0 <= k < i implies c.stripes[#[trigger] pools[k]].plan_rebuild(cnodes) is Ok by {
            assert(lt(pools[k], pools[i]));
            assert(c.stripes.contains_key(pools[k]));
        }
        lemma_pools_rebuilt(c, cnodes, pools, i as nat);
        lemma_reason_stays(c, cnodes, pools, (i + 1) as nat, pools.len());
    }
}

/// Pools with a plan are rebuilt one after the other; the others are not touched.
proof fn lemma_pools_rebuilt(c: ClusterView, cnodes: Seq<CNodeId>, pools: Seq<PoolId>, n: nat)
    requires
        c.in_order(),
        pools.no_duplicates(),
        n <= pools.len(),
        forall|i: int| 0 <= i < pools.len() ==> c.stripes.contains_key(#[trigger] pools[i]),
        forall|i: int| 0 <= i < n ==> c.stripes[#[trigger] pools[i]].plan_rebuild(cnodes) is Ok,
    ensures
        c.rebuilt_pools(cnodes, pools, n).1 is Ok,
        forall|i: int|
            n <= i < pools.len() ==> c.rebuilt_pools(cnodes, pools, n).0[#[trigger] pools[i]] == c.stripes[pools[i]],
    decreases n,
{
    if n > 0 {
        lemma_pools_rebuilt(c, cnodes, pools, (n - 1) as nat);
        let p = pools[n - 1];
        let v = c.stripes[p];
        assert(c.stripes.contains_key(p));
        assert(v.plan_rebuild(cnodes) is Ok);
        cluster::lemma_after_rebuilds(v, cnodes, v.plan_rebuild(cnodes)->Ok_0.len());
    }
}

/// A rebuild does not get past a pool without a plan.
proof fn lemma_stops_at_a_pool(c: ClusterView, cnodes: Seq<CNodeId>, pools: Seq<PoolId>, i: int, n: nat)
    requires
        pools.no_duplicates(),
        0 <= i < n <= pools.len(),
        c.stripes[pools[i]].plan_rebuild(cnodes) is Err,
    ensures
        c.rebuilt_pools(cnodes, pools, n).1 is Err,
    decreases n,
{
    if i < n - 1 {
        lemma_stops_at_a_pool(c, cnodes, pools, i, (n - 1) as nat);
    } else {
        lemma_later_pools_untouched(c, cnodes, pools, i as nat, i);
    }
}

/// What comes later is not touched.
proof fn lemma_later_pools_untouched(c: ClusterView, cnodes: Seq<CNodeId>, pools: Seq<PoolId>, n: nat, i: int)
    requires
        pools.no_duplicates(),
        n <= i < pools.len(),
    ensures
        c.rebuilt_pools(cnodes, pools, n).0[pools[i]] == c.stripes[pools[i]],
    decreases n,
{
    if n > 0 {
        lemma_later_pools_untouched(c, cnodes, pools, (n - 1) as nat, i);
        assert(pools[n - 1] != pools[i]);
    }
}

/// The first reason is the reason.
proof fn lemma_reason_stays(c: ClusterView, cnodes: Seq<CNodeId>, pools: Seq<PoolId>, m: nat, n: nat)
    requires
        m <= n,
        c.rebuilt_pools(cnodes, pools, m).1 is Err,
    ensures
        c.rebuilt_pools(cnodes, pools, n) == c.rebuilt_pools(cnodes, pools, m),
    decreases n,
{
    if m < n {
        lemma_reason_stays(c, cnodes, pools, m, (n - 1) as nat);
    }
}

/// The bucket of an object is the remainder of its key's hash, tenant included. A bucket
/// starts when it is first needed, on the first node and from what the shared pool has of
/// it; one that runs goes on running. No other bucket changes.
pub proof fn law_buckets_start_when_needed(
    c: ClusterView,
    tenant: TenantId,
    key: Seq<char>,
    b: BucketId,
    other: BucketId,
)
    requires
        c.bucket_count > 0,
    ensures
        ({
            let w = c.with_bucket(b);
            &&& c.bucket_of(tenant, key).0 == types::route_hash_of(
                types::MetaKeyView { tenant, key: vstd::utf8::encode_utf8(key) },
            ) % (c.bucket_count as u64)
            &&& c.running.contains_key(b) ==> w == c
            &&& !c.running.contains_key(b) && c.shared.contains_key(b) ==> (w.running[b], w.shared[b])
                == ProcessView::take_over(b, CNodeId(0), c.shared[b])
            &&& !c.running.contains_key(b) && !c.shared.contains_key(b) ==> {
                &&& w.running[b].owner == CNodeId(0) && w.running[b].epoch == 1
                &&& forall|k: types::MetaKeyView| !#[trigger] w.running[b].entries.contains_key(k)
            }
            &&& w.running.contains_key(b)
            &&& other != b ==> (w.running.contains_key(other) <==> c.running.contains_key(other)) && w.running[other]
                == c.running[other] && w.shared[other] == c.shared[other]
            &&& w == (ClusterView { running: w.running, shared: w.shared, ..c })
        }),
{
}

} // verus!
