//! Room for writes: a condition, simple to state, under which a number of writes can
//! be done without any count or sum leaving its 64 bits.

use vstd::prelude::*;

use crate::bytes;
use crate::cluster;
use crate::cluster::ClusterView;
use crate::cluster_laws;
use crate::extent::Purpose;
use crate::metadata::RecordView;
use crate::protection_laws;
use crate::quota::Usage;
use crate::snapshot::HeadId;
use crate::snapshot_laws;
use crate::types::{ExtentId, PoolId, TenantId};

verus! {

/// Whether `n` objects of up to `size` bytes can be added to what is in use.
pub open spec fn usage_has_room(u: Usage, size: u64, n: nat) -> bool {
    u.bytes + n * size <= u64::MAX && u.objects + n <= u64::MAX
}

/// Whether a cluster has room for `n` writes of up to `size` bytes, as far as the
/// width of its numbers goes.
pub open spec fn room(c: ClusterView, tenant: TenantId, scope: Seq<char>, size: u64, n: nat) -> bool {
    &&& c.in_order()
    &&& c.placement.filed()
    &&& c.extents.sound()
    &&& c.quotas.tenants.contains_key(tenant) ==> usage_has_room(c.quotas.tenants[tenant].usage, size, n)
    &&& c.quotas.scopes.contains_key((tenant, scope)) ==> usage_has_room(
        c.quotas.scopes[(tenant, scope)].usage,
        size,
        n,
    )
    &&& forall|p: PoolId| #[trigger] c.placement.pools.contains_key(p) ==> c.placement.pools[p].capacity * 1000
        <= u64::MAX
    &&& c.extents.total * 1000 <= u64::MAX
    &&& c.extents.next_id + 2 * n <= u64::MAX
    &&& forall|p: PoolId| #[trigger] c.stripes.contains_key(p) ==> c.stripes[p].next_stripe + n <= u64::MAX
}

/// With room for a write, its numbers fit.
pub proof fn lemma_room_is_enough(
    c: ClusterView,
    tenant: TenantId,
    scope: Seq<char>,
    limit: u64,
    n: nat,
    size: u64,
)
    requires
        room(c, tenant, scope, limit, n),
        n > 0,
        size <= limit,
    ensures
        c.can_put(tenant, scope, size),
{
    let (a, accepted) = c.accept(tenant, size);
    cluster_laws::lemma_accept(c, tenant, size);
    if accepted is Ok {
        assert(n * limit >= limit) by (nonlinear_arith)
            requires
                n > 0,
                limit >= 0,
        ;
        assert forall|p: PoolId| #[trigger] a.placement.pools.contains_key(p) && a.placement.pools[p].used
            < a.placement.pools[p].capacity implies a.placement.pools[p].measurable() by {
            assert(c.placement.pools.contains_key(p));
        }
        assert forall|p: PoolId| #[trigger] a.stripes.contains_key(p) implies a.stripes[p].can_place() by {
            protection_laws::law_room_for_a_stripe(a.stripes[p]);
        }
        assert(a.extents.can_allocate(Purpose::Data));
        assert(a.can_reserve(tenant, scope, size));
    }
}

/// A write keeps a state in order, and takes up room for one write only.
pub proof fn lemma_room_for_the_rest(
    c: ClusterView,
    tenant: TenantId,
    scope: Seq<char>,
    limit: u64,
    n: nat,
    key: Seq<char>,
    size: u64,
)
    requires
        room(c, tenant, scope, limit, n),
        n > 0,
        size <= limit,
    ensures
        room(c.put_object(tenant, scope, key, size).0, tenant, scope, limit, (n - 1) as nat),
{
    lemma_room_is_enough(c, tenant, scope, limit, n, size);
    cluster_laws::lemma_accept(c, tenant, size);
    let (a, accepted) = c.accept(tenant, size);
    let w = c.put_object(tenant, scope, key, size).0;
    assert(n * limit == (n - 1) * limit + limit) by (nonlinear_arith);
    assert((n - 1) * limit >= 0) by (nonlinear_arith)
        requires
            n > 0,
            limit >= 0,
    ;
    assert(room(a, tenant, scope, limit, (n - 1) as nat));
    if accepted is Ok {
        let (b, reserved) = a.reserve(tenant, scope, size);
        cluster_laws::lemma_reserve_in_order(a, tenant, scope, size);
        assert(b.placement == a.placement);
        assert(b.extents.sound());
        assert(b.extents.next_id <= a.extents.next_id + 2);
        assert forall|p: PoolId| #[trigger] b.stripes.contains_key(p) implies b.stripes[p].next_stripe + (n - 1)
            <= u64::MAX by {
            assert(a.stripes.contains_key(p));
        }
        assert(room(b, tenant, scope, limit, (n - 1) as nat));
        if reserved is Ok {
            cluster_laws::lemma_reserve_ok(a, tenant, scope, size);
            let (pool, extent) = reserved->Ok_0;
            cluster_laws::lemma_record(b, tenant, key, size, pool, extent);
            a.lemma_same_held(b);
            if a.held().contains(extent) {
                let t = choose|t: TenantId| #[trigger] a.holds(t, extent);
                assert(a.namespace_in_order(t));
            }
            lemma_record_in_order(b, tenant, key, size, pool, extent);
            assert forall|p: PoolId| #[trigger] w.placement.pools.contains_key(p) implies
                w.placement.pools[p].capacity * 1000 <= u64::MAX && w.placement.pools[p].id == p by {
                assert(b.placement.pools.contains_key(p));
            }
            assert(w.placement.pools.dom() =~= b.placement.pools.dom());
        }
    }
}

/// The last step of a write keeps a state in order.
proof fn lemma_record_in_order(
    c: ClusterView,
    tenant: TenantId,
    key: Seq<char>,
    size: u64,
    pool: PoolId,
    extent: ExtentId,
)
    requires
        c.in_order(),
        c.extents.sound(),
        extent.0 <= c.extents.next_id,
        !c.held().contains(extent),
    ensures
        c.record(tenant, key, size, pool, extent).0.in_order(),
        c.record(tenant, key, size, pool, extent).0.extents == c.extents,
{
    let w = c.record(tenant, key, size, pool, extent).0;
    let s = ClusterView { placement: c.placement.commit(pool, 1).0, ..c };
    c.lemma_in_order_unless(s);
    if c.placement.commit(pool, 1).1 is Ok {
        let b = s.bucket_of(tenant, key);
        s.lemma_with_bucket(b);
        let t = s.with_bucket(b);
        let put = RecordView::Put { key: cluster::object_key(tenant, key), value: bytes::be64(size) };
        let (p, shared, written) = t.running[b].append(t.shared[b], put);
        let u = ClusterView { running: t.running.insert(b, p), shared: t.shared.insert(b, shared), ..t };
        t.lemma_after_append(b, put, u);
        if written is Ok {
            c.lemma_same_held(u);
            lemma_version_in_order(u, tenant, key, extent, w);
        }
    }
}

/// A new version in a namespace keeps a state in order.
proof fn lemma_version_in_order(c: ClusterView, tenant: TenantId, key: Seq<char>, extent: ExtentId, w: ClusterView)
    requires
        c.in_order(),
        extent.0 <= c.extents.next_id,
        !c.held().contains(extent),
        w == (ClusterView {
            namespaces: c.namespaces.insert(
                tenant,
                c.namespace(tenant).write(HeadId(0), vstd::utf8::encode_utf8(key), Some(extent)).0,
            ),
            ..c
        }),
    ensures
        w.in_order(),
{
    let k = vstd::utf8::encode_utf8(key);
    let ns = c.namespace(tenant);
    snapshot_laws::law_empty_is_consistent();
    if c.namespaces.contains_key(tenant) {
        assert(c.namespace_in_order(tenant));
    }
    assert(ns.refcount(extent) == 0) by {
        if ns.refcounts.contains_key(extent) {
            assert(c.holds(tenant, extent));
        }
    }
    snapshot_laws::law_write_consistent(ns, HeadId(0), k, Some(extent));
    assert forall|o: TenantId| #[trigger] w.namespaces.contains_key(o) implies w.namespace_in_order(o) by {
        if o != tenant {
            assert(c.namespaces.contains_key(o) && c.namespace_in_order(o));
        } else {
            assert forall|e: ExtentId| #[trigger] w.namespaces[o].refcounts.contains_key(e) implies e.0
                <= w.extents.next_id by {
                if e != extent {
                    assert(ns.refcounts.contains_key(e));
                }
            }
        }
    }
    assert forall|t: TenantId, e: ExtentId| #[trigger] w.holds(t, e) implies c.holds(t, e) || (t == tenant && e
        == extent) by {
        if t == tenant && e != extent {
            assert(ns.refcounts.contains_key(e));
        }
    }
    c.lemma_one_more_unshared(tenant, extent, w);
    c.lemma_in_order_unless(w);
}

} // verus!
