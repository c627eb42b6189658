//! What a cluster promises as a whole: an object that was written can be looked
//! up, tenants do not see each other, a failed write leaves nothing behind, a
//! deleted tenant is turned away, snapshots stay as they are, and a rebuild makes
//! every stripe healthy again.

use vstd::prelude::*;

use crate::bytes;
use crate::cluster;
use crate::cluster::ClusterView;
use crate::extent;
use crate::extent::Purpose;
use crate::metadata::RecordView;
use crate::order;
use crate::placement;
use crate::protection::{StripeHealth, StripeId, StripesView};
use crate::protection_laws;
use crate::quota;
use crate::snapshot::{HeadId, SnapshotId};
use crate::snapshot_laws;
use crate::sorted_map;
use crate::tenant::Placement;
use crate::types::{BucketId, CNodeId, ErrorView, ExtentId, MediaClass, PoolId, SNodeId, TenantId};

verus! {

impl ClusterView {
    /// What the buckets have recorded of an object.
    pub open spec fn recorded(self, tenant: TenantId, key: Seq<char>) -> Option<Seq<u8>> {
        let b = self.bucket_of(tenant, key);
        let k = cluster::object_key(tenant, key);
        if self.running.contains_key(b) && self.running[b].entries.contains_key(k) {
            Some(self.running[b].entries[k])
        } else {
            None
        }
    }
}

/// The last step of a write: it succeeds, and records the object and a version of
/// it.
pub proof fn lemma_record(c: ClusterView, tenant: TenantId, key: Seq<char>, size: u64, pool: PoolId, extent: ExtentId)
    requires
        c.in_order(),
        c.placement.pools.contains_key(pool),
    ensures
        ({
            let (w, r) = c.record(tenant, key, size, pool, extent);
            &&& r is Ok
            &&& w.tenants == c.tenants
            &&& w.quotas == c.quotas
            &&& w.qos == c.qos
            &&& w.stripes == c.stripes
            &&& w.bucket_count == c.bucket_count
            &&& w.extents == c.extents
            &&& w.placement == c.placement.commit(pool, 1).0
            &&& w.recorded(tenant, key) == Some(bytes::be64(size))
            &&& w.namespaces == c.namespaces.insert(
                tenant,
                c.namespace(tenant).write(HeadId(0), vstd::utf8::encode_utf8(key), Some(extent)).0,
            )
            &&& forall|t: TenantId, k: Seq<char>|
                t != tenant || k != key ==> #[trigger] w.recorded(t, k) == c.recorded(t, k)
        }),
{
    let s = ClusterView { placement: c.placement.commit(pool, 1).0, ..c };
    let b = s.bucket_of(tenant, key);
    let t = s.with_bucket(b);
    let (w, r) = c.record(tenant, key, size, pool, extent);
    assert forall|x: TenantId, k: Seq<char>| #[trigger] s.recorded(x, k) == c.recorded(x, k) by {}
    if !c.running.contains_key(b) {
        assert(!c.shared.dom().contains(b));
    } else {
        assert(c.bucket_in_order(b));
    }
    assert(t.running[b].current(t.shared[b]));
    let mk = cluster::object_key(tenant, key);
    let put = RecordView::Put { key: mk, value: bytes::be64(size) };
    let (p, shared, written) = t.running[b].append(t.shared[b], put);
    assert(written is Ok);
    if c.namespaces.contains_key(tenant) {
        assert(c.namespace_in_order(tenant));
    }
    assert forall|x: TenantId, k: Seq<char>| x != tenant || k != key implies #[trigger] w.recorded(x, k)
        == c.recorded(x, k) by {
        bytes::lemma_encoding_injective(k, key);
        assert(cluster::object_key(x, k) != mk);
        assert(w.running == t.running.insert(b, p));
        if !c.running.contains_key(b) {
            assert(t.running[b].entries =~= Map::empty());
        }
    }
}

/// The middle step of a write, where it succeeds: a pool with room, a new extent,
/// and nothing but quota, extents and stripes changed.
pub proof fn lemma_reserve_ok(c: ClusterView, tenant: TenantId, scope: Seq<char>, size: u64)
    requires
        c.in_order(),
        c.placement.filed(),
        c.extents.sound(),
        c.can_reserve(tenant, scope, size),
        c.reserve(tenant, scope, size).1 is Ok,
    ensures
        ({
            let (w, r) = c.reserve(tenant, scope, size);
            let (pool, extent) = r->Ok_0;
            &&& c.tenants.placement(tenant) is Ok
            &&& c.placement.select_pool(
                MediaClass::TlcNvme,
                tenant,
                cluster::bound_pool(c.tenants.placement(tenant)->Ok_0),
            ) == Ok::<PoolId, ErrorView>(pool)
            &&& c.placement.pools.contains_key(pool)
            &&& c.placement.pools[pool].used < c.placement.pools[pool].capacity
            &&& w.in_order()
            &&& w.tenants == c.tenants
            &&& w.placement == c.placement
            &&& w.qos == c.qos
            &&& w.bucket_count == c.bucket_count
            &&& w.running == c.running
            &&& w.shared == c.shared
            &&& w.namespaces == c.namespaces
            &&& w.quotas == c.quotas.charge(tenant, scope, size, 1).0
            &&& c.quotas.charge(tenant, scope, size, 1).1 is Ok
            &&& w.extents == c.extents.allocate(Purpose::Data).0.allocate(Purpose::Metadata).0
            &&& c.extents.allocate(Purpose::Data).1 is Ok
            &&& c.extents.allocate(Purpose::Data).0.allocate(Purpose::Metadata).1 is Ok
            &&& extent.0 == c.extents.next_id + 1
            &&& w.extents.next_id == c.extents.next_id + 2
        }),
{
    let (w, r) = c.reserve(tenant, scope, size);
    let bound = cluster::bound_pool(c.tenants.placement(tenant)->Ok_0);
    let (pool, extent) = r->Ok_0;
    placement::law_selection(c.placement, MediaClass::TlcNvme, tenant, bound, pool);
    if c.stripes.contains_key(pool) {
        protection_laws::law_place_stripe_consistent(c.stripes[pool]);
    }
    lemma_reserve_in_order(c, tenant, scope, size);
}

/// Reservation keeps a state in order.
pub proof fn lemma_reserve_in_order(c: ClusterView, tenant: TenantId, scope: Seq<char>, size: u64)
    requires
        c.in_order(),
        c.extents.sound(),
        c.can_reserve(tenant, scope, size),
    ensures
        c.reserve(tenant, scope, size).0.in_order(),
{
    let w = c.reserve(tenant, scope, size).0;
    assert(w.running == c.running && w.shared == c.shared && w.namespaces == c.namespaces);
    assert(w.extents.next_id >= c.extents.next_id);
    assert forall|p: PoolId| #[trigger] w.stripes.contains_key(p) implies w.stripes[p].consistent() by {
        assert(c.stripes.contains_key(p));
        if w.stripes[p] != c.stripes[p] {
            protection_laws::law_place_stripe_consistent(c.stripes[p]);
            protection_laws::law_release_stripe_consistent(
                c.stripes[p].place_stripe().0,
                c.stripes[p].place_stripe().1->Ok_0.0,
            );
        }
    }
    c.lemma_in_order_unless(w);
}

/// Admission changes tokens only.
pub proof fn lemma_accept(c: ClusterView, tenant: TenantId, size: u64)
    requires
        c.in_order(),
    ensures
        ({
            let (a, r) = c.accept(tenant, size);
            &&& a == (ClusterView { qos: a.qos, ..c })
            &&& a.in_order()
            &&& r is Ok ==> c.tenants.key(tenant) is Ok
            &&& forall|t: TenantId| t != tenant ==> #[trigger] a.qos.contains_key(t) == c.qos.contains_key(t)
                && a.qos[t] == c.qos[t]
        }),
{
    c.lemma_in_order_unless(c.accept(tenant, size).0);
}

/// A write is recorded in full or not at all: if it succeeds, the object has its
/// new size, and in either case no other object changes, of this tenant or of
/// another.
pub proof fn law_put_records_one_object(
    c: ClusterView,
    tenant: TenantId,
    scope: Seq<char>,
    key: Seq<char>,
    size: u64,
    other: TenantId,
    other_key: Seq<char>,
)
    requires
        c.in_order(),
        c.placement.filed(),
        c.extents.sound(),
        c.can_put(tenant, scope, size),
    ensures
        ({
            let (w, r) = c.put_object(tenant, scope, key, size);
            &&& r is Ok ==> w.recorded(tenant, key) == Some(bytes::be64(size))
            &&& r is Err || other != tenant || other_key != key ==> w.recorded(other, other_key) == c.recorded(
                other,
                other_key,
            )
            &&& w.tenants == c.tenants
            &&& w.bucket_count == c.bucket_count
            &&& other != tenant ==> (w.qos.contains_key(other) <==> c.qos.contains_key(other)) && w.qos[other]
                == c.qos[other]
        }),
{
    lemma_accept(c, tenant, size);
    let a = c.accept(tenant, size).0;
    assert(a.qos.contains_key(other) == c.qos.contains_key(other) || other == tenant);
    assert(a.recorded(other, other_key) == c.recorded(other, other_key));
    if c.accept(tenant, size).1 is Ok {
        let (b, reserved) = a.reserve(tenant, scope, size);
        assert(b.recorded(other, other_key) == a.recorded(other, other_key));
        if reserved is Ok {
            lemma_reserve_ok(a, tenant, scope, size);
            let (pool, extent) = reserved->Ok_0;
            lemma_record(b, tenant, key, size, pool, extent);
            let w = b.record(tenant, key, size, pool, extent).0;
            assert(b.record(tenant, key, size, pool, extent).1 is Err || other != tenant || other_key != key
                ==> w.recorded(other, other_key) == b.recorded(other, other_key));
        }
    }
}

/// An object that was written can be looked up, with the size it was written
/// with, as soon as the tenant has a token for the lookup.
pub proof fn law_stat_finds_what_was_put(
    c: ClusterView,
    tenant: TenantId,
    scope: Seq<char>,
    key: Seq<char>,
    size: u64,
)
    requires
        c.in_order(),
        c.placement.filed(),
        c.extents.sound(),
        c.can_put(tenant, scope, size),
        c.put_object(tenant, scope, key, size).1 is Ok,
        c.put_object(tenant, scope, key, size).0.qos[tenant].meta.tokens >= 1,
    ensures
        c.put_object(tenant, scope, key, size).0.stat(tenant, key).1 == Ok::<u64, ErrorView>(size),
{
    law_put_records_one_object(c, tenant, scope, key, size, tenant, key);
    let w = c.put_object(tenant, scope, key, size).0;
    lemma_accept(c, tenant, size);
    let a = c.accept(tenant, size).0;
    lemma_reserve_ok(a, tenant, scope, size);
    let (b, reserved) = a.reserve(tenant, scope, size);
    lemma_record(b, tenant, key, size, reserved->Ok_0.0, reserved->Ok_0.1);
    assert(w.qos.contains_key(tenant));
    bytes::lemma_be64_round_trip(size);
}

/// Tenants are isolated: nothing that one tenant writes changes what a lookup by
/// another tenant returns, under the same name or any other.
pub proof fn law_tenants_are_isolated(
    c: ClusterView,
    tenant: TenantId,
    scope: Seq<char>,
    key: Seq<char>,
    size: u64,
    other: TenantId,
    other_key: Seq<char>,
)
    requires
        c.in_order(),
        c.placement.filed(),
        c.extents.sound(),
        c.can_put(tenant, scope, size),
        other != tenant,
    ensures
        c.put_object(tenant, scope, key, size).0.stat(other, other_key).1 == c.stat(other, other_key).1,
{
    law_put_records_one_object(c, tenant, scope, key, size, other, other_key);
    let w = c.put_object(tenant, scope, key, size).0;
    let b = c.bucket_of(other, other_key);
    if !c.running.contains_key(b) {
        assert(!c.shared.dom().contains(b));
    }
    lemma_put_in_order(c, tenant, scope, key, size);
    if !w.running.contains_key(b) {
        assert(!w.shared.dom().contains(b));
    }
}

/// A write keeps every bucket running and in order.
proof fn lemma_put_in_order(c: ClusterView, tenant: TenantId, scope: Seq<char>, key: Seq<char>, size: u64)
    requires
        c.in_order(),
        c.placement.filed(),
        c.extents.sound(),
        c.can_put(tenant, scope, size),
    ensures
        ({
            let w = c.put_object(tenant, scope, key, size).0;
            w.running.dom() == w.shared.dom()
        }),
{
    lemma_accept(c, tenant, size);
    let a = c.accept(tenant, size).0;
    if c.accept(tenant, size).1 is Ok {
        let (b, reserved) = a.reserve(tenant, scope, size);
        if reserved is Ok {
            lemma_reserve_ok(a, tenant, scope, size);
            let (pool, extent) = reserved->Ok_0;
            let w = b.record(tenant, key, size, pool, extent).0;
            let id = b.bucket_of(tenant, key);
            assert(b.with_bucket(id).running.dom() =~= b.with_bucket(id).shared.dom()) by {
                if !b.running.contains_key(id) {
                    assert(!b.shared.dom().contains(id));
                }
            }
            lemma_record(b, tenant, key, size, pool, extent);
            assert(w.running.dom() =~= w.shared.dom());
        }
    }
}

/// Whether two states of a pool hold the same stripes, on the same domains.
pub open spec fn same_stripes(v: StripesView, w: StripesView) -> bool {
    &&& w.stripes == v.stripes
    &&& w.domains == v.domains
    &&& w.failed == v.failed
    &&& w.scheme == v.scheme
    &&& forall|d: SNodeId| #[trigger] w.listed(d) == v.listed(d)
}

/// A write that fails, for whatever reason, leaves nothing behind but spent tokens:
/// no quota, no extent, no space on a pool, no stripe, no version, no record.
pub proof fn law_failed_put_leaves_nothing(
    c: ClusterView,
    tenant: TenantId,
    scope: Seq<char>,
    key: Seq<char>,
    size: u64,
)
    requires
        c.in_order(),
        c.placement.filed(),
        c.extents.sound(),
        c.can_put(tenant, scope, size),
        c.put_object(tenant, scope, key, size).1 is Err,
    ensures
        ({
            let w = c.put_object(tenant, scope, key, size).0;
            &&& w.quotas == c.quotas
            &&& w.extents.free == c.extents.free
            &&& w.extents.meta_used == c.extents.meta_used
            &&& w.extents.data_used == c.extents.data_used
            &&& w.placement == c.placement
            &&& w.namespaces == c.namespaces
            &&& w.running == c.running
            &&& w.shared == c.shared
            &&& forall|t: TenantId, k: Seq<char>| #[trigger] w.recorded(t, k) == c.recorded(t, k)
            &&& w.stripes.dom() == c.stripes.dom()
            &&& forall|p: PoolId| #[trigger] c.stripes.contains_key(p) ==> same_stripes(c.stripes[p], w.stripes[p])
            &&& w.tenants == c.tenants
            &&& w.qos.dom() == c.qos.dom()
            &&& forall|t: TenantId| t != tenant ==> #[trigger] w.qos[t] == c.qos[t]
        }),
{
    lemma_accept(c, tenant, size);
    let (a, accepted) = c.accept(tenant, size);
    let w = c.put_object(tenant, scope, key, size).0;
    if accepted is Ok {
        let (b, reserved) = a.reserve(tenant, scope, size);
        if a.quotas.charge(tenant, scope, size, 1).1 is Ok {
            quota::law_release_undoes_charge(a.quotas, tenant, scope, size, 1);
        }
        if reserved is Ok {
            lemma_reserve_ok(a, tenant, scope, size);
            lemma_record(b, tenant, key, size, reserved->Ok_0.0, reserved->Ok_0.1);
        } else {
            if a.extents.allocate(Purpose::Data).1 is Ok && a.extents.next_id < u64::MAX {
                extent::law_release_undoes_allocate(a.extents, Purpose::Data);
            }
            assert forall|p: PoolId| #[trigger] c.stripes.contains_key(p) implies same_stripes(
                c.stripes[p],
                w.stripes[p],
            ) by {
                if w.stripes[p] != c.stripes[p] {
                    protection_laws::law_release_undoes_place(c.stripes[p]);
                }
            }
        }
        assert(w.stripes.dom() =~= c.stripes.dom());
    }
    assert(w.qos.dom() =~= c.qos.dom());
}

/// A write that succeeds is accounted for exactly: one extent for data and one for
/// metadata, the quota that it takes, and room on the one pool that was chosen.
pub proof fn law_put_is_accounted_for(
    c: ClusterView,
    tenant: TenantId,
    scope: Seq<char>,
    key: Seq<char>,
    size: u64,
    other: PoolId,
)
    requires
        c.in_order(),
        c.placement.filed(),
        c.extents.sound(),
        c.can_put(tenant, scope, size),
        c.put_object(tenant, scope, key, size).1 is Ok,
    ensures
        ({
            let w = c.put_object(tenant, scope, key, size).0;
            let bound = cluster::bound_pool(c.tenants.placement(tenant)->Ok_0);
            let chosen = c.placement.select_pool(MediaClass::TlcNvme, tenant, bound);
            &&& w.extents.data_used == c.extents.data_used + 1
            &&& w.extents.meta_used == c.extents.meta_used + 1
            &&& w.extents.free == c.extents.free - 2
            &&& w.quotas == c.quotas.booked(tenant, scope, size, 1)
            &&& chosen is Ok
            &&& w.placement.pools[chosen->Ok_0].used == c.placement.pools[chosen->Ok_0].used + 1
            &&& other != chosen->Ok_0 ==> w.placement.pools[other] == c.placement.pools[other]
        }),
{
    lemma_accept(c, tenant, size);
    let a = c.accept(tenant, size).0;
    lemma_reserve_ok(a, tenant, scope, size);
    let (b, reserved) = a.reserve(tenant, scope, size);
    lemma_record(b, tenant, key, size, reserved->Ok_0.0, reserved->Ok_0.1);
}

/// A tenant bound to a pool writes to that pool and touches no other.
pub proof fn law_bound_tenant_keeps_to_its_pool(
    c: ClusterView,
    tenant: TenantId,
    scope: Seq<char>,
    key: Seq<char>,
    size: u64,
    pool: PoolId,
    other: PoolId,
)
    requires
        c.in_order(),
        c.placement.filed(),
        c.extents.sound(),
        c.can_put(tenant, scope, size),
        c.tenants.placement(tenant) == Ok::<Placement, ErrorView>(Placement::DedicatedPool(pool)),
        c.put_object(tenant, scope, key, size).1 is Ok,
        other != pool,
    ensures
        ({
            let w = c.put_object(tenant, scope, key, size).0;
            &&& w.placement.pools[pool].used == c.placement.pools[pool].used + 1
            &&& w.placement.pools[other] == c.placement.pools[other]
        }),
{
    law_put_is_accounted_for(c, tenant, scope, key, size, other);
    placement::law_selection(c.placement, MediaClass::TlcNvme, tenant, Some(pool), pool);
}

/// A deleted tenant is turned away at the entry: writes, lookups and snapshots are
/// refused and change nothing.
pub proof fn law_deleted_tenant_is_refused(
    c: ClusterView,
    tenant: TenantId,
    scope: Seq<char>,
    key: Seq<char>,
    size: u64,
    snap: SnapshotId,
)
    requires
        c.tenants.tenants.contains_key(tenant),
    ensures
        ({
            let w = c.delete_tenant(tenant).0;
            let gone = ErrorView::UnknownTenant(tenant);
            &&& w.put_object(tenant, scope, key, size) == (w, Err::<(), _>(gone))
            &&& w.stat(tenant, key) == (w, Err::<u64, _>(gone))
            &&& w.create_snapshot(tenant, key) == (w, Err::<SnapshotId, _>(gone))
            &&& w.stat_at(tenant, snap, key) == (w, Err::<ExtentId, _>(gone))
            &&& w.clone_snapshot(tenant, snap) == (w, Err::<HeadId, _>(gone))
            &&& w.delete_snapshot(tenant, snap) == (w, Err::<nat, _>(gone))
        }),
{
}

/// Deleting a tenant spares the others: what they look up, in their namespace or in a
/// snapshot, is what it was, and so is what they use.
pub proof fn law_deletion_spares_other_tenants(
    c: ClusterView,
    tenant: TenantId,
    other: TenantId,
    key: Seq<char>,
    snap: SnapshotId,
)
    requires
        other != tenant,
    ensures
        ({
            let w = c.delete_tenant(tenant).0;
            &&& w.stat(other, key).1 == c.stat(other, key).1
            &&& w.stat_at(other, snap, key).1 == c.stat_at(other, snap, key).1
            &&& w.namespace(other) == c.namespace(other)
            &&& w.quotas.tenants.contains_key(other) == c.quotas.tenants.contains_key(other)
            &&& c.quotas.tenants.contains_key(other) ==> w.quotas.tenants[other] == c.quotas.tenants[other]
        }),
{
    let w = c.delete_tenant(tenant).0;
    assert(w.tenants.key(other) == c.tenants.key(other));
    let b = c.bucket_of(other, key);
    assert(w.lookup_token(other).0.with_bucket(b).running[b] == c.lookup_token(other).0.with_bucket(b).running[b]);
}

/// Even if only the tenant's registration is gone, and with it the key, its data
/// cannot be reached.
pub proof fn law_without_a_key_nothing_is_reached(
    c: ClusterView,
    tenant: TenantId,
    scope: Seq<char>,
    key: Seq<char>,
    size: u64,
)
    requires
        c.tenants.tenants.contains_key(tenant),
    ensures
        ({
            let w = ClusterView { tenants: c.tenants.delete(tenant).0, ..c };
            let gone = ErrorView::UnknownTenant(tenant);
            &&& w.put_object(tenant, scope, key, size) == (w, Err::<(), _>(gone))
            &&& w.stat(tenant, key) == (w, Err::<u64, _>(gone))
        }),
{
}

/// Writes do not change what a snapshot shows, of whichever tenant.
pub proof fn law_snapshots_outlast_writes(
    c: ClusterView,
    tenant: TenantId,
    scope: Seq<char>,
    key: Seq<char>,
    size: u64,
    owner: TenantId,
    snap: SnapshotId,
    object: Seq<u8>,
)
    requires
        c.in_order(),
        c.placement.filed(),
        c.extents.sound(),
        c.can_put(tenant, scope, size),
    ensures
        c.put_object(tenant, scope, key, size).0.namespace(owner).get_at(snap, object) == c.namespace(owner).get_at(
            snap,
            object,
        ),
{
    lemma_accept(c, tenant, size);
    let (a, accepted) = c.accept(tenant, size);
    if accepted is Ok {
        let (b, reserved) = a.reserve(tenant, scope, size);
        if reserved is Ok {
            lemma_reserve_ok(a, tenant, scope, size);
            let (pool, extent) = reserved->Ok_0;
            lemma_record(b, tenant, key, size, pool, extent);
            let n = c.namespace(tenant);
            snapshot_laws::law_empty_is_consistent();
            if c.namespaces.contains_key(tenant) {
                assert(c.namespace_in_order(tenant));
            }
            snapshot_laws::law_snapshot_is_frozen(
                n,
                HeadId(0),
                vstd::utf8::encode_utf8(key),
                Some(extent),
                snap,
                object,
            );
        }
    }
}

/// A lookup in a snapshot finds the same before and after a write, of this tenant or
/// of another, as long as there are tokens for both lookups.
pub proof fn law_lookups_in_snapshots_outlast_writes(
    c: ClusterView,
    tenant: TenantId,
    scope: Seq<char>,
    key: Seq<char>,
    size: u64,
    owner: TenantId,
    snap: SnapshotId,
    object: Seq<char>,
)
    requires
        c.in_order(),
        c.placement.filed(),
        c.extents.sound(),
        c.can_put(tenant, scope, size),
        c.qos.contains_key(owner),
        c.qos[owner].meta.tokens >= 1,
        c.put_object(tenant, scope, key, size).0.qos[owner].meta.tokens >= 1,
    ensures
        c.put_object(tenant, scope, key, size).0.stat_at(owner, snap, object).1 == c.stat_at(owner, snap, object).1,
{
    law_snapshots_outlast_writes(c, tenant, scope, key, size, owner, snap, vstd::utf8::encode_utf8(object));
    law_put_records_one_object(c, tenant, scope, key, size, owner, key);
    lemma_accept(c, tenant, size);
    let (a, accepted) = c.accept(tenant, size);
    if accepted is Ok {
        let (b, reserved) = a.reserve(tenant, scope, size);
        if reserved is Ok {
            lemma_reserve_ok(a, tenant, scope, size);
            lemma_record(b, tenant, key, size, reserved->Ok_0.0, reserved->Ok_0.1);
        }
    }
}

/// A write that succeeds is what the tenant's live head then reads: a new extent
/// of its own.
pub proof fn law_put_makes_a_version(
    c: ClusterView,
    tenant: TenantId,
    scope: Seq<char>,
    key: Seq<char>,
    size: u64,
)
    requires
        c.in_order(),
        c.placement.filed(),
        c.extents.sound(),
        c.can_put(tenant, scope, size),
        c.put_object(tenant, scope, key, size).1 is Ok,
    ensures
        c.put_object(tenant, scope, key, size).0.namespace(tenant).get(
            HeadId(0),
            vstd::utf8::encode_utf8(key),
        ) == Ok::<_, ErrorView>(Some(ExtentId((c.extents.next_id + 1) as u64))),
{
    lemma_accept(c, tenant, size);
    let a = c.accept(tenant, size).0;
    lemma_reserve_ok(a, tenant, scope, size);
    let (b, reserved) = a.reserve(tenant, scope, size);
    let (pool, extent) = reserved->Ok_0;
    lemma_record(b, tenant, key, size, pool, extent);
    snapshot_laws::law_empty_is_consistent();
    if c.namespaces.contains_key(tenant) {
        assert(c.namespace_in_order(tenant));
    }
    snapshot_laws::law_read_your_write(
        c.namespace(tenant),
        HeadId(0),
        vstd::utf8::encode_utf8(key),
        Some(extent),
    );
}

/// Deleting a snapshot gives back to the pool the extents that it frees. While extents
/// are accounted for, these are in use, and all of them come back; otherwise no more
/// than there is comes back.
pub proof fn law_deleted_snapshot_returns_extents(c: ClusterView, tenant: TenantId, snap: SnapshotId)
    requires
        c.in_order(),
        c.extents.sound(),
        c.tenants.key(tenant) is Ok,
        c.namespace(tenant).snapshots.contains_key(snap),
    ensures
        ({
            let (w, r) = c.delete_snapshot(tenant, snap);
            let freed = c.namespace(tenant).delete_snapshot(snap).1->Ok_0.len();
            &&& r == Ok::<nat, ErrorView>(freed)
            &&& w.extents.free == (if c.extents.free + freed <= c.extents.total {
                c.extents.free + freed
            } else {
                c.extents.total as int
            })
            &&& w.extents.meta_used == c.extents.meta_used
            &&& c.accounted() ==> {
                &&& w.extents.free == c.extents.free + freed
                &&& w.extents.data_used == c.extents.data_used - freed
            }
        }),
{
    let freed = c.namespace(tenant).delete_snapshot(snap).1->Ok_0.len();
    cluster::lemma_releases(c.extents, freed);
    if c.accounted() {
        c.lemma_freed_extents(tenant, snap);
    }
}

/// While extents are accounted for, any snapshot can be deleted.
pub proof fn law_snapshots_can_be_deleted(c: ClusterView, tenant: TenantId, snap: SnapshotId)
    requires
        c.in_order(),
        c.accounted(),
    ensures
        c.can_delete_snapshot(tenant, snap),
{
    c.lemma_freed_extents(tenant, snap);
}

/// No extent holds data of two tenants: what one tenant reads, under any of its heads,
/// is not what another reads.
pub proof fn law_no_extent_is_shared(
    c: ClusterView,
    tenant: TenantId,
    head: HeadId,
    key: Seq<u8>,
    other: TenantId,
    other_head: HeadId,
    other_key: Seq<u8>,
    e: ExtentId,
)
    requires
        c.in_order(),
        c.namespace(tenant).get(head, key) == Ok::<_, ErrorView>(Some(e)),
        c.namespace(other).get(other_head, other_key) == Ok::<_, ErrorView>(Some(e)),
    ensures
        tenant == other,
{
    lemma_read_is_held(c, tenant, head, key, e);
    lemma_read_is_held(c, other, other_head, other_key, e);
}

/// What a tenant reads, it holds.
proof fn lemma_read_is_held(c: ClusterView, tenant: TenantId, head: HeadId, key: Seq<u8>, e: ExtentId)
    requires
        c.in_order(),
        c.namespace(tenant).get(head, key) == Ok::<_, ErrorView>(Some(e)),
    ensures
        c.holds(tenant, e),
{
    let n = c.namespace(tenant);
    if c.namespaces.contains_key(tenant) {
        assert(c.namespace_in_order(tenant));
        snapshot_laws::lemma_read_is_referred_to(n, key, head, n.heads[head].gen);
    }
}

/// How many stripes are affected by failures in the first `n` pools listed.
pub open spec fn affected_in(stripes: Map<PoolId, StripesView>, pools: Seq<PoolId>, n: nat) -> nat
    decreases n,
{
    if n == 0 {
        0
    } else {
        affected_in(stripes, pools, (n - 1) as nat) + stripes[pools[n - 1]].affected().len()
    }
}

/// The course of a rebuild: the pools seen to are healthy, the others are as they
/// were.
proof fn lemma_rebuild_course(c: ClusterView, cnodes: Seq<CNodeId>, pools: Seq<PoolId>, n: nat)
    requires
        c.in_order(),
        pools.no_duplicates(),
        n <= pools.len(),
        forall|i: int| 0 <= i < pools.len() ==> c.stripes.contains_key(#[trigger] pools[i]),
        c.rebuilt_pools(cnodes, pools, n).1 is Ok,
    ensures
        ({
            let (w, r) = c.rebuilt_pools(cnodes, pools, n);
            &&& r->Ok_0 == affected_in(c.stripes, pools, n)
            &&& w.dom() == c.stripes.dom()
            &&& forall|i: int| n <= i < pools.len() ==> w[#[trigger] pools[i]] == c.stripes[pools[i]]
            &&& forall|i: int| 0 <= i < n ==> unharmed(w[#[trigger] pools[i]])
        }),
    decreases n,
{
    if n > 0 {
        lemma_rebuild_course(c, cnodes, pools, (n - 1) as nat);
        let done = c.rebuilt_pools(cnodes, pools, (n - 1) as nat).0;
        let p = pools[n - 1];
        let v = c.stripes[p];
        assert(c.stripes.contains_key(p));
        assert(done[p] == v);
        let tasks = v.plan_rebuild(cnodes)->Ok_0;
        protection_laws::law_plan_covers_all(v, cnodes);
        protection_laws::law_plan_heals_the_pool(v, cnodes);
        protection_laws::law_plan_can_be_carried_out(v, cnodes);
        cluster::lemma_after_rebuilds(v, cnodes, tasks.len());
        lemma_unharmed(protection_laws::after_tasks(v, tasks, tasks.len()));
        let w = c.rebuilt_pools(cnodes, pools, n).0;
        assert(w == done.insert(p, protection_laws::after_tasks(v, tasks, tasks.len())));
        assert(w.dom() =~= c.stripes.dom());
        assert forall|i: int| n <= i < pools.len() implies w[#[trigger] pools[i]] == c.stripes[pools[i]] by {
            assert(pools[i] != p);
            assert(done[pools[i]] == c.stripes[pools[i]]);
        }
        assert forall|i: int| 0 <= i < n implies unharmed(w[#[trigger] pools[i]]) by {
            if i < n - 1 {
                assert(pools[i] != p);
                assert(unharmed(done[pools[i]]));
            }
        }
    }
}

/// Whether a pool is consistent, all its stripes are healthy, and no failure affects
/// any.
pub open spec fn unharmed(v: StripesView) -> bool {
    &&& v.consistent()
    &&& v.affected() == Set::<StripeId>::empty()
    &&& forall|s: StripeId| #[trigger]
        v.stripes.contains_key(s) ==> v.health(s) == Ok::<_, ErrorView>(StripeHealth::Healthy)
}

/// A pool whose stripes have lost nothing is unharmed.
proof fn lemma_unharmed(v: StripesView)
    requires
        v.consistent(),
        forall|s: StripeId| #[trigger] v.stripes.contains_key(s) ==> v.lost_shards(v.stripes[s]) == 0,
    ensures
        unharmed(v),
{
    assert forall|s: StripeId| !v.affected().contains(s) by {
        protection_laws::law_affected_by_a_failure(v, SNodeId(0), s);
    }
    assert(v.affected() =~= Set::empty());
}

/// In a pool that is unharmed there is nothing to rebuild.
proof fn lemma_nothing_to_rebuild(v: StripesView, cnodes: Seq<CNodeId>)
    requires
        unharmed(v),
        cnodes.len() > 0,
    ensures
        cluster::rebuilt_pool(v, cnodes) == (v, Ok::<nat, ErrorView>(0)),
{
    let lt = sorted_map::key_order::<StripeId>();
    let ids = sorted_map::in_order::<StripeId>(v.affected());
    <StripeId as sorted_map::Key>::lemma_order();
    order::lemma_ranking_exists(v.affected(), lt);
    order::lemma_ranking_len(ids, v.affected(), lt);
    let risk = |a: StripeId, b: StripeId| v.riskier(a, b);
    assert(v.degraded() =~= Set::empty());
    assert(order::strict_order(risk));
    order::lemma_ranking_exists(v.degraded(), risk);
    order::lemma_ranking_len(v.by_risk(), v.degraded(), risk);
    assert(v.plan_rebuild(cnodes)->Ok_0 =~= Seq::empty());
}

/// In a cluster that is unharmed there is nothing to rebuild.
proof fn lemma_nothing_to_rebuild_anywhere(c: ClusterView, cnodes: Seq<CNodeId>, pools: Seq<PoolId>, n: nat)
    requires
        n <= pools.len(),
        forall|i: int|
            0 <= i < pools.len() ==> c.stripes.contains_key(#[trigger] pools[i]) && unharmed(c.stripes[pools[i]]),
        pools.len() > 0 ==> cnodes.len() > 0,
    ensures
        c.rebuilt_pools(cnodes, pools, n) == (c.stripes, Ok::<nat, ErrorView>(0)),
    decreases n,
{
    if n > 0 {
        lemma_nothing_to_rebuild_anywhere(c, cnodes, pools, (n - 1) as nat);
        let p = pools[n - 1];
        assert(c.stripes.contains_key(p) && unharmed(c.stripes[p]));
        lemma_nothing_to_rebuild(c.stripes[p], cnodes);
        assert(c.stripes.insert(p, c.stripes[p]) =~= c.stripes);
    }
}

/// The protected pools, listed.
proof fn lemma_protected_pools(c: ClusterView)
    requires
        c.stripes.dom().finite(),
    ensures
        c.protected_pools().no_duplicates(),
        forall|p: PoolId| #[trigger] c.stripes.contains_key(p) <==> c.protected_pools().contains(p),
        forall|i: int| 0 <= i < c.protected_pools().len() ==> c.stripes.contains_key(#[trigger] c.protected_pools()[i]),
{
    let pools = c.protected_pools();
    let lt = sorted_map::key_order::<PoolId>();
    <PoolId as sorted_map::Key>::lemma_order();
    order::lemma_ranking_exists(c.stripes.dom(), lt);
    order::lemma_ranking_len(pools, c.stripes.dom(), lt);
    assert forall|p: PoolId| #[trigger] c.stripes.contains_key(p) <==> pools.contains(p) by {
        assert(c.stripes.dom().contains(p) <==> pools.contains(p));
    }
    assert forall|i: int| 0 <= i < pools.len() implies c.stripes.contains_key(#[trigger] pools[i]) by {
        assert(pools.contains(pools[i]));
    }
}

/// A rebuild that succeeds makes every stripe of every protected pool healthy, counts
/// exactly the stripes that failures had touched, and leaves nothing to do: a second
/// one counts none and changes nothing. Objects, snapshots and accounts stay as they
/// are.
pub proof fn law_rebuild_heals_the_cluster(c: ClusterView, cnodes: Seq<CNodeId>)
    requires
        c.in_order(),
        c.rebuild(cnodes).1 is Ok,
    ensures
        ({
            let (w, r) = c.rebuild(cnodes);
            &&& r->Ok_0 == affected_in(c.stripes, c.protected_pools(), c.protected_pools().len())
            &&& w.stripes.dom() == c.stripes.dom()
            &&& forall|p: PoolId| #[trigger] c.stripes.contains_key(p) ==> unharmed(w.stripes[p])
            &&& w.rebuild(cnodes) == (w, Ok::<nat, ErrorView>(0))
            &&& w == (ClusterView { stripes: w.stripes, ..c })
            &&& forall|t: TenantId, k: Seq<char>| #[trigger] w.recorded(t, k) == c.recorded(t, k)
            &&& forall|t: TenantId, k: Seq<char>| (#[trigger] w.stat(t, k)).1 == c.stat(t, k).1
        }),
{
    let pools = c.protected_pools();
    let w = c.rebuild(cnodes).0;
    lemma_protected_pools(c);
    lemma_rebuild_course(c, cnodes, pools, pools.len());
    assert forall|p: PoolId| #[trigger] c.stripes.contains_key(p) implies unharmed(w.stripes[p]) by {
        assert(pools.contains(p));
        let i = choose|i: int| 0 <= i < pools.len() && pools[i] == p;
        assert(unharmed(w.stripes[pools[i]]));
    }
    assert(w.protected_pools() == pools);
    if pools.len() > 0 && cnodes.len() == 0 {
        lemma_no_rebuild_without_nodes(c, cnodes, pools, pools.len());
    }
    lemma_nothing_to_rebuild_anywhere(w, cnodes, pools, pools.len());
}

/// Without nodes to do the work, no pool can be rebuilt.
proof fn lemma_no_rebuild_without_nodes(c: ClusterView, cnodes: Seq<CNodeId>, pools: Seq<PoolId>, n: nat)
    requires
        cnodes.len() == 0,
        n > 0,
    ensures
        c.rebuilt_pools(cnodes, pools, n).1 is Err,
    decreases n,
{
    if n > 1 {
        lemma_no_rebuild_without_nodes(c, cnodes, pools, (n - 1) as nat);
    } else {
        assert(c.rebuilt_pools(cnodes, pools, 0).1 is Ok);
    }
}

/// The failure of a node in a cluster where no stripe was affected by any affects as
/// many stripes as the failure reports, and a rebuild that succeeds rebuilds that
/// many.
pub proof fn law_rebuild_covers_a_failure(c: ClusterView, snode: SNodeId, cnodes: Seq<CNodeId>)
    requires
        c.in_order(),
        forall|p: PoolId| #[trigger] c.stripes.contains_key(p) ==> c.stripes[p].affected() == Set::<StripeId>::empty(),
        c.fail_snode(snode).rebuild(cnodes).1 is Ok,
    ensures
        c.fail_snode(snode).rebuild(cnodes).1->Ok_0 == c.stripes_with(
            snode,
            c.protected_pools(),
            c.protected_pools().len(),
        ),
{
    let f = c.fail_snode(snode);
    assert(f.stripes.dom() =~= c.stripes.dom());
    assert forall|p: PoolId| #[trigger] f.stripes.contains_key(p) implies f.stripes[p].consistent() by {
        assert(c.stripes.contains_key(p));
        protection_laws::law_failures_consistent(c.stripes[p], c.stripes[p].failed.insert(snode));
    }
    c.lemma_in_order_unless(f);
    law_rebuild_heals_the_cluster(f, cnodes);
    lemma_protected_pools(c);
    lemma_affected_is_listed(c, snode, c.protected_pools(), c.protected_pools().len());
}

/// What a failure affects is what the failed node has shards of.
proof fn lemma_affected_is_listed(c: ClusterView, snode: SNodeId, pools: Seq<PoolId>, n: nat)
    requires
        c.in_order(),
        n <= pools.len(),
        forall|i: int| 0 <= i < pools.len() ==> c.stripes.contains_key(#[trigger] pools[i]),
        forall|p: PoolId| #[trigger] c.stripes.contains_key(p) ==> c.stripes[p].affected() == Set::<StripeId>::empty(),
    ensures
        affected_in(c.fail_snode(snode).stripes, pools, n) == c.stripes_with(snode, pools, n),
    decreases n,
{
    if n > 0 {
        lemma_affected_is_listed(c, snode, pools, (n - 1) as nat);
        let p = pools[n - 1];
        assert(c.stripes.contains_key(p));
        protection_laws::law_one_failure_costs_one_shard(c.stripes[p], snode);
    }
}

} // verus!
