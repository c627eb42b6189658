//! Extents stay accounted for: as long as nothing is given back from outside, every
//! operation of a cluster keeps each extent free or in use, and no more of them
//! referred to by objects than are in use for data.

use vstd::prelude::*;

use crate::cluster;
use crate::cluster::ClusterView;
use crate::cluster_laws;
use crate::snapshot::SnapshotId;
use crate::types::{ExtentId, TenantId};

verus! {

/// What touches neither extents nor namespaces keeps extents accounted for.
pub proof fn lemma_nothing_moved(c: ClusterView, w: ClusterView)
    requires
        w.extents == c.extents,
        w.namespaces == c.namespaces,
    ensures
        c.accounted() ==> w.accounted(),
{
    c.lemma_same_held(w);
}

/// What changes one namespace, but refers to nothing new, keeps extents accounted for.
proof fn lemma_nothing_new(c: ClusterView, w: ClusterView)
    requires
        w.extents == c.extents,
        forall|t: TenantId, e: ExtentId| #[trigger] w.holds(t, e) ==> c.holds(t, e),
    ensures
        c.accounted() ==> w.accounted(),
{
    if c.accounted() {
        c.lemma_accounted_unless(w);
    }
}

/// Writing an object keeps extents accounted for, whether it succeeds or not.
pub proof fn law_put_keeps_accounts(c: ClusterView, tenant: TenantId, scope: Seq<char>, key: Seq<char>, size: u64)
    requires
        c.in_order(),
        c.placement.filed(),
        c.extents.sound(),
        c.can_put(tenant, scope, size),
    ensures
        c.accounted() ==> c.put_object(tenant, scope, key, size).0.accounted(),
{
    if c.accounted() {
        let (w, r) = c.put_object(tenant, scope, key, size);
        if r is Err {
            cluster_laws::law_failed_put_leaves_nothing(c, tenant, scope, key, size);
            assert forall|t: TenantId, e: ExtentId| #[trigger] w.holds(t, e) implies c.holds(t, e) by {}
            assert(w.extents.total == c.extents.total) by {
                lemma_put_keeps_the_total(c, tenant, scope, key, size);
            }
            c.lemma_accounted_unless(w);
        } else {
            cluster_laws::lemma_accept(c, tenant, size);
            let a = c.accept(tenant, size).0;
            cluster_laws::lemma_reserve_ok(a, tenant, scope, size);
            let (b, reserved) = a.reserve(tenant, scope, size);
            let (pool, extent) = reserved->Ok_0;
            cluster_laws::lemma_record(b, tenant, key, size, pool, extent);
            assert forall|t: TenantId, e: ExtentId| #[trigger] w.holds(t, e) implies c.holds(t, e) || (t == tenant
                && e == extent) by {
                if t == tenant && e != extent {
                    assert(c.namespace(tenant).refcounts.contains_key(e));
                }
            }
            c.lemma_one_more_accounted(tenant, extent, w);
        }
    }
}

/// A write does not change how many extents there are.
proof fn lemma_put_keeps_the_total(c: ClusterView, tenant: TenantId, scope: Seq<char>, key: Seq<char>, size: u64)
    ensures
        c.put_object(tenant, scope, key, size).0.extents.total == c.extents.total,
{
    let (a, accepted) = c.accept(tenant, size);
    let b = a.reserve_data(tenant, scope, size).0;
    assert(b.extents.total == c.extents.total);
    let (d, reserved) = a.reserve(tenant, scope, size);
    assert(d.extents.total == c.extents.total);
    if reserved is Ok {
        let (pool, extent) = reserved->Ok_0;
        assert(d.record(tenant, key, size, pool, extent).0.extents == d.extents);
    }
}

/// Deleting a tenant keeps extents accounted for.
pub proof fn law_delete_tenant_keeps_accounts(c: ClusterView, tenant: TenantId)
    ensures
        c.accounted() ==> c.delete_tenant(tenant).0.accounted(),
{
    let w = c.delete_tenant(tenant).0;
    assert forall|t: TenantId, e: ExtentId| #[trigger] w.holds(t, e) implies c.holds(t, e) by {}
    lemma_nothing_new(c, w);
}

/// Looking an object up keeps extents accounted for.
pub proof fn law_stat_keeps_accounts(c: ClusterView, tenant: TenantId, key: Seq<char>)
    ensures
        c.accounted() ==> c.stat(tenant, key).0.accounted(),
{
    lemma_nothing_moved(c, c.stat(tenant, key).0);
}

/// Looking an object up in a snapshot keeps extents accounted for.
pub proof fn law_stat_at_keeps_accounts(c: ClusterView, tenant: TenantId, snap: SnapshotId, key: Seq<char>)
    ensures
        c.accounted() ==> c.stat_at(tenant, snap, key).0.accounted(),
{
    let w = c.stat_at(tenant, snap, key).0;
    assert forall|t: TenantId, e: ExtentId| #[trigger] w.holds(t, e) implies c.holds(t, e) by {}
    lemma_nothing_new(c, w);
}

/// Taking a snapshot keeps extents accounted for.
pub proof fn law_create_snapshot_keeps_accounts(c: ClusterView, tenant: TenantId, name: Seq<char>)
    ensures
        c.accounted() ==> c.create_snapshot(tenant, name).0.accounted(),
{
    let w = c.create_snapshot(tenant, name).0;
    assert forall|t: TenantId, e: ExtentId| #[trigger] w.holds(t, e) implies c.holds(t, e) by {}
    lemma_nothing_new(c, w);
}

/// Cloning a snapshot keeps extents accounted for.
pub proof fn law_clone_snapshot_keeps_accounts(c: ClusterView, tenant: TenantId, snap: SnapshotId)
    ensures
        c.accounted() ==> c.clone_snapshot(tenant, snap).0.accounted(),
{
    let w = c.clone_snapshot(tenant, snap).0;
    assert forall|t: TenantId, e: ExtentId| #[trigger] w.holds(t, e) implies c.holds(t, e) by {}
    lemma_nothing_new(c, w);
}

/// Deleting a snapshot keeps extents accounted for: what it frees is no longer referred
/// to, and is given back.
pub proof fn law_delete_snapshot_keeps_accounts(c: ClusterView, tenant: TenantId, snap: SnapshotId)
    requires
        c.in_order(),
        c.extents.sound(),
    ensures
        c.accounted() ==> c.delete_snapshot(tenant, snap).0.accounted(),
{
    if c.accounted() && c.tenants.key(tenant) is Ok {
        let (n, r) = c.namespace(tenant).delete_snapshot(snap);
        let s = ClusterView { namespaces: c.namespaces.insert(tenant, n), ..c };
        let w = c.delete_snapshot(tenant, snap).0;
        c.lemma_freed_extents(tenant, snap);
        s.lemma_same_held(w);
        if r is Ok {
            cluster::lemma_releases(c.extents, r->Ok_0.len());
        }
    }
}

} // verus!
