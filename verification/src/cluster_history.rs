//! What holds of a cluster whatever happens to it in the meantime: a tenant that was
//! deleted is turned away for ever.

use vstd::prelude::*;

use crate::cluster::ClusterView;
use crate::extent::Purpose;
use crate::placement::PoolState;
use crate::protection::ProtectionScheme;
use crate::qos::QosSpec;
use crate::quota::QuotaLimit;
use crate::snapshot::{HeadId, SnapshotId};
use crate::tenant;
use crate::tenant::{Placement, SpecView};
use crate::types::{CNodeId, ErrorView, ExtentId, PoolId, SNodeId, TenantId};

verus! {

/// Something that is asked of a cluster, or happens to it.
pub enum ClusterEvent {
    AddPool(PoolState),
    ProtectPool(PoolId, ProtectionScheme, Seq<SNodeId>),
    CreateTenant(Seq<char>, QuotaLimit, QosSpec, Placement),
    DeleteTenant(TenantId),
    RotateKey(TenantId),
    SetScopeLimit(TenantId, Seq<char>, QuotaLimit),
    PutObject(TenantId, Seq<char>, Seq<char>, u64),
    Stat(TenantId, Seq<char>),
    CreateSnapshot(TenantId, Seq<char>),
    StatAt(TenantId, SnapshotId, Seq<char>),
    CloneSnapshot(TenantId, SnapshotId),
    DeleteSnapshot(TenantId, SnapshotId),
    FailSnode(SNodeId),
    Rebuild(Seq<CNodeId>),
    /// An extent is given back whose data has been moved elsewhere.
    ReleaseExtent(Purpose),
    Tick,
}

impl ClusterView {
    /// The state after one event.
    pub open spec fn then_comes(self, event: ClusterEvent) -> ClusterView {
        match event {
            ClusterEvent::AddPool(state) => self.add_pool(state),
            ClusterEvent::ProtectPool(pool, scheme, snodes) => self.protect_pool(pool, scheme, snodes),
            ClusterEvent::CreateTenant(name, quota, qos, placement) => self.create_tenant(
                name,
                quota,
                qos,
                placement,
            ).0,
            ClusterEvent::DeleteTenant(t) => self.delete_tenant(t).0,
            ClusterEvent::RotateKey(t) => ClusterView { tenants: self.tenants.rotate_key(t).0, ..self },
            ClusterEvent::SetScopeLimit(t, scope, limit) => ClusterView {
                quotas: self.quotas.set_scope_limit(t, scope, limit).0,
                ..self
            },
            ClusterEvent::PutObject(t, scope, key, size) => self.put_object(t, scope, key, size).0,
            ClusterEvent::Stat(t, key) => self.stat(t, key).0,
            ClusterEvent::CreateSnapshot(t, name) => self.create_snapshot(t, name).0,
            ClusterEvent::StatAt(t, snap, key) => self.stat_at(t, snap, key).0,
            ClusterEvent::CloneSnapshot(t, snap) => self.clone_snapshot(t, snap).0,
            ClusterEvent::DeleteSnapshot(t, snap) => self.delete_snapshot(t, snap).0,
            ClusterEvent::FailSnode(snode) => self.fail_snode(snode),
            ClusterEvent::Rebuild(cnodes) => self.rebuild(cnodes).0,
            ClusterEvent::ReleaseExtent(purpose) => ClusterView { extents: self.extents.release(purpose), ..self },
            ClusterEvent::Tick => self.tick(),
        }
    }

    /// The state after a series of events.
    pub open spec fn after(self, events: Seq<ClusterEvent>) -> ClusterView
        decreases events.len(),
    {
        if events.len() == 0 {
            self
        } else {
            self.after(events.drop_last()).then_comes(events.last())
        }
    }

    /// Whether there is a tenant number left for an event that takes one: the creation
    /// of a tenant under a name that is free.
    pub open spec fn has_number_for(self, event: ClusterEvent) -> bool {
        event matches ClusterEvent::CreateTenant(name, ..) ==> self.tenants.name_taken(name) || self.tenants.next_id
            < u32::MAX
    }

    /// Whether tenant numbers last for a series of events.
    pub open spec fn numbers_last(self, events: Seq<ClusterEvent>) -> bool
        decreases events.len(),
    {
        events.len() > 0 ==> self.numbers_last(events.drop_last()) && self.after(events.drop_last()).has_number_for(
            events.last(),
        )
    }

    /// Whether a tenant was there once and is no more: its number is spent, and
    /// nothing is kept of it.
    pub open spec fn has_lost(self, t: TenantId) -> bool {
        &&& t.0 <= self.tenants.next_id
        &&& !self.tenants.tenants.contains_key(t)
        &&& !self.quotas.tenants.contains_key(t)
        &&& !self.qos.contains_key(t)
        &&& !self.namespaces.contains_key(t)
    }
}

/// How many tenants are to be created in a series of events.
pub open spec fn creations(events: Seq<ClusterEvent>) -> nat
    decreases events.len(),
{
    if events.len() == 0 {
        0
    } else {
        creations(events.drop_last()) + (if events.last() is CreateTenant { 1nat } else { 0nat })
    }
}

/// Tenant numbers last if there are as many left as tenants are to be created,
/// whatever else happens, and however often.
pub proof fn law_only_creations_take_numbers(c: ClusterView, events: Seq<ClusterEvent>)
    requires
        c.tenants.next_id + creations(events) <= u32::MAX,
    ensures
        c.numbers_last(events),
        c.after(events).tenants.next_id <= c.tenants.next_id + creations(events),
    decreases events.len(),
{
    if events.len() > 0 {
        law_only_creations_take_numbers(c, events.drop_last());
        let u = c.after(events.drop_last());
        match events.last() {
            ClusterEvent::PutObject(t, scope, key, size) => {
                lemma_put_keeps_the_registry(u, t, scope, key, size);
            },
            _ => {},
        }
    }
}

/// A write leaves the registry alone.
proof fn lemma_put_keeps_the_registry(c: ClusterView, by: TenantId, scope: Seq<char>, key: Seq<char>, size: u64)
    ensures
        c.put_object(by, scope, key, size).0.tenants == c.tenants,
{
    let (a, accepted) = c.accept(by, size);
    assert(a.tenants == c.tenants);
    let (b, data) = a.reserve_data(by, scope, size);
    assert(b.tenants == c.tenants);
    let (d, reserved) = a.reserve(by, scope, size);
    assert(d.tenants == c.tenants);
    if reserved is Ok {
        let (pool, extent) = reserved->Ok_0;
        assert(d.record(by, key, size, pool, extent).0.tenants == c.tenants);
    }
}

/// A write leaves the registry alone, and nothing of a tenant that is not there.
proof fn lemma_put_by_a_stranger(c: ClusterView, by: TenantId, scope: Seq<char>, key: Seq<char>, size: u64, t: TenantId)
    requires
        c.has_lost(t),
    ensures
        ({
            let w = c.put_object(by, scope, key, size).0;
            w.has_lost(t) && w.tenants == c.tenants
        }),
{
    if c.tenants.key(by) is Ok {
        assert(by != t);
        let (a, accepted) = c.accept(by, size);
        assert(a.has_lost(t) && a.tenants == c.tenants);
        if accepted is Ok {
            let (b, data) = a.reserve_data(by, scope, size);
            assert(b.has_lost(t) && b.tenants == c.tenants);
            let (d, reserved) = a.reserve(by, scope, size);
            assert(d.has_lost(t) && d.tenants == c.tenants);
            if reserved is Ok {
                let (pool, extent) = reserved->Ok_0;
                let w = d.record(by, key, size, pool, extent).0;
                assert(w.has_lost(t) && w.tenants == c.tenants);
            }
        }
    }
}

/// A tenant that is gone stays gone, whatever comes.
proof fn lemma_lost_for_good(c: ClusterView, event: ClusterEvent, t: TenantId)
    requires
        c.tenants.consistent(),
        c.has_number_for(event),
        c.has_lost(t),
    ensures
        ({
            let w = c.then_comes(event);
            &&& w.has_lost(t)
            &&& w.tenants.consistent()
        }),
{
    match event {
        ClusterEvent::CreateTenant(name, quota, qos, placement) => {
            tenant::law_create(c.tenants, SpecView { name, placement }, t);
        },
        ClusterEvent::DeleteTenant(o) => {
            tenant::law_deletion_destroys_the_key(c.tenants, o, t);
        },
        ClusterEvent::RotateKey(o) => {
            tenant::lemma_rotation_consistent(c.tenants, o);
        },
        ClusterEvent::PutObject(o, scope, key, size) => {
            lemma_put_by_a_stranger(c, o, scope, key, size, t);
        },
        _ => {},
    }
}

/// Nothing that happens brings a tenant back that is gone.
proof fn lemma_never_back(c: ClusterView, events: Seq<ClusterEvent>, t: TenantId)
    requires
        c.tenants.consistent(),
        c.numbers_last(events),
        c.has_lost(t),
    ensures
        c.after(events).has_lost(t),
        c.after(events).tenants.consistent(),
    decreases events.len(),
{
    if events.len() > 0 {
        lemma_never_back(c, events.drop_last(), t);
        lemma_lost_for_good(c.after(events.drop_last()), events.last(), t);
    }
}

/// A deleted tenant is turned away for ever: whatever has happened since, tenants
/// created among it, every request in its name is answered as for a tenant that does
/// not exist, a second deletion too, and changes nothing; and nothing is booked on it.
pub proof fn law_deleted_tenant_is_refused_for_ever(
    c: ClusterView,
    t: TenantId,
    events: Seq<ClusterEvent>,
    scope: Seq<char>,
    key: Seq<char>,
    size: u64,
    snap: SnapshotId,
)
    requires
        c.tenants.consistent(),
        c.tenants.tenants.contains_key(t),
        c.delete_tenant(t).0.numbers_last(events),
    ensures
        c.delete_tenant(t).1 == Ok::<(), ErrorView>(()),
        ({
            let w = c.delete_tenant(t).0.after(events);
            let gone = ErrorView::UnknownTenant(t);
            &&& w.put_object(t, scope, key, size) == (w, Err::<(), _>(gone))
            &&& w.stat(t, key) == (w, Err::<u64, _>(gone))
            &&& w.create_snapshot(t, key) == (w, Err::<SnapshotId, _>(gone))
            &&& w.stat_at(t, snap, key) == (w, Err::<ExtentId, _>(gone))
            &&& w.clone_snapshot(t, snap) == (w, Err::<HeadId, _>(gone))
            &&& w.delete_snapshot(t, snap) == (w, Err::<nat, _>(gone))
            &&& w.delete_tenant(t) == (w, Err::<(), _>(gone))
            &&& !w.quotas.tenants.contains_key(t)
            &&& !w.namespaces.contains_key(t)
        }),
{
    let d = c.delete_tenant(t).0;
    tenant::law_deletion_destroys_the_key(c.tenants, t, t);
    lemma_never_back(d, events, t);
}

} // verus!
