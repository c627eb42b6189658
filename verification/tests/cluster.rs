use omnistor::cluster::Cluster;
use omnistor::extent::Purpose;
use omnistor::placement::PoolState;
use omnistor::protection::ProtectionScheme;
use omnistor::qos::QosSpec;
use omnistor::quota::{QuotaLimit, Usage};
use omnistor::snapshot::{HeadId, SnapshotId};
use omnistor::tenant::Placement;
use omnistor::types::{CNodeId, Error, MediaClass, PoolId, SNodeId, TenantId};

fn pool(id: u32, capacity: u64) -> PoolState {
    PoolState {
        id: PoolId(id),
        media: MediaClass::TlcNvme,
        capacity,
        used: 0,
        load_headroom_permille: 500,
        dedicated_to: None,
    }
}

fn cluster() -> Cluster {
    let mut c = Cluster::new(256, 100_000);
    c.add_pool(pool(1, 50_000));
    c.add_pool(pool(2, 50_000));
    c
}

fn default_qos() -> QosSpec {
    QosSpec {
        metadata_iops: 10_000,
        data_iops: 10_000,
        data_bw_bytes: 1 << 30,
        burst_multiple: 2,
    }
}

/// A tenant without limits.
fn tenant(c: &mut Cluster, name: &str) -> TenantId {
    c.create_tenant(
        name,
        QuotaLimit::default(),
        default_qos(),
        Placement::Shared,
    )
    .unwrap()
}

#[test]
fn end_to_end_write_and_stat() {
    let mut c = cluster();
    let t = c
        .create_tenant(
            "acme",
            QuotaLimit {
                capacity_bytes: Some(1 << 40),
                object_count: Some(1000),
            },
            default_qos(),
            Placement::Shared,
        )
        .unwrap();
    c.put_object(t, "bucket-a", "photos/1.jpg", 4096).unwrap();
    assert_eq!(c.stat(t, "photos/1.jpg").unwrap(), 4096);
    assert_eq!(c.tlc_extents.metadata_used(), 1);
    assert_eq!(c.tlc_extents.data_used(), 1);
}

#[test]
fn tenants_are_isolated_end_to_end() {
    let mut c = cluster();
    let quota = QuotaLimit {
        capacity_bytes: Some(1 << 30),
        object_count: None,
    };
    let a = c
        .create_tenant("acme", quota, default_qos(), Placement::Shared)
        .unwrap();
    let b = c
        .create_tenant("globex", quota, default_qos(), Placement::Shared)
        .unwrap();
    c.put_object(a, "s", "same/path", 100).unwrap();
    assert!(c.stat(b, "same/path").is_err());
    c.put_object(b, "s", "same/path", 200).unwrap();
    assert_eq!(c.stat(a, "same/path").unwrap(), 100);
    assert_eq!(c.stat(b, "same/path").unwrap(), 200);
}

#[test]
fn objects_spread_across_buckets() {
    let mut c = cluster();
    let t = c
        .create_tenant(
            "acme",
            QuotaLimit::default(),
            default_qos(),
            Placement::Shared,
        )
        .unwrap();
    for i in 0..2000 {
        c.put_object(t, "s", &format!("obj/{i}"), 1).unwrap();
        if i % 100 == 0 {
            c.tick();
        }
    }
    assert!(
        c.active_buckets() > 200,
        "only {} buckets active",
        c.active_buckets()
    );
}

#[test]
fn qos_throttles_then_recovers() {
    let mut c = cluster();
    let t = c
        .create_tenant(
            "acme",
            QuotaLimit::default(),
            QosSpec {
                metadata_iops: 5,
                data_iops: 100,
                data_bw_bytes: 1 << 20,
                burst_multiple: 1,
            },
            Placement::Shared,
        )
        .unwrap();
    let mut throttled = false;
    for i in 0..100 {
        match c.put_object(t, "s", &format!("k{i}"), 1) {
            Err(Error::Throttled { .. }) => {
                throttled = true;
                break;
            }
            other => other.unwrap(),
        }
    }
    assert!(throttled, "expected throttling under tiny QoS");
    c.tick();
    c.put_object(t, "s", "after-tick", 1).unwrap();
}

#[test]
fn quota_exceeded_rolls_back_nothing_leaks() {
    let mut c = cluster();
    let t = c
        .create_tenant(
            "acme",
            QuotaLimit {
                capacity_bytes: Some(100),
                object_count: None,
            },
            default_qos(),
            Placement::Shared,
        )
        .unwrap();
    c.put_object(t, "s", "a", 100).unwrap();
    let data_used_before = c.tlc_extents.data_used();
    assert!(matches!(
        c.put_object(t, "s", "b", 1),
        Err(Error::QuotaExceeded { .. })
    ));
    assert_eq!(c.tlc_extents.data_used(), data_used_before);
    assert!(c.stat(t, "b").is_err());
}

#[test]
fn deleted_tenant_is_rejected_at_entry() {
    let mut c = cluster();
    let t = c
        .create_tenant(
            "acme",
            QuotaLimit::default(),
            default_qos(),
            Placement::Shared,
        )
        .unwrap();
    c.put_object(t, "s", "x", 1).unwrap();
    c.tenants.delete(t).unwrap();
    assert_eq!(
        c.put_object(t, "s", "y", 1).unwrap_err(),
        Error::UnknownTenant(t)
    );
    assert_eq!(c.stat(t, "x").unwrap_err(), Error::UnknownTenant(t));
}

#[test]
fn snapshot_clone_and_reclaim_end_to_end() {
    let mut c = cluster();
    let t = c
        .create_tenant(
            "acme",
            QuotaLimit::default(),
            default_qos(),
            Placement::Shared,
        )
        .unwrap();
    c.put_object(t, "s", "doc", 100).unwrap();
    let snap = c.create_snapshot(t, "before-change").unwrap();
    let old_extent = c.stat_at(t, snap, "doc").unwrap();
    c.put_object(t, "s", "doc", 200).unwrap();
    assert_eq!(c.stat(t, "doc").unwrap(), 200);
    assert_eq!(c.stat_at(t, snap, "doc").unwrap(), old_extent);
    let _clone = c.clone_snapshot(t, snap).unwrap();
    assert_eq!(c.delete_snapshot(t, snap).unwrap(), 0);
}

#[test]
fn snapshot_delete_frees_extents_back_to_allocator() {
    let mut c = cluster();
    let t = c
        .create_tenant(
            "acme",
            QuotaLimit::default(),
            default_qos(),
            Placement::Shared,
        )
        .unwrap();
    c.put_object(t, "s", "doc", 100).unwrap();
    let snap = c.create_snapshot(t, "s1").unwrap();
    c.put_object(t, "s", "doc", 200).unwrap();
    let free_before = c.tlc_extents.free_extents();
    assert_eq!(c.delete_snapshot(t, snap).unwrap(), 1);
    assert_eq!(c.tlc_extents.free_extents(), free_before + 1);
}

#[test]
fn snode_failure_rebuild_restores_protection() {
    let mut c = cluster();
    c.protect_pool(
        PoolId(1),
        ProtectionScheme::new(8, 2).unwrap(),
        &(0..12).map(SNodeId).collect::<Vec<_>>(),
    );
    let t = c
        .create_tenant(
            "acme",
            QuotaLimit::default(),
            default_qos(),
            Placement::Shared,
        )
        .unwrap();
    for i in 0..50 {
        c.put_object(t, "s", &format!("obj/{i}"), 1).unwrap();
        if i % 10 == 0 {
            c.tick();
        }
    }
    let affected = c.fail_snode(SNodeId(0));
    assert!(affected > 0);
    let cnodes: Vec<CNodeId> = (0..4).map(CNodeId).collect();
    let rebuilt = c.rebuild(&cnodes).unwrap();
    assert_eq!(rebuilt, affected);
    assert_eq!(c.stat(t, "obj/0").unwrap(), 1);
}

#[test]
fn dedicated_tenant_lands_on_own_pool() {
    let mut c = cluster();
    c.add_pool(PoolState {
        id: PoolId(9),
        media: MediaClass::TlcNvme,
        capacity: 10_000,
        used: 0,
        load_headroom_permille: 1000,
        dedicated_to: Some(TenantId(1)),
    });
    let bank = c
        .create_tenant(
            "bank",
            QuotaLimit::default(),
            default_qos(),
            Placement::DedicatedPool(PoolId(9)),
        )
        .unwrap();
    c.put_object(bank, "vault", "doc", 1).unwrap();
    assert_eq!(c.placement.pool(PoolId(9)).unwrap().used, 1);
    assert_eq!(
        c.placement.pool(PoolId(1)).unwrap().used + c.placement.pool(PoolId(2)).unwrap().used,
        0
    );
}

#[test]
fn a_put_is_accounted_for() {
    let mut c = cluster();
    let t = tenant(&mut c, "acme");
    assert_eq!(c.active_buckets(), 0);
    c.put_object(t, "s", "a", 10).unwrap();
    c.put_object(t, "s", "b", 32).unwrap();
    assert_eq!(
        c.quotas.tenant_usage(t),
        Some(Usage {
            bytes: 42,
            objects: 2
        })
    );
    assert_eq!(c.tlc_extents.free_extents(), 99_996);
    let used: u64 = c.placement.pools().iter().map(|p| p.used).sum();
    assert_eq!(used, 2);
}

#[test]
fn a_throttled_put_says_in_which_dimension() {
    let tight = [
        (0, 1, 100, "metadata_iops"),
        (1, 0, 100, "data_iops"),
        (1, 1, 99, "data_bw"),
    ];
    for (metadata_iops, data_iops, data_bw_bytes, dimension) in tight {
        let mut c = cluster();
        let t = c
            .create_tenant(
                "acme",
                QuotaLimit::default(),
                QosSpec {
                    metadata_iops,
                    data_iops,
                    data_bw_bytes,
                    burst_multiple: 1,
                },
                Placement::Shared,
            )
            .unwrap();
        assert_eq!(
            c.put_object(t, "s", "k", 100),
            Err(Error::Throttled { dimension })
        );
        assert_eq!(c.quotas.tenant_usage(t), Some(Usage::default()));
        assert_eq!(c.tlc_extents.data_used(), 0);
    }
}

#[test]
fn a_put_that_finds_no_pool_leaves_no_trace() {
    let mut c = Cluster::new(16, 100);
    let t = tenant(&mut c, "acme");
    let full = Err(Error::NoSpace {
        media: MediaClass::TlcNvme,
    });
    assert_eq!(c.put_object(t, "s", "k", 5), full);
    c.add_pool(pool(1, 0));
    assert_eq!(c.put_object(t, "s", "k", 5), full);
    assert_eq!(c.quotas.tenant_usage(t), Some(Usage::default()));
    assert_eq!(c.tlc_extents.free_extents(), 100);
    assert_eq!(
        c.stat(t, "k"),
        Err(Error::Invalid("not found: k".into()))
    );
}

#[test]
fn a_put_without_extents_gives_the_quota_back() {
    let mut c = Cluster::new(16, 0);
    c.add_pool(pool(1, 10));
    let t = tenant(&mut c, "acme");
    assert_eq!(
        c.put_object(t, "s", "k", 5),
        Err(Error::NoSpace {
            media: MediaClass::TlcNvme
        })
    );
    assert_eq!(c.quotas.tenant_usage(t), Some(Usage::default()));
    assert_eq!(c.placement.pool(PoolId(1)).unwrap().used, 0);
}

#[test]
fn a_put_without_fault_domains_gives_everything_back() {
    let mut c = Cluster::new(16, 100);
    c.add_pool(pool(1, 10));
    c.protect_pool(
        PoolId(1),
        ProtectionScheme::new(4, 2).unwrap(),
        &(0..5).map(SNodeId).collect::<Vec<_>>(),
    );
    let t = tenant(&mut c, "acme");
    assert_eq!(
        c.put_object(t, "s", "k", 5),
        Err(Error::Invalid(
            "pool 1 has 5 healthy fault domains, stripe needs 6".into()
        ))
    );
    assert_eq!(c.tlc_extents.free_extents(), 100);
    assert_eq!(c.quotas.tenant_usage(t), Some(Usage::default()));
    assert_eq!(c.placement.pool(PoolId(1)).unwrap().used, 0);
    // One more domain, and it goes through. The scheme of a protected pool stays.
    c.protect_pool(
        PoolId(1),
        ProtectionScheme::new(16, 4).unwrap(),
        &[SNodeId(5)],
    );
    c.put_object(t, "s", "k", 5).unwrap();
    assert_eq!(c.fail_snode(SNodeId(5)), 1);
}

#[test]
fn unknown_tenants_are_refused() {
    let mut c = cluster();
    let nobody = TenantId(7);
    let unknown = Error::UnknownTenant(nobody);
    assert_eq!(c.put_object(nobody, "s", "k", 1).unwrap_err(), unknown);
    assert_eq!(c.stat(nobody, "k").unwrap_err(), unknown);
    assert_eq!(c.create_snapshot(nobody, "s").unwrap_err(), unknown);
    assert_eq!(
        c.stat_at(nobody, SnapshotId(0), "k").unwrap_err(),
        unknown
    );
    assert_eq!(
        c.clone_snapshot(nobody, SnapshotId(0)).unwrap_err(),
        unknown
    );
    assert_eq!(
        c.delete_snapshot(nobody, SnapshotId(0)).unwrap_err(),
        unknown
    );
    assert_eq!(c.delete_tenant(nobody).unwrap_err(), unknown);
}

#[test]
fn a_deleted_tenant_is_gone_everywhere() {
    let mut c = cluster();
    let t = tenant(&mut c, "acme");
    c.put_object(t, "s", "x", 1).unwrap();
    let snap = c.create_snapshot(t, "s").unwrap();
    c.delete_tenant(t).unwrap();
    assert_eq!(c.stat_at(t, snap, "x"), Err(Error::UnknownTenant(t)));
    assert_eq!(c.quotas.tenant_usage(t), None);
    let again = tenant(&mut c, "acme");
    assert_ne!(again, t);
    assert!(c.stat(again, "x").is_err());
}

#[test]
fn names_of_tenants_are_unique() {
    let mut c = cluster();
    tenant(&mut c, "acme");
    assert_eq!(
        c.create_tenant(
            "acme",
            QuotaLimit::default(),
            default_qos(),
            Placement::Shared
        ),
        Err(Error::Invalid("tenant name 'acme' already exists".into()))
    );
}

#[test]
fn snapshots_outlast_writes_and_deletion_of_others() {
    let mut c = cluster();
    let t = tenant(&mut c, "acme");
    let empty = c.create_snapshot(t, "empty").unwrap();
    c.put_object(t, "s", "doc", 1).unwrap();
    assert_eq!(
        c.stat_at(t, empty, "doc"),
        Err(Error::Invalid("not found in snapshot: doc".into()))
    );
    let one = c.create_snapshot(t, "one").unwrap();
    let extent = c.stat_at(t, one, "doc").unwrap();
    c.put_object(t, "s", "doc", 2).unwrap();
    assert_eq!(c.delete_snapshot(t, empty).unwrap(), 0);
    assert_eq!(c.stat_at(t, one, "doc").unwrap(), extent);
    assert_eq!(c.clone_snapshot(t, one).unwrap(), HeadId(1));
    assert_eq!(
        c.stat_at(t, empty, "doc"),
        Err(Error::Invalid("no snapshot 0".into()))
    );
}

#[test]
fn rebuild_needs_nodes_and_spares() {
    let mut c = cluster();
    assert_eq!(c.rebuild(&[]).unwrap(), 0);
    assert_eq!(c.fail_snode(SNodeId(0)), 0);
    c.protect_pool(
        PoolId(1),
        ProtectionScheme::new(4, 2).unwrap(),
        &(0..6).map(SNodeId).collect::<Vec<_>>(),
    );
    assert_eq!(
        c.rebuild(&[]).unwrap_err(),
        Error::Invalid("no cnodes to rebuild".into())
    );
    let t = tenant(&mut c, "acme");
    c.put_object(t, "s", "k", 1).unwrap();
    assert_eq!(c.fail_snode(SNodeId(3)), 1);
    assert_eq!(
        c.rebuild(&[CNodeId(0)]).unwrap_err(),
        Error::Invalid("pool 1 lacks spare fault domains for stripe 0".into())
    );
}

#[test]
fn a_put_without_room_for_metadata_leaves_nothing() {
    let mut c = Cluster::new(1, 1);
    c.add_pool(pool(1, 10));
    let t = tenant(&mut c, "acme");
    assert_eq!(
        c.put_object(t, "s", "k", 100),
        Err(Error::NoSpace {
            media: MediaClass::TlcNvme
        })
    );
    assert_eq!(c.tlc_extents.data_used(), 0);
    assert_eq!(c.tlc_extents.metadata_used(), 0);
    assert_eq!(c.tlc_extents.free_extents(), 1);
    assert_eq!(c.quotas.tenant_usage(t).unwrap().bytes, 0);
    assert_eq!(c.quotas.tenant_usage(t).unwrap().objects, 0);
    assert_eq!(c.placement.pool(PoolId(1)).unwrap().used, 0);
    assert_eq!(c.active_buckets(), 0);
    assert!(c.stat(t, "k").is_err());
}

#[test]
fn a_put_without_room_for_metadata_gives_its_stripe_up() {
    let mut c = Cluster::new(1, 1);
    c.add_pool(pool(1, 10));
    c.protect_pool(
        PoolId(1),
        ProtectionScheme::new(4, 2).unwrap(),
        &(0..8).map(SNodeId).collect::<Vec<_>>(),
    );
    let t = tenant(&mut c, "acme");
    assert!(c.put_object(t, "s", "k", 100).is_err());
    assert_eq!(c.tlc_extents.free_extents(), 1);
    for n in 0..8 {
        assert_eq!(c.fail_snode(SNodeId(n)), 0);
    }
}

#[test]
fn a_second_rebuild_finds_nothing_to_do() {
    let mut c = cluster();
    c.protect_pool(
        PoolId(1),
        ProtectionScheme::new(4, 2).unwrap(),
        &(0..10).map(SNodeId).collect::<Vec<_>>(),
    );
    let t = tenant(&mut c, "acme");
    for i in 0..5 {
        c.put_object(t, "s", &format!("k{i}"), 7).unwrap();
    }
    let affected = c.fail_snode(SNodeId(2));
    assert!(affected > 0);
    assert_eq!(c.rebuild(&[CNodeId(0), CNodeId(1)]).unwrap(), affected);
    assert_eq!(c.rebuild(&[CNodeId(0), CNodeId(1)]).unwrap(), 0);
    assert_eq!(c.fail_snode(SNodeId(2)), 0);
    for i in 0..5 {
        assert_eq!(c.stat(t, &format!("k{i}")).unwrap(), 7);
    }
}

#[test]
fn a_deleted_tenant_stays_deleted() {
    let mut c = cluster();
    let t = tenant(&mut c, "acme");
    c.put_object(t, "s", "k", 7).unwrap();
    c.delete_tenant(t).unwrap();
    // The name is free again, the number is not.
    let again = tenant(&mut c, "acme");
    assert_ne!(again, t);
    c.put_object(again, "s", "k", 8).unwrap();
    c.tick();
    let gone = Error::UnknownTenant(t);
    assert_eq!(c.put_object(t, "s", "k", 1).unwrap_err(), gone);
    assert_eq!(c.stat(t, "k").unwrap_err(), gone);
    assert_eq!(c.create_snapshot(t, "x").unwrap_err(), gone);
    assert_eq!(c.delete_tenant(t).unwrap_err(), gone);
    assert!(c.quotas.tenant_usage(t).is_none());
    assert_eq!(c.stat(again, "k").unwrap(), 8);
}

#[test]
fn a_put_fits_unless_a_sum_would_overflow() {
    let mut c = cluster();
    let t = c
        .create_tenant(
            "acme",
            QuotaLimit::default(),
            QosSpec {
                metadata_iops: 10,
                data_iops: 10,
                data_bw_bytes: 1 << 63,
                burst_multiple: 1,
            },
            Placement::Shared,
        )
        .unwrap();
    c.put_object(t, "s", "k", 1 << 63).unwrap();
    // Without tokens a write is turned away before anything is added.
    assert!(c.put_fits(t, "s", 1 << 63));
    assert!(c.tick_fits());
    c.tick();
    assert!(!c.put_fits(t, "s", 1 << 63));
    assert!(c.put_fits(t, "s", (1 << 63) - 1));
    assert!(c.put_fits(TenantId(9), "s", u64::MAX));
    assert!(!c.tick_fits());
}

#[test]
fn with_a_limit_the_quota_answers_before_the_sum() {
    let mut c = cluster();
    let t = c
        .create_tenant(
            "acme",
            QuotaLimit {
                capacity_bytes: Some(u64::MAX - 1),
                object_count: None,
            },
            QosSpec {
                metadata_iops: 10,
                data_iops: 10,
                data_bw_bytes: u64::MAX,
                burst_multiple: 1,
            },
            Placement::Shared,
        )
        .unwrap();
    c.put_object(t, "s", "k", 1).unwrap();
    assert!(c.put_fits(t, "s", u64::MAX - 1));
    assert_eq!(
        c.put_object(t, "s", "k", u64::MAX - 1),
        Err(Error::QuotaExceeded {
            scope: "tenant:capacity".into()
        })
    );
}

#[test]
fn no_two_tenants_share_an_extent() {
    let mut c = cluster();
    let mut seen = std::collections::BTreeSet::new();
    for name in ["acme", "globex", "initech"] {
        let t = tenant(&mut c, name);
        for key in ["a", "b", "a"] {
            c.put_object(t, "s", key, 1).unwrap();
        }
        let snap = c.create_snapshot(t, "s").unwrap();
        for key in ["a", "b"] {
            assert!(seen.insert(c.stat_at(t, snap, key).unwrap()));
        }
    }
    assert_eq!(seen.len(), 6);
}

#[test]
fn deleting_a_tenant_spares_the_others() {
    let mut c = cluster();
    let a = tenant(&mut c, "acme");
    let b = tenant(&mut c, "globex");
    c.put_object(a, "s", "doc", 10).unwrap();
    c.put_object(b, "s", "doc", 20).unwrap();
    let snap = c.create_snapshot(b, "s").unwrap();
    let extent = c.stat_at(b, snap, "doc").unwrap();
    c.delete_tenant(a).unwrap();
    assert_eq!(c.stat(b, "doc").unwrap(), 20);
    assert_eq!(c.stat_at(b, snap, "doc").unwrap(), extent);
    assert_eq!(c.quotas.tenant_usage(b).unwrap().bytes, 20);
}

#[test]
fn extents_of_deleted_snapshots_all_come_back() {
    let mut c = cluster();
    let t = tenant(&mut c, "acme");
    for i in 0..10 {
        c.put_object(t, "s", &format!("k{i}"), 1).unwrap();
    }
    let snap = c.create_snapshot(t, "s").unwrap();
    for i in 0..7 {
        c.put_object(t, "s", &format!("k{i}"), 2).unwrap();
    }
    assert_eq!(c.tlc_extents.data_used(), 17);
    assert_eq!(c.delete_snapshot(t, snap).unwrap(), 7);
    assert_eq!(c.tlc_extents.data_used(), 10);
    assert_eq!(c.tlc_extents.metadata_used(), 17);
    assert_eq!(c.tlc_extents.free_extents(), 100_000 - 27);
}

#[test]
fn extents_can_be_given_back_from_outside() {
    let mut c = Cluster::new(4, 10);
    c.add_pool(pool(1, 100));
    let t = tenant(&mut c, "acme");
    c.put_object(t, "s", "k", 1).unwrap();
    let snap = c.create_snapshot(t, "before").unwrap();
    c.put_object(t, "s", "k", 2).unwrap();
    assert_eq!(c.tlc_extents.free_extents(), 6);
    // The data of both versions has gone to colder media.
    c.tlc_extents.release(Purpose::Data);
    c.tlc_extents.release(Purpose::Data);
    assert_eq!(c.tlc_extents.data_used(), 0);
    assert_eq!(c.tlc_extents.free_extents(), 8);
    assert_eq!(c.stat(t, "k").unwrap(), 2);
    c.put_object(t, "s", "other", 3).unwrap();
    assert_eq!(c.delete_snapshot(t, snap).unwrap(), 1);
    assert_eq!(c.tlc_extents.data_used(), 0);
    assert_eq!(c.tlc_extents.free_extents(), 7);
}
