use omnistor::placement::{PlacementEngine, PoolState, RebalanceMove};
use omnistor::types::{Error, MediaClass, PoolId, TenantId};

const T: TenantId = TenantId(1);

fn pool(id: u32, media: MediaClass, capacity: u64, used: u64) -> PoolState {
    PoolState {
        id: PoolId(id),
        media,
        capacity,
        used,
        load_headroom_permille: 500,
        dedicated_to: None,
    }
}

fn engine() -> PlacementEngine {
    let mut e = PlacementEngine::new(150);
    e.upsert_pool(pool(1, MediaClass::TlcNvme, 1000, 100));
    e.upsert_pool(pool(2, MediaClass::TlcNvme, 1000, 800));
    e.upsert_pool(pool(3, MediaClass::Hdd, 10_000, 1000));
    e
}

#[test]
fn select_prefers_low_watermark_pool() {
    let e = engine();
    assert_eq!(
        e.select_pool(MediaClass::TlcNvme, T, None).unwrap(),
        PoolId(1)
    );
}

#[test]
fn full_media_class_reports_no_space() {
    let mut e = PlacementEngine::new(150);
    e.upsert_pool(pool(1, MediaClass::TlcNvme, 100, 100));
    assert_eq!(
        e.select_pool(MediaClass::TlcNvme, T, None).unwrap_err(),
        Error::NoSpace {
            media: MediaClass::TlcNvme
        }
    );
}

#[test]
fn rebalance_triggers_on_watermark_diff_within_class_only() {
    let e = engine();
    let moves = e.plan_rebalance();
    assert_eq!(moves.len(), 1);
    assert_eq!(moves[0].from, PoolId(2));
    assert_eq!(moves[0].to, PoolId(1));
    assert!(moves[0].extents > 0);
}

#[test]
fn no_rebalance_when_balanced() {
    let mut e = PlacementEngine::new(150);
    e.upsert_pool(pool(1, MediaClass::TlcNvme, 1000, 500));
    e.upsert_pool(pool(2, MediaClass::TlcNvme, 1000, 550));
    assert!(e.plan_rebalance().is_empty());
}

#[test]
fn dedicated_pool_isolation() {
    let mut e = engine();
    let bank = TenantId(9);
    let mut p = pool(4, MediaClass::TlcNvme, 1000, 0);
    p.dedicated_to = Some(bank);
    e.upsert_pool(p);
    assert_eq!(
        e.select_pool(MediaClass::TlcNvme, T, None).unwrap(),
        PoolId(1)
    );
    assert_eq!(
        e.select_pool(MediaClass::TlcNvme, bank, Some(PoolId(4)))
            .unwrap(),
        PoolId(4)
    );
    let moves = e.plan_rebalance();
    assert!(moves
        .iter()
        .all(|m| m.from != PoolId(4) && m.to != PoolId(4)));
}

#[test]
fn sink_skips_missing_tier_and_ends_at_s3() {
    let e = engine();
    let (media, pool) = e.select_sink_target(MediaClass::TlcNvme, T).unwrap();
    assert_eq!(media, MediaClass::Hdd);
    assert_eq!(pool, Some(PoolId(3)));
    let (media, pool) = e.select_sink_target(MediaClass::Hdd, T).unwrap();
    assert_eq!(media, MediaClass::ExternalS3);
    assert_eq!(pool, None);
}

#[test]
fn commit_moves_watermark() {
    let mut e = engine();
    e.commit(PoolId(1), 850).unwrap();
    assert_eq!(
        e.select_pool(MediaClass::TlcNvme, T, None).unwrap(),
        PoolId(2)
    );
}

#[test]
fn half_of_the_way_to_the_mean_is_moved() {
    // From 800 to the mean of 450 per mille is 350 of 1000 extents, and half of that is 175.
    assert_eq!(
        engine().plan_rebalance(),
        vec![RebalanceMove {
            from: PoolId(2),
            to: PoolId(1),
            extents: 175
        }]
    );
}

#[test]
fn each_class_is_balanced_by_itself() {
    let mut e = PlacementEngine::new(150);
    e.upsert_pool(pool(1, MediaClass::Hdd, 1000, 900));
    e.upsert_pool(pool(2, MediaClass::Hdd, 1000, 100));
    e.upsert_pool(pool(3, MediaClass::QlcNvme, 2000, 1000));
    e.upsert_pool(pool(4, MediaClass::QlcNvme, 4000, 0));
    e.upsert_pool(pool(5, MediaClass::ExternalS3, 1000, 1000));
    e.upsert_pool(pool(6, MediaClass::ExternalS3, 1000, 0));
    e.upsert_pool(pool(7, MediaClass::TlcNvme, 1000, 1000));
    assert_eq!(
        e.plan_rebalance(),
        vec![
            RebalanceMove {
                from: PoolId(3),
                to: PoolId(4),
                extents: 250
            },
            RebalanceMove {
                from: PoolId(1),
                to: PoolId(2),
                extents: 200
            },
        ]
    );
}

#[test]
fn a_difference_at_the_threshold_moves_nothing() {
    let mut e = PlacementEngine::new(150);
    e.upsert_pool(pool(1, MediaClass::TlcNvme, 1000, 500));
    e.upsert_pool(pool(2, MediaClass::TlcNvme, 1000, 650));
    assert!(e.plan_rebalance().is_empty());
    e.upsert_pool(pool(2, MediaClass::TlcNvme, 1000, 651));
    assert_eq!(
        e.plan_rebalance(),
        vec![RebalanceMove {
            from: PoolId(2),
            to: PoolId(1),
            extents: 38
        }]
    );
}

#[test]
fn tiny_and_empty_pools_move_nothing() {
    let mut e = PlacementEngine::new(150);
    e.upsert_pool(pool(1, MediaClass::TlcNvme, 1, 1));
    e.upsert_pool(pool(2, MediaClass::TlcNvme, 1, 0));
    e.upsert_pool(pool(3, MediaClass::TlcNvme, 0, 0));
    assert!(e.plan_rebalance().is_empty());
}

#[test]
fn load_counts_as_much_as_capacity() {
    let mut e = PlacementEngine::new(150);
    let mut busy = pool(1, MediaClass::TlcNvme, 1000, 100);
    busy.load_headroom_permille = 100;
    let mut idle = pool(2, MediaClass::TlcNvme, 1000, 300);
    idle.load_headroom_permille = 301;
    e.upsert_pool(busy);
    e.upsert_pool(idle);
    assert_eq!(e.select_pool(MediaClass::TlcNvme, T, None), Ok(PoolId(2)));
    idle.load_headroom_permille = 300;
    e.upsert_pool(idle);
    assert_eq!(e.select_pool(MediaClass::TlcNvme, T, None), Ok(PoolId(1)));
}

#[test]
fn a_tenant_may_use_its_own_pool_beside_the_shared_ones() {
    let mut e = engine();
    let mut own = pool(4, MediaClass::TlcNvme, 1000, 0);
    own.dedicated_to = Some(TenantId(9));
    e.upsert_pool(own);
    assert_eq!(
        e.select_pool(MediaClass::TlcNvme, TenantId(9), None),
        Ok(PoolId(4))
    );
    // A bound pool of another class, or one that is not there, is of no use.
    let none = Err(Error::NoSpace {
        media: MediaClass::TlcNvme,
    });
    assert_eq!(e.select_pool(MediaClass::TlcNvme, T, Some(PoolId(3))), none);
    assert_eq!(e.select_pool(MediaClass::TlcNvme, T, Some(PoolId(8))), none);
}

#[test]
fn commit_stops_at_the_capacity() {
    let mut e = engine();
    e.commit(PoolId(2), 100).unwrap();
    assert_eq!(e.pool(PoolId(2)).unwrap().used, 900);
    e.commit(PoolId(2), 5000).unwrap();
    assert_eq!(e.pool(PoolId(2)).unwrap().used, 1000);
    assert_eq!(
        e.commit(PoolId(77), 1),
        Err(Error::Invalid("no pool 77".into()))
    );
}

#[test]
fn pools_are_listed_by_number() {
    let mut e = PlacementEngine::default();
    assert!(e.pools().is_empty());
    assert!(e.pool(PoolId(1)).is_none());
    for id in [5, 1, 3] {
        e.upsert_pool(pool(id, MediaClass::Hdd, 10, 0));
    }
    e.upsert_pool(pool(3, MediaClass::Hdd, 20, 0));
    let listed: Vec<(u32, u64)> = e.pools().iter().map(|p| (p.id.0, p.capacity)).collect();
    assert_eq!(listed, vec![(1, 10), (3, 20), (5, 10)]);
}

#[test]
fn sinking_uses_the_next_tier_with_room() {
    let mut e = engine();
    e.upsert_pool(pool(5, MediaClass::QlcNvme, 100, 0));
    assert_eq!(
        e.select_sink_target(MediaClass::TlcNvme, T),
        Some((MediaClass::QlcNvme, Some(PoolId(5))))
    );
    e.upsert_pool(pool(5, MediaClass::QlcNvme, 100, 100));
    assert_eq!(
        e.select_sink_target(MediaClass::TlcNvme, T),
        Some((MediaClass::Hdd, Some(PoolId(3))))
    );
    assert_eq!(e.select_sink_target(MediaClass::ExternalS3, T), None);
}
