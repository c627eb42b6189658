use omnistor::qos::{Dimension, Priority, QosEntity, QosSpec, ShardedQos, TokenBucket};
use omnistor::types::Error;

fn spec() -> QosSpec {
    QosSpec {
        metadata_iops: 100,
        data_iops: 200,
        data_bw_bytes: 1000,
        burst_multiple: 2,
    }
}

#[test]
fn foreground_throttles_at_capacity() {
    let mut e = QosEntity::new(spec());
    for _ in 0..200 {
        e.acquire(Dimension::MetadataIops, 1, Priority::Foreground)
            .unwrap();
    }
    let err = e
        .acquire(Dimension::MetadataIops, 1, Priority::Foreground)
        .unwrap_err();
    assert_eq!(
        err,
        Error::Throttled {
            dimension: "metadata_iops"
        }
    );
    e.tick();
    e.acquire(Dimension::MetadataIops, 100, Priority::Foreground)
        .unwrap();
}

#[test]
fn background_leaves_headroom_for_foreground() {
    let mut e = QosEntity::new(spec());
    let mut granted = 0;
    while e
        .acquire(Dimension::DataIops, 1, Priority::Background)
        .is_ok()
    {
        granted += 1;
    }
    assert_eq!(granted, 200);
    e.acquire(Dimension::DataIops, 200, Priority::Foreground)
        .unwrap();
}

#[test]
fn dimensions_are_independent() {
    let mut e = QosEntity::new(spec());
    while e
        .acquire(Dimension::MetadataIops, 1, Priority::Foreground)
        .is_ok()
    {}
    e.acquire(Dimension::DataBw, 500, Priority::Foreground)
        .unwrap();
}

#[test]
fn sharded_rebalance_shifts_budget_to_hot_shard() {
    let mut sq = ShardedQos::new(spec(), 4);
    while sq
        .acquire(0, Dimension::DataIops, 1, Priority::Foreground)
        .is_ok()
    {}
    let hot_before = sq.shard(0).available(Dimension::DataIops);
    sq.rebalance();
    let hot_after = sq.shard(0).available(Dimension::DataIops);
    let idle_after = sq.shard(1).available(Dimension::DataIops);
    assert!(hot_after > hot_before, "hot shard should regain budget");
    assert!(
        hot_after > idle_after,
        "hot shard should out-budget idle shards"
    );
}

#[test]
fn each_dimension_says_its_name() {
    let mut e = QosEntity::new(spec());
    let names = [
        (Dimension::MetadataIops, "metadata_iops"),
        (Dimension::DataIops, "data_iops"),
        (Dimension::DataBw, "data_bw"),
    ];
    for (dim, dimension) in names {
        assert_eq!(
            e.acquire(dim, 2001, Priority::Foreground),
            Err(Error::Throttled { dimension })
        );
    }
}

#[test]
fn a_bucket_fills_to_its_capacity() {
    let mut b = TokenBucket::new(10, 3);
    assert_eq!(b.available(), 30);
    assert!(b.try_acquire(25, Priority::Foreground));
    assert!(!b.try_acquire(6, Priority::Foreground));
    assert_eq!(b.available(), 5);
    b.tick();
    assert_eq!(b.available(), 15);
    b.tick();
    b.tick();
    assert_eq!(b.available(), 30);
}

#[test]
fn background_keeps_to_the_upper_half() {
    let mut b = TokenBucket::new(5, 3);
    // Capacity 15: background work leaves 7.
    assert!(!b.try_acquire(9, Priority::Background));
    assert!(b.try_acquire(8, Priority::Background));
    assert!(!b.try_acquire(1, Priority::Background));
    assert!(b.try_acquire(7, Priority::Foreground));
    assert!(b.try_acquire(0, Priority::Foreground));
}

#[test]
fn bursts_are_at_least_one_and_saturate() {
    assert_eq!(TokenBucket::new(10, 0).available(), 10);
    assert_eq!(TokenBucket::new(u64::MAX, 2).available(), u64::MAX);
    assert_eq!(TokenBucket::new(0, 5).available(), 0);
}

#[test]
fn shards_split_the_budget() {
    let sq = ShardedQos::new(spec(), 4);
    assert_eq!(sq.shard_count(), 4);
    for i in 0..4 {
        assert_eq!(sq.shard(i).available(Dimension::MetadataIops), 50);
        assert_eq!(sq.shard(i).available(Dimension::DataIops), 100);
        assert_eq!(sq.shard(i).available(Dimension::DataBw), 500);
    }
    let lone = ShardedQos::new(spec(), 0);
    assert_eq!(lone.shard_count(), 1);
    assert_eq!(lone.shard(0).available(Dimension::DataIops), 400);
    let many = ShardedQos::new(spec(), 1000);
    assert_eq!(many.shard(999).available(Dimension::MetadataIops), 2);
}

#[test]
fn shard_numbers_wrap_around() {
    let mut sq = ShardedQos::new(spec(), 4);
    sq.acquire(6, Dimension::DataIops, 30, Priority::Foreground)
        .unwrap();
    assert_eq!(sq.shard(2).available(Dimension::DataIops), 70);
    sq.tick();
    assert_eq!(sq.shard(2).available(Dimension::DataIops), 100);
}

/// What a shard gets of a budget: a share by use, or, where that would leave a shard
/// with less than half of an even share, that much first and the rest by use.
fn portion(v: u64, used: u64, uses: &[u64]) -> u64 {
    let shards = uses.len() as u64;
    let total: u64 = uses.iter().sum();
    if total == 0 {
        (v / shards).max(1)
    } else if uses.iter().all(|u| u * 2 * shards >= total) {
        ((v as u128 * used as u128 / total as u128) as u64).max(1)
    } else {
        let least = v / (2 * shards);
        let rest = (v - shards * least) as u128;
        (least + (rest * used as u128 / total as u128) as u64).max(1)
    }
}

#[test]
fn rebalance_follows_use() {
    let uses: [[u64; 3]; 6] = [
        [0, 0, 0],
        [1, 1, 1],
        [10, 20, 30],
        [1, 0, 0],
        [7, 11, 13],
        [33, 1, 1],
    ];
    for used in uses {
        let big = QosSpec {
            metadata_iops: 1_000_003,
            data_iops: 49,
            data_bw_bytes: u64::MAX,
            burst_multiple: 1,
        };
        let mut sq = ShardedQos::new(big, 3);
        for (i, u) in used.iter().enumerate() {
            sq.acquire(i, Dimension::MetadataIops, *u, Priority::Foreground)
                .unwrap();
        }
        sq.rebalance();
        let mut sums = [0u128; 3];
        for (i, u) in used.iter().enumerate() {
            let s = sq.shard(i);
            let got = [
                s.available(Dimension::MetadataIops),
                s.available(Dimension::DataIops),
                s.available(Dimension::DataBw),
            ];
            for (k, v) in [1_000_003, 49, u64::MAX].into_iter().enumerate() {
                assert_eq!(got[k], portion(v, *u, &used));
                sums[k] += got[k] as u128;
            }
        }
        assert!(sums[0] <= 1_000_003);
        assert!(sums[1] <= 49);
        assert!(sums[2] <= u64::MAX as u128);
    }
}

#[test]
fn rebalance_splits_in_proportion_to_use() {
    let hundred = QosSpec {
        metadata_iops: 100,
        data_iops: 100,
        data_bw_bytes: 100,
        burst_multiple: 1,
    };
    for (a, b) in [(60, 40), (50, 50), (75, 25), (26, 74)] {
        let mut sq = ShardedQos::new(
            QosSpec {
                metadata_iops: 200,
                ..hundred
            },
            2,
        );
        sq.acquire(0, Dimension::MetadataIops, a, Priority::Foreground)
            .unwrap();
        sq.acquire(1, Dimension::MetadataIops, b, Priority::Foreground)
            .unwrap();
        sq.rebalance();
        assert_eq!(sq.shard(0).available(Dimension::DataIops), a);
        assert_eq!(sq.shard(1).available(Dimension::DataIops), b);
        assert_eq!(sq.shard(0).available(Dimension::MetadataIops), 2 * a);
    }
}

#[test]
fn rebalance_keeps_to_the_budget() {
    let mut sq = ShardedQos::new(
        QosSpec {
            metadata_iops: 200,
            data_iops: 200,
            data_bw_bytes: 200,
            burst_multiple: 1,
        },
        4,
    );
    sq.acquire(0, Dimension::DataIops, 1, Priority::Foreground)
        .unwrap();
    sq.rebalance();
    let rates: Vec<u64> = (0..4)
        .map(|i| sq.shard(i).available(Dimension::DataIops))
        .collect();
    assert_eq!(rates, vec![125, 25, 25, 25]);
    assert_eq!(rates.iter().sum::<u64>(), 200);
    // The whole new bucket can be used at once.
    sq.acquire(0, Dimension::DataIops, 125, Priority::Foreground)
        .unwrap();
}

#[test]
fn no_shard_is_left_with_nothing() {
    let tiny = QosSpec {
        metadata_iops: 1,
        data_iops: 0,
        data_bw_bytes: 3,
        burst_multiple: 1,
    };
    let mut sq = ShardedQos::new(tiny, 3);
    sq.acquire(0, Dimension::MetadataIops, 1, Priority::Foreground)
        .unwrap();
    sq.rebalance();
    for i in 0..3 {
        assert_eq!(sq.shard(i).available(Dimension::MetadataIops), 1);
        assert_eq!(sq.shard(i).available(Dimension::DataIops), 1);
    }
    assert_eq!(sq.shard(0).available(Dimension::DataBw), 3);
    assert_eq!(sq.shard(1).available(Dimension::DataBw), 1);
}

#[test]
fn rebalance_forgets_earlier_use() {
    let mut sq = ShardedQos::new(spec(), 2);
    sq.acquire(0, Dimension::DataIops, 10, Priority::Foreground)
        .unwrap();
    sq.rebalance();
    assert_eq!(sq.shard(0).available(Dimension::DataIops), 300);
    assert_eq!(sq.shard(1).available(Dimension::DataIops), 100);
    sq.rebalance();
    assert_eq!(sq.shard(0).available(Dimension::DataIops), 200);
    assert_eq!(sq.shard(1).available(Dimension::DataIops), 200);
}

#[test]
fn refused_requests_are_not_counted_as_use() {
    let mut sq = ShardedQos::new(spec(), 2);
    assert!(sq
        .acquire(0, Dimension::DataIops, 1_000, Priority::Foreground)
        .is_err());
    sq.acquire(1, Dimension::DataIops, 1, Priority::Foreground)
        .unwrap();
    sq.rebalance();
    assert_eq!(sq.shard(0).available(Dimension::DataIops), 100);
    assert_eq!(sq.shard(1).available(Dimension::DataIops), 300);
}

#[test]
fn a_tick_fits_unless_it_would_overflow() {
    assert!(QosEntity::new(spec()).tick_fits());
    let mut vast = QosEntity::new(QosSpec {
        metadata_iops: u64::MAX,
        ..spec()
    });
    assert!(!vast.tick_fits());
    vast.acquire(Dimension::MetadataIops, u64::MAX, Priority::Foreground)
        .unwrap();
    assert!(vast.tick_fits());
    vast.tick();
    assert_eq!(vast.available(Dimension::MetadataIops), u64::MAX);
}

#[test]
fn no_more_is_granted_than_was_there_and_came_in() {
    let mut b = TokenBucket::new(7, 3);
    let start = b.available();
    let (mut granted, mut ticks) = (0, 0);
    let mut x: u64 = 12345;
    for _ in 0..1000 {
        x = x.wrapping_mul(6364136223846793005).wrapping_add(1442695040888963407);
        let amount = (x >> 33) % 9;
        let prio = if x >> 63 == 0 {
            Priority::Foreground
        } else {
            Priority::Background
        };
        if amount == 8 {
            b.tick();
            ticks += 1;
        } else if b.try_acquire(amount, prio) {
            granted += amount;
        }
        assert!(granted + b.available() <= start + ticks * 7);
    }
    assert!(granted > start);
}
