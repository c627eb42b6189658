use omnistor::extent::{ExtentAllocator, PoolWatermarks, Pressure, Purpose};
use omnistor::types::{Error, ExtentId, MediaClass};

#[test]
fn metadata_grows_with_usage_no_reservation() {
    let mut a = ExtentAllocator::new(1000, PoolWatermarks::default());
    assert_eq!(a.metadata_used(), 0);
    for _ in 0..10 {
        a.allocate(Purpose::Metadata).unwrap();
    }
    assert_eq!(a.metadata_used(), 10);
    a.release(Purpose::Metadata);
    assert_eq!(a.metadata_used(), 9);
}

#[test]
fn sink_watermark_signals() {
    let mut a = ExtentAllocator::new(10, PoolWatermarks::default());
    let mut last = Pressure::Normal;
    for _ in 0..8 {
        last = a.allocate(Purpose::Data).unwrap().1;
    }
    assert_eq!(last, Pressure::SinkAdvised);
}

#[test]
fn protect_watermark_prefers_metadata() {
    let mut a = ExtentAllocator::new(10, PoolWatermarks::default());
    for _ in 0..9 {
        a.allocate(Purpose::Data).unwrap();
    }
    a.allocate(Purpose::Data).unwrap();
    assert!(matches!(
        a.allocate(Purpose::Data),
        Err(Error::NoSpace { .. })
    ));
}

#[test]
fn data_rejected_below_protect_but_metadata_allowed() {
    let mut a = ExtentAllocator::new(100, PoolWatermarks::default());
    for _ in 0..91 {
        a.allocate(Purpose::Data).unwrap();
    }
    assert!(matches!(
        a.allocate(Purpose::Data),
        Err(Error::NoSpace { .. })
    ));
    a.allocate(Purpose::Metadata).unwrap();
    assert_eq!(a.pressure(), Pressure::Protected);
}

#[test]
fn release_recovers_pressure() {
    let mut a = ExtentAllocator::new(100, PoolWatermarks::default());
    for _ in 0..91 {
        a.allocate(Purpose::Data).unwrap();
    }
    assert_eq!(a.pressure(), Pressure::Protected);
    assert!(matches!(
        a.allocate(Purpose::Data),
        Err(Error::NoSpace { .. })
    ));
    for _ in 0..60 {
        a.release(Purpose::Data);
    }
    assert_eq!(a.pressure(), Pressure::Normal);
    a.allocate(Purpose::Data).unwrap();
}

#[test]
fn extents_are_conserved() {
    let mut a = ExtentAllocator::new(50, PoolWatermarks::default());
    for i in 0..20 {
        let purpose = if i % 3 == 0 {
            Purpose::Metadata
        } else {
            Purpose::Data
        };
        a.allocate(purpose).unwrap();
        assert_eq!(a.free_extents() + a.metadata_used() + a.data_used(), 50);
    }
    assert_eq!((a.metadata_used(), a.data_used()), (7, 13));
    a.release(Purpose::Data);
    assert_eq!(a.free_extents(), 31);
}

#[test]
fn extent_numbers_are_fresh() {
    let mut a = ExtentAllocator::new(5, PoolWatermarks::default());
    assert_eq!(a.allocate(Purpose::Data).unwrap().0, ExtentId(1));
    a.release(Purpose::Data);
    assert_eq!(a.allocate(Purpose::Metadata).unwrap().0, ExtentId(2));
}

#[test]
fn an_empty_pool_has_no_space() {
    let mut a = ExtentAllocator::new(0, PoolWatermarks::default());
    let none = Error::NoSpace {
        media: MediaClass::TlcNvme,
    };
    assert_eq!(a.allocate(Purpose::Data).unwrap_err(), none);
    assert_eq!(a.allocate(Purpose::Metadata).unwrap_err(), none);
    assert_eq!(a.pressure(), Pressure::Protected);
}

#[test]
fn watermarks_are_of_free_space() {
    let marks = PoolWatermarks::default();
    assert_eq!(
        (marks.sink_free_permille, marks.protect_free_permille),
        (300, 100)
    );
    let mut a = ExtentAllocator::new(
        4,
        PoolWatermarks {
            sink_free_permille: 750,
            protect_free_permille: 500,
        },
    );
    assert_eq!(a.allocate(Purpose::Data).unwrap().1, Pressure::Normal);
    assert_eq!(a.allocate(Purpose::Data).unwrap().1, Pressure::SinkAdvised);
    assert_eq!(a.allocate(Purpose::Data).unwrap().1, Pressure::Protected);
    assert!(a.allocate(Purpose::Data).is_err());
    assert_eq!(a.allocate(Purpose::Metadata).unwrap().1, Pressure::Protected);
    assert!(a.allocate(Purpose::Metadata).is_err());
}
