use omnistor::types::{
    BucketId, CNodeId, Error, ExtentId, MediaClass, MetaKey, PoolId, SNodeId, TenantId,
};

#[test]
fn tenant_prefix_separates_key_space() {
    let a = MetaKey::new(TenantId(1), "same/path");
    let b = MetaKey::new(TenantId(2), "same/path");
    assert_ne!(a, b);
    assert_ne!(a.route_hash(), b.route_hash());
}

#[test]
fn media_class_sink_order() {
    assert_eq!(MediaClass::TlcNvme.colder(), Some(MediaClass::QlcNvme));
    assert_eq!(MediaClass::Hdd.colder(), Some(MediaClass::ExternalS3));
    assert_eq!(MediaClass::ExternalS3.colder(), None);
}

#[test]
fn every_tier_sinks_to_the_last() {
    assert_eq!(MediaClass::QlcNvme.colder(), Some(MediaClass::Hdd));
    let mut tier = MediaClass::TlcNvme;
    let mut steps = 0;
    while let Some(next) = tier.colder() {
        assert!(tier < next);
        tier = next;
        steps += 1;
    }
    assert_eq!((tier, steps), (MediaClass::ExternalS3, 3));
}

/// FNV-1a over the big-endian tenant number and then the key.
fn fnv(bytes: &[u8]) -> u64 {
    bytes.iter().fold(0xcbf2_9ce4_8422_2325u64, |h, b| {
        (h ^ u64::from(*b)).wrapping_mul(0x100_0000_01b3)
    })
}

#[test]
fn route_hash_is_fnv_1a() {
    let k = MetaKey::new(TenantId(0x0102_0304), "obj");
    assert_eq!(k.route_hash(), fnv(&[1, 2, 3, 4, b'o', b'b', b'j']));
    let empty = MetaKey::new(TenantId(0), "");
    assert_eq!(empty.route_hash(), fnv(&[0, 0, 0, 0]));
    assert_ne!(empty.route_hash(), 0xcbf2_9ce4_8422_2325);
}

#[test]
fn keys_are_made_of_any_bytes() {
    let t = TenantId(5);
    let of_text = MetaKey::new(t, "a/b");
    assert_eq!(of_text, MetaKey::new(t, String::from("a/b")));
    assert_eq!(of_text, MetaKey::new(t, b"a/b".to_vec()));
    assert_eq!(of_text, MetaKey::new(t, b"a/b".as_slice()));
    assert_eq!(MetaKey::new(t, "é").key, vec![0xc3, 0xa9]);
    assert_eq!(of_text.clone(), of_text);
}

#[test]
fn keys_of_a_tenant_stand_together() {
    let low = MetaKey::new(TenantId(1), "zzz");
    let high = MetaKey::new(TenantId(2), "");
    assert!(low < high);
}

#[test]
fn errors_say_what_is_wrong() {
    let said = [
        (
            Error::Throttled {
                dimension: "data_iops",
            },
            "throttled on data_iops",
        ),
        (
            Error::QuotaExceeded {
                scope: "s:capacity".into(),
            },
            "quota exceeded: s:capacity",
        ),
        (
            Error::NoSpace {
                media: MediaClass::TlcNvme,
            },
            "no space on TlcNvme",
        ),
        (
            Error::NoSpace {
                media: MediaClass::QlcNvme,
            },
            "no space on QlcNvme",
        ),
        (
            Error::NoSpace {
                media: MediaClass::Hdd,
            },
            "no space on Hdd",
        ),
        (
            Error::NoSpace {
                media: MediaClass::ExternalS3,
            },
            "no space on ExternalS3",
        ),
        (
            Error::Fenced {
                bucket: BucketId(17),
            },
            "fenced write to bucket 17",
        ),
        (
            Error::BucketUnavailable(BucketId(0)),
            "bucket 0 unavailable",
        ),
        (Error::UnknownTenant(TenantId(4294967295)), "unknown tenant 4294967295"),
        (Error::Invalid("name empty".into()), "invalid: name empty"),
    ];
    for (e, message) in said {
        assert_eq!(e.to_string(), message);
    }
}

#[test]
fn ids_compare_by_number() {
    assert!(PoolId(1) < PoolId(2));
    assert!(SNodeId(3) == SNodeId(3));
    assert!(CNodeId(3) != CNodeId(4));
    assert!(ExtentId(10) > ExtentId(9));
}
