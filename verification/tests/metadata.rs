use omnistor::metadata::{BucketProcess, BucketRouter, JournalRecord, SharedState};
use omnistor::types::{BucketId, CNodeId, Error, MetaKey, TenantId};

fn key(t: u32, k: &str) -> MetaKey {
    MetaKey::new(TenantId(t), k)
}

#[test]
fn router_is_deterministic_and_spreads() {
    let r = BucketRouter::new(128);
    let k = key(1, "a/b/c");
    assert_eq!(r.route(&k), r.route(&k));
    let mut seen = std::collections::HashSet::new();
    for i in 0..10_000 {
        seen.insert(r.route(&key(1, &format!("obj-{i}"))));
    }
    assert!(seen.len() > 100, "only {} buckets hit", seen.len());
}

#[test]
fn put_get_delete_roundtrip() {
    let mut shared = SharedState::default();
    let mut b = BucketProcess::take_over(BucketId(1), CNodeId(1), &mut shared);
    b.put(&mut shared, key(1, "f1"), b"v1".to_vec()).unwrap();
    assert_eq!(b.get(&key(1, "f1")), Some(&b"v1".to_vec()));
    b.delete(&mut shared, key(1, "f1")).unwrap();
    assert_eq!(b.get(&key(1, "f1")), None);
}

#[test]
fn takeover_replays_journal_zero_migration() {
    let mut shared = SharedState::default();
    let mut b1 = BucketProcess::take_over(BucketId(1), CNodeId(1), &mut shared);
    b1.put(&mut shared, key(1, "a"), b"1".to_vec()).unwrap();
    b1.checkpoint(&mut shared).unwrap();
    b1.put(&mut shared, key(1, "b"), b"2".to_vec()).unwrap();
    let b2 = BucketProcess::take_over(BucketId(1), CNodeId(2), &mut shared);
    assert_eq!(b2.get(&key(1, "a")), Some(&b"1".to_vec()));
    assert_eq!(b2.get(&key(1, "b")), Some(&b"2".to_vec()));
}

#[test]
fn lease_fencing_blocks_zombie_writer() {
    let mut shared = SharedState::default();
    let mut old = BucketProcess::take_over(BucketId(1), CNodeId(1), &mut shared);
    let mut new = BucketProcess::take_over(BucketId(1), CNodeId(2), &mut shared);
    let err = old
        .put(&mut shared, key(1, "x"), b"stale".to_vec())
        .unwrap_err();
    assert_eq!(
        err,
        Error::Fenced {
            bucket: BucketId(1)
        }
    );
    new.put(&mut shared, key(1, "x"), b"fresh".to_vec())
        .unwrap();
    assert_eq!(new.get(&key(1, "x")), Some(&b"fresh".to_vec()));
}

#[test]
fn list_respects_tenant_boundary() {
    let mut shared = SharedState::default();
    let mut b = BucketProcess::take_over(BucketId(1), CNodeId(1), &mut shared);
    b.put(&mut shared, key(1, "dir/f1"), vec![]).unwrap();
    b.put(&mut shared, key(1, "dir/f2"), vec![]).unwrap();
    b.put(&mut shared, key(2, "dir/f3"), vec![]).unwrap();
    let listed = b.list(&key(1, "dir/"), 100);
    assert_eq!(listed.len(), 2);
    assert!(listed.iter().all(|k| k.tenant == TenantId(1)));
}

#[test]
fn route_is_the_hash_modulo_the_count() {
    let r = BucketRouter::new(7);
    assert_eq!(r.bucket_count(), 7);
    for name in ["", "a", "photos/1.jpg"] {
        let k = key(3, name);
        assert_eq!(r.route(&k), BucketId((k.route_hash() % 7) as u32));
    }
    assert_eq!(BucketRouter::new(1).route(&key(3, "x")), BucketId(0));
}

#[test]
fn listing_is_in_order_and_limited() {
    let mut shared = SharedState::default();
    let mut b = BucketProcess::take_over(BucketId(4), CNodeId(1), &mut shared);
    for name in ["dir/c", "dir/a", "dir/b", "dirt", "di", "e"] {
        b.put(&mut shared, key(1, name), vec![]).unwrap();
    }
    let all = b.list(&key(1, "dir/"), 100);
    let names: Vec<&[u8]> = all.iter().map(|k| k.key.as_slice()).collect();
    assert_eq!(
        names,
        vec![
            b"dir/a".as_slice(),
            b"dir/b".as_slice(),
            b"dir/c".as_slice()
        ]
    );
    assert_eq!(b.list(&key(1, "dir/"), 2).len(), 2);
    assert_eq!(b.list(&key(1, "dir/"), 0).len(), 0);
    assert_eq!(b.list(&key(1, ""), 100).len(), 6);
    assert_eq!(b.list(&key(2, ""), 100).len(), 0);
}

#[test]
fn an_old_writer_can_do_nothing() {
    let fenced = Err(Error::Fenced {
        bucket: BucketId(6),
    });
    let mut shared = SharedState::default();
    let mut old = BucketProcess::take_over(BucketId(6), CNodeId(1), &mut shared);
    old.put(&mut shared, key(1, "kept"), b"1".to_vec()).unwrap();
    let new = BucketProcess::take_over(BucketId(6), CNodeId(2), &mut shared);
    assert_eq!(old.put(&mut shared, key(1, "x"), vec![]), fenced);
    assert_eq!(old.delete(&mut shared, key(1, "kept")), fenced);
    assert_eq!(old.checkpoint(&mut shared), fenced);
    assert_eq!(old.entry_count(), 1);
    assert_eq!(new.entry_count(), 1);
    let third = BucketProcess::take_over(BucketId(6), CNodeId(3), &mut shared);
    assert_eq!(third.get(&key(1, "kept")), Some(&b"1".to_vec()));
    assert_eq!((third.id, third.owner), (BucketId(6), CNodeId(3)));
}

#[test]
fn takeover_replays_deletes_and_overwrites() {
    let mut shared = SharedState::default();
    let mut b1 = BucketProcess::take_over(BucketId(1), CNodeId(1), &mut shared);
    b1.put(&mut shared, key(1, "a"), b"old".to_vec()).unwrap();
    b1.put(&mut shared, key(1, "b"), b"gone".to_vec()).unwrap();
    b1.checkpoint(&mut shared).unwrap();
    b1.put(&mut shared, key(1, "a"), b"new".to_vec()).unwrap();
    b1.delete(&mut shared, key(1, "b")).unwrap();
    let b2 = BucketProcess::take_over(BucketId(1), CNodeId(2), &mut shared);
    assert_eq!(b2.get(&key(1, "a")), Some(&b"new".to_vec()));
    assert_eq!(b2.get(&key(1, "b")), None);
    assert_eq!(b2.entry_count(), 1);
}

#[test]
fn a_checkpoint_changes_nothing_that_is_read() {
    let mut shared = SharedState::default();
    let mut b = BucketProcess::take_over(BucketId(1), CNodeId(1), &mut shared);
    b.put(&mut shared, key(1, "a"), b"1".to_vec()).unwrap();
    b.checkpoint(&mut shared).unwrap();
    assert_eq!(b.get(&key(1, "a")), Some(&b"1".to_vec()));
    b.checkpoint(&mut shared).unwrap();
    let again = BucketProcess::take_over(BucketId(1), CNodeId(1), &mut shared);
    assert_eq!(again.get(&key(1, "a")), Some(&b"1".to_vec()));
    assert_eq!(again.entry_count(), 1);
}

#[test]
fn journal_records_compare_by_content() {
    let a = JournalRecord::Delete { key: key(1, "a") };
    assert_eq!(a, a.clone());
    assert_ne!(
        a,
        JournalRecord::Put {
            key: key(1, "a"),
            value: vec![]
        }
    );
}

#[test]
fn every_bucket_gets_a_numbered_object() {
    let r = BucketRouter::new(128);
    for (tenant, name) in [(1, "obj-"), (7, "logs/2024/"), (4_000_000_000, "")] {
        let hit: std::collections::BTreeSet<u32> = (100..1000)
            .map(|i| r.route(&MetaKey::new(TenantId(tenant), format!("{name}{i}").as_str())).0)
            .collect();
        assert_eq!(hit.len(), 128);
    }
}
