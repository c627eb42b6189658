use omnistor::snapshot::{Generation, HeadId, SnapshotId, VersionedNamespace};
use omnistor::types::{Error, ExtentId};

const E1: ExtentId = ExtentId(101);
const E2: ExtentId = ExtentId(102);
const E3: ExtentId = ExtentId(103);

#[test]
fn snapshot_is_instant_frozen_view() {
    let mut ns = VersionedNamespace::new();
    let live = ns.live_head();
    ns.put(live, "a", E1).unwrap();
    let snap = ns.create_snapshot(live, "s1").unwrap();
    ns.put(live, "a", E2).unwrap();
    ns.put(live, "b", E3).unwrap();
    assert_eq!(ns.get_at(snap, b"a").unwrap(), Some(E1));
    assert_eq!(ns.get_at(snap, b"b").unwrap(), None);
    assert_eq!(ns.get(live, b"a").unwrap(), Some(E2));
    ns.delete(live, "a").unwrap();
    assert_eq!(ns.get(live, b"a").unwrap(), None);
    assert_eq!(ns.get_at(snap, b"a").unwrap(), Some(E1));
}

#[test]
fn writable_clone_shares_then_diverges() {
    let mut ns = VersionedNamespace::new();
    let live = ns.live_head();
    ns.put(live, "shared", E1).unwrap();
    let snap = ns.create_snapshot(live, "fork-point").unwrap();
    let clone = ns.clone_from(snap).unwrap();
    assert_eq!(ns.get(clone, b"shared").unwrap(), Some(E1));
    ns.put(clone, "shared", E2).unwrap();
    ns.put(live, "shared", E3).unwrap();
    assert_eq!(ns.get(clone, b"shared").unwrap(), Some(E2));
    assert_eq!(ns.get(live, b"shared").unwrap(), Some(E3));
    ns.put(live, "live-only", E3).unwrap();
    assert_eq!(ns.get(clone, b"live-only").unwrap(), None);
}

#[test]
fn delete_snapshot_frees_unreferenced_extents_only() {
    let mut ns = VersionedNamespace::new();
    let live = ns.live_head();
    ns.put(live, "a", E1).unwrap();
    ns.put(live, "keep", E3).unwrap();
    let snap = ns.create_snapshot(live, "s").unwrap();
    ns.put(live, "a", E2).unwrap();
    let freed = ns.delete_snapshot(snap).unwrap();
    assert_eq!(freed, vec![E1]);
    assert_eq!(ns.refcount(E3), 1);
    assert_eq!(ns.get(live, b"a").unwrap(), Some(E2));
    assert_eq!(ns.get(live, b"keep").unwrap(), Some(E3));
}

#[test]
fn clone_keeps_shared_extents_alive() {
    let mut ns = VersionedNamespace::new();
    let live = ns.live_head();
    ns.put(live, "a", E1).unwrap();
    let snap = ns.create_snapshot(live, "s").unwrap();
    let clone = ns.clone_from(snap).unwrap();
    ns.put(live, "a", E2).unwrap();
    let freed = ns.delete_snapshot(snap).unwrap();
    assert!(freed.is_empty());
    assert_eq!(ns.get(clone, b"a").unwrap(), Some(E1));
}

#[test]
fn export_full_then_incremental() {
    let mut ns = VersionedNamespace::new();
    let live = ns.live_head();
    ns.put(live, "a", E1).unwrap();
    ns.put(live, "b", E2).unwrap();
    let s1 = ns.create_snapshot(live, "daily-1").unwrap();
    let m1 = ns.export_manifest(s1).unwrap();
    assert_eq!(m1.incremental_from, None);
    assert_eq!(m1.entries.len(), 2);
    ns.put(live, "b", E3).unwrap();
    let s2 = ns.create_snapshot(live, "daily-2").unwrap();
    let m2 = ns.export_manifest(s2).unwrap();
    assert!(m2.incremental_from.is_some());
    assert_eq!(m2.entries.len(), 1);
    assert_eq!(m2.entries[0].0, b"b".to_vec());
    assert_eq!(m2.entries[0].1, E3);
}

#[test]
fn many_snapshots_cost_is_diff_only() {
    let mut ns = VersionedNamespace::new();
    let live = ns.live_head();
    ns.put(live, "hot", E1).unwrap();
    for i in 0..100 {
        ns.create_snapshot(live, &format!("s{i}")).unwrap();
    }
    assert_eq!(ns.version_count(b"hot"), 1);
    assert_eq!(ns.snapshot_count(), 100);
}

#[test]
fn heads_and_snapshots_that_are_not_there() {
    let mut ns = VersionedNamespace::default();
    let no_head = Error::Invalid("no head 7".into());
    let h = HeadId(7);
    assert_eq!(ns.put(h, "a", E1).unwrap_err(), no_head);
    assert_eq!(ns.delete(h, "a").unwrap_err(), no_head);
    assert_eq!(ns.get(h, b"a").unwrap_err(), no_head);
    assert_eq!(ns.create_snapshot(h, "s").unwrap_err(), no_head);
    let no_snapshot = Error::Invalid("no snapshot 3".into());
    let s = SnapshotId(3);
    assert_eq!(ns.get_at(s, b"a").unwrap_err(), no_snapshot);
    assert_eq!(ns.clone_from(s).unwrap_err(), no_snapshot);
    assert_eq!(ns.delete_snapshot(s).unwrap_err(), no_snapshot);
    assert_eq!(ns.export_manifest(s).unwrap_err(), no_snapshot);
    assert_eq!(ns.refcount(E1), 0);
    assert_eq!(ns.version_count(b"a"), 0);
}

#[test]
fn the_last_write_of_a_generation_is_read() {
    let mut ns = VersionedNamespace::new();
    let live = ns.live_head();
    ns.put(live, "a", E1).unwrap();
    ns.put(live, "a", E2).unwrap();
    assert_eq!(ns.get(live, b"a").unwrap(), Some(E2));
    assert_eq!(ns.version_count(b"a"), 2);
    let s = ns.create_snapshot(live, "s").unwrap();
    assert_eq!(ns.get_at(s, b"a").unwrap(), Some(E2));
    // What was overwritten within a generation is found with the first clean-up.
    assert_eq!(ns.delete_snapshot(s).unwrap(), vec![E1]);
    assert_eq!(ns.version_count(b"a"), 1);
}

#[test]
fn clones_of_clones_see_their_ancestors() {
    let mut ns = VersionedNamespace::new();
    let live = ns.live_head();
    ns.put(live, "a", E1).unwrap();
    let s0 = ns.create_snapshot(live, "s0").unwrap();
    let first = ns.clone_from(s0).unwrap();
    ns.put(first, "b", E2).unwrap();
    let s1 = ns.create_snapshot(first, "s1").unwrap();
    let second = ns.clone_from(s1).unwrap();
    ns.put(first, "b", E3).unwrap();
    ns.put(live, "a", E3).unwrap();
    assert_eq!(ns.get(second, b"a").unwrap(), Some(E1));
    assert_eq!(ns.get(second, b"b").unwrap(), Some(E2));
    ns.delete(second, "a").unwrap();
    assert_eq!(ns.get(second, b"a").unwrap(), None);
    assert_eq!(ns.get(first, b"a").unwrap(), Some(E1));
    assert_eq!((first, second), (HeadId(1), HeadId(2)));
}

#[test]
fn deleting_a_snapshot_keeps_what_others_read() {
    let mut ns = VersionedNamespace::new();
    let live = ns.live_head();
    ns.put(live, "a", E1).unwrap();
    let s0 = ns.create_snapshot(live, "s0").unwrap();
    let s1 = ns.create_snapshot(live, "s1").unwrap();
    ns.put(live, "a", E2).unwrap();
    assert!(ns.delete_snapshot(s0).unwrap().is_empty());
    assert_eq!(ns.get_at(s1, b"a").unwrap(), Some(E1));
    assert_eq!(ns.snapshot_count(), 1);
    assert_eq!(ns.delete_snapshot(s1).unwrap(), vec![E1]);
    assert!(ns.delete_snapshot(s1).is_err());
}

#[test]
fn an_extent_under_two_keys_is_freed_with_the_last() {
    let mut ns = VersionedNamespace::new();
    let live = ns.live_head();
    ns.put(live, "a", E1).unwrap();
    ns.put(live, "b", E1).unwrap();
    assert_eq!(ns.refcount(E1), 2);
    let s = ns.create_snapshot(live, "s").unwrap();
    ns.put(live, "a", E2).unwrap();
    assert!(ns.delete_snapshot(s).unwrap().is_empty());
    assert_eq!(ns.refcount(E1), 1);
    let s = ns.create_snapshot(live, "s").unwrap();
    ns.delete(live, "b").unwrap();
    assert_eq!(ns.delete_snapshot(s).unwrap(), vec![E1]);
}

#[test]
fn export_takes_the_newest_exported_base() {
    let mut ns = VersionedNamespace::new();
    let live = ns.live_head();
    ns.put(live, "a", E1).unwrap();
    let s0 = ns.create_snapshot(live, "s0").unwrap();
    ns.put(live, "b", E2).unwrap();
    let s1 = ns.create_snapshot(live, "s1").unwrap();
    ns.put(live, "c", E3).unwrap();
    let s2 = ns.create_snapshot(live, "s2").unwrap();
    ns.export_manifest(s0).unwrap();
    let m = ns.export_manifest(s2).unwrap();
    assert_eq!(m.snapshot, s2);
    assert_eq!(m.incremental_from, Some(Generation(1)));
    assert_eq!(
        m.entries,
        vec![(b"b".to_vec(), E2), (b"c".to_vec(), E3)]
    );
    let m = ns.export_manifest(s1).unwrap();
    assert_eq!(m.incremental_from, Some(Generation(1)));
    assert_eq!(m.entries, vec![(b"b".to_vec(), E2)]);
    // Exporting changes nothing that is read.
    assert_eq!(ns.get_at(s1, b"b").unwrap(), Some(E2));
    assert_eq!(ns.get_at(s1, b"c").unwrap(), None);
}

#[test]
fn a_clone_is_exported_whole() {
    let mut ns = VersionedNamespace::new();
    let live = ns.live_head();
    ns.put(live, "a", E1).unwrap();
    let s0 = ns.create_snapshot(live, "s0").unwrap();
    ns.export_manifest(s0).unwrap();
    let clone = ns.clone_from(s0).unwrap();
    ns.put(clone, "b", E2).unwrap();
    let s1 = ns.create_snapshot(clone, "s1").unwrap();
    let m = ns.export_manifest(s1).unwrap();
    assert_eq!(m.incremental_from, None);
    assert_eq!(
        m.entries,
        vec![(b"a".to_vec(), E1), (b"b".to_vec(), E2)]
    );
}

#[test]
fn only_what_nobody_reads_is_freed() {
    let mut ns = VersionedNamespace::new();
    let live = ns.live_head();
    ns.put(live, "a", ExtentId(1)).unwrap();
    ns.put(live, "b", ExtentId(1)).unwrap();
    ns.put(live, "c", ExtentId(2)).unwrap();
    let s1 = ns.create_snapshot(live, "s1").unwrap();
    ns.put(live, "a", ExtentId(3)).unwrap();
    ns.delete(live, "c").unwrap();
    let s2 = ns.create_snapshot(live, "s2").unwrap();
    ns.put(live, "a", ExtentId(4)).unwrap();
    // The first extent is still read under another key, by everybody.
    assert_eq!(ns.delete_snapshot(s1).unwrap(), vec![ExtentId(2)]);
    assert_eq!(ns.refcount(ExtentId(1)), 1);
    assert_eq!(ns.refcount(ExtentId(2)), 0);
    assert_eq!(ns.get_at(s2, b"a").unwrap(), Some(ExtentId(3)));
    assert_eq!(ns.delete_snapshot(s2).unwrap(), vec![ExtentId(3)]);
    assert_eq!(ns.get(live, b"a").unwrap(), Some(ExtentId(4)));
    assert_eq!(ns.get(live, b"b").unwrap(), Some(ExtentId(1)));
}

#[test]
fn exports_list_what_is_read_by_key() {
    let mut ns = VersionedNamespace::new();
    let live = ns.live_head();
    ns.put(live, "b", ExtentId(2)).unwrap();
    ns.put(live, "a", ExtentId(1)).unwrap();
    let s1 = ns.create_snapshot(live, "s1").unwrap();
    ns.put(live, "c", ExtentId(3)).unwrap();
    ns.put(live, "a", ExtentId(4)).unwrap();
    let s2 = ns.create_snapshot(live, "s2").unwrap();
    let full = ns.export_manifest(s1).unwrap();
    assert_eq!(full.snapshot, s1);
    assert!(full.incremental_from.is_none());
    assert_eq!(
        full.entries,
        vec![
            (b"a".to_vec(), ExtentId(1)),
            (b"b".to_vec(), ExtentId(2))
        ]
    );
    let more = ns.export_manifest(s2).unwrap();
    assert!(more.incremental_from.is_some());
    assert_eq!(
        more.entries,
        vec![
            (b"a".to_vec(), ExtentId(4)),
            (b"c".to_vec(), ExtentId(3))
        ]
    );
    assert_eq!(ns.get_at(s1, b"a").unwrap(), Some(ExtentId(1)));
}
