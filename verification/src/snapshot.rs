//! Copy-on-write snapshots of metadata, and writable clones.
//!
//! - Every value carries a generation. A snapshot freezes the current one: that
//!   takes one step, however much data there is.
//! - Reading a snapshot finds the newest version no younger than it.
//! - A clone branches off a snapshot as a new writable head and shares all
//!   versions from before.
//! - Extents are counted by the versions that refer to them, and freed when no
//!   version does.
//! - A snapshot can be exported, relative to the last one exported.

use vstd::prelude::*;

use crate::bytes;
use crate::bytes::IntoBytes;
use crate::order;
use crate::snapshot_laws;
use crate::sorted_map;
use crate::sorted_map::{precedence, Key, Precedence, SortedMap};
use crate::text;
use crate::types;
use crate::types::{Error, ErrorView, ExtentId};

verus! {

/// A generation: grows throughout a namespace.
#[derive(Debug, Clone, Copy, PartialEq, Eq, Hash, PartialOrd, Ord, Structural)]
pub struct Generation(pub u64);

/// A snapshot.
#[derive(Debug, Clone, Copy, PartialEq, Eq, Hash, PartialOrd, Ord, Structural)]
pub struct SnapshotId(pub u32);

/// A writable head: number 0 is the live one, the others are clones.
#[derive(Debug, Clone, Copy, PartialEq, Eq, Hash, PartialOrd, Ord, Structural)]
pub struct HeadId(pub u32);

impl View for SnapshotId {
    type V = SnapshotId;

    open spec fn view(&self) -> SnapshotId {
        *self
    }
}

impl Key for SnapshotId {
    open spec fn less(a: SnapshotId, b: SnapshotId) -> bool {
        a.0 < b.0
    }

    proof fn lemma_order() {
    }

    fn precedes(&self, other: &SnapshotId) -> (p: Precedence) {
        precedence(self.0 as u64, other.0 as u64)
    }
}

impl View for HeadId {
    type V = HeadId;

    open spec fn view(&self) -> HeadId {
        *self
    }
}

impl Key for HeadId {
    open spec fn less(a: HeadId, b: HeadId) -> bool {
        a.0 < b.0
    }

    proof fn lemma_order() {
    }

    fn precedes(&self, other: &HeadId) -> (p: Precedence) {
        precedence(self.0 as u64, other.0 as u64)
    }
}

/// One version of a key: its generation, the head that wrote it, and where the
/// data is (nowhere, if the key was deleted).
#[derive(Debug, Clone, Copy, PartialEq, Eq, Structural)]
pub struct Version {
    pub gen: Generation,
    pub head: HeadId,
    pub extent: Option<ExtentId>,
}

/// A writable head: the generation that it writes, and the head and generation
/// that it branched off.
#[derive(Debug, Clone, Copy)]
pub struct Head {
    pub gen: Generation,
    pub parent: Option<(HeadId, Generation)>,
}

/// A snapshot: a head as it was at a generation.
#[derive(Debug, Clone)]
pub struct Snapshot {
    pub id: SnapshotId,
    pub head: HeadId,
    pub gen: Generation,
    pub name: String,
    /// Whether it was exported, and can serve as a baseline.
    pub exported: bool,
}

/// A snapshot as a value.
pub struct SnapshotView {
    pub id: SnapshotId,
    pub head: HeadId,
    pub gen: Generation,
    pub name: Seq<char>,
    pub exported: bool,
}

impl View for Snapshot {
    type V = SnapshotView;

    open spec fn view(&self) -> SnapshotView {
        SnapshotView {
            id: self.id,
            head: self.head,
            gen: self.gen,
            name: self.name@,
            exported: self.exported,
        }
    }
}

/// What is written to an object store for a snapshot.
#[derive(Debug)]
pub struct ExportManifest {
    pub snapshot: SnapshotId,
    /// The generation that this is relative to, if any.
    pub incremental_from: Option<Generation>,
    /// The keys and where their data is.
    pub entries: Vec<(Vec<u8>, ExtentId)>,
}

/// A manifest as a value.
pub struct ManifestView {
    pub snapshot: SnapshotId,
    pub incremental_from: Option<Generation>,
    pub entries: Seq<(Seq<u8>, ExtentId)>,
}

impl View for ExportManifest {
    type V = ManifestView;

    open spec fn view(&self) -> ManifestView {
        ManifestView {
            snapshot: self.snapshot,
            incremental_from: self.incremental_from,
            entries: self.entries@.map_values(|e: (Vec<u8>, ExtentId)| (e.0@, e.1)),
        }
    }
}

/// A versioned key space.
pub struct NamespaceView {
    /// The versions of each key, the newest last.
    pub versions: Map<Seq<u8>, Seq<Version>>,
    pub heads: Map<HeadId, Head>,
    pub snapshots: Map<SnapshotId, SnapshotView>,
    /// How many versions refer to each extent.
    pub refcounts: Map<ExtentId, u32>,
    pub next_snapshot: u32,
    pub next_head: u32,
    pub next_gen: u64,
}

/// The earlier of two generations.
pub open spec fn earlier(a: Generation, b: Generation) -> Generation {
    if b.0 < a.0 { b } else { a }
}

pub open spec fn no_head(id: HeadId) -> ErrorView {
    ErrorView::Invalid("no head "@ + text::decimal(id.0 as nat))
}

pub open spec fn no_snapshot(id: SnapshotId) -> ErrorView {
    ErrorView::Invalid("no snapshot "@ + text::decimal(id.0 as nat))
}

/// The counts once one reference to each extent listed has been given up, and
/// the extents that this leaves without any, in order.
pub open spec fn released(refs: Map<ExtentId, u32>, list: Seq<ExtentId>) -> (Map<ExtentId, u32>, Seq<ExtentId>)
    decreases list.len(),
{
    if list.len() == 0 {
        (refs, Seq::empty())
    } else {
        let (left, freed) = released(refs, list.drop_last());
        let e = list.last();
        if !left.contains_key(e) {
            (left, freed)
        } else if left[e] <= 1 {
            (left.remove(e), freed.push(e))
        } else {
            (left.insert(e, (left[e] - 1) as u32), freed)
        }
    }
}

impl NamespaceView {
    pub open spec fn empty() -> NamespaceView {
        NamespaceView {
            versions: Map::empty(),
            heads: Map::empty().insert(HeadId(0), Head { gen: Generation(1), parent: None }),
            snapshots: Map::empty(),
            refcounts: Map::empty(),
            next_snapshot: 0,
            next_head: 1,
            next_gen: 2,
        }
    }

    /// Whether a version can be seen from head `view` at generation `at`: its own
    /// versions up to then, and those of the head it branched off, up to the
    /// branching point.
    pub open spec fn visible(self, v: Version, view: HeadId, at: Generation) -> bool
        decreases view.0,
    {
        ||| v.head == view && v.gen.0 <= at.0
        ||| {
            &&& self.heads.contains_key(view)
            &&& self.heads[view].parent matches Some((parent, fork))
            &&& parent.0 < view.0
            &&& self.visible(v, parent, earlier(at, fork))
        }
    }

    /// The newest version in a chain that can be seen.
    pub open spec fn seen(self, chain: Seq<Version>, view: HeadId, at: Generation) -> Option<Version>
        decreases chain.len(),
    {
        if chain.len() == 0 {
            None
        } else if self.visible(chain.last(), view, at) {
            Some(chain.last())
        } else {
            self.seen(chain.drop_last(), view, at)
        }
    }

    /// The versions of a key.
    pub open spec fn chain(self, key: Seq<u8>) -> Seq<Version> {
        if self.versions.contains_key(key) {
            self.versions[key]
        } else {
            Seq::empty()
        }
    }

    /// Where the data of a key is, as seen from head `view` at generation `at`.
    pub open spec fn resolve(self, key: Seq<u8>, view: HeadId, at: Generation) -> Option<ExtentId> {
        match self.seen(self.chain(key), view, at) {
            Some(v) => v.extent,
            None => None,
        }
    }

    /// How many versions refer to an extent.
    pub open spec fn refcount(self, e: ExtentId) -> u32 {
        if self.refcounts.contains_key(e) {
            self.refcounts[e]
        } else {
            0
        }
    }

    /// The state after a head has written a version of a key.
    pub open spec fn write(self, head: HeadId, key: Seq<u8>, extent: Option<ExtentId>) -> (
        NamespaceView,
        Result<(), ErrorView>,
    ) {
        if !self.heads.contains_key(head) {
            (self, Err(no_head(head)))
        } else {
            let v = Version { gen: self.heads[head].gen, head, extent };
            (
                NamespaceView {
                    versions: self.versions.insert(key, self.chain(key).push(v)),
                    refcounts: match extent {
                        Some(e) => self.refcounts.insert(e, (self.refcount(e) + 1) as u32),
                        None => self.refcounts,
                    },
                    ..self
                },
                Ok(()),
            )
        }
    }

    pub open spec fn get(self, head: HeadId, key: Seq<u8>) -> Result<Option<ExtentId>, ErrorView> {
        if !self.heads.contains_key(head) {
            Err(no_head(head))
        } else {
            Ok(self.resolve(key, head, self.heads[head].gen))
        }
    }

    pub open spec fn get_at(self, snap: SnapshotId, key: Seq<u8>) -> Result<Option<ExtentId>, ErrorView> {
        if !self.snapshots.contains_key(snap) {
            Err(no_snapshot(snap))
        } else {
            Ok(self.resolve(key, self.snapshots[snap].head, self.snapshots[snap].gen))
        }
    }

    pub open spec fn create_snapshot(self, head: HeadId, name: Seq<char>) -> (
        NamespaceView,
        Result<SnapshotId, ErrorView>,
    ) {
        if !self.heads.contains_key(head) {
            (self, Err(no_head(head)))
        } else {
            let id = SnapshotId(self.next_snapshot);
            (
                NamespaceView {
                    snapshots: self.snapshots.insert(
                        id,
                        SnapshotView { id, head, gen: self.heads[head].gen, name, exported: false },
                    ),
                    heads: self.heads.insert(
                        head,
                        Head { gen: Generation(self.next_gen), parent: self.heads[head].parent },
                    ),
                    next_snapshot: (self.next_snapshot + 1) as u32,
                    next_gen: (self.next_gen + 1) as u64,
                    ..self
                },
                Ok(id),
            )
        }
    }

    pub open spec fn clone_from(self, snap: SnapshotId) -> (NamespaceView, Result<HeadId, ErrorView>) {
        if !self.snapshots.contains_key(snap) {
            (self, Err(no_snapshot(snap)))
        } else {
            let s = self.snapshots[snap];
            let id = HeadId(self.next_head);
            (
                NamespaceView {
                    heads: self.heads.insert(
                        id,
                        Head { gen: Generation(self.next_gen), parent: Some((s.head, s.gen)) },
                    ),
                    next_head: (self.next_head + 1) as u32,
                    next_gen: (self.next_gen + 1) as u64,
                    ..self
                },
                Ok(id),
            )
        }
    }

    /// What can be looked at: the heads as they are now, and the snapshots.
    pub open spec fn views(self) -> Set<(HeadId, Generation)> {
        Set::new(
            |w: (HeadId, Generation)|
                {
                    ||| self.heads.contains_key(w.0) && self.heads[w.0].gen == w.1
                    ||| exists|s: SnapshotId| #[trigger]
                        self.snapshots.contains_key(s) && self.snapshots[s].head == w.0
                            && self.snapshots[s].gen == w.1
                },
        )
    }

    /// Whether version `i` of a chain is the one that a look at the key finds.
    pub open spec fn found(self, chain: Seq<Version>, i: int, view: HeadId, at: Generation) -> bool {
        &&& self.visible(chain[i], view, at)
        &&& forall|j: int| i < j < chain.len() ==> !self.visible(#[trigger] chain[j], view, at)
    }

    /// Whether some view finds version `i` of a chain.
    pub open spec fn needed(self, chain: Seq<Version>, i: int) -> bool {
        exists|w: (HeadId, Generation)| #[trigger] self.views().contains(w) && self.found(chain, i, w.0, w.1)
    }

    /// Those of the first `n` versions of a chain that some view finds.
    pub open spec fn kept(self, chain: Seq<Version>, n: nat) -> Seq<Version>
        decreases n,
    {
        if n == 0 {
            Seq::empty()
        } else if self.needed(chain, n - 1) {
            self.kept(chain, (n - 1) as nat).push(chain[n - 1])
        } else {
            self.kept(chain, (n - 1) as nat)
        }
    }

    /// The extents of the others.
    pub open spec fn dropped(self, chain: Seq<Version>, n: nat) -> Seq<ExtentId>
        decreases n,
    {
        if n == 0 {
            Seq::empty()
        } else {
            let rest = self.dropped(chain, (n - 1) as nat);
            match chain[n - 1].extent {
                Some(e) if !self.needed(chain, n - 1) => rest.push(e),
                _ => rest,
            }
        }
    }

    /// The extents of the versions that no view finds, of the first `n` keys
    /// listed.
    pub open spec fn dropped_from(self, keys: Seq<Seq<u8>>, n: nat) -> Seq<ExtentId>
        decreases n,
    {
        if n == 0 {
            Seq::empty()
        } else {
            let chain = self.versions[keys[n - 1]];
            self.dropped_from(keys, (n - 1) as nat) + self.dropped(chain, chain.len())
        }
    }

    /// What is left of a key's versions.
    pub open spec fn remaining(self, key: Seq<u8>) -> Seq<Version> {
        self.kept(self.versions[key], self.versions[key].len())
    }

    /// The state without the versions that no view finds, and the extents that
    /// this frees.
    pub open spec fn collect(self) -> (NamespaceView, Seq<ExtentId>) {
        let keys = sorted_map::in_order::<Vec<u8>>(self.versions.dom());
        let (refcounts, freed) = released(self.refcounts, self.dropped_from(keys, keys.len()));
        (
            NamespaceView {
                versions: Map::new(
                    |k: Seq<u8>| self.versions.contains_key(k) && self.remaining(k).len() > 0,
                    |k: Seq<u8>| self.remaining(k),
                ),
                refcounts,
                ..self
            },
            freed,
        )
    }

    pub open spec fn delete_snapshot(self, snap: SnapshotId) -> (NamespaceView, Result<Seq<ExtentId>, ErrorView>) {
        if !self.snapshots.contains_key(snap) {
            (self, Err(no_snapshot(snap)))
        } else {
            let (s, freed) = (NamespaceView { snapshots: self.snapshots.remove(snap), ..self }).collect();
            (s, Ok(freed))
        }
    }

    /// Whether snapshot `b` can be a baseline for the export of snapshot `s`: an
    /// earlier one of the same head that was exported.
    pub open spec fn can_be_baseline(self, b: SnapshotId, s: SnapshotId) -> bool {
        &&& self.snapshots.contains_key(b)
        &&& self.snapshots[b].head == self.snapshots[s].head
        &&& self.snapshots[b].gen.0 < self.snapshots[s].gen.0
        &&& self.snapshots[b].exported
    }

    /// Whether `g` is the generation that an export of `s` is relative to: the
    /// latest there is.
    pub open spec fn is_baseline(self, s: SnapshotId, g: Option<Generation>) -> bool {
        match g {
            None => forall|b: SnapshotId| !#[trigger] self.can_be_baseline(b, s),
            Some(g) => {
                &&& exists|b: SnapshotId| #[trigger] self.can_be_baseline(b, s) && self.snapshots[b].gen == g
                &&& forall|b: SnapshotId| #[trigger]
                    self.can_be_baseline(b, s) ==> self.snapshots[b].gen.0 <= g.0
            },
        }
    }

    /// The generation that an export of `s` is relative to.
    pub open spec fn baseline(self, s: SnapshotId) -> Option<Generation> {
        choose|g: Option<Generation>| self.is_baseline(s, g)
    }

    /// What an export of `s` has to say of a key: where its data is, unless the
    /// baseline has it in the same place.
    pub open spec fn exported(self, s: SnapshotId, key: Seq<u8>) -> Option<ExtentId> {
        let snap = self.snapshots[s];
        match self.resolve(key, snap.head, snap.gen) {
            None => None,
            Some(e) => match self.baseline(s) {
                Some(g) if self.resolve(key, snap.head, g) == Some(e) => None,
                _ => Some(e),
            },
        }
    }

    /// The entries of an export for the first `n` keys listed.
    pub open spec fn entries(self, s: SnapshotId, keys: Seq<Seq<u8>>, n: nat) -> Seq<(Seq<u8>, ExtentId)>
        decreases n,
    {
        if n == 0 {
            Seq::empty()
        } else {
            let rest = self.entries(s, keys, (n - 1) as nat);
            match self.exported(s, keys[n - 1]) {
                Some(e) => rest.push((keys[n - 1], e)),
                None => rest,
            }
        }
    }

    pub open spec fn export_manifest(self, s: SnapshotId) -> (NamespaceView, Result<ManifestView, ErrorView>) {
        if !self.snapshots.contains_key(s) {
            (self, Err(no_snapshot(s)))
        } else {
            let keys = sorted_map::in_order::<Vec<u8>>(self.versions.dom());
            (
                NamespaceView {
                    snapshots: self.snapshots.insert(
                        s,
                        SnapshotView { exported: true, ..self.snapshots[s] },
                    ),
                    ..self
                },
                Ok(
                    ManifestView {
                        snapshot: s,
                        incremental_from: self.baseline(s),
                        entries: self.entries(s, keys, keys.len()),
                    },
                ),
            )
        }
    }

    /// Heads branch off lower-numbered heads; no count is zero.
    pub open spec fn sound(self) -> bool {
        &&& forall|h: HeadId|
            (#[trigger] self.heads.contains_key(h)) ==> h.0 < self.next_head && (match self.heads[h].parent {
                Some((p, f)) => p.0 < h.0,
                None => true,
            })
        &&& forall|s: SnapshotId| #[trigger]
            self.snapshots.contains_key(s) ==> self.snapshots[s].head.0 < self.next_head
        &&& forall|e: ExtentId| #[trigger] self.refcounts.contains_key(e) ==> self.refcounts[e] > 0
    }
}

/// A versioned key space: a directory tree, a bucket or a volume.
#[derive(Debug)]
pub struct VersionedNamespace {
    versions: SortedMap<Vec<u8>, Vec<Version>>,
    heads: SortedMap<HeadId, Head>,
    snapshots: SortedMap<SnapshotId, Snapshot>,
    refcounts: SortedMap<ExtentId, u32>,
    next_snapshot: u32,
    next_head: u32,
    next_gen: u64,
}

impl View for VersionedNamespace {
    type V = NamespaceView;

    closed spec fn view(&self) -> NamespaceView {
        NamespaceView {
            versions: self.versions@.map_values(|c: Vec<Version>| c@),
            heads: self.heads@,
            snapshots: self.snapshots@.map_values(|s: Snapshot| s@),
            refcounts: self.refcounts@,
            next_snapshot: self.next_snapshot,
            next_head: self.next_head,
            next_gen: self.next_gen,
        }
    }
}

impl VersionedNamespace {
    /// The maps are well-formed.
    pub closed spec fn parts_wf(&self) -> bool {
        &&& self.versions.wf()
        &&& self.heads.wf()
        &&& self.snapshots.wf()
        &&& self.refcounts.wf()
        &&& self@.sound()
    }

    pub open spec fn wf(&self) -> bool {
        self.parts_wf() && self@.consistent()
    }

    pub fn new() -> (r: Self)
        ensures
            r.wf(),
            r@ == NamespaceView::empty(),
    {
        let mut heads: SortedMap<HeadId, Head> = SortedMap::new();
        heads.insert(HeadId(0), Head { gen: Generation(1), parent: None });
        let r = VersionedNamespace {
            versions: SortedMap::new(),
            heads,
            snapshots: SortedMap::new(),
            refcounts: SortedMap::new(),
            next_snapshot: 0,
            next_head: 1,
            next_gen: 2,
        };
        assert(r@.versions =~= Map::empty());
        assert(r@.snapshots =~= Map::empty());
        assert(r@ == NamespaceView::empty());
        proof {
            snapshot_laws::law_empty_is_consistent();
        }
        r
    }

    pub fn live_head(&self) -> (h: HeadId)
        ensures
            h == HeadId(0),
    {
        HeadId(0)
    }

    /// Whether a version can be seen from head `view` at generation `at`.
    fn visible(&self, v: &Version, view: HeadId, at: Generation) -> (r: bool)
        requires
            self.parts_wf(),
        ensures
            r == self@.visible(*v, view, at),
    {
        let mut cur: HeadId = view;
        let mut ceiling: Generation = at;
        loop
            invariant
                self.parts_wf(),
                self@.visible(*v, view, at) == self@.visible(*v, cur, ceiling),
            decreases cur.0,
        {
            if v.head.0 == cur.0 && v.gen.0 <= ceiling.0 {
                assert(v.head == cur);
                return true;
            }
            match self.heads.get(&cur) {
                Some(h) => match h.parent {
                    Some((parent, fork)) => {
                        assert(self@.heads.contains_key(cur));
                        if fork.0 < ceiling.0 {
                            ceiling = fork;
                        }
                        cur = parent;
                    },
                    None => {
                        return false;
                    },
                },
                None => {
                    return false;
                },
            }
        }
    }

    /// The newest version in a chain that can be seen.
    fn seen(&self, chain: &Vec<Version>, view: HeadId, at: Generation) -> (r: Option<Version>)
        requires
            self.parts_wf(),
        ensures
            r == self@.seen(chain@, view, at),
    {
        let mut i: usize = chain.len();
        assert(chain@.take(i as int) =~= chain@);
        while i > 0
            invariant
                self.parts_wf(),
                i <= chain@.len(),
                self@.seen(chain@, view, at) == self@.seen(chain@.take(i as int), view, at),
            decreases i,
        {
            i -= 1;
            assert(chain@.take(i + 1).drop_last() =~= chain@.take(i as int));
            if self.visible(&chain[i], view, at) {
                return Some(chain[i]);
            }
        }
        None
    }

    /// Where the data of a key is, as seen from head `view` at generation `at`.
    fn resolve(&self, key: &[u8], view: HeadId, at: Generation) -> (r: Option<ExtentId>)
        requires
            self.parts_wf(),
        ensures
            r == self@.resolve(key@, view, at),
    {
        let key = bytes::copy_bytes(key);
        match self.versions.get(&key) {
            Some(chain) => match self.seen(chain, view, at) {
                Some(v) => v.extent,
                None => None,
            },
            None => None,
        }
    }

    /// Appends a version to a key's chain.
    fn append(&mut self, key: Vec<u8>, v: Version)
        requires
            old(self).parts_wf(),
        ensures
            final(self).parts_wf(),
            final(self)@ == (NamespaceView {
                versions: old(self)@.versions.insert(key@, old(self)@.chain(key@).push(v)),
                ..old(self)@
            }),
    {
        let ghost before = self@;
        let ghost k = key@;
        let known = self.versions.contains_key(&key);
        if known {
            match self.versions.get_mut(&key) {
                Some(chain) => {
                    chain.push(v);
                },
                None => {},
            }
        } else {
            let mut chain: Vec<Version> = Vec::new();
            chain.push(v);
            self.versions.insert(key, chain);
        }
        assert(self@.versions =~= before.versions.insert(k, before.chain(k).push(v)));
    }

    /// Writes a key: appends a version of the head's current generation, and
    /// never changes one that is there.
    pub fn put<B: IntoBytes>(&mut self, head: HeadId, key: B, extent: ExtentId) -> (r: Result<(), Error>)
        requires
            old(self).wf(),
            old(self)@.heads.contains_key(head) ==> old(self)@.refcount(extent) < u32::MAX,
        ensures
            final(self).wf(),
            (final(self)@, types::outcome(r)) == old(self)@.write(head, key.bytes(), Some(extent)),
    {
        let gen: Generation = match self.heads.get(&head) {
            Some(h) => h.gen,
            None => {
                return Err(Error::Invalid(text::numbered("no head ", head.0 as u64)));
            },
        };
        let ghost before = self@;
        proof {
            snapshot_laws::law_write_consistent(before, head, key.bytes(), Some(extent));
        }
        self.append(key.into_bytes(), Version { gen, head, extent: Some(extent) });
        let count: u32 = match self.refcounts.get(&extent) {
            Some(n) => *n,
            None => 0,
        };
        self.refcounts.insert(extent, count + 1);
        assert(self@.refcounts =~= before.refcounts.insert(extent, (before.refcount(extent) + 1) as u32));
        assert(self@.sound());
        Ok(())
    }

    /// Deletes a key: appends a version without data. Snapshots of earlier
    /// generations still see what was there.
    pub fn delete<B: IntoBytes>(&mut self, head: HeadId, key: B) -> (r: Result<(), Error>)
        requires
            old(self).wf(),
        ensures
            final(self).wf(),
            (final(self)@, types::outcome(r)) == old(self)@.write(head, key.bytes(), None),
    {
        let gen: Generation = match self.heads.get(&head) {
            Some(h) => h.gen,
            None => {
                return Err(Error::Invalid(text::numbered("no head ", head.0 as u64)));
            },
        };
        proof {
            snapshot_laws::law_write_consistent(self@, head, key.bytes(), None);
        }
        self.append(key.into_bytes(), Version { gen, head, extent: None });
        Ok(())
    }

    /// Reads a key through a head.
    pub fn get(&self, head: HeadId, key: &[u8]) -> (r: Result<Option<ExtentId>, Error>)
        requires
            self.wf(),
        ensures
            types::outcome(r) == self@.get(head, key@),
    {
        match self.heads.get(&head) {
            Some(h) => Ok(self.resolve(key, head, h.gen)),
            None => Err(Error::Invalid(text::numbered("no head ", head.0 as u64))),
        }
    }

    /// Takes a snapshot: freezes the head's current generation and moves the
    /// head on to a new one. One step, whatever the amount of data.
    pub fn create_snapshot(&mut self, head: HeadId, name: &str) -> (r: Result<SnapshotId, Error>)
        requires
            old(self).wf(),
            old(self)@.heads.contains_key(head) ==> {
                &&& old(self)@.next_snapshot < u32::MAX
                &&& old(self)@.next_gen < u64::MAX
            },
        ensures
            final(self).wf(),
            (final(self)@, types::outcome(r)) == old(self)@.create_snapshot(head, name@),
    {
        let frozen: Head = match self.heads.get(&head) {
            Some(h) => *h,
            None => {
                return Err(Error::Invalid(text::numbered("no head ", head.0 as u64)));
            },
        };
        let ghost before = self@;
        proof {
            snapshot_laws::law_create_snapshot_consistent(before, head, name@);
        }
        let id = SnapshotId(self.next_snapshot);
        self.next_snapshot = self.next_snapshot + 1;
        let snapshot = Snapshot { id, head, gen: frozen.gen, name: text::copy(name), exported: false };
        let ghost taken = snapshot@;
        self.snapshots.insert(id, snapshot);
        assert(self@.snapshots =~= before.snapshots.insert(id, taken));
        let next = Generation(self.next_gen);
        self.next_gen = self.next_gen + 1;
        self.heads.insert(head, Head { gen: next, parent: frozen.parent });
        assert(self@.sound());
        Ok(id)
    }

    /// Reads a key through a snapshot.
    pub fn get_at(&self, snap: SnapshotId, key: &[u8]) -> (r: Result<Option<ExtentId>, Error>)
        requires
            self.wf(),
        ensures
            types::outcome(r) == self@.get_at(snap, key@),
    {
        match self.snapshots.get(&snap) {
            Some(s) => Ok(self.resolve(key, s.head, s.gen)),
            None => Err(Error::Invalid(text::numbered("no snapshot ", snap.0 as u64))),
        }
    }

    /// Branches a writable clone off a snapshot. It shares every version from
    /// before; after that, each writes its own.
    pub fn clone_from(&mut self, snap: SnapshotId) -> (r: Result<HeadId, Error>)
        requires
            old(self).wf(),
            old(self)@.snapshots.contains_key(snap) ==> {
                &&& old(self)@.next_head < u32::MAX
                &&& old(self)@.next_gen < u64::MAX
            },
        ensures
            final(self).wf(),
            (final(self)@, types::outcome(r)) == old(self)@.clone_from(snap),
    {
        let (source, fork): (HeadId, Generation) = match self.snapshots.get(&snap) {
            Some(s) => (s.head, s.gen),
            None => {
                return Err(Error::Invalid(text::numbered("no snapshot ", snap.0 as u64)));
            },
        };
        assert(self@.snapshots.contains_key(snap));
        proof {
            snapshot_laws::law_clone_consistent(self@, snap);
        }
        let id = HeadId(self.next_head);
        self.next_head = self.next_head + 1;
        let gen = Generation(self.next_gen);
        self.next_gen = self.next_gen + 1;
        self.heads.insert(id, Head { gen, parent: Some((source, fork)) });
        assert(self@.sound());
        Ok(id)
    }
}

impl VersionedNamespace {
    /// What can be looked at: the heads as they are now, and the snapshots.
    fn views(&self) -> (r: Vec<(HeadId, Generation)>)
        requires
            self.parts_wf(),
        ensures
            forall|w: (HeadId, Generation)| #[trigger] r@.contains(w) <==> self@.views().contains(w),
    {
        let mut r: Vec<(HeadId, Generation)> = Vec::new();
        let mut i: usize = 0;
        let ghost hs = self.heads.keys();
        proof {
            self.heads.lemma_entries();
        }
        while i < self.heads.len()
            invariant
                self.parts_wf(),
                hs == self.heads.keys(),
                i <= hs.len(),
                r@.len() == i,
                forall|k: int| 0 <= k < i ==> #[trigger] r@[k] == (hs[k], self.heads@[hs[k]].gen),
            decreases hs.len() - i,
        {
            proof {
                self.heads.lemma_entries();
            }
            let id: HeadId = *self.heads.key_at(i);
            let h: Head = *self.heads.value_at(i);
            assert(self.heads@[hs[i as int]] == h);
            r.push((id, h.gen));
            i += 1;
        }
        let mut j: usize = 0;
        let ghost ss = self.snapshots.keys();
        proof {
            self.snapshots.lemma_entries();
        }
        while j < self.snapshots.len()
            invariant
                self.parts_wf(),
                hs == self.heads.keys(),
                ss == self.snapshots.keys(),
                j <= ss.len(),
                r@.len() == hs.len() + j,
                forall|k: int| 0 <= k < hs.len() ==> #[trigger] r@[k] == (hs[k], self.heads@[hs[k]].gen),
                forall|k: int|
                    hs.len() <= k < r@.len() ==> #[trigger] r@[k] == (
                        self.snapshots@[ss[k - hs.len()]].head,
                        self.snapshots@[ss[k - hs.len()]].gen,
                    ),
            decreases ss.len() - j,
        {
            proof {
                self.snapshots.lemma_entries();
            }
            let s: &Snapshot = self.snapshots.value_at(j);
            assert(self.snapshots@[ss[j as int]] == s);
            r.push((s.head, s.gen));
            j += 1;
        }
        proof {
            self.heads.lemma_entries();
            self.snapshots.lemma_entries();
            assert forall|w: (HeadId, Generation)| #[trigger] r@.contains(w) <==> self@.views().contains(w) by {
                if r@.contains(w) {
                    let k = choose|k: int| 0 <= k < r@.len() && r@[k] == w;
                    if k < hs.len() {
                        assert(self.heads@.contains_key(hs[k]));
                    } else {
                        let s = ss[k - hs.len()];
                        assert(self.snapshots@.contains_key(s));
                        assert(self@.snapshots.contains_key(s));
                    }
                }
                if self@.views().contains(w) {
                    if self@.heads.contains_key(w.0) && self@.heads[w.0].gen == w.1 {
                        let k = choose|k: int| 0 <= k < hs.len() && hs[k] == w.0;
                        assert(r@[k] == w);
                    } else {
                        let s = choose|s: SnapshotId| #[trigger]
                            self@.snapshots.contains_key(s) && self@.snapshots[s].head == w.0
                                && self@.snapshots[s].gen == w.1;
                        assert(self.snapshots@.contains_key(s));
                        let k = choose|k: int| 0 <= k < ss.len() && ss[k] == s;
                        assert(r@[k + hs.len()] == w);
                    }
                }
            }
        }
        r
    }

    /// Whether a look at the key finds version `i` of its chain.
    fn found(&self, chain: &Vec<Version>, i: usize, view: HeadId, at: Generation) -> (r: bool)
        requires
            self.parts_wf(),
            i < chain@.len(),
        ensures
            r == self@.found(chain@, i as int, view, at),
    {
        if !self.visible(&chain[i], view, at) {
            return false;
        }
        let count: usize = chain.len();
        let mut j: usize = i + 1;
        while j < count
            invariant
                self.parts_wf(),
                count == chain@.len(),
                i < j <= count,
                forall|k: int| i < k < j ==> !self@.visible(#[trigger] chain@[k], view, at),
            decreases count - j,
        {
            if self.visible(&chain[j], view, at) {
                assert(self@.visible(chain@[j as int], view, at));
                return false;
            }
            j += 1;
        }
        true
    }

    /// Whether some view finds version `i` of a chain.
    fn needed(&self, chain: &Vec<Version>, i: usize, views: &Vec<(HeadId, Generation)>) -> (r: bool)
        requires
            self.parts_wf(),
            i < chain@.len(),
            forall|w: (HeadId, Generation)| #[trigger] views@.contains(w) <==> self@.views().contains(w),
        ensures
            r == self@.needed(chain@, i as int),
    {
        let mut k: usize = 0;
        while k < views.len()
            invariant
                self.parts_wf(),
                i < chain@.len(),
                k <= views@.len(),
                forall|w: (HeadId, Generation)| #[trigger] views@.contains(w) <==> self@.views().contains(w),
                forall|q: int|
                    0 <= q < k ==> !self@.found(chain@, i as int, (#[trigger] views@[q]).0, views@[q].1),
            decreases views.len() - k,
        {
            let (view, at): (HeadId, Generation) = views[k];
            if self.found(chain, i, view, at) {
                proof {
                    assert(views@.contains(views@[k as int]));
                    assert(self@.views().contains((view, at)));
                }
                return true;
            }
            k += 1;
        }
        proof {
            if self@.needed(chain@, i as int) {
                let w = choose|w: (HeadId, Generation)| #[trigger]
                    self@.views().contains(w) && self@.found(chain@, i as int, w.0, w.1);
                assert(views@.contains(w));
                let q = choose|q: int| 0 <= q < views@.len() && views@[q] == w;
                assert(!self@.found(chain@, i as int, views@[q].0, views@[q].1));
            }
        }
        false
    }

    /// What is left of a chain, and the extents of what is not.
    fn sift(&self, chain: &Vec<Version>, views: &Vec<(HeadId, Generation)>, dropped: &mut Vec<ExtentId>) -> (kept:
        Vec<Version>)
        requires
            self.parts_wf(),
            forall|w: (HeadId, Generation)| #[trigger] views@.contains(w) <==> self@.views().contains(w),
        ensures
            kept@ == self@.kept(chain@, chain@.len()),
            final(dropped)@ == old(dropped)@ + self@.dropped(chain@, chain@.len()),
    {
        let mut kept: Vec<Version> = Vec::new();
        let mut i: usize = 0;
        let ghost before = dropped@;
        assert(before + Seq::<ExtentId>::empty() =~= before);
        while i < chain.len()
            invariant
                self.parts_wf(),
                i <= chain@.len(),
                forall|w: (HeadId, Generation)| #[trigger] views@.contains(w) <==> self@.views().contains(w),
                kept@ == self@.kept(chain@, i as nat),
                dropped@ == before + self@.dropped(chain@, i as nat),
            decreases chain.len() - i,
        {
            let v: Version = chain[i];
            if self.needed(chain, i, views) {
                kept.push(v);
            } else {
                match v.extent {
                    Some(e) => {
                        dropped.push(e);
                        assert(dropped@ =~= before + self@.dropped(chain@, i as nat).push(e));
                    },
                    None => {},
                }
            }
            i += 1;
        }
        kept
    }

    /// Gives up one reference to each extent listed. Returns those that nothing
    /// refers to any more.
    fn release_all(&mut self, list: &Vec<ExtentId>) -> (freed: Vec<ExtentId>)
        requires
            old(self).parts_wf(),
        ensures
            final(self).parts_wf(),
            final(self)@ == (NamespaceView {
                refcounts: released(old(self)@.refcounts, list@).0,
                ..old(self)@
            }),
            freed@ == released(old(self)@.refcounts, list@).1,
    {
        let mut freed: Vec<ExtentId> = Vec::new();
        let mut i: usize = 0;
        let ghost start = self@;
        while i < list.len()
            invariant
                self.parts_wf(),
                i <= list@.len(),
                self@ == (NamespaceView {
                    refcounts: released(start.refcounts, list@.take(i as int)).0,
                    ..start
                }),
                freed@ == released(start.refcounts, list@.take(i as int)).1,
            decreases list.len() - i,
        {
            let e: ExtentId = list[i];
            proof {
                assert(list@.take(i + 1).drop_last() =~= list@.take(i as int));
            }
            let ghost before = self@;
            match self.refcounts.get(&e) {
                Some(n) => {
                    let n: u32 = *n;
                    assert(self@.refcounts.contains_key(e));
                    if n <= 1 {
                        self.refcounts.remove(&e);
                        freed.push(e);
                        assert(self@.refcounts =~= before.refcounts.remove(e));
                    } else {
                        self.refcounts.insert(e, n - 1);
                        assert(self@.refcounts =~= before.refcounts.insert(e, (n - 1) as u32));
                    }
                },
                None => {},
            }
            proof {
                assert(before.sound());
                assert forall|x: ExtentId| #[trigger] self@.refcounts.contains_key(x) implies self@.refcounts[x] > 0 by {
                    assert(before.refcounts.contains_key(x));
                }
                assert(self@.heads == before.heads);
                assert(self@.snapshots == before.snapshots);
            }
            i += 1;
        }
        assert(list@.take(list@.len() as int) =~= list@);
        freed
    }

    /// Clears out the versions that no head and no snapshot can find, and frees
    /// the extents that only they referred to.
    fn collect_garbage(&mut self) -> (freed: Vec<ExtentId>)
        requires
            old(self).parts_wf(),
        ensures
            final(self).parts_wf(),
            (final(self)@, freed@) == old(self)@.collect(),
    {
        let views = self.views();
        let mut versions: SortedMap<Vec<u8>, Vec<Version>> = SortedMap::new();
        let mut dropped: Vec<ExtentId> = Vec::new();
        let ghost start = self@;
        let ghost ks = self.versions.keys();
        let mut i: usize = 0;
        proof {
            self.versions.lemma_entries();
            Vec::<u8>::lemma_order();
            order::lemma_ranking_len(ks, self.versions@.dom(), sorted_map::key_order::<Vec<u8>>());
            assert(self@.versions.dom() =~= self.versions@.dom());
        }
        while i < self.versions.len()
            invariant
                self.parts_wf(),
                self@ == start,
                self == old(self),
                versions.wf(),
                ks == self.versions.keys(),
                i <= ks.len(),
                ks == sorted_map::in_order::<Vec<u8>>(start.versions.dom()),
                ks.no_duplicates(),
                forall|w: (HeadId, Generation)| #[trigger] views@.contains(w) <==> start.views().contains(w),
                dropped@ == start.dropped_from(ks, i as nat),
                forall|k: Seq<u8>| #[trigger]
                    versions@.contains_key(k) <==> ks.take(i as int).contains(k) && start.remaining(k).len() > 0,
                forall|k: Seq<u8>| #[trigger]
                    versions@.contains_key(k) ==> versions@[k]@ == start.remaining(k),
            decreases ks.len() - i,
        {
            proof {
                self.versions.lemma_entries();
            }
            let ghost key = ks[i as int];
            let chain = self.versions.value_at(i);
            assert(self.versions@[key] == chain);
            assert(start.versions[key] == chain@);
            let kept = self.sift(chain, &views, &mut dropped);
            let ghost before = versions@;
            if kept.len() > 0 {
                let k = bytes::copy_bytes(self.versions.key_at(i).as_slice());
                versions.insert(k, kept);
            }
            proof {
                let past = ks.take(i as int);
                let next = ks.take(i + 1);
                assert(next =~= past.push(key));
                assert forall|k: Seq<u8>| next.contains(k) <==> past.contains(k) || k == key by {
                    if past.contains(k) {
                        let q = choose|q: int| 0 <= q < past.len() && past[q] == k;
                        assert(next[q] == k);
                    }
                    assert(next[i as int] == key);
                    if next.contains(k) && k != key {
                        let q = choose|q: int| 0 <= q < next.len() && next[q] == k;
                        assert(past[q] == k);
                    }
                }
                assert(!past.contains(key)) by {
                    if past.contains(key) {
                        let q = choose|q: int| 0 <= q < past.len() && past[q] == key;
                        assert(ks[q] == ks[i as int]);
                    }
                }
            }
            i += 1;
        }
        proof {
            assert(ks.take(ks.len() as int) =~= ks);
            self.versions.lemma_entries();
        }
        self.versions = versions;
        proof {
            assert forall|k: Seq<u8>| ks.contains(k) <==> start.versions.contains_key(k) by {
                assert(start.versions.contains_key(k) <==> old(self).versions@.contains_key(k));
                assert(old(self).versions@.dom().contains(k) <==> ks.contains(k));
            }
            assert(self@.versions =~= start.collect().0.versions);
        }
        self.release_all(&dropped)
    }

    /// Deletes a snapshot. Returns the extents that, with it gone, no view refers
    /// to any more.
    pub fn delete_snapshot(&mut self, snap: SnapshotId) -> (r: Result<Vec<ExtentId>, Error>)
        requires
            old(self).wf(),
        ensures
            final(self).wf(),
            final(self)@ == old(self)@.delete_snapshot(snap).0,
            match r {
                Ok(freed) => old(self)@.delete_snapshot(snap).1 == Ok::<_, ErrorView>(freed@),
                Err(e) => old(self)@.delete_snapshot(snap).1 == Err::<Seq<ExtentId>, _>(e@),
            },
    {
        let ghost before = self@;
        proof {
            snapshot_laws::law_delete_snapshot_consistent(before, snap);
        }
        match self.snapshots.remove(&snap) {
            Some(_) => {
                assert(self@.snapshots =~= before.snapshots.remove(snap));
                assert(self@.sound());
                Ok(self.collect_garbage())
            },
            None => {
                assert(self@.snapshots =~= before.snapshots);
                Err(Error::Invalid(text::numbered("no snapshot ", snap.0 as u64)))
            },
        }
    }

    /// The generation that an export of a snapshot is relative to: that of the
    /// latest earlier one of the same head that was exported.
    fn baseline(&self, snap: SnapshotId, head: HeadId, gen: Generation) -> (r: Option<Generation>)
        requires
            self.parts_wf(),
            self@.snapshots.contains_key(snap),
            self@.snapshots[snap].head == head,
            self@.snapshots[snap].gen == gen,
        ensures
            r == self@.baseline(snap),
    {
        let mut best: Option<Generation> = None;
        let mut i: usize = 0;
        let ghost ss = self.snapshots.keys();
        proof {
            self.snapshots.lemma_entries();
        }
        while i < self.snapshots.len()
            invariant
                self.parts_wf(),
                ss == self.snapshots.keys(),
                i <= ss.len(),
                self@.snapshots.contains_key(snap),
                self@.snapshots[snap].head == head,
                self@.snapshots[snap].gen == gen,
                match best {
                    None => forall|k: int| 0 <= k < i ==> !self@.can_be_baseline(#[trigger] ss[k], snap),
                    Some(g) => {
                        &&& exists|k: int|
                            0 <= k < i && self@.can_be_baseline(#[trigger] ss[k], snap)
                                && self@.snapshots[ss[k]].gen == g
                        &&& forall|k: int|
                            0 <= k < i && self@.can_be_baseline(#[trigger] ss[k], snap)
                                ==> self@.snapshots[ss[k]].gen.0 <= g.0
                    },
                },
            decreases ss.len() - i,
        {
            proof {
                self.snapshots.lemma_entries();
            }
            let b: &Snapshot = self.snapshots.value_at(i);
            assert(self.snapshots@[ss[i as int]] == b);
            assert(self@.snapshots[ss[i as int]] == b@);
            let fits = b.head.0 == head.0 && b.gen.0 < gen.0 && b.exported;
            assert(fits == self@.can_be_baseline(ss[i as int], snap));
            if fits {
                match best {
                    None => {
                        best = Some(b.gen);
                    },
                    Some(g) => {
                        if g.0 <= b.gen.0 {
                            best = Some(b.gen);
                        }
                    },
                }
            }
            i += 1;
        }
        proof {
            self.snapshots.lemma_entries();
            assert forall|b: SnapshotId| #[trigger] self@.can_be_baseline(b, snap) implies exists|k: int|
                0 <= k < ss.len() && #[trigger] ss[k] == b by {
                assert(self.snapshots@.contains_key(b));
            }
            assert(self@.is_baseline(snap, best)) by {
                match best {
                    None => {
                        assert forall|b: SnapshotId| !#[trigger] self@.can_be_baseline(b, snap) by {
                            if self@.can_be_baseline(b, snap) {
                                let k = choose|k: int| 0 <= k < ss.len() && #[trigger] ss[k] == b;
                                assert(!self@.can_be_baseline(ss[k], snap));
                            }
                        }
                    },
                    Some(g) => {
                        assert forall|b: SnapshotId| #[trigger] self@.can_be_baseline(b, snap) implies
                            self@.snapshots[b].gen.0 <= g.0 by {
                            let k = choose|k: int| 0 <= k < ss.len() && #[trigger] ss[k] == b;
                            assert(self@.can_be_baseline(ss[k], snap));
                        }
                    },
                }
            }
            self@.lemma_baseline_unique(snap, best, self@.baseline(snap));
        }
        best
    }

    /// Exports a snapshot: where the data of every key is that the snapshot sees,
    /// except what the baseline, if there is one, has in the same place.
    pub fn export_manifest(&mut self, snap: SnapshotId) -> (r: Result<ExportManifest, Error>)
        requires
            old(self).wf(),
        ensures
            final(self).wf(),
            final(self)@ == old(self)@.export_manifest(snap).0,
            match r {
                Ok(m) => old(self)@.export_manifest(snap).1 == Ok::<_, ErrorView>(m@),
                Err(e) => old(self)@.export_manifest(snap).1 == Err::<ManifestView, _>(e@),
            },
    {
        let (head, gen): (HeadId, Generation) = match self.snapshots.get(&snap) {
            Some(s) => (s.head, s.gen),
            None => {
                return Err(Error::Invalid(text::numbered("no snapshot ", snap.0 as u64)));
            },
        };
        assert(self@.snapshots.contains_key(snap));
        let baseline = self.baseline(snap, head, gen);
        let mut entries: Vec<(Vec<u8>, ExtentId)> = Vec::new();
        let ghost start = self@;
        let ghost ks = self.versions.keys();
        let ghost plain = |e: (Vec<u8>, ExtentId)| (e.0@, e.1);
        let mut i: usize = 0;
        proof {
            self.versions.lemma_entries();
            assert(self@.versions.dom() =~= self.versions@.dom());
            assert(entries@.map_values(plain) =~= Seq::empty());
        }
        while i < self.versions.len()
            invariant
                self.parts_wf(),
                self@ == start,
                self == old(self),
                ks == self.versions.keys(),
                i <= ks.len(),
                start.snapshots.contains_key(snap),
                start.snapshots[snap].head == head,
                start.snapshots[snap].gen == gen,
                baseline == start.baseline(snap),
                plain == (|e: (Vec<u8>, ExtentId)| (e.0@, e.1)),
                entries@.map_values(plain) == start.entries(snap, ks, i as nat),
            decreases ks.len() - i,
        {
            let key: &Vec<u8> = self.versions.key_at(i);
            let ghost before = entries@;
            match self.resolve(key.as_slice(), head, gen) {
                Some(e) => {
                    let same = match baseline {
                        Some(g) => match self.resolve(key.as_slice(), head, g) {
                            Some(b) => b.0 == e.0,
                            None => false,
                        },
                        None => false,
                    };
                    if !same {
                        entries.push((bytes::copy_bytes(key.as_slice()), e));
                        assert(entries@.map_values(plain) =~= before.map_values(plain).push((key@, e)));
                    }
                },
                None => {},
            }
            i += 1;
        }
        let ghost before = self@;
        match self.snapshots.get_mut(&snap) {
            Some(s) => {
                s.exported = true;
            },
            None => {},
        }
        proof {
            assert(self@.snapshots =~= before.snapshots.insert(
                snap,
                SnapshotView { exported: true, ..before.snapshots[snap] },
            ));
            assert(self@.sound());
            snapshot_laws::law_export_is_harmless(before, snap, Seq::empty());
        }
        Ok(ExportManifest { snapshot: snap, incremental_from: baseline, entries })
    }

    /// How many versions refer to an extent.
    pub fn refcount(&self, e: ExtentId) -> (n: u32)
        requires
            self.wf(),
        ensures
            n == self@.refcount(e),
    {
        match self.refcounts.get(&e) {
            Some(n) => *n,
            None => 0,
        }
    }

    pub fn snapshot_count(&self) -> (n: usize)
        requires
            self.wf(),
        ensures
            n == self@.snapshots.dom().len(),
    {
        assert(self@.snapshots.dom() =~= self.snapshots@.dom());
        self.snapshots.len()
    }

    /// How many versions of a key are kept.
    pub fn version_count(&self, key: &[u8]) -> (n: usize)
        requires
            self.wf(),
        ensures
            n == self@.chain(key@).len(),
    {
        match self.versions.get(&bytes::copy_bytes(key)) {
            Some(chain) => chain.len(),
            None => 0,
        }
    }
}

impl NamespaceView {
    /// There is only one baseline.
    proof fn lemma_baseline_unique(self, s: SnapshotId, a: Option<Generation>, b: Option<Generation>)
        requires
            self.is_baseline(s, a),
        ensures
            self.is_baseline(s, self.baseline(s)),
            self.is_baseline(s, b) ==> a == b,
    {
    }
}

impl Default for VersionedNamespace {
    fn default() -> (r: Self)
        ensures
            r.wf(),
            r@ == NamespaceView::empty(),
    {
        Self::new()
    }
}

} // verus!
