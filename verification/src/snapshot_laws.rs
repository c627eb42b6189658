//! What snapshots and clones promise: a snapshot never changes, a clone starts
//! out as its snapshot, heads do not see each other's writes, and only what
//! nobody can see any more is freed.

use vstd::prelude::*;

use crate::snapshot;
use crate::snapshot::{Generation, HeadId, NamespaceView, SnapshotId, Version};
use crate::sorted_map;
use crate::sums;
use crate::text;
use crate::types::{ErrorView, ExtentId};

verus! {

/// How many versions of a chain refer to an extent.
pub open spec fn mentions(chain: Seq<Version>, e: ExtentId) -> nat
    decreases chain.len(),
{
    if chain.len() == 0 {
        0
    } else {
        mentions(chain.drop_last(), e) + (if chain.last().extent == Some(e) { 1nat } else { 0nat })
    }
}

impl NamespaceView {
    /// How many versions, of any key, refer to an extent.
    pub open spec fn references(self, e: ExtentId) -> nat {
        sums::sum(self.versions.dom(), |k: Seq<u8>| mentions(self.versions[k], e))
    }

    /// Whether a head fits: it branched off an earlier head before that head's
    /// current generation.
    pub open spec fn head_fits(self, h: HeadId) -> bool {
        &&& h.0 < self.next_head
        &&& self.heads[h].gen.0 < self.next_gen
        &&& match self.heads[h].parent {
            Some((p, f)) => {
                &&& p.0 < h.0
                &&& self.heads.contains_key(p)
                &&& f.0 < self.heads[p].gen.0
                &&& f.0 < self.heads[h].gen.0
            },
            None => true,
        }
    }

    /// Whether a snapshot fits: of a head, before its current generation.
    pub open spec fn snapshot_fits(self, s: SnapshotId) -> bool {
        &&& s.0 < self.next_snapshot
        &&& self.snapshots[s].id == s
        &&& self.heads.contains_key(self.snapshots[s].head)
        &&& self.snapshots[s].gen.0 < self.heads[self.snapshots[s].head].gen.0
    }

    /// Whether a version fits: written by a head, no later than its current
    /// generation.
    pub open spec fn version_fits(self, v: Version) -> bool {
        self.heads.contains_key(v.head) && v.gen.0 <= self.heads[v.head].gen.0
    }

    /// Whether a chain fits: not empty, every version fits.
    pub open spec fn chain_fits(self, chain: Seq<Version>) -> bool {
        &&& chain.len() > 0
        &&& forall|i: int| 0 <= i < chain.len() ==> self.version_fits(#[trigger] chain[i])
    }

    /// The namespace without a snapshot.
    pub open spec fn without(self, snap: SnapshotId) -> NamespaceView {
        NamespaceView { snapshots: self.snapshots.remove(snap), ..self }
    }

    /// Whether a head reads an extent under a key.
    pub open spec fn head_reads(self, h: HeadId, key: Seq<u8>, e: ExtentId) -> bool {
        self.get(h, key) == Ok::<_, ErrorView>(Some(e))
    }

    /// Whether a snapshot reads an extent under a key.
    pub open spec fn snapshot_reads(self, s: SnapshotId, key: Seq<u8>, e: ExtentId) -> bool {
        self.get_at(s, key) == Ok::<_, ErrorView>(Some(e))
    }

    /// Whether anybody reads an extent: a head or a snapshot, under any key.
    pub open spec fn is_read(self, e: ExtentId) -> bool {
        ||| exists|h: HeadId, key: Seq<u8>| #[trigger] self.head_reads(h, key, e)
        ||| exists|s: SnapshotId, key: Seq<u8>| #[trigger] self.snapshot_reads(s, key, e)
    }

    /// What every operation keeps: heads, snapshots and versions fit together,
    /// and the counts are those of the versions.
    pub open spec fn consistent(self) -> bool {
        &&& self.heads.contains_key(HeadId(0))
        &&& forall|h: HeadId| #[trigger] self.heads.contains_key(h) ==> self.head_fits(h)
        &&& self.snapshots.dom().finite()
        &&& forall|s: SnapshotId| #[trigger] self.snapshots.contains_key(s) ==> self.snapshot_fits(s)
        &&& self.versions.dom().finite()
        &&& forall|k: Seq<u8>| #[trigger] self.versions.contains_key(k) ==> self.chain_fits(self.versions[k])
        &&& forall|e: ExtentId| #[trigger] self.refcount(e) == self.references(e)
        &&& forall|e: ExtentId| #[trigger] self.refcounts.contains_key(e) ==> self.refcounts[e] > 0
    }
}

/// An empty namespace is consistent.
pub proof fn law_empty_is_consistent()
    ensures
        NamespaceView::empty().consistent(),
{
    let v = NamespaceView::empty();
    assert forall|e: ExtentId| #[trigger] v.refcount(e) == v.references(e) by {
        assert(v.versions.dom() =~= Set::empty());
    }
}

/// What is visible depends only on where heads branched off.
proof fn lemma_visible_same(a: NamespaceView, b: NamespaceView, v: Version, view: HeadId, at: Generation)
    requires
        forall|h: HeadId|
            h.0 <= view.0 ==> ((#[trigger] a.heads.contains_key(h)) <==> b.heads.contains_key(h)) && (
            a.heads.contains_key(h) ==> a.heads[h].parent == b.heads[h].parent),
    ensures
        a.visible(v, view, at) == b.visible(v, view, at),
    decreases view.0,
{
    assert(a.heads.contains_key(view) <==> b.heads.contains_key(view));
    if a.heads.contains_key(view) {
        match a.heads[view].parent {
            Some((p, f)) => {
                if p.0 < view.0 {
                    lemma_visible_same(a, b, v, p, snapshot::earlier(at, f));
                }
            },
            None => {},
        }
    }
}

/// What is seen depends only on where heads branched off.
proof fn lemma_seen_same(a: NamespaceView, b: NamespaceView, chain: Seq<Version>, view: HeadId, at: Generation)
    requires
        forall|h: HeadId|
            h.0 <= view.0 ==> ((#[trigger] a.heads.contains_key(h)) <==> b.heads.contains_key(h)) && (
            a.heads.contains_key(h) ==> a.heads[h].parent == b.heads[h].parent),
    ensures
        a.seen(chain, view, at) == b.seen(chain, view, at),
    decreases chain.len(),
{
    if chain.len() > 0 {
        lemma_visible_same(a, b, chain.last(), view, at);
        lemma_seen_same(a, b, chain.drop_last(), view, at);
    }
}

/// A version that a head writes now cannot be seen from before that head's
/// current generation, nor from another head.
proof fn lemma_new_version_unseen(n: NamespaceView, v: Version, view: HeadId, at: Generation)
    requires
        n.consistent(),
        n.heads.contains_key(v.head),
        v.gen == n.heads[v.head].gen,
        n.heads.contains_key(view),
        at.0 < n.heads[view].gen.0 || (at == n.heads[view].gen && view != v.head),
    ensures
        !n.visible(v, view, at),
    decreases view.0,
{
    assert(n.head_fits(view));
    match n.heads[view].parent {
        Some((p, f)) => {
            lemma_new_version_unseen(n, v, p, snapshot::earlier(at, f));
        },
        None => {},
    }
}

/// A write keeps a namespace consistent.
pub proof fn law_write_consistent(n: NamespaceView, head: HeadId, key: Seq<u8>, extent: Option<ExtentId>)
    requires
        n.consistent(),
        extent matches Some(e) ==> n.refcount(e) < u32::MAX,
    ensures
        n.write(head, key, extent).0.consistent(),
{
    if n.heads.contains_key(head) {
        let w = n.write(head, key, extent).0;
        let v = Version { gen: n.heads[head].gen, head, extent };
        assert forall|h: HeadId| #[trigger] w.heads.contains_key(h) implies w.head_fits(h) by {
            assert(n.head_fits(h));
        }
        assert forall|s: SnapshotId| #[trigger] w.snapshots.contains_key(s) implies w.snapshot_fits(s) by {
            assert(n.snapshot_fits(s));
        }
        assert forall|k: Seq<u8>| #[trigger] w.versions.contains_key(k) implies w.chain_fits(w.versions[k]) by {
            if n.versions.contains_key(k) {
                assert(n.chain_fits(n.versions[k]));
            }
            let chain = w.versions[k];
            assert forall|i: int| 0 <= i < chain.len() implies w.version_fits(#[trigger] chain[i]) by {
                if k != key || i < n.chain(key).len() {
                    assert(chain[i] == n.versions[k][i]);
                    assert(n.version_fits(n.versions[k][i]));
                }
            }
        }
        assert forall|e: ExtentId| #[trigger] w.refcount(e) == w.references(e) by {
            assert(n.refcount(e) == n.references(e));
            let f = |k: Seq<u8>| mentions(n.versions[k], e);
            let g = |k: Seq<u8>| mentions(w.versions[k], e);
            let rest = n.versions.dom().remove(key);
            assert(w.versions.dom().remove(key) =~= rest);
            assert forall|k: Seq<u8>| #[trigger] rest.contains(k) implies f(k) == g(k) by {}
            sums::lemma_sum_same(rest, f, g);
            sums::lemma_sum_remove(w.versions.dom(), g, key);
            assert(w.versions[key].drop_last() =~= n.chain(key));
            assert(w.versions[key].last() == v);
            if n.versions.contains_key(key) {
                sums::lemma_sum_remove(n.versions.dom(), f, key);
            } else {
                assert(n.versions.dom() =~= rest);
                assert(mentions(n.chain(key), e) == 0);
            }
        }
    }
}

/// What a head writes, it reads; what it deletes is gone.
pub proof fn law_read_your_write(n: NamespaceView, head: HeadId, key: Seq<u8>, extent: Option<ExtentId>)
    requires
        n.consistent(),
        n.heads.contains_key(head),
    ensures
        n.write(head, key, extent).1 is Ok,
        n.write(head, key, extent).0.get(head, key) == Ok::<_, ErrorView>(extent),
{
    let w = n.write(head, key, extent).0;
    let v = Version { gen: n.heads[head].gen, head, extent };
    assert(w.chain(key).last() == v);
    assert(w.visible(v, head, w.heads[head].gen));
}

/// A write does not change what any snapshot sees.
pub proof fn law_snapshot_is_frozen(
    n: NamespaceView,
    head: HeadId,
    key: Seq<u8>,
    extent: Option<ExtentId>,
    snap: SnapshotId,
    other: Seq<u8>,
)
    requires
        n.consistent(),
    ensures
        n.write(head, key, extent).0.get_at(snap, other) == n.get_at(snap, other),
{
    if n.heads.contains_key(head) && n.snapshots.contains_key(snap) {
        let w = n.write(head, key, extent).0;
        let v = Version { gen: n.heads[head].gen, head, extent };
        let s = n.snapshots[snap];
        assert(n.snapshot_fits(snap));
        lemma_new_version_unseen(n, v, s.head, s.gen);
        lemma_visible_same(n, w, v, s.head, s.gen);
        lemma_seen_same(n, w, n.chain(other), s.head, s.gen);
        if other == key {
            assert(w.chain(key).drop_last() =~= n.chain(key));
            assert(w.chain(key).last() == v);
        }
    }
}

/// A write through one head does not change what another head reads, nor what
/// the head itself reads of other keys.
pub proof fn law_heads_are_apart(
    n: NamespaceView,
    head: HeadId,
    key: Seq<u8>,
    extent: Option<ExtentId>,
    view: HeadId,
    other: Seq<u8>,
)
    requires
        n.consistent(),
        view != head || other != key,
    ensures
        n.write(head, key, extent).0.get(view, other) == n.get(view, other),
{
    if n.heads.contains_key(head) && n.heads.contains_key(view) {
        let w = n.write(head, key, extent).0;
        let v = Version { gen: n.heads[head].gen, head, extent };
        let at = n.heads[view].gen;
        lemma_visible_same(n, w, v, view, at);
        lemma_seen_same(n, w, n.chain(other), view, at);
        if other == key {
            lemma_new_version_unseen(n, v, view, at);
            assert(w.chain(key).drop_last() =~= n.chain(key));
            assert(w.chain(key).last() == v);
        }
    }
}

/// A head sees the same at a later generation, until it writes.
proof fn lemma_later_generation(n: NamespaceView, chain: Seq<Version>, head: HeadId, later: Generation)
    requires
        n.consistent(),
        n.heads.contains_key(head),
        n.heads[head].gen.0 <= later.0,
        forall|i: int| 0 <= i < chain.len() ==> n.version_fits(#[trigger] chain[i]),
    ensures
        n.seen(chain, head, later) == n.seen(chain, head, n.heads[head].gen),
    decreases chain.len(),
{
    if chain.len() > 0 {
        let v = chain.last();
        let now = n.heads[head].gen;
        assert(n.version_fits(chain[chain.len() - 1]));
        assert(n.head_fits(head));
        match n.heads[head].parent {
            Some((p, f)) => {
                assert(snapshot::earlier(now, f) == f);
                assert(snapshot::earlier(later, f) == f);
            },
            None => {},
        }
        assert(n.visible(v, head, later) == n.visible(v, head, now));
        assert forall|i: int| 0 <= i < chain.drop_last().len() implies n.version_fits(
            #[trigger] chain.drop_last()[i],
        ) by {
            assert(n.version_fits(chain[i]));
        }
        lemma_later_generation(n, chain.drop_last(), head, later);
    }
}

/// Taking a snapshot keeps a namespace consistent.
pub proof fn law_create_snapshot_consistent(n: NamespaceView, head: HeadId, name: Seq<char>)
    requires
        n.consistent(),
        n.next_snapshot < u32::MAX,
        n.next_gen < u64::MAX,
    ensures
        n.create_snapshot(head, name).0.consistent(),
{
    if n.heads.contains_key(head) {
        let w = n.create_snapshot(head, name).0;
        assert(n.head_fits(head));
        assert forall|h: HeadId| #[trigger] w.heads.contains_key(h) implies w.head_fits(h) by {
            assert(n.heads.contains_key(h));
            assert(n.head_fits(h));
            match n.heads[h].parent {
                Some((p, f)) => {
                    assert(n.head_fits(p));
                },
                None => {},
            }
        }
        assert forall|s: SnapshotId| #[trigger] w.snapshots.contains_key(s) implies w.snapshot_fits(s) by {
            if s != SnapshotId(n.next_snapshot) {
                assert(n.snapshots.contains_key(s));
                assert(n.snapshot_fits(s));
                assert(n.head_fits(n.snapshots[s].head));
            }
        }
        assert forall|k: Seq<u8>| #[trigger] w.versions.contains_key(k) implies w.chain_fits(w.versions[k]) by {
            assert(n.chain_fits(n.versions[k]));
            let chain = w.versions[k];
            assert forall|i: int| 0 <= i < chain.len() implies w.version_fits(#[trigger] chain[i]) by {
                assert(n.version_fits(n.versions[k][i]));
                assert(n.head_fits(chain[i].head));
            }
        }
        assert forall|e: ExtentId| #[trigger] w.refcount(e) == w.references(e) by {
            assert(n.refcount(e) == n.references(e));
            let f = |k: Seq<u8>| mentions(n.versions[k], e);
            let g = |k: Seq<u8>| mentions(w.versions[k], e);
            sums::lemma_sum_same(n.versions.dom(), f, g);
        }
    }
}

/// A new snapshot sees what its head read when it was taken; taking it changes
/// nothing that anybody reads, and adds no version and no reference.
pub proof fn law_snapshot_captures_the_head(n: NamespaceView, head: HeadId, name: Seq<char>, key: Seq<u8>)
    requires
        n.consistent(),
        n.heads.contains_key(head),
    ensures
        ({
            let (w, r) = n.create_snapshot(head, name);
            &&& r is Ok
            &&& w.get_at(r->Ok_0, key) == n.get(head, key)
            &&& forall|h: HeadId| #[trigger] w.get(h, key) == n.get(h, key)
            &&& forall|s: SnapshotId| s != r->Ok_0 ==> #[trigger] w.get_at(s, key) == n.get_at(s, key)
            &&& w.versions == n.versions
            &&& w.refcounts == n.refcounts
        }),
{
    let (w, r) = n.create_snapshot(head, name);
    let chain = n.chain(key);
    assert forall|h: HeadId, at: Generation| #[trigger] w.seen(chain, h, at) == n.seen(chain, h, at) by {
        lemma_seen_same(n, w, chain, h, at);
    }
    assert forall|h: HeadId| #[trigger] w.get(h, key) == n.get(h, key) by {
        if h == head {
            assert(n.head_fits(head));
            if n.versions.contains_key(key) {
                assert(n.chain_fits(n.versions[key]));
            }
            lemma_later_generation(n, chain, head, Generation(n.next_gen));
            assert(w.seen(chain, head, Generation(n.next_gen)) == n.seen(chain, head, Generation(n.next_gen)));
        } else if n.heads.contains_key(h) {
            assert(w.seen(chain, h, n.heads[h].gen) == n.seen(chain, h, n.heads[h].gen));
        }
    }
    assert(w.seen(chain, head, n.heads[head].gen) == n.seen(chain, head, n.heads[head].gen));
    assert forall|s: SnapshotId| s != r->Ok_0 implies #[trigger] w.get_at(s, key) == n.get_at(s, key) by {
        if n.snapshots.contains_key(s) {
            let o = n.snapshots[s];
            assert(w.seen(chain, o.head, o.gen) == n.seen(chain, o.head, o.gen));
        }
    }
}

/// Branching off a clone keeps a namespace consistent.
pub proof fn law_clone_consistent(n: NamespaceView, snap: SnapshotId)
    requires
        n.consistent(),
        n.next_head < u32::MAX,
        n.next_gen < u64::MAX,
    ensures
        n.clone_from(snap).0.consistent(),
{
    if n.snapshots.contains_key(snap) {
        let w = n.clone_from(snap).0;
        let id = HeadId(n.next_head);
        assert(n.snapshot_fits(snap));
        assert(n.head_fits(n.snapshots[snap].head));
        if n.heads.contains_key(id) {
            assert(n.head_fits(id));
        }
        assert forall|h: HeadId| #[trigger] w.heads.contains_key(h) implies w.head_fits(h) by {
            if h != id {
                assert(n.head_fits(h));
            }
        }
        assert forall|s: SnapshotId| #[trigger] w.snapshots.contains_key(s) implies w.snapshot_fits(s) by {
            assert(n.snapshot_fits(s));
        }
        assert forall|k: Seq<u8>| #[trigger] w.versions.contains_key(k) implies w.chain_fits(w.versions[k]) by {
            assert(n.chain_fits(n.versions[k]));
            let chain = w.versions[k];
            assert forall|i: int| 0 <= i < chain.len() implies w.version_fits(#[trigger] chain[i]) by {
                assert(n.version_fits(n.versions[k][i]));
            }
        }
        assert forall|e: ExtentId| #[trigger] w.refcount(e) == w.references(e) by {
            assert(n.refcount(e) == n.references(e));
            let f = |k: Seq<u8>| mentions(n.versions[k], e);
            let g = |k: Seq<u8>| mentions(w.versions[k], e);
            sums::lemma_sum_same(n.versions.dom(), f, g);
        }
    }
}

/// What a clone that has not written yet sees is what the head it branched off
/// saw at the branching point.
proof fn lemma_clone_sees(w: NamespaceView, chain: Seq<Version>, id: HeadId, source: HeadId, fork: Generation)
    requires
        w.heads.contains_key(id),
        w.heads[id].parent == Some((source, fork)),
        source.0 < id.0,
        fork.0 <= w.heads[id].gen.0,
        forall|i: int| 0 <= i < chain.len() ==> (#[trigger] chain[i]).head != id,
    ensures
        w.seen(chain, id, w.heads[id].gen) == w.seen(chain, source, fork),
    decreases chain.len(),
{
    if chain.len() > 0 {
        assert(snapshot::earlier(w.heads[id].gen, fork) == fork);
        assert(chain[chain.len() - 1].head != id);
        assert forall|i: int| 0 <= i < chain.drop_last().len() implies (#[trigger] chain.drop_last()[i]).head != id by {
            assert(chain[i].head != id);
        }
        lemma_clone_sees(w, chain.drop_last(), id, source, fork);
    }
}

/// A clone starts out as its snapshot, and changes nothing that others read.
pub proof fn law_clone_is_its_snapshot(n: NamespaceView, snap: SnapshotId, key: Seq<u8>)
    requires
        n.consistent(),
        n.snapshots.contains_key(snap),
    ensures
        ({
            let (w, r) = n.clone_from(snap);
            &&& r is Ok
            &&& !n.heads.contains_key(r->Ok_0)
            &&& w.get(r->Ok_0, key) == n.get_at(snap, key)
            &&& forall|h: HeadId| h != r->Ok_0 ==> #[trigger] w.get(h, key) == n.get(h, key)
            &&& forall|s: SnapshotId| #[trigger] w.get_at(s, key) == n.get_at(s, key)
            &&& w.versions == n.versions
            &&& w.refcounts == n.refcounts
        }),
{
    let (w, r) = n.clone_from(snap);
    let id = HeadId(n.next_head);
    let s = n.snapshots[snap];
    let chain = n.chain(key);
    assert(n.snapshot_fits(snap));
    assert(n.head_fits(s.head));
    if n.heads.contains_key(id) {
        assert(n.head_fits(id));
    }
    assert forall|h: HeadId, at: Generation| h.0 < id.0 implies #[trigger] w.seen(chain, h, at) == n.seen(
        chain,
        h,
        at,
    ) by {
        lemma_seen_same(n, w, chain, h, at);
    }
    if n.versions.contains_key(key) {
        assert(n.chain_fits(n.versions[key]));
        assert forall|i: int| 0 <= i < chain.len() implies (#[trigger] chain[i]).head != id by {
            assert(n.version_fits(chain[i]));
        }
    }
    lemma_clone_sees(w, chain, id, s.head, s.gen);
    assert(w.seen(chain, s.head, s.gen) == n.seen(chain, s.head, s.gen));
    assert forall|h: HeadId| h != id implies #[trigger] w.get(h, key) == n.get(h, key) by {
        if n.heads.contains_key(h) {
            assert(n.head_fits(h));
            assert(w.seen(chain, h, n.heads[h].gen) == n.seen(chain, h, n.heads[h].gen));
        }
    }
    assert forall|o: SnapshotId| #[trigger] w.get_at(o, key) == n.get_at(o, key) by {
        if n.snapshots.contains_key(o) {
            assert(n.snapshot_fits(o));
            let os = n.snapshots[o];
            assert(n.head_fits(os.head));
            assert(w.seen(chain, os.head, os.gen) == n.seen(chain, os.head, os.gen));
        }
    }
}

/// What a view sees of a chain, it sees of what is kept of the chain.
proof fn lemma_kept_shows_the_same(n: NamespaceView, chain: Seq<Version>, m: nat, w: (HeadId, Generation))
    requires
        n.views().contains(w),
        m <= chain.len(),
        forall|j: int| m <= j < chain.len() ==> !n.visible(#[trigger] chain[j], w.0, w.1),
    ensures
        n.seen(n.kept(chain, m), w.0, w.1) == n.seen(chain.take(m as int), w.0, w.1),
    decreases m,
{
    if m > 0 {
        let v = chain[m - 1];
        let part = chain.take(m as int);
        assert(part.drop_last() =~= chain.take(m - 1));
        let before = n.kept(chain, (m - 1) as nat);
        assert(before.push(v).drop_last() =~= before);
        if n.visible(v, w.0, w.1) {
            assert(n.found(chain, m - 1, w.0, w.1));
            assert(n.needed(chain, m - 1));
        } else {
            lemma_kept_shows_the_same(n, chain, (m - 1) as nat, w);
        }
    }
}

/// Collecting changes nothing that a view sees.
proof fn lemma_collect_keeps_views(n: NamespaceView, w: (HeadId, Generation), key: Seq<u8>)
    requires
        n.views().contains(w),
    ensures
        n.collect().0.resolve(key, w.0, w.1) == n.resolve(key, w.0, w.1),
{
    let c = n.collect().0;
    if n.versions.contains_key(key) {
        let chain = n.versions[key];
        lemma_kept_shows_the_same(n, chain, chain.len(), w);
        assert(chain.take(chain.len() as int) =~= chain);
        lemma_seen_same(n, c, n.remaining(key), w.0, w.1);
        if n.remaining(key).len() == 0 {
            assert(c.chain(key) =~= n.remaining(key));
        }
    }
    assert(c.chain(key) =~= (if n.versions.contains_key(key) {
        n.remaining(key)
    } else {
        n.chain(key)
    }));
}

/// How often an extent is listed.
pub open spec fn times(list: Seq<ExtentId>, e: ExtentId) -> nat
    decreases list.len(),
{
    if list.len() == 0 {
        0
    } else {
        times(list.drop_last(), e) + (if list.last() == e { 1nat } else { 0nat })
    }
}

proof fn lemma_times_concat(a: Seq<ExtentId>, b: Seq<ExtentId>, e: ExtentId)
    ensures
        times(a + b, e) == times(a, e) + times(b, e),
    decreases b.len(),
{
    if b.len() == 0 {
        assert(a + b =~= a);
    } else {
        assert((a + b).drop_last() =~= a + b.drop_last());
        lemma_times_concat(a, b.drop_last(), e);
    }
}

/// The references of a chain are those kept and those dropped.
proof fn lemma_kept_and_dropped(n: NamespaceView, chain: Seq<Version>, m: nat, e: ExtentId)
    requires
        m <= chain.len(),
    ensures
        mentions(chain.take(m as int), e) == mentions(n.kept(chain, m), e) + times(n.dropped(chain, m), e),
        forall|i: int|
            0 <= i < n.kept(chain, m).len() ==> exists|j: int|
                0 <= j < m && chain[j] == #[trigger] n.kept(chain, m)[i],
    decreases m,
{
    if m > 0 {
        let k = (m - 1) as nat;
        lemma_kept_and_dropped(n, chain, k, e);
        assert(chain.take(m as int).drop_last() =~= chain.take(m - 1));
        let v = chain[m - 1];
        let kept = n.kept(chain, k);
        let dropped = n.dropped(chain, k);
        assert(kept.push(v).drop_last() =~= kept);
        match v.extent {
            Some(x) => {
                assert(dropped.push(x).drop_last() =~= dropped);
            },
            None => {},
        }
        assert forall|i: int| 0 <= i < n.kept(chain, m).len() implies exists|j: int|
            0 <= j < m && chain[j] == #[trigger] n.kept(chain, m)[i] by {
            if i < kept.len() {
                assert(n.kept(chain, m)[i] == kept[i]);
                let j = choose|j: int| 0 <= j < k && chain[j] == kept[i];
                assert(0 <= j < m && chain[j] == n.kept(chain, m)[i]);
            } else {
                assert(chain[m - 1] == n.kept(chain, m)[i]);
            }
        }
    }
}

/// What is dropped, key by key, is what is dropped in all.
proof fn lemma_dropped_in_all(n: NamespaceView, keys: Seq<Seq<u8>>, m: nat, e: ExtentId)
    requires
        keys.no_duplicates(),
        m <= keys.len(),
    ensures
        keys.take(m as int).to_set().finite(),
        times(n.dropped_from(keys, m), e) == sums::sum(
            keys.take(m as int).to_set(),
            |k: Seq<u8>| times(n.dropped(n.versions[k], n.versions[k].len()), e),
        ),
    decreases m,
{
    let f = |k: Seq<u8>| times(n.dropped(n.versions[k], n.versions[k].len()), e);
    let part = keys.take(m as int);
    part.unique_seq_to_set();
    if m == 0 {
        assert(part.to_set() =~= Set::empty());
    } else {
        let before = keys.take(m - 1);
        let key = keys[m - 1];
        let chain = n.versions[key];
        lemma_dropped_in_all(n, keys, (m - 1) as nat, e);
        lemma_times_concat(n.dropped_from(keys, (m - 1) as nat), n.dropped(chain, chain.len()), e);
        assert(part =~= before.push(key));
        assert(!before.to_set().contains(key)) by {
            if before.contains(key) {
                let i = choose|i: int| 0 <= i < before.len() && before[i] == key;
                assert(keys[i] == keys[m - 1]);
            }
        }
        assert(part.to_set() =~= before.to_set().insert(key)) by {
            assert forall|k: Seq<u8>| part.contains(k) <==> before.contains(k) || k == key by {
                if before.contains(k) {
                    let i = choose|i: int| 0 <= i < before.len() && before[i] == k;
                    assert(part[i] == k);
                }
                assert(part[m - 1] == key);
                if part.contains(k) && k != key {
                    let i = choose|i: int| 0 <= i < part.len() && part[i] == k;
                    assert(before[i] == k);
                }
            }
        }
        sums::lemma_sum_insert(before.to_set(), f, key);
    }
}

/// The count that a map of counts has for an extent.
spec fn count_in(refs: Map<ExtentId, u32>, e: ExtentId) -> nat {
    if refs.contains_key(e) { refs[e] as nat } else { 0 }
}

/// Giving references up lowers each count by how often its extent is listed, and
/// frees exactly the extents whose count that exhausts, each once.
proof fn lemma_released(refs: Map<ExtentId, u32>, list: Seq<ExtentId>)
    requires
        forall|e: ExtentId| #[trigger] refs.contains_key(e) ==> refs[e] > 0,
        forall|e: ExtentId| #[trigger] times(list, e) <= count_in(refs, e),
    ensures
        ({
            let (left, freed) = snapshot::released(refs, list);
            &&& forall|e: ExtentId| #[trigger] left.contains_key(e) ==> left[e] > 0
            &&& forall|e: ExtentId| #[trigger] count_in(left, e) == count_in(refs, e) - times(list, e)
            &&& freed.no_duplicates()
            &&& forall|e: ExtentId| #[trigger]
                freed.contains(e) <==> refs.contains_key(e) && times(list, e) == refs[e]
        }),
    decreases list.len(),
{
    if list.len() == 0 {
        let freed = snapshot::released(refs, list).1;
        assert forall|e: ExtentId| #[trigger] freed.contains(e) <==> refs.contains_key(e) && times(list, e)
            == refs[e] by {}
    } else {
        let part = list.drop_last();
        let x = list.last();
        assert forall|e: ExtentId| #[trigger] times(part, e) <= count_in(refs, e) by {
            assert(times(list, e) <= count_in(refs, e));
        }
        lemma_released(refs, part);
        let (mid, freed) = snapshot::released(refs, part);
        let (left, out) = snapshot::released(refs, list);
        assert(times(list, x) == times(part, x) + 1);
        assert(times(list, x) <= count_in(refs, x));
        assert(count_in(mid, x) == count_in(refs, x) - times(part, x));
        assert(mid.contains_key(x));
        assert forall|e: ExtentId| #[trigger] left.contains_key(e) implies left[e] > 0 by {
            assert(mid.contains_key(e));
        }
        assert forall|e: ExtentId| #[trigger] count_in(left, e) == count_in(refs, e) - times(list, e) by {
            assert(count_in(mid, e) == count_in(refs, e) - times(part, e));
        }
        assert(freed.contains(x) <==> refs.contains_key(x) && times(part, x) == refs[x]);
        if mid[x] <= 1 {
            assert(out == freed.push(x));
            assert forall|e: ExtentId| #[trigger] out.contains(e) <==> refs.contains_key(e) && times(list, e)
                == refs[e] by {
                assert(freed.contains(e) <==> refs.contains_key(e) && times(part, e) == refs[e]);
                if freed.contains(e) {
                    let i = choose|i: int| 0 <= i < freed.len() && freed[i] == e;
                    assert(out[i] == e);
                }
                assert(out[freed.len() as int] == x);
                if out.contains(e) && e != x {
                    let i = choose|i: int| 0 <= i < out.len() && out[i] == e;
                    assert(freed[i] == e);
                }
            }
            assert(out.no_duplicates()) by {
                assert forall|i: int, j: int| 0 <= i < out.len() && 0 <= j < out.len() && i != j implies out[i]
                    != out[j] by {
                    if i < freed.len() {
                        assert(freed.contains(freed[i]));
                    }
                    if j < freed.len() {
                        assert(freed.contains(freed[j]));
                    }
                }
            }
        } else {
            assert forall|e: ExtentId| #[trigger] out.contains(e) <==> refs.contains_key(e) && times(list, e)
                == refs[e] by {
                assert(freed.contains(e) <==> refs.contains_key(e) && times(part, e) == refs[e]);
            }
        }
    }
}

/// The references of a namespace are those that collecting keeps and those that
/// it drops.
proof fn lemma_collect_references(n: NamespaceView, e: ExtentId)
    requires
        n.versions.dom().finite(),
    ensures
        ({
            let keys = sorted_map::in_order::<Vec<u8>>(n.versions.dom());
            n.references(e) == n.collect().0.references(e) + times(n.dropped_from(keys, keys.len()), e)
        }),
{
    let c = n.collect().0;
    let dom = n.versions.dom();
    let keys = sorted_map::in_order::<Vec<u8>>(dom);
    let all = |k: Seq<u8>| mentions(n.versions[k], e);
    let kept = |k: Seq<u8>| mentions(n.remaining(k), e);
    let gone = |k: Seq<u8>| times(n.dropped(n.versions[k], n.versions[k].len()), e);
    let after = |k: Seq<u8>| mentions(c.versions[k], e);
    <Vec<u8> as sorted_map::Key>::lemma_order();
    crate::order::lemma_ranking_exists(dom, sorted_map::key_order::<Vec<u8>>());
    crate::order::lemma_ranking_len(keys, dom, sorted_map::key_order::<Vec<u8>>());
    lemma_dropped_in_all(n, keys, keys.len(), e);
    assert(keys.take(keys.len() as int) =~= keys);
    assert(keys.to_set() =~= dom);
    assert forall|k: Seq<u8>| #[trigger] dom.contains(k) implies all(k) == kept(k) + gone(k) by {
        let chain = n.versions[k];
        lemma_kept_and_dropped(n, chain, chain.len(), e);
        assert(chain.take(chain.len() as int) =~= chain);
    }
    sums::lemma_sum_add(dom, kept, gone, all);
    let part = c.versions.dom();
    assert(part.subset_of(dom));
    assert forall|k: Seq<u8>| #[trigger] dom.contains(k) && !part.contains(k) implies kept(k) == 0 by {}
    sums::lemma_sum_part(dom, part, kept);
    assert forall|k: Seq<u8>| #[trigger] part.contains(k) implies kept(k) == after(k) by {}
    sums::lemma_sum_same(part, kept, after);
}

/// Deleting a snapshot keeps a namespace consistent.
pub proof fn law_delete_snapshot_consistent(n: NamespaceView, snap: SnapshotId)
    requires
        n.consistent(),
    ensures
        n.delete_snapshot(snap).0.consistent(),
{
    lemma_without_snapshot(n, snap);
    lemma_collect_counts(n.without(snap));
}

/// Forgetting a snapshot, before anything is collected, keeps a namespace
/// consistent.
proof fn lemma_without_snapshot(n: NamespaceView, snap: SnapshotId)
    requires
        n.consistent(),
    ensures
        n.without(snap).consistent(),
        forall|e: ExtentId| #[trigger] n.without(snap).references(e) == n.references(e),
{
    let m = n.without(snap);
    assert forall|e: ExtentId| #[trigger] m.references(e) == n.references(e) by {
        let f = |k: Seq<u8>| mentions(n.versions[k], e);
        let g = |k: Seq<u8>| mentions(m.versions[k], e);
        sums::lemma_sum_same(n.versions.dom(), f, g);
    }
    assert forall|e: ExtentId| #[trigger] m.refcount(e) == m.references(e) by {
        assert(n.refcount(e) == n.references(e));
    }
    assert forall|h: HeadId| #[trigger] m.heads.contains_key(h) implies m.head_fits(h) by {
        assert(n.head_fits(h));
    }
    assert forall|s: SnapshotId| #[trigger] m.snapshots.contains_key(s) implies m.snapshot_fits(s) by {
        assert(n.snapshots.contains_key(s));
        assert(n.snapshot_fits(s));
    }
    assert forall|k: Seq<u8>| #[trigger] m.versions.contains_key(k) implies m.chain_fits(m.versions[k]) by {
        assert(n.chain_fits(n.versions[k]));
        let c = m.versions[k];
        assert forall|i: int| 0 <= i < c.len() implies m.version_fits(#[trigger] c[i]) by {
            assert(n.version_fits(n.versions[k][i]));
        }
    }
}

/// After collecting, the counts still agree, and what is freed is what had
/// references and has none left.
proof fn lemma_collect_counts(n: NamespaceView)
    requires
        n.consistent(),
    ensures
        n.collect().0.consistent(),
        n.collect().1.no_duplicates(),
        forall|e: ExtentId| #[trigger]
            n.collect().1.contains(e) <==> n.references(e) > 0 && n.collect().0.references(e) == 0,
{
    let (w, freed) = n.collect();
    let keys = sorted_map::in_order::<Vec<u8>>(n.versions.dom());
    let list = n.dropped_from(keys, keys.len());
    assert forall|e: ExtentId| #[trigger] count_in(n.refcounts, e) == n.references(e) by {
        assert(n.refcount(e) == n.references(e));
    }
    assert forall|e: ExtentId| #[trigger] times(list, e) <= count_in(n.refcounts, e) by {
        lemma_collect_references(n, e);
        assert(count_in(n.refcounts, e) == n.references(e));
    }
    lemma_released(n.refcounts, list);
    assert forall|e: ExtentId| #[trigger] w.refcount(e) == w.references(e) by {
        lemma_collect_references(n, e);
        assert(count_in(n.refcounts, e) == n.references(e));
        assert(count_in(w.refcounts, e) == count_in(n.refcounts, e) - times(list, e));
    }
    assert forall|e: ExtentId| #[trigger] freed.contains(e) <==> n.references(e) > 0 && w.references(e) == 0 by {
        lemma_collect_references(n, e);
        assert(count_in(n.refcounts, e) == n.references(e));
        assert(freed.contains(e) <==> n.refcounts.contains_key(e) && times(list, e) == n.refcounts[e]);
    }
    assert forall|h: HeadId| #[trigger] w.heads.contains_key(h) implies w.head_fits(h) by {
        assert(n.head_fits(h));
    }
    assert forall|s: SnapshotId| #[trigger] w.snapshots.contains_key(s) implies w.snapshot_fits(s) by {
        assert(n.snapshot_fits(s));
    }
    assert(w.versions.dom().subset_of(n.versions.dom()));
    vstd::set_lib::lemma_len_subset(w.versions.dom(), n.versions.dom());
    assert forall|k: Seq<u8>| #[trigger] w.versions.contains_key(k) implies w.chain_fits(w.versions[k]) by {
        assert(n.versions.contains_key(k));
        let chain = n.versions[k];
        assert(n.chain_fits(chain));
        lemma_kept_and_dropped(n, chain, chain.len(), ExtentId(0));
        let left = w.versions[k];
        assert(left == n.kept(chain, chain.len()));
        assert forall|i: int| 0 <= i < left.len() implies w.version_fits(#[trigger] left[i]) by {
            let j = choose|j: int| 0 <= j < chain.len() && chain[j] == left[i];
            assert(n.version_fits(chain[j]));
        }
    }
}

/// What is mentioned in the kept part of a chain, some view finds.
proof fn lemma_mentioned_is_needed(n: NamespaceView, chain: Seq<Version>, m: nat, e: ExtentId) -> (j: int)
    requires
        m <= chain.len(),
        mentions(n.kept(chain, m), e) > 0,
    ensures
        0 <= j < m,
        n.needed(chain, j),
        chain[j].extent == Some(e),
    decreases m,
{
    let before = n.kept(chain, (m - 1) as nat);
    if n.needed(chain, m - 1) {
        assert(before.push(chain[m - 1]).drop_last() =~= before);
        if chain[m - 1].extent == Some(e) {
            m - 1
        } else {
            lemma_mentioned_is_needed(n, chain, (m - 1) as nat, e)
        }
    } else {
        lemma_mentioned_is_needed(n, chain, (m - 1) as nat, e)
    }
}

/// The version that a view finds in a chain is the one that it sees.
proof fn lemma_found_is_seen(n: NamespaceView, chain: Seq<Version>, j: int, view: HeadId, at: Generation)
    requires
        0 <= j < chain.len(),
        n.found(chain, j, view, at),
    ensures
        n.seen(chain, view, at) == Some(chain[j]),
    decreases chain.len(),
{
    if j < chain.len() - 1 {
        let part = chain.drop_last();
        assert(!n.visible(chain[chain.len() - 1], view, at));
        assert(n.found(part, j, view, at)) by {
            assert forall|i: int| j < i < part.len() implies !n.visible(#[trigger] part[i], view, at) by {
                assert(part[i] == chain[i]);
            }
        }
        lemma_found_is_seen(n, part, j, view, at);
    }
}

/// What a view reads is what a head or a snapshot reads.
proof fn lemma_view_reads(n: NamespaceView, w: (HeadId, Generation), key: Seq<u8>, e: ExtentId)
    requires
        n.views().contains(w),
        n.resolve(key, w.0, w.1) == Some(e),
    ensures
        n.is_read(e),
{
    if n.heads.contains_key(w.0) && n.heads[w.0].gen == w.1 {
        assert(n.head_reads(w.0, key, e));
    } else {
        let s = choose|s: SnapshotId| #[trigger]
            n.snapshots.contains_key(s) && n.snapshots[s].head == w.0 && n.snapshots[s].gen == w.1;
        assert(n.snapshot_reads(s, key, e));
    }
}

/// After collecting, exactly what is read is referred to.
proof fn lemma_collect_keeps_what_is_read(n: NamespaceView, e: ExtentId)
    requires
        n.consistent(),
    ensures
        n.collect().0.references(e) > 0 <==> n.is_read(e),
{
    let c = n.collect().0;
    lemma_collect_counts(n);
    let f = |k: Seq<u8>| mentions(c.versions[k], e);
    if c.references(e) > 0 {
        let k = sums::lemma_sum_positive(c.versions.dom(), f);
        assert(c.versions.contains_key(k));
        let chain = n.versions[k];
        let j = lemma_mentioned_is_needed(n, chain, chain.len(), e);
        let w = choose|w: (HeadId, Generation)| #[trigger] n.views().contains(w) && n.found(chain, j, w.0, w.1);
        lemma_found_is_seen(n, chain, j, w.0, w.1);
        lemma_view_reads(n, w, k, e);
    }
    if n.is_read(e) {
        let (w, k) = if exists|h: HeadId, k: Seq<u8>| #[trigger] n.head_reads(h, k, e) {
            let (h, k) = choose|h: HeadId, k: Seq<u8>| #[trigger] n.head_reads(h, k, e);
            ((h, n.heads[h].gen), k)
        } else {
            let (s, k) = choose|s: SnapshotId, k: Seq<u8>| #[trigger] n.snapshot_reads(s, k, e);
            assert(n.snapshots.contains_key(s));
            ((n.snapshots[s].head, n.snapshots[s].gen), k)
        };
        assert(n.views().contains(w));
        lemma_collect_keeps_views(n, w, k);
        lemma_seen_is_mentioned(c, c.chain(k), w.0, w.1, e);
        assert(c.versions.contains_key(k));
        if c.references(e) == 0 {
            sums::lemma_sum_zero(c.versions.dom(), f);
            assert(c.versions.dom().contains(k));
        }
    }
}

/// Collecting frees exactly the extents that were referred to and that nobody
/// reads, no head and no snapshot, under any key; each once. Those freed are no
/// longer referred to, all others still are, and everybody reads what they read
/// before.
pub proof fn law_collect_frees_exactly_the_unread(n: NamespaceView)
    requires
        n.consistent(),
    ensures
        ({
            let (w, freed) = n.collect();
            &&& w.consistent()
            &&& freed.no_duplicates()
            &&& forall|e: ExtentId| #[trigger] freed.contains(e) <==> n.refcount(e) > 0 && !n.is_read(e)
            &&& forall|e: ExtentId| #[trigger] freed.contains(e) ==> w.refcount(e) == 0
            &&& forall|e: ExtentId|
                n.refcount(e) > 0 && !#[trigger] freed.contains(e) ==> w.refcount(e) >= 1
            &&& forall|h: HeadId, k: Seq<u8>| #[trigger] w.get(h, k) == n.get(h, k)
            &&& forall|s: SnapshotId, k: Seq<u8>| #[trigger] w.get_at(s, k) == n.get_at(s, k)
        }),
{
    let (w, freed) = n.collect();
    lemma_collect_counts(n);
    assert forall|e: ExtentId| #[trigger] freed.contains(e) <==> n.refcount(e) > 0 && !n.is_read(e) by {
        lemma_collect_keeps_what_is_read(n, e);
        assert(n.refcount(e) == n.references(e));
    }
    assert forall|e: ExtentId| #[trigger] freed.contains(e) implies w.refcount(e) == 0 by {
        assert(w.refcount(e) == w.references(e));
    }
    assert forall|e: ExtentId| n.refcount(e) > 0 && !#[trigger] freed.contains(e) implies w.refcount(e) >= 1 by {
        assert(n.refcount(e) == n.references(e));
        assert(w.refcount(e) == w.references(e));
    }
    assert forall|h: HeadId, k: Seq<u8>| #[trigger] w.get(h, k) == n.get(h, k) by {
        if n.heads.contains_key(h) {
            assert(n.views().contains((h, n.heads[h].gen)));
            lemma_collect_keeps_views(n, (h, n.heads[h].gen), k);
        }
    }
    assert forall|s: SnapshotId, k: Seq<u8>| #[trigger] w.get_at(s, k) == n.get_at(s, k) by {
        if n.snapshots.contains_key(s) {
            let o = n.snapshots[s];
            assert(n.views().contains((o.head, o.gen)));
            lemma_collect_keeps_views(n, (o.head, o.gen), k);
        }
    }
}

/// Deleting a snapshot frees exactly the extents that were referred to and that no
/// head and no other snapshot reads, each once; and no head and no other snapshot
/// reads anything else than before.
pub proof fn law_delete_snapshot_frees_only_garbage(n: NamespaceView, snap: SnapshotId)
    requires
        n.consistent(),
        n.snapshots.contains_key(snap),
    ensures
        ({
            let (w, r) = n.delete_snapshot(snap);
            &&& r is Ok
            &&& r->Ok_0.no_duplicates()
            &&& forall|e: ExtentId| #[trigger]
                r->Ok_0.contains(e) <==> n.refcount(e) > 0 && !n.without(snap).is_read(e)
            &&& forall|e: ExtentId| #[trigger] r->Ok_0.contains(e) ==> w.refcount(e) == 0
            &&& forall|h: HeadId, k: Seq<u8>| #[trigger] w.get(h, k) == n.get(h, k)
            &&& forall|s: SnapshotId, k: Seq<u8>| s != snap ==> #[trigger] w.get_at(s, k) == n.get_at(s, k)
            &&& forall|k: Seq<u8>| #[trigger] w.get_at(snap, k) is Err
        }),
{
    let m = n.without(snap);
    lemma_without_snapshot(n, snap);
    law_collect_frees_exactly_the_unread(m);
    let w = m.collect().0;
    assert forall|h: HeadId, k: Seq<u8>| #[trigger] w.get(h, k) == n.get(h, k) by {
        if n.heads.contains_key(h) {
            lemma_seen_same(n, m, n.chain(k), h, n.heads[h].gen);
        }
        assert(m.get(h, k) == n.get(h, k));
    }
    assert forall|s: SnapshotId, k: Seq<u8>| s != snap implies #[trigger] w.get_at(s, k) == n.get_at(s, k) by {
        if n.snapshots.contains_key(s) {
            lemma_seen_same(n, m, n.chain(k), n.snapshots[s].head, n.snapshots[s].gen);
        }
        assert(m.get_at(s, k) == n.get_at(s, k));
    }
}

/// What a deleted snapshot frees was referred to, and is no longer; nothing else is
/// let go, and nothing is referred to that was not before.
pub proof fn law_delete_snapshot_lets_go(n: NamespaceView, snap: SnapshotId)
    requires
        n.consistent(),
        n.snapshots.contains_key(snap),
    ensures
        ({
            let (w, r) = n.delete_snapshot(snap);
            &&& forall|e: ExtentId| #[trigger] r->Ok_0.contains(e) ==> n.refcounts.contains_key(e)
            &&& forall|e: ExtentId| #[trigger]
                w.refcounts.contains_key(e) <==> n.refcounts.contains_key(e) && !r->Ok_0.contains(e)
        }),
{
    let m = n.without(snap);
    lemma_without_snapshot(n, snap);
    lemma_collect_counts(m);
    let (w, r) = n.delete_snapshot(snap);
    assert forall|e: ExtentId| #[trigger] r->Ok_0.contains(e) implies n.refcounts.contains_key(e) by {
        assert(m.refcount(e) == m.references(e));
    }
    assert forall|e: ExtentId| #[trigger] w.refcounts.contains_key(e) <==> n.refcounts.contains_key(e)
        && !r->Ok_0.contains(e) by {
        assert(m.refcount(e) == m.references(e));
        assert(w.refcount(e) == w.references(e));
        assert(r->Ok_0.contains(e) <==> m.references(e) > 0 && w.references(e) == 0);
        lemma_collect_references(m, e);
    }
}

/// What is read of a key is referred to.
pub proof fn lemma_read_is_referred_to(n: NamespaceView, key: Seq<u8>, view: HeadId, at: Generation)
    requires
        n.consistent(),
        n.resolve(key, view, at) is Some,
    ensures
        n.refcounts.contains_key(n.resolve(key, view, at)->0),
{
    let e = n.resolve(key, view, at)->0;
    lemma_seen_is_mentioned(n, n.chain(key), view, at, e);
    assert(n.versions.contains_key(key));
    assert(n.refcount(e) == n.references(e));
    if n.references(e) == 0 {
        sums::lemma_sum_zero(n.versions.dom(), |k: Seq<u8>| mentions(n.versions[k], e));
        assert(n.versions.dom().contains(key));
    }
}

/// What is seen of a chain is mentioned in it.
proof fn lemma_seen_is_mentioned(n: NamespaceView, chain: Seq<Version>, view: HeadId, at: Generation, e: ExtentId)
    requires
        n.seen(chain, view, at) is Some,
        n.seen(chain, view, at)->0.extent == Some(e),
    ensures
        chain.len() > 0,
        mentions(chain, e) > 0,
    decreases chain.len(),
{
    if !n.visible(chain.last(), view, at) {
        lemma_seen_is_mentioned(n, chain.drop_last(), view, at, e);
    }
}

/// Exporting a snapshot keeps a namespace consistent and changes nothing that
/// anybody reads.
pub proof fn law_export_is_harmless(n: NamespaceView, snap: SnapshotId, key: Seq<u8>)
    requires
        n.consistent(),
    ensures
        ({
            let w = n.export_manifest(snap).0;
            &&& w.consistent()
            &&& forall|h: HeadId| #[trigger] w.get(h, key) == n.get(h, key)
            &&& forall|s: SnapshotId| #[trigger] w.get_at(s, key) == n.get_at(s, key)
        }),
{
    let w = n.export_manifest(snap).0;
    let chain = n.chain(key);
    assert forall|h: HeadId, at: Generation| #[trigger] w.seen(chain, h, at) == n.seen(chain, h, at) by {
        lemma_seen_same(n, w, chain, h, at);
    }
    assert forall|h: HeadId| #[trigger] w.get(h, key) == n.get(h, key) by {
        if n.heads.contains_key(h) {
            assert(w.seen(chain, h, n.heads[h].gen) == n.seen(chain, h, n.heads[h].gen));
        }
    }
    assert forall|s: SnapshotId| #[trigger] w.get_at(s, key) == n.get_at(s, key) by {
        if n.snapshots.contains_key(s) {
            let o = n.snapshots[s];
            assert(w.seen(chain, o.head, o.gen) == n.seen(chain, o.head, o.gen));
        }
    }
    assert forall|h: HeadId| #[trigger] w.heads.contains_key(h) implies w.head_fits(h) by {
        assert(n.head_fits(h));
    }
    assert forall|s: SnapshotId| #[trigger] w.snapshots.contains_key(s) implies w.snapshot_fits(s) by {
        assert(n.snapshots.contains_key(s));
        assert(n.snapshot_fits(s));
    }
    assert forall|k: Seq<u8>| #[trigger] w.versions.contains_key(k) implies w.chain_fits(w.versions[k]) by {
        assert(n.chain_fits(n.versions[k]));
        let c = w.versions[k];
        assert forall|i: int| 0 <= i < c.len() implies w.version_fits(#[trigger] c[i]) by {
            assert(n.version_fits(n.versions[k][i]));
        }
    }
    assert forall|e: ExtentId| #[trigger] w.refcount(e) == w.references(e) by {
        assert(n.refcount(e) == n.references(e));
        let f = |k: Seq<u8>| mentions(n.versions[k], e);
        let g = |k: Seq<u8>| mentions(w.versions[k], e);
        sums::lemma_sum_same(n.versions.dom(), f, g);
    }
}

/// The entries of an export are those of its keys that it has something to say
/// of.
proof fn lemma_entries_of(n: NamespaceView, s: SnapshotId, keys: Seq<Seq<u8>>, m: nat, key: Seq<u8>, e: ExtentId)
    requires
        m <= keys.len(),
    ensures
        n.entries(s, keys, m).contains((key, e)) <==> keys.take(m as int).contains(key) && n.exported(s, key)
            == Some(e),
    decreases m,
{
    if m > 0 {
        let last = keys[m - 1];
        let before = n.entries(s, keys, (m - 1) as nat);
        let now = n.entries(s, keys, m);
        lemma_entries_of(n, s, keys, (m - 1) as nat, key, e);
        let part = keys.take(m as int);
        let rest = keys.take(m - 1);
        assert(part =~= rest.push(last));
        assert(part.contains(key) <==> rest.contains(key) || key == last) by {
            if rest.contains(key) {
                let i = choose|i: int| 0 <= i < rest.len() && rest[i] == key;
                assert(part[i] == key);
            }
            assert(part[m - 1] == last);
            if part.contains(key) && key != last {
                let i = choose|i: int| 0 <= i < part.len() && part[i] == key;
                assert(rest[i] == key);
            }
        }
        match n.exported(s, last) {
            Some(x) => {
                assert(now == before.push((last, x)));
                assert(now[before.len() as int] == (last, x));
                if before.contains((key, e)) {
                    let i = choose|i: int| 0 <= i < before.len() && before[i] == (key, e);
                    assert(now[i] == (key, e));
                }
                if now.contains((key, e)) && !before.contains((key, e)) {
                    let i = choose|i: int| 0 <= i < now.len() && now[i] == (key, e);
                    if i < before.len() {
                        assert(before[i] == (key, e));
                    }
                }
            },
            None => {},
        }
    }
}

/// The entries of an export are in the order of its keys.
proof fn lemma_entries_ascend(n: NamespaceView, s: SnapshotId, keys: Seq<Seq<u8>>, m: nat)
    requires
        m <= keys.len(),
        forall|i: int, j: int| 0 <= i < j < keys.len() ==> bytes_before(#[trigger] keys[i], #[trigger] keys[j]),
    ensures
        ascending(n.entries(s, keys, m)),
        forall|i: int|
            0 <= i < n.entries(s, keys, m).len() ==> exists|j: int|
                0 <= j < m && keys[j] == (#[trigger] n.entries(s, keys, m)[i]).0,
    decreases m,
{
    if m > 0 {
        let k = (m - 1) as nat;
        lemma_entries_ascend(n, s, keys, k);
        let before = n.entries(s, keys, k);
        let now = n.entries(s, keys, m);
        assert forall|i: int| 0 <= i < now.len() implies exists|j: int| 0 <= j < m && keys[j] == (
        #[trigger] now[i]).0 by {
            if i < before.len() {
                assert(now[i] == before[i]);
                let j = choose|j: int| 0 <= j < k && keys[j] == before[i].0;
                assert(0 <= j < m && keys[j] == now[i].0);
            } else {
                assert(keys[k as int] == now[i].0);
            }
        }
        assert forall|i: int, j: int| 0 <= i < j < now.len() implies bytes_before(
            (#[trigger] now[i]).0,
            (#[trigger] now[j]).0,
        ) by {
            assert(now[i] == before[i]);
            if j < before.len() {
                assert(now[j] == before[j]);
            } else {
                let q = choose|q: int| 0 <= q < k && keys[q] == before[i].0;
                assert(bytes_before(keys[q], keys[k as int]));
            }
        }
    }
}

/// The order of keys.
pub open spec fn bytes_before(a: Seq<u8>, b: Seq<u8>) -> bool {
    sorted_map::key_order::<Vec<u8>>()(a, b)
}

/// Whether entries are strictly in the order of their keys.
pub open spec fn ascending(entries: Seq<(Seq<u8>, ExtentId)>) -> bool {
    forall|i: int, j: int|
        0 <= i < j < entries.len() ==> bytes_before((#[trigger] entries[i]).0, (#[trigger] entries[j]).0)
}

impl NamespaceView {
    /// Whether `b` is the latest snapshot that can be a baseline for the export of
    /// snapshot `s`.
    pub open spec fn is_latest_baseline(self, b: SnapshotId, s: SnapshotId) -> bool {
        &&& self.can_be_baseline(b, s)
        &&& forall|o: SnapshotId| #[trigger]
            self.can_be_baseline(o, s) ==> self.snapshots[o].gen.0 <= self.snapshots[b].gen.0
    }
}

/// Among finitely many snapshots, if there are any, one is the latest.
proof fn lemma_latest(n: NamespaceView, set: Set<SnapshotId>) -> (b: SnapshotId)
    requires
        set.finite(),
        set.len() > 0,
    ensures
        set.contains(b),
        forall|o: SnapshotId| #[trigger] set.contains(o) ==> n.snapshots[o].gen.0 <= n.snapshots[b].gen.0,
    decreases set.len(),
{
    let c = set.choose();
    assert(set.contains(c));
    let rest = set.remove(c);
    if rest.len() == 0 {
        assert forall|o: SnapshotId| #[trigger] set.contains(o) implies n.snapshots[o].gen.0
            <= n.snapshots[c].gen.0 by {
            if o != c {
                assert(rest.contains(o));
            }
        }
        c
    } else {
        let d = lemma_latest(n, rest);
        let b = if n.snapshots[d].gen.0 >= n.snapshots[c].gen.0 { d } else { c };
        assert(rest.contains(d));
        assert forall|o: SnapshotId| #[trigger] set.contains(o) implies n.snapshots[o].gen.0
            <= n.snapshots[b].gen.0 by {
            if o != c {
                assert(rest.contains(o));
            }
        }
        b
    }
}

/// If a snapshot has a baseline, it has a latest one, and an export is relative to
/// its generation; otherwise it is relative to none.
proof fn lemma_baseline(n: NamespaceView, s: SnapshotId)
    requires
        n.consistent(),
    ensures
        (forall|b: SnapshotId| !#[trigger] n.can_be_baseline(b, s)) ==> n.baseline(s) is None,
        (exists|b: SnapshotId| #[trigger] n.can_be_baseline(b, s)) ==> exists|b: SnapshotId| #[trigger]
            n.is_latest_baseline(b, s),
        forall|b: SnapshotId| #[trigger]
            n.is_latest_baseline(b, s) ==> n.baseline(s) == Some(n.snapshots[b].gen),
{
    let set = Set::new(|b: SnapshotId| n.can_be_baseline(b, s));
    if forall|b: SnapshotId| !#[trigger] n.can_be_baseline(b, s) {
        assert(n.is_baseline(s, None));
    } else {
        let x = choose|b: SnapshotId| #[trigger] n.can_be_baseline(b, s);
        assert(set.contains(x));
        assert(set.subset_of(n.snapshots.dom()));
        vstd::set_lib::lemma_len_subset(set, n.snapshots.dom());
        let b = lemma_latest(n, set);
        assert(n.can_be_baseline(b, s));
        assert forall|o: SnapshotId| #[trigger] n.can_be_baseline(o, s) implies n.snapshots[o].gen.0
            <= n.snapshots[b].gen.0 by {
            assert(set.contains(o));
        }
        assert(n.is_latest_baseline(b, s));
        assert(n.is_baseline(s, Some(n.snapshots[b].gen)));
    }
    let g = n.baseline(s);
    assert(n.is_baseline(s, g));
    assert forall|b: SnapshotId| #[trigger] n.is_latest_baseline(b, s) implies g == Some(n.snapshots[b].gen) by {
        assert(n.can_be_baseline(b, s));
        let o = choose|o: SnapshotId| #[trigger] n.can_be_baseline(o, s) && Some(n.snapshots[o].gen) == g;
        assert(n.can_be_baseline(o, s));
    }
}

/// An export lists, strictly by key, exactly what the snapshot reads, or, if an
/// earlier snapshot of the same head was exported, what of it the latest such one
/// does not read the same. The snapshot then counts as exported.
pub proof fn law_export_lists_what_is_read(n: NamespaceView, snap: SnapshotId)
    requires
        n.consistent(),
        n.snapshots.contains_key(snap),
    ensures
        ({
            let (w, r) = n.export_manifest(snap);
            let m = r->Ok_0;
            &&& r is Ok
            &&& m.snapshot == snap
            &&& ascending(m.entries)
            &&& (forall|b: SnapshotId| !#[trigger] n.can_be_baseline(b, snap)) || (exists|b: SnapshotId| #[trigger]
                n.is_latest_baseline(b, snap))
            &&& (forall|b: SnapshotId| !#[trigger] n.can_be_baseline(b, snap)) ==> {
                &&& m.incremental_from is None
                &&& forall|k: Seq<u8>, e: ExtentId| #[trigger]
                    m.entries.contains((k, e)) <==> n.snapshot_reads(snap, k, e)
            }
            &&& forall|b: SnapshotId| #[trigger]
                n.is_latest_baseline(b, snap) ==> {
                    &&& m.incremental_from == Some(n.snapshots[b].gen)
                    &&& forall|k: Seq<u8>, e: ExtentId| #[trigger]
                        m.entries.contains((k, e)) <==> n.snapshot_reads(snap, k, e) && !n.snapshot_reads(b, k, e)
                }
            &&& w.snapshots.dom() == n.snapshots.dom()
            &&& w.snapshots[snap].exported
            &&& forall|s: SnapshotId| s != snap ==> #[trigger] w.snapshots[s] == n.snapshots[s]
        }),
{
    let (w, r) = n.export_manifest(snap);
    let m = r->Ok_0;
    let keys = sorted_map::in_order::<Vec<u8>>(n.versions.dom());
    <Vec<u8> as sorted_map::Key>::lemma_order();
    crate::order::lemma_ranking_exists(n.versions.dom(), sorted_map::key_order::<Vec<u8>>());
    lemma_entries_ascend(n, snap, keys, keys.len());
    lemma_baseline(n, snap);
    assert(keys.take(keys.len() as int) =~= keys);
    assert forall|k: Seq<u8>, e: ExtentId| #[trigger] m.entries.contains((k, e)) <==> n.snapshot_reads(snap, k, e)
        && n.exported(snap, k) == Some(e) by {
        lemma_entries_of(n, snap, keys, keys.len(), k, e);
        assert(n.versions.dom().contains(k) <==> keys.contains(k));
    }
    if forall|b: SnapshotId| !#[trigger] n.can_be_baseline(b, snap) {
        assert forall|k: Seq<u8>, e: ExtentId| #[trigger] m.entries.contains((k, e)) <==> n.snapshot_reads(
            snap,
            k,
            e,
        ) by {}
    }
    assert forall|b: SnapshotId| #[trigger] n.is_latest_baseline(b, snap) implies {
        &&& m.incremental_from == Some(n.snapshots[b].gen)
        &&& forall|k: Seq<u8>, e: ExtentId| #[trigger]
            m.entries.contains((k, e)) <==> n.snapshot_reads(snap, k, e) && !n.snapshot_reads(b, k, e)
    } by {
        assert(n.can_be_baseline(b, snap));
        assert forall|k: Seq<u8>, e: ExtentId| #[trigger] m.entries.contains((k, e)) <==> n.snapshot_reads(snap, k, e)
            && !n.snapshot_reads(b, k, e) by {}
    }
    assert(w.snapshots.dom() =~= n.snapshots.dom());
}

/// A new namespace has one head, the live one, which reads nothing under any key; it has
/// no snapshot, and nothing is referred to.
pub proof fn law_a_new_namespace_is_empty(key: Seq<u8>, head: HeadId, snap: SnapshotId, e: ExtentId)
    ensures
        ({
            let n = NamespaceView::empty();
            &&& n.get(HeadId(0), key) == Ok::<Option<ExtentId>, ErrorView>(None)
            &&& head.0 > 0 ==> n.get(head, key) is Err
            &&& n.get_at(snap, key) is Err
            &&& n.refcount(e) == 0
            &&& n.chain(key).len() == 0
        }),
{
}

/// Whoever asks for a head or a snapshot that is not there is told its number, and nothing
/// changes.
pub proof fn law_unknown_heads_and_snapshots_are_named(
    n: NamespaceView,
    head: HeadId,
    snap: SnapshotId,
    key: Seq<u8>,
    extent: Option<ExtentId>,
    name: Seq<char>,
)
    ensures
        !n.heads.contains_key(head) ==> {
            let e = ErrorView::Invalid("no head "@ + text::decimal(head.0 as nat));
            &&& n.get(head, key) == Err::<Option<ExtentId>, ErrorView>(e)
            &&& n.write(head, key, extent) == (n, Err::<(), ErrorView>(e))
            &&& n.create_snapshot(head, name) == (n, Err::<SnapshotId, ErrorView>(e))
        },
        !n.snapshots.contains_key(snap) ==> {
            let e = ErrorView::Invalid("no snapshot "@ + text::decimal(snap.0 as nat));
            &&& n.get_at(snap, key) == Err::<Option<ExtentId>, ErrorView>(e)
            &&& n.clone_from(snap) == (n, Err::<HeadId, ErrorView>(e))
            &&& n.delete_snapshot(snap) == (n, Err::<Seq<ExtentId>, ErrorView>(e))
            &&& n.export_manifest(snap) == (n, Err::<snapshot::ManifestView, ErrorView>(e))
        },
        n.heads.contains_key(head) ==> n.get(head, key) is Ok,
        n.snapshots.contains_key(snap) ==> n.get_at(snap, key) is Ok,
{
}

/// A write adds one version to the end of its key's, under the head's current generation,
/// and one reference to its extent, if it has one. No version changes, and nothing else
/// does.
pub proof fn law_a_write_adds_one_version(
    n: NamespaceView,
    head: HeadId,
    key: Seq<u8>,
    extent: Option<ExtentId>,
    other: Seq<u8>,
    e: ExtentId,
)
    requires
        n.heads.contains_key(head),
        n.refcount(e) < u32::MAX,
    ensures
        ({
            let (w, r) = n.write(head, key, extent);
            let was = n.chain(key);
            let now = w.chain(key);
            &&& r is Ok
            &&& now.len() == was.len() + 1
            &&& forall|i: int| 0 <= i < was.len() ==> #[trigger] now[i] == was[i]
            &&& now.last().gen == n.heads[head].gen && now.last().head == head && now.last().extent == extent
            &&& other != key ==> w.chain(other) == n.chain(other)
            &&& w.refcount(e) == n.refcount(e) + (if extent == Some(e) { 1int } else { 0int })
            &&& w.heads == n.heads && w.snapshots == n.snapshots
            &&& w.next_snapshot == n.next_snapshot && w.next_head == n.next_head && w.next_gen == n.next_gen
        }),
{
}

/// A snapshot has the next number, its head and name, and the generation that the head had;
/// the head goes on with a generation that nothing had. No other head and no other snapshot
/// changes.
pub proof fn law_a_snapshot_is_entered(
    n: NamespaceView,
    head: HeadId,
    name: Seq<char>,
    h: HeadId,
    s: SnapshotId,
)
    requires
        n.heads.contains_key(head),
        n.next_snapshot < u32::MAX,
        n.next_gen < u64::MAX,
    ensures
        ({
            let (w, r) = n.create_snapshot(head, name);
            let id = SnapshotId(n.next_snapshot);
            let entry = w.snapshots[id];
            &&& r == Ok::<SnapshotId, ErrorView>(id)
            &&& w.snapshots.contains_key(id)
            &&& entry.id == id && entry.head == head && entry.gen == n.heads[head].gen && entry.name == name
            &&& !entry.exported
            &&& w.heads[head].gen.0 == n.next_gen && w.heads[head].parent == n.heads[head].parent
            &&& w.heads.contains_key(h) <==> n.heads.contains_key(h)
            &&& h != head ==> w.heads[h] == n.heads[h]
            &&& s != id ==> (w.snapshots.contains_key(s) <==> n.snapshots.contains_key(s)) && w.snapshots[s]
                == n.snapshots[s]
            &&& w.next_snapshot == n.next_snapshot + 1 && w.next_gen == n.next_gen + 1 && w.next_head == n.next_head
        }),
{
}

/// A clone is a head with the next number and a generation that nothing had; it branches
/// off where its snapshot was taken. No other head and no snapshot changes.
pub proof fn law_a_clone_is_entered(n: NamespaceView, snap: SnapshotId, h: HeadId)
    requires
        n.snapshots.contains_key(snap),
        n.next_head < u32::MAX,
        n.next_gen < u64::MAX,
    ensures
        ({
            let (w, r) = n.clone_from(snap);
            let id = HeadId(n.next_head);
            &&& r == Ok::<HeadId, ErrorView>(id)
            &&& w.heads.contains_key(id)
            &&& w.heads[id].gen.0 == n.next_gen
            &&& w.heads[id].parent == Some((n.snapshots[snap].head, n.snapshots[snap].gen))
            &&& h != id ==> (w.heads.contains_key(h) <==> n.heads.contains_key(h)) && w.heads[h] == n.heads[h]
            &&& w.snapshots == n.snapshots
            &&& w.next_head == n.next_head + 1 && w.next_gen == n.next_gen + 1
            &&& w.next_snapshot == n.next_snapshot
        }),
{
}

/// What a look at a key sees. A head sees its own versions up to the generation of the
/// look, and what its parent sees up to that generation and to where it branched off. Of
/// those versions the last counts; if it is a deletion, or there is none, nothing is read.
pub proof fn law_the_last_visible_version_counts(
    n: NamespaceView,
    v: Version,
    view: HeadId,
    at: Generation,
    key: Seq<u8>,
    i: int,
)
    requires
        n.consistent(),
        n.heads.contains_key(view),
    ensures
        ({
            let inherited = match n.heads[view].parent {
                Some((p, f)) => n.visible(v, p, Generation(if at.0 <= f.0 { at.0 } else { f.0 })),
                None => false,
            };
            n.visible(v, view, at) <==> (v.head == view && v.gen.0 <= at.0) || inherited
        }),
        ({
            let chain = n.chain(key);
            &&& 0 <= i < chain.len() && n.visible(chain[i], view, at) && (forall|j: int|
                i < j < chain.len() ==> !n.visible(#[trigger] chain[j], view, at)) ==> n.resolve(key, view, at)
                == chain[i].extent
            &&& (forall|j: int| 0 <= j < chain.len() ==> !n.visible(#[trigger] chain[j], view, at)) ==> n.resolve(
                key,
                view,
                at,
            ) is None
        }),
        n.get(view, key) == Ok::<Option<ExtentId>, ErrorView>(n.resolve(key, view, n.heads[view].gen)),
        forall|s: SnapshotId| #[trigger]
            n.snapshots.contains_key(s) ==> n.get_at(s, key) == Ok::<Option<ExtentId>, ErrorView>(
                n.resolve(key, n.snapshots[s].head, n.snapshots[s].gen),
            ),
{
    assert(n.head_fits(view));
    let chain = n.chain(key);
    if 0 <= i < chain.len() && n.visible(chain[i], view, at) && (forall|j: int|
        i < j < chain.len() ==> !n.visible(#[trigger] chain[j], view, at)) {
        lemma_last_visible(n, chain, view, at, i);
    }
    if forall|j: int| 0 <= j < chain.len() ==> !n.visible(#[trigger] chain[j], view, at) {
        lemma_none_visible(n, chain, view, at);
    }
}

/// The last version that can be seen is the one that is found.
proof fn lemma_last_visible(n: NamespaceView, chain: Seq<Version>, view: HeadId, at: Generation, i: int)
    requires
        0 <= i < chain.len(),
        n.visible(chain[i], view, at),
        forall|j: int| i < j < chain.len() ==> !n.visible(#[trigger] chain[j], view, at),
    ensures
        n.seen(chain, view, at) == Some(chain[i]),
    decreases chain.len(),
{
    if i < chain.len() - 1 {
        assert(!n.visible(chain[chain.len() - 1], view, at));
        lemma_last_visible(n, chain.drop_last(), view, at, i);
    }
}

/// Where none can be seen, none is found.
proof fn lemma_none_visible(n: NamespaceView, chain: Seq<Version>, view: HeadId, at: Generation)
    requires
        forall|j: int| 0 <= j < chain.len() ==> !n.visible(#[trigger] chain[j], view, at),
    ensures
        n.seen(chain, view, at) is None,
    decreases chain.len(),
{
    if chain.len() > 0 {
        assert(!n.visible(chain[chain.len() - 1], view, at));
        lemma_none_visible(n, chain.drop_last(), view, at);
    }
}

/// Collecting keeps just the versions that count for some head, as it is now, or for some
/// snapshot: those that it sees and that no later version hides from it.
pub proof fn law_collect_keeps_what_counts(n: NamespaceView, key: Seq<u8>, v: Version)
    requires
        n.consistent(),
    ensures
        ({
            let w = n.collect().0;
            let chain = n.chain(key);
            let counts = |i: int, view: HeadId, at: Generation|
                {
                    &&& n.visible(chain[i], view, at)
                    &&& forall|j: int| i < j < chain.len() ==> !n.visible(#[trigger] chain[j], view, at)
                };
            &&& w.chain(key).contains(v) <==> exists|i: int|
                0 <= i < chain.len() && #[trigger] chain[i] == v && {
                    ||| exists|h: HeadId| #[trigger] n.heads.contains_key(h) && counts(i, h, n.heads[h].gen)
                    ||| exists|s: SnapshotId| #[trigger]
                        n.snapshots.contains_key(s) && counts(i, n.snapshots[s].head, n.snapshots[s].gen)
                }
            &&& w.heads == n.heads && w.snapshots == n.snapshots
            &&& w.next_snapshot == n.next_snapshot && w.next_head == n.next_head && w.next_gen == n.next_gen
        }),
{
    let w = n.collect().0;
    let chain = n.chain(key);
    let counts = |i: int, view: HeadId, at: Generation|
        {
            &&& n.visible(chain[i], view, at)
            &&& forall|j: int| i < j < chain.len() ==> !n.visible(#[trigger] chain[j], view, at)
        };
    let due = |i: int|
        {
            ||| exists|h: HeadId| #[trigger] n.heads.contains_key(h) && counts(i, h, n.heads[h].gen)
            ||| exists|s: SnapshotId| #[trigger]
                n.snapshots.contains_key(s) && counts(i, n.snapshots[s].head, n.snapshots[s].gen)
        };
    assert forall|i: int| 0 <= i < chain.len() implies (#[trigger] n.needed(chain, i) <==> due(i)) by {
        if n.needed(chain, i) {
            let x = choose|x: (HeadId, Generation)| #[trigger]
                n.views().contains(x) && n.found(chain, i, x.0, x.1);
            if n.heads.contains_key(x.0) && n.heads[x.0].gen == x.1 {
                assert(n.heads.contains_key(x.0) && counts(i, x.0, n.heads[x.0].gen));
            } else {
                let s = choose|s: SnapshotId| #[trigger]
                    n.snapshots.contains_key(s) && n.snapshots[s].head == x.0 && n.snapshots[s].gen == x.1;
                assert(n.snapshots.contains_key(s) && counts(i, n.snapshots[s].head, n.snapshots[s].gen));
            }
        }
        if exists|h: HeadId| #[trigger] n.heads.contains_key(h) && counts(i, h, n.heads[h].gen) {
            let h = choose|h: HeadId| #[trigger] n.heads.contains_key(h) && counts(i, h, n.heads[h].gen);
            let x = (h, n.heads[h].gen);
            assert(n.views().contains(x) && n.found(chain, i, x.0, x.1));
        }
        if exists|s: SnapshotId| #[trigger]
            n.snapshots.contains_key(s) && counts(i, n.snapshots[s].head, n.snapshots[s].gen) {
            let s = choose|s: SnapshotId| #[trigger]
                n.snapshots.contains_key(s) && counts(i, n.snapshots[s].head, n.snapshots[s].gen);
            let x = (n.snapshots[s].head, n.snapshots[s].gen);
            assert(n.views().contains(x) && n.found(chain, i, x.0, x.1));
        }
    }
    lemma_kept_are_needed(n, chain, chain.len(), v);
    assert(w.chain(key) == n.kept(chain, chain.len())) by {
        if n.versions.contains_key(key) {
            if n.remaining(key).len() == 0 {
                assert(w.chain(key) =~= n.remaining(key));
            }
        } else {
            assert(chain.len() == 0);
            assert(w.chain(key) =~= n.kept(chain, chain.len()));
        }
    }
    if w.chain(key).contains(v) {
        let i = choose|i: int| 0 <= i < chain.len() && n.needed(chain, i) && #[trigger] chain[i] == v;
        assert(due(i));
    }
    if exists|i: int| 0 <= i < chain.len() && #[trigger] chain[i] == v && due(i) {
        let i = choose|i: int| 0 <= i < chain.len() && #[trigger] chain[i] == v && due(i);
        assert(n.needed(chain, i) && chain[i] == v);
    }
}

/// What is kept of a chain are the versions that some view finds.
proof fn lemma_kept_are_needed(n: NamespaceView, chain: Seq<Version>, m: nat, v: Version)
    requires
        m <= chain.len(),
    ensures
        n.kept(chain, m).contains(v) <==> exists|i: int|
            0 <= i < m && n.needed(chain, i) && #[trigger] chain[i] == v,
    decreases m,
{
    if m > 0 {
        let k = (m - 1) as nat;
        lemma_kept_are_needed(n, chain, k, v);
        let rest = n.kept(chain, k);
        let all = n.kept(chain, m);
        if all.contains(v) {
            let i = choose|i: int| 0 <= i < all.len() && all[i] == v;
            if i < rest.len() {
                assert(rest[i] == v);
                assert(rest.contains(v));
                let j = choose|j: int| 0 <= j < k && n.needed(chain, j) && #[trigger] chain[j] == v;
                assert(0 <= j < m && n.needed(chain, j) && chain[j] == v);
            } else {
                assert(chain[k as int] == v);
            }
        }
        if exists|i: int| 0 <= i < m && n.needed(chain, i) && #[trigger] chain[i] == v {
            let i = choose|i: int| 0 <= i < m && n.needed(chain, i) && #[trigger] chain[i] == v;
            if i == k {
                assert(all[rest.len() as int] == v);
            } else {
                assert(0 <= i < k && n.needed(chain, i) && chain[i] == v);
                let j = choose|j: int| 0 <= j < rest.len() && rest[j] == v;
                assert(all[j] == v);
            }
        }
    }
}

/// What an export is relative to: the latest generation, before that of the snapshot, of a
/// snapshot of the same head that was exported; if there is none, the export is complete.
pub proof fn law_exports_build_on_the_latest_one(n: NamespaceView, snap: SnapshotId, b: SnapshotId)
    requires
        n.consistent(),
        n.snapshots.contains_key(snap),
    ensures
        ({
            let m = n.export_manifest(snap).1->Ok_0;
            let s = n.snapshots[snap];
            let other = n.snapshots[b];
            let fit = n.snapshots.contains_key(b) && other.head == s.head && other.gen.0 < s.gen.0 && other.exported;
            &&& fit ==> (m.incremental_from matches Some(g) && other.gen.0 <= g.0)
            &&& m.incremental_from matches Some(g) ==> exists|o: SnapshotId|
                {
                    &&& #[trigger] n.snapshots.contains_key(o)
                    &&& n.snapshots[o].head == s.head
                    &&& n.snapshots[o].gen == g
                    &&& g.0 < s.gen.0
                    &&& n.snapshots[o].exported
                }
        }),
{
    law_export_lists_what_is_read(n, snap);
    let m = n.export_manifest(snap).1->Ok_0;
    if n.can_be_baseline(b, snap) {
        let l = choose|l: SnapshotId| #[trigger] n.is_latest_baseline(l, snap);
        assert(m.incremental_from == Some(n.snapshots[l].gen));
    }
    if m.incremental_from is Some {
        if forall|x: SnapshotId| !#[trigger] n.can_be_baseline(x, snap) {
            assert(m.incremental_from is None);
        }
        let l = choose|l: SnapshotId| #[trigger] n.is_latest_baseline(l, snap);
        assert(m.incremental_from == Some(n.snapshots[l].gen));
        assert(n.can_be_baseline(l, snap));
        assert(n.snapshots.contains_key(l));
    }
}

/// An export only marks its snapshot: that is still of the same head, generation and name.
pub proof fn law_an_export_marks_its_snapshot(n: NamespaceView, snap: SnapshotId)
    requires
        n.snapshots.contains_key(snap),
    ensures
        ({
            let w = n.export_manifest(snap).0;
            let (a, b) = (n.snapshots[snap], w.snapshots[snap]);
            &&& b.exported && b.id == a.id && b.head == a.head && b.gen == a.gen && b.name == a.name
            &&& w.versions == n.versions && w.heads == n.heads && w.refcounts == n.refcounts
            &&& w.next_snapshot == n.next_snapshot && w.next_head == n.next_head && w.next_gen == n.next_gen
        }),
{
}

} // verus!
