//! Metadata in buckets.
//!
//! - A hash of the key finds its bucket.
//! - Each bucket has one writer: a journal first, then the tree. Both live in the
//!   shared pool, apart from the process that runs the bucket.
//! - Taking a bucket over means a new epoch, which fences the old writer off, and
//!   replaying the journal. No data moves.

use vstd::prelude::*;

use crate::bytes;
use crate::order;
use crate::sorted_map;
use crate::sorted_map::{Key, SortedMap};
use crate::types;
use crate::types::{BucketId, CNodeId, Error, ErrorView, MetaKey, MetaKeyView};

verus! {

/// Finds the bucket of a key.
#[derive(Debug, Clone)]
pub struct BucketRouter {
    bucket_count: u32,
}

/// The bucket of a key, among `buckets`.
pub open spec fn bucket_of(key: MetaKeyView, buckets: u32) -> BucketId {
    BucketId((types::route_hash_of(key) % (buckets as u64)) as u32)
}

impl BucketRouter {
    pub closed spec fn buckets(&self) -> u32 {
        self.bucket_count
    }

    /// There is at least one bucket.
    pub open spec fn wf(&self) -> bool {
        self.buckets() > 0
    }

    pub fn new(bucket_count: u32) -> (r: Self)
        ensures
            r.wf(),
            r.buckets() == (if bucket_count == 0 { 1 } else { bucket_count }),
    {
        BucketRouter { bucket_count: if bucket_count == 0 { 1 } else { bucket_count } }
    }

    pub fn route(&self, key: &MetaKey) -> (b: BucketId)
        requires
            self.wf(),
        ensures
            b == bucket_of(key@, self.buckets()),
            b.0 < self.buckets(),
    {
        BucketId((key.route_hash() % (self.bucket_count as u64)) as u32)
    }

    pub fn bucket_count(&self) -> (n: u32)
        ensures
            n == self.buckets(),
    {
        self.bucket_count
    }
}

/// However many buckets there are, every key has one of them: the remainder of its
/// hash, the same wherever there are as many.
pub proof fn law_every_key_has_a_bucket(key: MetaKeyView, buckets: u32)
    requires
        buckets > 0,
    ensures
        bucket_of(key, buckets).0 == types::route_hash_of(key) % (buckets as u64),
        bucket_of(key, buckets).0 < buckets,
{
}

/// One write to a bucket, as the journal keeps it.
#[derive(Debug, Clone, PartialEq, Eq)]
pub enum JournalRecord {
    Put { key: MetaKey, value: Vec<u8> },
    Delete { key: MetaKey },
}

/// A journal record as a value.
pub enum RecordView {
    Put { key: MetaKeyView, value: Seq<u8> },
    Delete { key: MetaKeyView },
}

impl View for JournalRecord {
    type V = RecordView;

    open spec fn view(&self) -> RecordView {
        match self {
            JournalRecord::Put { key, value } => RecordView::Put { key: key@, value: value@ },
            JournalRecord::Delete { key } => RecordView::Delete { key: key@ },
        }
    }
}

/// The contents of a bucket.
pub type Entries = Map<MetaKeyView, Seq<u8>>;

/// The entries after one write.
pub open spec fn after_record(entries: Entries, record: RecordView) -> Entries {
    match record {
        RecordView::Put { key, value } => entries.insert(key, value),
        RecordView::Delete { key } => entries.remove(key),
    }
}

/// The entries after the writes of a journal.
pub open spec fn replay(entries: Entries, journal: Seq<RecordView>) -> Entries
    decreases journal.len(),
{
    if journal.len() == 0 {
        entries
    } else {
        after_record(replay(entries, journal.drop_last()), journal.last())
    }
}

/// What the shared pool holds of a bucket.
pub struct StateView {
    /// The entries as of the last checkpoint.
    pub btree: Entries,
    /// The writes since.
    pub journal: Seq<RecordView>,
    /// The epoch that may write.
    pub fenced_epoch: u64,
}

impl StateView {
    pub open spec fn empty() -> StateView {
        StateView { btree: Map::empty(), journal: Seq::empty(), fenced_epoch: 0 }
    }

    /// What a process that takes over will find.
    pub open spec fn recoverable(self) -> Entries {
        replay(self.btree, self.journal)
    }
}

/// A process that runs a bucket.
pub struct ProcessView {
    pub id: BucketId,
    pub owner: CNodeId,
    pub epoch: u64,
    pub entries: Entries,
}

/// Whether a key is one of those a listing is of: of the same tenant, starting
/// with the prefix.
pub open spec fn listed(key: MetaKeyView, prefix: MetaKeyView) -> bool {
    key.tenant == prefix.tenant && bytes::starts_with(key.key, prefix.key)
}

impl ProcessView {
    pub open spec fn take_over(id: BucketId, owner: CNodeId, shared: StateView) -> (ProcessView, StateView) {
        let epoch = (shared.fenced_epoch + 1) as u64;
        (
            ProcessView { id, owner, epoch, entries: shared.recoverable() },
            StateView { fenced_epoch: epoch, ..shared },
        )
    }

    /// Whether the process may write.
    pub open spec fn current(self, shared: StateView) -> bool {
        self.epoch == shared.fenced_epoch
    }

    /// Writing: refused, without any change, unless the epoch is the current one.
    pub open spec fn append(self, shared: StateView, record: RecordView) -> (
        ProcessView,
        StateView,
        Result<(), ErrorView>,
    ) {
        if !self.current(shared) {
            (self, shared, Err(ErrorView::Fenced { bucket: self.id }))
        } else {
            (
                ProcessView { entries: after_record(self.entries, record), ..self },
                StateView { journal: shared.journal.push(record), ..shared },
                Ok(()),
            )
        }
    }

    pub open spec fn checkpoint(self, shared: StateView) -> (StateView, Result<(), ErrorView>) {
        if !self.current(shared) {
            (shared, Err(ErrorView::Fenced { bucket: self.id }))
        } else {
            (StateView { btree: self.entries, journal: Seq::empty(), ..shared }, Ok(()))
        }
    }

    /// The keys of the prefix's tenant that start with the prefix, in order.
    pub open spec fn keys_under(self, prefix: MetaKeyView) -> Seq<MetaKeyView> {
        sorted_map::in_order::<MetaKey>(
            Set::new(|k: MetaKeyView| self.entries.contains_key(k) && listed(k, prefix)),
        )
    }

    /// At most `limit` of them.
    pub open spec fn list(self, prefix: MetaKeyView, limit: nat) -> Seq<MetaKeyView> {
        let all = self.keys_under(prefix);
        if all.len() <= limit {
            all
        } else {
            all.take(limit as int)
        }
    }
}

/// What the shared pool holds of a bucket: any node can see it, so state and
/// process are apart.
#[derive(Debug)]
pub struct SharedState {
    btree: SortedMap<MetaKey, Vec<u8>>,
    journal: Vec<JournalRecord>,
    fenced_epoch: u64,
}

/// A tree as a value.
spec fn tree_view(tree: SortedMap<MetaKey, Vec<u8>>) -> Entries {
    tree@.map_values(|v: Vec<u8>| v@)
}

impl View for SharedState {
    type V = StateView;

    closed spec fn view(&self) -> StateView {
        StateView {
            btree: tree_view(self.btree),
            journal: self.journal@.map_values(|r: JournalRecord| r@),
            fenced_epoch: self.fenced_epoch,
        }
    }
}

impl SharedState {
    pub closed spec fn wf(&self) -> bool {
        self.btree.wf()
    }
}

impl Default for SharedState {
    fn default() -> (r: Self)
        ensures
            r.wf(),
            r@ == StateView::empty(),
    {
        let r = SharedState { btree: SortedMap::new(), journal: Vec::new(), fenced_epoch: 0 };
        assert(r@.btree =~= Map::empty());
        assert(r@.journal =~= Seq::empty());
        r
    }
}

/// The process that runs a bucket: its single writer.
#[derive(Debug)]
pub struct BucketProcess {
    pub id: BucketId,
    pub owner: CNodeId,
    epoch: u64,
    view: SortedMap<MetaKey, Vec<u8>>,
}

impl View for BucketProcess {
    type V = ProcessView;

    closed spec fn view(&self) -> ProcessView {
        ProcessView { id: self.id, owner: self.owner, epoch: self.epoch, entries: tree_view(self.view) }
    }
}

/// A copy of a tree.
fn copy_tree(tree: &SortedMap<MetaKey, Vec<u8>>) -> (r: SortedMap<MetaKey, Vec<u8>>)
    requires
        tree.wf(),
    ensures
        r.wf(),
        tree_view(r) == tree_view(*tree),
{
    let mut r: SortedMap<MetaKey, Vec<u8>> = SortedMap::new();
    let mut i: usize = 0;
    let ghost ks = tree.keys();
    while i < tree.len()
        invariant
            tree.wf(),
            r.wf(),
            ks == tree.keys(),
            i <= ks.len(),
            forall|k: MetaKeyView| #[trigger]
                r@.contains_key(k) <==> exists|j: int| 0 <= j < i && #[trigger] ks[j] == k,
            forall|k: MetaKeyView| #[trigger] r@.contains_key(k) ==> tree@.contains_key(k) && r@[k]@ == tree@[k]@,
        decreases ks.len() - i,
    {
        proof {
            tree.lemma_entries();
        }
        let key: &MetaKey = tree.key_at(i);
        let value: &Vec<u8> = tree.value_at(i);
        let ghost before = r@;
        assert(tree@[ks[i as int]] == value);
        r.insert(key.clone(), bytes::copy_bytes(value.as_slice()));
        proof {
            assert forall|k: MetaKeyView| #[trigger] r@.contains_key(k) <==> exists|j: int|
                0 <= j < i + 1 && #[trigger] ks[j] == k by {
                if r@.contains_key(k) {
                    if before.contains_key(k) {
                        let j = choose|j: int| 0 <= j < i && #[trigger] ks[j] == k;
                        assert(0 <= j < i + 1 && ks[j] == k);
                    } else {
                        assert(ks[i as int] == k);
                    }
                }
                if exists|j: int| 0 <= j < i + 1 && #[trigger] ks[j] == k {
                    let j = choose|j: int| 0 <= j < i + 1 && #[trigger] ks[j] == k;
                    if j < i {
                        assert(before.contains_key(k));
                    }
                }
            }
        }
        i += 1;
    }
    proof {
        tree.lemma_entries();
        assert forall|k: MetaKeyView| #[trigger] r@.contains_key(k) <==> tree@.contains_key(k) by {
            if tree@.contains_key(k) {
                let j = choose|j: int| 0 <= j < ks.len() && ks[j] == k;
                assert(ks[j] == k);
            }
        }
        assert(tree_view(r) =~= tree_view(*tree));
    }
    r
}

/// Makes one write to a tree.
fn write_to(tree: &mut SortedMap<MetaKey, Vec<u8>>, record: &JournalRecord)
    requires
        old(tree).wf(),
    ensures
        final(tree).wf(),
        tree_view(*final(tree)) == after_record(tree_view(*old(tree)), record@),
{
    let ghost before = tree_view(*tree);
    match record {
        JournalRecord::Put { key, value } => {
            tree.insert(key.clone(), bytes::copy_bytes(value.as_slice()));
            assert(tree_view(*tree) =~= before.insert(key@, value@));
        },
        JournalRecord::Delete { key } => {
            tree.remove(key);
            assert(tree_view(*tree) =~= before.remove(key@));
        },
    }
}

impl BucketProcess {
    /// The tree of entries is well-formed.
    pub closed spec fn parts_wf(&self) -> bool {
        self.view.wf()
    }

    pub open spec fn wf(&self) -> bool {
        self.parts_wf() && self@.entries.dom().finite()
    }

    /// A tree has finitely many entries.
    proof fn lemma_finite(&self)
        requires
            self.parts_wf(),
        ensures
            self@.entries.dom().finite(),
    {
        self.view.lemma_entries();
        assert(self@.entries.dom() =~= self.view@.dom());
    }

    /// Takes a bucket over, or starts it: moves the epoch on, so that the old
    /// writer is refused from now on, and rebuilds the entries from checkpoint
    /// and journal. No data moves.
    pub fn take_over(id: BucketId, owner: CNodeId, shared: &mut SharedState) -> (r: Self)
        requires
            old(shared).wf(),
            old(shared)@.fenced_epoch < u64::MAX,
        ensures
            r.wf(),
            final(shared).wf(),
            (r@, final(shared)@) == ProcessView::take_over(id, owner, old(shared)@),
    {
        let ghost start = shared@;
        shared.fenced_epoch = shared.fenced_epoch + 1;
        let mut view = copy_tree(&shared.btree);
        let mut i: usize = 0;
        let ghost plain = |r: JournalRecord| r@;
        let ghost js = shared.journal@.map_values(plain);
        assert(js.take(0) =~= Seq::empty());
        while i < shared.journal.len()
            invariant
                shared.wf(),
                view.wf(),
                i <= shared.journal@.len(),
                plain == (|r: JournalRecord| r@),
                js == shared.journal@.map_values(plain),
                tree_view(view) == replay(start.btree, js.take(i as int)),
            decreases shared.journal.len() - i,
        {
            write_to(&mut view, &shared.journal[i]);
            proof {
                assert(js.take(i + 1).drop_last() =~= js.take(i as int));
                assert(js.take(i + 1).last() == js[i as int]);
            }
            i += 1;
        }
        assert(js.take(js.len() as int) =~= js);
        let r = BucketProcess { id, owner, epoch: shared.fenced_epoch, view };
        proof {
            r.lemma_finite();
        }
        r
    }

    /// Appends a record to the journal and makes the write, unless a newer epoch
    /// has fenced this process off.
    fn append(&mut self, shared: &mut SharedState, record: JournalRecord) -> (r: Result<(), Error>)
        requires
            old(self).wf(),
            old(shared).wf(),
        ensures
            final(self).wf(),
            final(shared).wf(),
            (final(self)@, final(shared)@, types::outcome(r)) == old(self)@.append(old(shared)@, record@),
    {
        if self.epoch != shared.fenced_epoch {
            return Err(Error::Fenced { bucket: self.id });
        }
        let ghost js = shared@.journal;
        write_to(&mut self.view, &record);
        let ghost rec = record@;
        shared.journal.push(record);
        assert(shared@.journal =~= js.push(rec));
        proof {
            self.lemma_finite();
        }
        Ok(())
    }

    pub fn put(&mut self, shared: &mut SharedState, key: MetaKey, value: Vec<u8>) -> (r: Result<(), Error>)
        requires
            old(self).wf(),
            old(shared).wf(),
        ensures
            final(self).wf(),
            final(shared).wf(),
            (final(self)@, final(shared)@, types::outcome(r)) == old(self)@.append(
                old(shared)@,
                (RecordView::Put { key: key@, value: value@ }),
            ),
    {
        self.append(shared, JournalRecord::Put { key, value })
    }

    pub fn delete(&mut self, shared: &mut SharedState, key: MetaKey) -> (r: Result<(), Error>)
        requires
            old(self).wf(),
            old(shared).wf(),
        ensures
            final(self).wf(),
            final(shared).wf(),
            (final(self)@, final(shared)@, types::outcome(r)) == old(self)@.append(
                old(shared)@,
                (RecordView::Delete { key: key@ }),
            ),
    {
        self.append(shared, JournalRecord::Delete { key })
    }

    pub fn get(&self, key: &MetaKey) -> (r: Option<&Vec<u8>>)
        requires
            self.wf(),
        ensures
            match r {
                Some(v) => self@.entries.contains_key(key@) && self@.entries[key@] == v@,
                None => !self@.entries.contains_key(key@),
            },
    {
        self.view.get(key)
    }

    /// Lists keys by prefix, in order. Keys of other tenants never come in.
    pub fn list(&self, tenant_prefix: &MetaKey, limit: usize) -> (r: Vec<&MetaKey>)
        requires
            self.wf(),
        ensures
            r@.map_values(|k: &MetaKey| k@) == self@.list(tenant_prefix@, limit as nat),
    {
        let ghost prefix = tenant_prefix@;
        let ghost ks = self.view.keys();
        let start: usize = self.view.lower_bound(tenant_prefix);
        proof {
            self.view.lemma_entries();
        }
        let ghost end = lemma_run_of_prefix(ks, prefix, start as int);
        let ghost run = ks.subrange(start as int, end);
        let ghost plain = |k: &MetaKey| k@;
        proof {
            assert(self@.entries.dom() =~= self.view@.dom());
            lemma_run_is_listing(self@, ks, prefix, start as int, end);
        }
        let mut r: Vec<&MetaKey> = Vec::new();
        let mut i: usize = start;
        assert(r@.map_values(plain) =~= run.take(0));
        while i < self.view.len() && r.len() < limit
            invariant
                self.wf(),
                prefix == tenant_prefix@,
                ks == self.view.keys(),
                start <= i <= end <= ks.len(),
                run == ks.subrange(start as int, end),
                run == self@.keys_under(prefix),
                forall|j: int| start <= j < end ==> listed(#[trigger] ks[j], prefix),
                end < ks.len() ==> !listed(ks[end], prefix),
                plain == (|k: &MetaKey| k@),
                r@.len() == i - start,
                r@.len() <= limit,
                r@.map_values(plain) == run.take(i - start),
            decreases ks.len() - i,
        {
            let k: &MetaKey = self.view.key_at(i);
            if k.tenant.0 != tenant_prefix.tenant.0 || !bytes::has_prefix(
                k.key.as_slice(),
                tenant_prefix.key.as_slice(),
            ) {
                assert(!listed(ks[i as int], prefix));
                assert(i == end);
                assert(run.take(i - start) =~= run);
                return r;
            }
            assert(listed(ks[i as int], prefix));
            assert(i < end);
            let ghost before = r@;
            r.push(k);
            assert(run.take(i + 1 - start) =~= run.take(i - start).push(ks[i as int]));
            assert(r@.map_values(plain) =~= before.map_values(plain).push(k@));
            i += 1;
        }
        proof {
            if run.len() <= limit {
                if i < ks.len() {
                    assert(r@.len() == limit);
                }
                assert(i == end);
                assert(run.take(i - start) =~= run);
            }
        }
        r
    }

    /// Merges the journal into the tree and cuts it off.
    pub fn checkpoint(&mut self, shared: &mut SharedState) -> (r: Result<(), Error>)
        requires
            old(self).wf(),
            old(shared).wf(),
        ensures
            final(self).wf(),
            final(shared).wf(),
            final(self)@ == old(self)@,
            (final(shared)@, types::outcome(r)) == old(self)@.checkpoint(old(shared)@),
    {
        if self.epoch != shared.fenced_epoch {
            return Err(Error::Fenced { bucket: self.id });
        }
        shared.btree = copy_tree(&self.view);
        shared.journal = Vec::new();
        assert(shared@.journal =~= Seq::empty());
        Ok(())
    }

    pub fn entry_count(&self) -> (n: usize)
        requires
            self.wf(),
        ensures
            n == self@.entries.dom().len(),
    {
        assert(self@.entries.dom() =~= self.view@.dom());
        self.view.len()
    }
}

/// Where the run of keys with a prefix ends: they stand together.
proof fn lemma_run_of_prefix(ks: Seq<MetaKeyView>, prefix: MetaKeyView, start: int) -> (end: int)
    requires
        0 <= start <= ks.len(),
        order::ascending(ks, sorted_map::key_order::<MetaKey>()),
        forall|j: int| 0 <= j < start ==> types::meta_less(#[trigger] ks[j], prefix),
        forall|j: int| start <= j < ks.len() ==> !types::meta_less(#[trigger] ks[j], prefix),
    ensures
        start <= end <= ks.len(),
        forall|j: int| start <= j < end ==> listed(#[trigger] ks[j], prefix),
        forall|j: int| end <= j < ks.len() ==> !listed(#[trigger] ks[j], prefix),
        forall|j: int| 0 <= j < start ==> !listed(#[trigger] ks[j], prefix),
{
    let lt = sorted_map::key_order::<MetaKey>();
    assert forall|j: int| 0 <= j < start implies !listed(#[trigger] ks[j], prefix) by {
        if listed(ks[j], prefix) {
            bytes::lemma_prefix_first(prefix.key, ks[j].key);
        }
    }
    let end = lemma_first_unlisted(ks, prefix, start);
    assert forall|j: int| end <= j < ks.len() implies !listed(#[trigger] ks[j], prefix) by {
        if end < j && listed(ks[j], prefix) {
            assert(lt(ks[end], ks[j]));
            assert(!types::meta_less(ks[end], prefix));
            bytes::lemma_prefix_contiguous(prefix.key, ks[end].key, ks[j].key);
        }
    }
    end
}

/// The first key from `start` on that is not listed.
proof fn lemma_first_unlisted(ks: Seq<MetaKeyView>, prefix: MetaKeyView, start: int) -> (end: int)
    requires
        0 <= start <= ks.len(),
    ensures
        start <= end <= ks.len(),
        forall|j: int| start <= j < end ==> listed(#[trigger] ks[j], prefix),
        end < ks.len() ==> !listed(ks[end], prefix),
    decreases ks.len() - start,
{
    if start < ks.len() && listed(ks[start], prefix) {
        lemma_first_unlisted(ks, prefix, start + 1)
    } else {
        start
    }
}

/// The run of keys with a prefix is the whole listing.
proof fn lemma_run_is_listing(p: ProcessView, ks: Seq<MetaKeyView>, prefix: MetaKeyView, start: int, end: int)
    requires
        0 <= start <= end <= ks.len(),
        order::is_ranking(ks, p.entries.dom(), sorted_map::key_order::<MetaKey>()),
        forall|j: int| start <= j < end ==> listed(#[trigger] ks[j], prefix),
        forall|j: int| end <= j < ks.len() ==> !listed(#[trigger] ks[j], prefix),
        forall|j: int| 0 <= j < start ==> !listed(#[trigger] ks[j], prefix),
    ensures
        ks.subrange(start, end) == p.keys_under(prefix),
{
    let run = ks.subrange(start, end);
    let lt = sorted_map::key_order::<MetaKey>();
    let set = Set::new(|k: MetaKeyView| p.entries.contains_key(k) && listed(k, prefix));
    MetaKey::lemma_order();
    assert forall|i: int, j: int| 0 <= i < j < run.len() implies #[trigger] lt(run[i], run[j]) by {
        assert(lt(ks[start + i], ks[start + j]));
    }
    assert forall|k: MetaKeyView| #[trigger] set.contains(k) <==> run.contains(k) by {
        if set.contains(k) {
            assert(p.entries.dom().contains(k));
            let j = choose|j: int| 0 <= j < ks.len() && ks[j] == k;
            assert(listed(ks[j], prefix));
            assert(run[j - start] == k);
        }
        if run.contains(k) {
            let j = choose|j: int| 0 <= j < run.len() && run[j] == k;
            assert(listed(ks[start + j], prefix));
            assert(ks.contains(ks[start + j]));
        }
    }
    order::lemma_is_the_ranking(run, set, lt);
}

/// Whether a process that may write knows everything that was written.
pub open spec fn in_step(p: ProcessView, shared: StateView) -> bool {
    p.current(shared) ==> p.entries == shared.recoverable()
}

/// A write that succeeds is what a read then finds; no other key changes.
pub proof fn law_read_your_write(p: ProcessView, shared: StateView, record: RecordView, other: MetaKeyView)
    requires
        p.current(shared),
    ensures
        ({
            let (q, after, r) = p.append(shared, record);
            &&& r is Ok
            &&& match record {
                RecordView::Put { key, value } => {
                    &&& q.entries.contains_key(key) && q.entries[key] == value
                    &&& other != key ==> (q.entries.contains_key(other) <==> p.entries.contains_key(other))
                        && q.entries[other] == p.entries[other]
                },
                RecordView::Delete { key } => {
                    &&& !q.entries.contains_key(key)
                    &&& other != key ==> (q.entries.contains_key(other) <==> p.entries.contains_key(other)) && (
                    p.entries.contains_key(other) ==> q.entries[other] == p.entries[other])
                },
            }
        }),
{
}

/// Taking over puts a process in step, and its writes and checkpoints keep it
/// there.
pub proof fn law_writer_stays_in_step(
    id: BucketId,
    owner: CNodeId,
    p: ProcessView,
    shared: StateView,
    record: RecordView,
)
    requires
        in_step(p, shared),
    ensures
        ({
            let (q, after) = ProcessView::take_over(id, owner, shared);
            in_step(q, after)
        }),
        ({
            let (q, after, r) = p.append(shared, record);
            in_step(q, after)
        }),
        in_step(p, p.checkpoint(shared).0),
{
    assert(shared.journal.push(record).drop_last() =~= shared.journal);
}

/// A failover loses nothing and moves nothing: the new process has the entries of
/// the old one, from the shared state alone.
pub proof fn law_failover_loses_nothing(id: BucketId, owner: CNodeId, old_writer: ProcessView, shared: StateView)
    requires
        old_writer.current(shared),
        in_step(old_writer, shared),
    ensures
        ({
            let (q, after) = ProcessView::take_over(id, owner, shared);
            &&& q.entries == old_writer.entries
            &&& after.btree == shared.btree
            &&& after.journal == shared.journal
        }),
{
}

/// Once a bucket has been taken over, its old writers are refused: neither a
/// write nor a checkpoint of theirs changes anything.
pub proof fn law_zombie_is_fenced(
    id: BucketId,
    owner: CNodeId,
    zombie: ProcessView,
    shared: StateView,
    record: RecordView,
)
    requires
        shared.fenced_epoch < u64::MAX,
        zombie.epoch <= shared.fenced_epoch,
    ensures
        ({
            let (q, after) = ProcessView::take_over(id, owner, shared);
            let fenced = Err::<(), ErrorView>(ErrorView::Fenced { bucket: zombie.id });
            &&& zombie.append(after, record) == (zombie, after, fenced)
            &&& zombie.checkpoint(after) == (after, fenced)
        }),
{
}

/// A checkpoint does not change what can be recovered; it only empties the
/// journal.
pub proof fn law_checkpoint_keeps_everything(p: ProcessView, shared: StateView)
    requires
        in_step(p, shared),
    ensures
        p.checkpoint(shared).0.recoverable() == shared.recoverable(),
        p.current(shared) ==> p.checkpoint(shared).0.journal.len() == 0,
{
}

/// A listing holds keys of the one tenant, with the prefix, each once, in order;
/// and all of them, unless the limit cut it short: what it leaves out comes after
/// everything that it holds.
pub proof fn law_listing(p: ProcessView, prefix: MetaKeyView, limit: nat, key: MetaKeyView)
    requires
        p.entries.dom().finite(),
    ensures
        ({
            let r = p.list(prefix, limit);
            &&& r.len() <= limit
            &&& r.contains(key) ==> p.entries.contains_key(key) && listed(key, prefix) && key.tenant == prefix.tenant
            &&& r.len() < limit && p.entries.contains_key(key) && listed(key, prefix) ==> r.contains(key)
            &&& order::ascending(r, sorted_map::key_order::<MetaKey>())
            &&& p.entries.contains_key(key) && listed(key, prefix) && !r.contains(key) ==> {
                &&& r.len() == limit
                &&& forall|i: int| 0 <= i < r.len() ==> sorted_map::key_order::<MetaKey>()(#[trigger] r[i], key)
            }
        }),
{
    let set = Set::new(|k: MetaKeyView| p.entries.contains_key(k) && listed(k, prefix));
    let lt = sorted_map::key_order::<MetaKey>();
    MetaKey::lemma_order();
    assert(set.subset_of(p.entries.dom()));
    vstd::set_lib::lemma_len_subset(set, p.entries.dom());
    order::lemma_ranking_exists(set, lt);
    let all = p.keys_under(prefix);
    let r = p.list(prefix, limit);
    if r.contains(key) {
        let i = choose|i: int| 0 <= i < r.len() && r[i] == key;
        assert(all[i] == key);
        assert(all.contains(key));
        assert(set.contains(key));
    }
    if p.entries.contains_key(key) && listed(key, prefix) {
        assert(set.contains(key));
        assert(all.contains(key));
        let n = choose|n: int| 0 <= n < all.len() && all[n] == key;
        if n < r.len() {
            assert(r[n] == key);
        }
        assert forall|i: int| 0 <= i < r.len() && !r.contains(key) implies lt(#[trigger] r[i], key) by {
            assert(lt(all[i], all[n]));
        }
    }
    assert forall|i: int, j: int| 0 <= i < j < r.len() implies #[trigger] lt(r[i], r[j]) by {
        assert(lt(all[i], all[j]));
    }
}

/// Writing is open to the process that has the current epoch, and to no other. A write
/// goes to the end of the journal as it is, and into the entries of the process; what was
/// journalled before, the last checkpoint and the epoch stay. A refusal names the bucket.
pub proof fn law_a_write_is_journalled(p: ProcessView, shared: StateView, record: RecordView)
    ensures
        ({
            let (q, after, r) = p.append(shared, record);
            &&& r is Ok <==> p.epoch == shared.fenced_epoch
            &&& r is Ok ==> {
                &&& after.journal.len() == shared.journal.len() + 1
                &&& after.journal.last() == record
                &&& forall|i: int| 0 <= i < shared.journal.len() ==> #[trigger] after.journal[i] == shared.journal[i]
                &&& after.btree == shared.btree
                &&& after.fenced_epoch == shared.fenced_epoch
            }
            &&& q.id == p.id && q.owner == p.owner && q.epoch == p.epoch
            &&& r matches Err(e) ==> q == p && after == shared && e == (ErrorView::Fenced { bucket: p.id })
        }),
{
}

/// A checkpoint by the process that has the current epoch keeps its entries, empties the
/// journal and leaves the epoch; by any other process it is refused and changes nothing.
pub proof fn law_a_checkpoint_keeps_the_entries(p: ProcessView, shared: StateView)
    ensures
        ({
            let (after, r) = p.checkpoint(shared);
            &&& r is Ok <==> p.epoch == shared.fenced_epoch
            &&& r is Ok ==> after.btree == p.entries && after.journal.len() == 0 && after.fenced_epoch
                == shared.fenced_epoch
            &&& r matches Err(e) ==> after == shared && e == (ErrorView::Fenced { bucket: p.id })
        }),
{
}

/// Whoever takes a bucket over has the next epoch, which becomes the current one, and runs
/// the bucket from then on: its writes and checkpoints are accepted.
pub proof fn law_the_new_process_may_write(id: BucketId, owner: CNodeId, shared: StateView, record: RecordView)
    requires
        shared.fenced_epoch < u64::MAX,
    ensures
        ({
            let (q, after) = ProcessView::take_over(id, owner, shared);
            &&& q.id == id && q.owner == owner
            &&& q.epoch == shared.fenced_epoch + 1
            &&& after.fenced_epoch == shared.fenced_epoch + 1
            &&& after.btree == shared.btree && after.journal == shared.journal
            &&& q.append(after, record).2 is Ok
            &&& q.checkpoint(after).1 is Ok
        }),
{
}

/// What can be recovered of a key is its last write in the journal; if the journal has
/// none, what the last checkpoint has of it.
pub proof fn law_the_last_write_counts(shared: StateView, key: MetaKeyView, at: int)
    requires
        -1 <= at < shared.journal.len(),
        forall|i: int|
            at < i < shared.journal.len() ==> match #[trigger] shared.journal[i] {
                RecordView::Put { key: k, .. } => k != key,
                RecordView::Delete { key: k } => k != key,
            },
        at >= 0 ==> match shared.journal[at] {
            RecordView::Put { key: k, .. } => k == key,
            RecordView::Delete { key: k } => k == key,
        },
    ensures
        ({
            let found = shared.recoverable();
            if at < 0 {
                &&& found.contains_key(key) <==> shared.btree.contains_key(key)
                &&& found.contains_key(key) ==> found[key] == shared.btree[key]
            } else {
                match shared.journal[at] {
                    RecordView::Put { value, .. } => found.contains_key(key) && found[key] == value,
                    RecordView::Delete { .. } => !found.contains_key(key),
                }
            }
        }),
    decreases shared.journal.len(),
{
    let n = shared.journal.len();
    if n > 0 && at < n - 1 {
        let earlier = StateView { journal: shared.journal.drop_last(), ..shared };
        assert(match shared.journal[n - 1] {
            RecordView::Put { key: k, .. } => k != key,
            RecordView::Delete { key: k } => k != key,
        });
        law_the_last_write_counts(earlier, key, at);
    }
}

/// A listing by prefix, in the bytes of the keys: it has exactly the keys of the prefix's
/// tenant that begin with the prefix, each once, by their bytes, and where the limit cuts it
/// short, the first of them.
pub proof fn law_listing_by_bytes(p: ProcessView, prefix: MetaKeyView, limit: nat, key: MetaKeyView)
    requires
        p.entries.dom().finite(),
    ensures
        ({
            let r = p.list(prefix, limit);
            let wanted = |k: MetaKeyView| {
                &&& p.entries.contains_key(k)
                &&& k.tenant == prefix.tenant
                &&& prefix.key.len() <= k.key.len()
                &&& forall|i: int| 0 <= i < prefix.key.len() ==> k.key[i] == #[trigger] prefix.key[i]
            };
            let before = |a: MetaKeyView, b: MetaKeyView|
                exists|i: int|
                    {
                        &&& 0 <= i < b.key.len() && i <= a.key.len()
                        &&& a.key.take(i) == #[trigger] b.key.take(i)
                        &&& i == a.key.len() || a.key[i] < b.key[i]
                    };
            &&& r.contains(key) ==> wanted(key)
            &&& wanted(key) && r.len() < limit ==> r.contains(key)
            &&& wanted(key) && !r.contains(key) ==> r.len() == limit && forall|i: int|
                0 <= i < r.len() ==> before(#[trigger] r[i], key)
            &&& forall|i: int, j: int| 0 <= i < j < r.len() ==> before(#[trigger] r[i], #[trigger] r[j])
        }),
{
    law_listing(p, prefix, limit, key);
    let r = p.list(prefix, limit);
    let lt = sorted_map::key_order::<MetaKey>();
    assert forall|k: MetaKeyView| #[trigger] listed(k, prefix) <==> {
        &&& k.tenant == prefix.tenant
        &&& prefix.key.len() <= k.key.len()
        &&& forall|i: int| 0 <= i < prefix.key.len() ==> k.key[i] == #[trigger] prefix.key[i]
    } by {
        if k.tenant == prefix.tenant && prefix.key.len() <= k.key.len() && forall|i: int|
            0 <= i < prefix.key.len() ==> k.key[i] == #[trigger] prefix.key[i] {
            assert(k.key.take(prefix.key.len() as int) =~= prefix.key);
        }
        if listed(k, prefix) {
            assert forall|i: int| 0 <= i < prefix.key.len() implies k.key[i] == #[trigger] prefix.key[i] by {
                assert(k.key.take(prefix.key.len() as int)[i] == k.key[i]);
            }
        }
    }
    assert forall|a: MetaKeyView, b: MetaKeyView| #[trigger] lt(a, b) && a.tenant == b.tenant implies exists|i: int| {
        &&& 0 <= i < b.key.len() && i <= a.key.len()
        &&& a.key.take(i) == #[trigger] b.key.take(i)
        &&& i == a.key.len() || a.key[i] < b.key[i]
    } by {
        assert(bytes::bytes_less(a.key, b.key));
        let i = choose|i: int| bytes::parts_at(a.key, b.key, i);
        assert(a.key.take(i) =~= b.key.take(i));
    }
    assert forall|i: int| 0 <= i < r.len() implies (#[trigger] r[i]).tenant == prefix.tenant by {
        assert(r.contains(r[i]));
        law_listing(p, prefix, limit, r[i]);
    }
    assert forall|i: int, j: int| 0 <= i < j < r.len() implies lt(#[trigger] r[i], #[trigger] r[j]) by {
    }
}

} // verus!
