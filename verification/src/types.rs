//! Identifiers, media classes, metadata keys and errors.

use vstd::prelude::*;

use crate::bytes;
use crate::bytes::IntoBytes;
use crate::sorted_map::{precedence, Key, Precedence};
use crate::text;

verus! {

/// A tenant: the first-level boundary of namespaces, QoS, quota and keys.
#[derive(Debug, Clone, Copy, PartialEq, Eq, Hash, PartialOrd, Ord, Structural)]
pub struct TenantId(pub u32);

impl View for TenantId {
    type V = TenantId;

    open spec fn view(&self) -> TenantId {
        *self
    }
}

impl Key for TenantId {
    open spec fn less(a: TenantId, b: TenantId) -> bool {
        a.0 < b.0
    }

    proof fn lemma_order() {
    }

    fn precedes(&self, other: &TenantId) -> (p: Precedence) {
        precedence(self.0 as u64, other.0 as u64)
    }
}

/// A metadata bucket.
#[derive(Debug, Clone, Copy, PartialEq, Eq, Hash, PartialOrd, Ord, Structural)]
pub struct BucketId(pub u32);

impl View for BucketId {
    type V = BucketId;

    open spec fn view(&self) -> BucketId {
        *self
    }
}

impl Key for BucketId {
    open spec fn less(a: BucketId, b: BucketId) -> bool {
        a.0 < b.0
    }

    proof fn lemma_order() {
    }

    fn precedes(&self, other: &BucketId) -> (p: Precedence) {
        precedence(self.0 as u64, other.0 as u64)
    }
}

/// A storage pool.
#[derive(Debug, Clone, Copy, PartialEq, Eq, Hash, PartialOrd, Ord, Structural)]
pub struct PoolId(pub u32);

impl View for PoolId {
    type V = PoolId;

    open spec fn view(&self) -> PoolId {
        *self
    }
}

impl Key for PoolId {
    open spec fn less(a: PoolId, b: PoolId) -> bool {
        a.0 < b.0
    }

    proof fn lemma_order() {
    }

    fn precedes(&self, other: &PoolId) -> (p: Precedence) {
        precedence(self.0 as u64, other.0 as u64)
    }
}

/// A storage node.
#[derive(Debug, Clone, Copy, PartialEq, Eq, Hash, PartialOrd, Ord, Structural)]
pub struct SNodeId(pub u32);

impl View for SNodeId {
    type V = SNodeId;

    open spec fn view(&self) -> SNodeId {
        *self
    }
}

impl Key for SNodeId {
    open spec fn less(a: SNodeId, b: SNodeId) -> bool {
        a.0 < b.0
    }

    proof fn lemma_order() {
    }

    fn precedes(&self, other: &SNodeId) -> (p: Precedence) {
        precedence(self.0 as u64, other.0 as u64)
    }
}

/// A compute node.
#[derive(Debug, Clone, Copy, PartialEq, Eq, Hash, PartialOrd, Ord, Structural)]
pub struct CNodeId(pub u32);

/// An allocation unit.
#[derive(Debug, Clone, Copy, PartialEq, Eq, Hash, PartialOrd, Ord, Structural)]
pub struct ExtentId(pub u64);

impl View for ExtentId {
    type V = ExtentId;

    open spec fn view(&self) -> ExtentId {
        *self
    }
}

impl Key for ExtentId {
    open spec fn less(a: ExtentId, b: ExtentId) -> bool {
        a.0 < b.0
    }

    proof fn lemma_order() {
    }

    fn precedes(&self, other: &ExtentId) -> (p: Precedence) {
        precedence(self.0 as u64, other.0 as u64)
    }
}

/// The classes of media. Tiering moves data between classes; balancing stays
/// within one.
#[derive(Debug, Clone, Copy, PartialEq, Eq, Hash, PartialOrd, Ord, Structural)]
pub enum MediaClass {
    /// Primary tier: metadata and hot data. Metadata never leaves it.
    TlcNvme,
    /// Warm tier.
    QlcNvme,
    /// Cold tier.
    Hdd,
    /// Archive tier: object storage outside the cluster.
    ExternalS3,
}

/// The tier below, in the order in which data cools down.
pub open spec fn colder_tier(m: MediaClass) -> Option<MediaClass> {
    match m {
        MediaClass::TlcNvme => Some(MediaClass::QlcNvme),
        MediaClass::QlcNvme => Some(MediaClass::Hdd),
        MediaClass::Hdd => Some(MediaClass::ExternalS3),
        MediaClass::ExternalS3 => None,
    }
}

/// How far down a tier is.
pub open spec fn depth(m: MediaClass) -> nat {
    match m {
        MediaClass::TlcNvme => 0,
        MediaClass::QlcNvme => 1,
        MediaClass::Hdd => 2,
        MediaClass::ExternalS3 => 3,
    }
}

/// The name of a media class as errors give it.
pub open spec fn class_name(m: MediaClass) -> Seq<char> {
    match m {
        MediaClass::TlcNvme => "TlcNvme"@,
        MediaClass::QlcNvme => "QlcNvme"@,
        MediaClass::Hdd => "Hdd"@,
        MediaClass::ExternalS3 => "ExternalS3"@,
    }
}

impl MediaClass {
    /// The next tier down. (The placement engine decides which tiers to skip.)
    pub fn colder(self) -> (r: Option<MediaClass>)
        ensures
            r == colder_tier(self),
    {
        match self {
            MediaClass::TlcNvme => Some(MediaClass::QlcNvme),
            MediaClass::QlcNvme => Some(MediaClass::Hdd),
            MediaClass::Hdd => Some(MediaClass::ExternalS3),
            MediaClass::ExternalS3 => None,
        }
    }

    fn name(self) -> (r: &'static str)
        ensures
            r@ == class_name(self),
    {
        match self {
            MediaClass::TlcNvme => "TlcNvme",
            MediaClass::QlcNvme => "QlcNvme",
            MediaClass::Hdd => "Hdd",
            MediaClass::ExternalS3 => "ExternalS3",
        }
    }
}

/// Each tier is followed by the one just below it, and only the archive tier by none.
pub proof fn law_tiers_descend(m: MediaClass)
    ensures
        match colder_tier(m) {
            Some(next) => depth(next) == depth(m) + 1,
            None => m == MediaClass::ExternalS3,
        },
{
}

/// A metadata key: the tenant first, then the key within the tenant's namespace.
///
/// Order and hash both look at the tenant first, so the key spaces of tenants
/// that share a bucket are strictly apart.
#[derive(Debug, PartialEq, Eq, Hash, PartialOrd, Ord)]
pub struct MetaKey {
    pub tenant: TenantId,
    pub key: Vec<u8>,
}

/// A metadata key as a value.
pub struct MetaKeyView {
    pub tenant: TenantId,
    pub key: Seq<u8>,
}

impl View for MetaKey {
    type V = MetaKeyView;

    open spec fn view(&self) -> MetaKeyView {
        MetaKeyView { tenant: self.tenant, key: self.key@ }
    }
}

pub const FNV_OFFSET: u64 = 0xcbf2_9ce4_8422_2325;

pub const FNV_PRIME: u64 = 0x100_0000_01b3;

/// One step of the FNV-1a hash.
pub open spec fn fnv_step(h: u64, b: u8) -> u64 {
    (h ^ (b as u64)).wrapping_mul(FNV_PRIME)
}

/// The FNV-1a hash of a byte string.
pub open spec fn fnv1a(s: Seq<u8>) -> u64
    decreases s.len(),
{
    if s.len() == 0 {
        FNV_OFFSET
    } else {
        fnv_step(fnv1a(s.drop_last()), s.last())
    }
}

/// The hash by which a key finds its bucket: over the tenant, then the key.
pub open spec fn route_hash_of(k: MetaKeyView) -> u64 {
    fnv1a(bytes::be32(k.tenant.0) + k.key)
}

fn fnv_over(h: u64, done: Ghost<Seq<u8>>, s: &[u8]) -> (r: u64)
    requires
        h == fnv1a(done@),
    ensures
        r == fnv1a(done@ + s@),
{
    let mut h: u64 = h;
    let mut i: usize = 0;
    assert(done@ + s@.take(0) =~= done@);
    while i < s.len()
        invariant
            i <= s.len(),
            h == fnv1a(done@ + s@.take(i as int)),
        decreases s.len() - i,
    {
        let ghost next = done@ + s@.take(i + 1);
        assert(next.drop_last() =~= done@ + s@.take(i as int));
        assert(next.last() == s@[i as int]);
        h = (h ^ (s[i] as u64)).wrapping_mul(FNV_PRIME);
        i += 1;
    }
    assert(s@.take(s@.len() as int) =~= s@);
    h
}

impl MetaKey {
    pub fn new<B: IntoBytes>(tenant: TenantId, key: B) -> (r: Self)
        ensures
            r@ == (MetaKeyView { tenant, key: key.bytes() }),
    {
        MetaKey { tenant, key: key.into_bytes() }
    }

    /// The FNV-1a hash of the key, tenant included.
    pub fn route_hash(&self) -> (h: u64)
        ensures
            h == route_hash_of(self@),
    {
        let t = bytes::be32_bytes(self.tenant.0);
        assert(Seq::<u8>::empty() + t@ =~= t@);
        let h: u64 = fnv_over(FNV_OFFSET, Ghost(Seq::<u8>::empty()), t.as_slice());
        fnv_over(h, Ghost(t@), self.key.as_slice())
    }
}

impl Clone for MetaKey {
    fn clone(&self) -> (r: Self)
        ensures
            r@ == self@,
    {
        MetaKey { tenant: self.tenant, key: bytes::copy_bytes(self.key.as_slice()) }
    }
}

/// The order of metadata keys: by tenant, then by key.
pub open spec fn meta_less(a: MetaKeyView, b: MetaKeyView) -> bool {
    a.tenant.0 < b.tenant.0 || (a.tenant == b.tenant && bytes::bytes_less(a.key, b.key))
}

impl Key for MetaKey {
    open spec fn less(a: MetaKeyView, b: MetaKeyView) -> bool {
        meta_less(a, b)
    }

    proof fn lemma_order() {
        bytes::lemma_bytes_order();
        let bl = |a: Seq<u8>, b: Seq<u8>| bytes::bytes_less(a, b);
        let lt = |a: MetaKeyView, b: MetaKeyView| <MetaKey as Key>::less(a, b);
        assert forall|a: MetaKeyView| !(#[trigger] lt(a, a)) by {
            assert(!bl(a.key, a.key));
        }
        assert forall|a: MetaKeyView, b: MetaKeyView, c: MetaKeyView| #[trigger] lt(a, b) && #[trigger] lt(
            b,
            c,
        ) implies lt(a, c) by {
            if a.tenant == b.tenant && b.tenant == c.tenant {
                assert(bl(a.key, b.key) && bl(b.key, c.key));
            }
        }
        assert forall|a: MetaKeyView, b: MetaKeyView| a != b implies #[trigger] lt(a, b) || lt(b, a) by {
            if a.tenant == b.tenant {
                assert(a.key != b.key);
                assert(bl(a.key, b.key) || bl(b.key, a.key));
            }
        }
    }

    fn precedes(&self, other: &MetaKey) -> (p: Precedence) {
        if self.tenant.0 < other.tenant.0 {
            Precedence::Before
        } else if self.tenant.0 > other.tenant.0 {
            Precedence::After
        } else {
            bytes::bytes_precede(self.key.as_slice(), other.key.as_slice())
        }
    }
}

/// The keys of different tenants are different, whatever their names, and those
/// of one tenant all stand on one side of those of another.
pub proof fn law_tenants_apart(a: MetaKeyView, b: MetaKeyView)
    requires
        a.tenant != b.tenant,
    ensures
        a != b,
        meta_less(a, b) <==> a.tenant.0 < b.tenant.0,
        meta_less(b, a) <==> b.tenant.0 < a.tenant.0,
{
}

/// What can go wrong.
#[derive(Debug, Clone, PartialEq, Eq)]
pub enum Error {
    /// QoS: the request is turned away at once, not queued.
    Throttled { dimension: &'static str },
    /// A quota would be exceeded (hard limit).
    QuotaExceeded { scope: String },
    /// Out of capacity.
    NoSpace { media: MediaClass },
    /// A write under an old lease.
    Fenced { bucket: BucketId },
    /// The bucket does not run or does not exist.
    BucketUnavailable(BucketId),
    /// The tenant does not exist or was deleted.
    UnknownTenant(TenantId),
    /// An invalid argument.
    Invalid(String),
}

/// An error as a value.
pub enum ErrorView {
    Throttled { dimension: Seq<char> },
    QuotaExceeded { scope: Seq<char> },
    NoSpace { media: MediaClass },
    Fenced { bucket: BucketId },
    BucketUnavailable(BucketId),
    UnknownTenant(TenantId),
    Invalid(Seq<char>),
}

impl View for Error {
    type V = ErrorView;

    open spec fn view(&self) -> ErrorView {
        match *self {
            Error::Throttled { dimension } => ErrorView::Throttled { dimension: dimension@ },
            Error::QuotaExceeded { scope } => ErrorView::QuotaExceeded { scope: scope@ },
            Error::NoSpace { media } => ErrorView::NoSpace { media },
            Error::Fenced { bucket } => ErrorView::Fenced { bucket },
            Error::BucketUnavailable(b) => ErrorView::BucketUnavailable(b),
            Error::UnknownTenant(t) => ErrorView::UnknownTenant(t),
            Error::Invalid(msg) => ErrorView::Invalid(msg@),
        }
    }
}

/// What an error says.
pub open spec fn message(e: ErrorView) -> Seq<char> {
    match e {
        ErrorView::Throttled { dimension } => "throttled on "@ + dimension,
        ErrorView::QuotaExceeded { scope } => "quota exceeded: "@ + scope,
        ErrorView::NoSpace { media } => "no space on "@ + class_name(media),
        ErrorView::Fenced { bucket } => "fenced write to bucket "@ + text::decimal(bucket.0 as nat),
        ErrorView::BucketUnavailable(b) => "bucket "@ + text::decimal(b.0 as nat) + " unavailable"@,
        ErrorView::UnknownTenant(t) => "unknown tenant "@ + text::decimal(t.0 as nat),
        ErrorView::Invalid(msg) => "invalid: "@ + msg,
    }
}

impl Error {
    /// The message of the error.
    pub fn to_string(&self) -> (s: String)
        ensures
            s@ == message(self@),
    {
        match self {
            Error::Throttled { dimension } => text::join("throttled on ", dimension),
            Error::QuotaExceeded { scope } => text::join("quota exceeded: ", scope.as_str()),
            Error::NoSpace { media } => text::join("no space on ", media.name()),
            Error::Fenced { bucket } => text::join(
                "fenced write to bucket ",
                text::decimal_text(bucket.0 as u64).as_str(),
            ),
            Error::BucketUnavailable(b) => {
                let s = text::join("bucket ", text::decimal_text(b.0 as u64).as_str());
                text::join(s.as_str(), " unavailable")
            },
            Error::UnknownTenant(t) => text::join(
                "unknown tenant ",
                text::decimal_text(t.0 as u64).as_str(),
            ),
            Error::Invalid(msg) => text::join("invalid: ", msg.as_str()),
        }
    }
}

/// The view of a result.
pub open spec fn outcome<T>(r: Result<T, Error>) -> Result<T, ErrorView> {
    match r {
        Ok(v) => Ok(v),
        Err(e) => Err(e@),
    }
}

/// Data cools down through all four classes in turn, from the primary tier to the archive,
/// and no further.
pub proof fn law_four_tiers_in_a_row()
    ensures
        colder_tier(MediaClass::TlcNvme) == Some(MediaClass::QlcNvme),
        colder_tier(MediaClass::QlcNvme) == Some(MediaClass::Hdd),
        colder_tier(MediaClass::Hdd) == Some(MediaClass::ExternalS3),
        colder_tier(MediaClass::ExternalS3) is None,
{
}

/// The hash by which keys find their buckets is FNV-1a of 64 bits over the four bytes of
/// the tenant, the most significant first, and the bytes of the key: it starts at the offset
/// basis, and each byte is mixed in and then multiplied by the prime, modulo 2 to the 64th.
pub proof fn law_hash_takes_in_one_byte_at_a_time(s: Seq<u8>, b: u8, tenant: TenantId, key: Seq<u8>)
    ensures
        fnv1a(Seq::<u8>::empty()) == 0xcbf2_9ce4_8422_2325u64,
        fnv1a(s.push(b)) == ((fnv1a(s) ^ (b as u64)) * 0x100_0000_01b3) % 0x1_0000_0000_0000_0000,
        ({
            let t = tenant.0 as int;
            let head = seq![
                (t / 16777216) as u8,
                (t / 65536 % 256) as u8,
                (t / 256 % 256) as u8,
                (t % 256) as u8,
            ];
            &&& route_hash_of(MetaKeyView { tenant, key: Seq::empty() }) == fnv1a(head)
            &&& route_hash_of(MetaKeyView { tenant, key: key.push(b) }) == ((route_hash_of(
                MetaKeyView { tenant, key },
            ) ^ (b as u64)) * 0x100_0000_01b3) % 0x1_0000_0000_0000_0000
        }),
{
    assert(s.push(b).drop_last() =~= s);
    let t = tenant.0 as int;
    let head = seq![(t / 16777216) as u8, (t / 65536 % 256) as u8, (t / 256 % 256) as u8, (t % 256) as u8];
    assert(bytes::be32(tenant.0) =~= head);
    assert(head + Seq::<u8>::empty() =~= head);
    let whole = head + key.push(b);
    assert(whole.drop_last() =~= head + key);
    assert(whole.last() == b);
}

/// What errors say: each its own phrase, with the dimension, scope, class, number or detail
/// that it is about, in full.
pub proof fn law_messages_say_what_went_wrong(
    what: Seq<char>,
    bucket: BucketId,
    tenant: TenantId,
)
    ensures
        message(ErrorView::Throttled { dimension: what }) == "throttled on "@ + what,
        message(ErrorView::QuotaExceeded { scope: what }) == "quota exceeded: "@ + what,
        message(ErrorView::Invalid(what)) == "invalid: "@ + what,
        message(ErrorView::NoSpace { media: MediaClass::TlcNvme }) == "no space on TlcNvme"@,
        message(ErrorView::NoSpace { media: MediaClass::QlcNvme }) == "no space on QlcNvme"@,
        message(ErrorView::NoSpace { media: MediaClass::Hdd }) == "no space on Hdd"@,
        message(ErrorView::NoSpace { media: MediaClass::ExternalS3 }) == "no space on ExternalS3"@,
        message(ErrorView::Fenced { bucket }) == "fenced write to bucket "@ + text::decimal(bucket.0 as nat),
        message(ErrorView::BucketUnavailable(bucket)) == "bucket "@ + text::decimal(bucket.0 as nat)
            + " unavailable"@,
        message(ErrorView::UnknownTenant(tenant)) == "unknown tenant "@ + text::decimal(tenant.0 as nat),
{
    reveal_strlit("no space on ");
    reveal_strlit("TlcNvme");
    reveal_strlit("QlcNvme");
    reveal_strlit("Hdd");
    reveal_strlit("ExternalS3");
    reveal_strlit("no space on TlcNvme");
    reveal_strlit("no space on QlcNvme");
    reveal_strlit("no space on Hdd");
    reveal_strlit("no space on ExternalS3");
    assert("no space on "@ + "TlcNvme"@ =~= "no space on TlcNvme"@);
    assert("no space on "@ + "QlcNvme"@ =~= "no space on QlcNvme"@);
    assert("no space on "@ + "Hdd"@ =~= "no space on Hdd"@);
    assert("no space on "@ + "ExternalS3"@ =~= "no space on ExternalS3"@);
}

/// Keys of one tenant are ordered by their bytes, and tenants by number: a key comes
/// before another if it is cut off where the other goes on, or has the smaller byte where
/// they first differ.
pub proof fn law_keys_are_ordered_by_bytes(a: MetaKeyView, b: MetaKeyView, i: int)
    requires
        0 <= i <= a.key.len(),
        i <= b.key.len(),
        a.key.take(i) == b.key.take(i),
        i == a.key.len() || i == b.key.len() || a.key[i] != b.key[i],
    ensures
        a.tenant.0 < b.tenant.0 ==> meta_less(a, b),
        a.tenant.0 > b.tenant.0 ==> !meta_less(a, b),
        a.tenant == b.tenant ==> (meta_less(a, b) <==> i < b.key.len() && (i == a.key.len() || a.key[i] < b.key[i])),
{
    assert forall|j: int| 0 <= j < i implies a.key[j] == b.key[j] by {
        assert(a.key.take(i)[j] == a.key[j]);
        assert(b.key.take(i)[j] == b.key[j]);
    }
    if i < b.key.len() && (i == a.key.len() || a.key[i] < b.key[i]) {
        assert(bytes::parts_at(a.key, b.key, i));
    }
    if a.tenant == b.tenant && meta_less(a, b) {
        let k = choose|k: int| bytes::parts_at(a.key, b.key, k);
        if k < i {
            assert(a.key[k] == b.key[k]);
        }
        if k > i {
            assert(a.key[i] == b.key[i]);
        }
    }
}

} // verus!
