//! Quotas on two levels: a tenant's total, and limits for buckets, volumes and
//! directories within it. They are hard: a write that would exceed one is refused.
//! What is charged is released in the same way.

use vstd::prelude::*;

use crate::bytes;
use crate::sorted_map::{Key, Precedence, SortedMap};
use crate::text;
use crate::types;
use crate::types::{Error, ErrorView, TenantId};

verus! {

/// A limit. A dimension without one is unlimited.
#[derive(Debug, Clone, Copy)]
pub struct QuotaLimit {
    pub capacity_bytes: Option<u64>,
    pub object_count: Option<u64>,
}

impl Default for QuotaLimit {
    fn default() -> (r: Self)
        ensures
            r == (QuotaLimit { capacity_bytes: None, object_count: None }),
    {
        QuotaLimit { capacity_bytes: None, object_count: None }
    }
}

/// What is in use.
#[derive(Debug, Clone, Copy, PartialEq, Eq, Structural)]
pub struct Usage {
    pub bytes: u64,
    pub objects: u64,
}

impl Default for Usage {
    fn default() -> (r: Self)
        ensures
            r == (Usage { bytes: 0, objects: 0 }),
    {
        Usage { bytes: 0, objects: 0 }
    }
}

/// A limit and what is in use of it.
#[derive(Debug, Clone, Copy)]
pub struct Account {
    pub limit: QuotaLimit,
    pub usage: Usage,
}

/// `a - b`, but not below zero.
pub open spec fn reduced(a: u64, b: u64) -> u64 {
    if a >= b { (a - b) as u64 } else { 0 }
}

/// Whether `used + more`, held to 64 bits, is over a limit.
pub open spec fn over(limit: Option<u64>, used: u64, more: u64) -> bool {
    match limit {
        Some(l) => (if used + more > u64::MAX { u64::MAX as int } else { used + more }) > l,
        None => false,
    }
}

impl Account {
    /// Whether more can be charged: capacity is looked at first.
    pub open spec fn verdict(self, bytes: u64, objects: u64, scope: Seq<char>) -> Result<(), ErrorView> {
        if over(self.limit.capacity_bytes, self.usage.bytes, bytes) {
            Err(ErrorView::QuotaExceeded { scope: scope + ":capacity"@ })
        } else if over(self.limit.object_count, self.usage.objects, objects) {
            Err(ErrorView::QuotaExceeded { scope: scope + ":objects"@ })
        } else {
            Ok(())
        }
    }

    pub open spec fn charged(self, bytes: u64, objects: u64) -> Account {
        Account {
            usage: Usage {
                bytes: (self.usage.bytes + bytes) as u64,
                objects: (self.usage.objects + objects) as u64,
            },
            ..self
        }
    }

    pub open spec fn released(self, bytes: u64, objects: u64) -> Account {
        Account {
            usage: Usage {
                bytes: reduced(self.usage.bytes, bytes),
                objects: reduced(self.usage.objects, objects),
            },
            ..self
        }
    }

    /// Whether what is in use then fits in 64 bits.
    pub open spec fn holds(self, bytes: u64, objects: u64) -> bool {
        self.usage.bytes + bytes <= u64::MAX && self.usage.objects + objects <= u64::MAX
    }

    /// Whether what is in use is within the limit.
    pub open spec fn within(self) -> bool {
        &&& self.limit.capacity_bytes matches Some(l) ==> self.usage.bytes <= l
        &&& self.limit.object_count matches Some(l) ==> self.usage.objects <= l
    }

    fn check(&self, add_bytes: u64, add_objects: u64, scope: &str) -> (r: Result<(), Error>)
        ensures
            types::outcome(r) == self.verdict(add_bytes, add_objects, scope@),
    {
        if let Some(limit) = self.limit.capacity_bytes {
            if self.usage.bytes.saturating_add(add_bytes) > limit {
                return Err(Error::QuotaExceeded { scope: text::join(scope, ":capacity") });
            }
        }
        if let Some(limit) = self.limit.object_count {
            if self.usage.objects.saturating_add(add_objects) > limit {
                return Err(Error::QuotaExceeded { scope: text::join(scope, ":objects") });
            }
        }
        Ok(())
    }

    fn charge_fits(&self, add_bytes: u64, add_objects: u64) -> (b: bool)
        ensures
            b == self.holds(add_bytes, add_objects),
    {
        self.usage.bytes <= u64::MAX - add_bytes && self.usage.objects <= u64::MAX - add_objects
    }

    fn commit(&mut self, add_bytes: u64, add_objects: u64)
        requires
            old(self).holds(add_bytes, add_objects),
        ensures
            *final(self) == old(self).charged(add_bytes, add_objects),
    {
        self.usage.bytes = self.usage.bytes + add_bytes;
        self.usage.objects = self.usage.objects + add_objects;
    }

    fn release(&mut self, bytes: u64, objects: u64)
        ensures
            *final(self) == old(self).released(bytes, objects),
    {
        self.usage.bytes = self.usage.bytes.saturating_sub(bytes);
        self.usage.objects = self.usage.objects.saturating_sub(objects);
    }
}

/// A bucket, volume or directory of a tenant, by name.
#[derive(Debug)]
pub struct ScopeKey {
    tenant: TenantId,
    name: String,
}

impl View for ScopeKey {
    type V = (TenantId, Seq<char>);

    closed spec fn view(&self) -> (TenantId, Seq<char>) {
        (self.tenant, self.name@)
    }
}

impl Key for ScopeKey {
    open spec fn less(a: (TenantId, Seq<char>), b: (TenantId, Seq<char>)) -> bool {
        a.0.0 < b.0.0 || (a.0 == b.0 && <String as Key>::less(a.1, b.1))
    }

    proof fn lemma_order() {
        String::lemma_order();
        let sl = |a: Seq<char>, b: Seq<char>| <String as Key>::less(a, b);
        let lt = |a: (TenantId, Seq<char>), b: (TenantId, Seq<char>)| <ScopeKey as Key>::less(a, b);
        assert forall|a: (TenantId, Seq<char>)| !(#[trigger] lt(a, a)) by {
            assert(!sl(a.1, a.1));
        }
        assert forall|a: (TenantId, Seq<char>), b: (TenantId, Seq<char>), c: (TenantId, Seq<char>)| #[trigger]
            lt(a, b) && #[trigger] lt(b, c) implies lt(a, c) by {
            if a.0 == b.0 && b.0 == c.0 {
                assert(sl(a.1, b.1) && sl(b.1, c.1));
            }
        }
        assert forall|a: (TenantId, Seq<char>), b: (TenantId, Seq<char>)| a != b implies #[trigger] lt(a, b) || lt(
            b,
            a,
        ) by {
            if a.0 == b.0 {
                assert(a.1 != b.1);
                assert(sl(a.1, b.1) || sl(b.1, a.1));
            }
        }
    }

    fn precedes(&self, other: &ScopeKey) -> (p: Precedence) {
        if self.tenant.0 < other.tenant.0 {
            Precedence::Before
        } else if self.tenant.0 > other.tenant.0 {
            Precedence::After
        } else {
            self.name.precedes(&other.name)
        }
    }
}

impl ScopeKey {
    fn new(tenant: TenantId, name: &str) -> (r: Self)
        ensures
            r@ == (tenant, name@),
    {
        ScopeKey { tenant, name: text::copy(name) }
    }
}

/// The accounts.
pub struct QuotasView {
    pub tenants: Map<TenantId, Account>,
    pub scopes: Map<(TenantId, Seq<char>), Account>,
}

impl QuotasView {
    pub open spec fn empty() -> QuotasView {
        QuotasView { tenants: Map::empty(), scopes: Map::empty() }
    }

    /// An account with a new limit: what is in use stays.
    pub open spec fn limited(known: bool, a: Account, limit: QuotaLimit) -> Account {
        Account { limit, usage: if known { a.usage } else { Usage { bytes: 0, objects: 0 } } }
    }

    pub open spec fn set_tenant_limit(self, tenant: TenantId, limit: QuotaLimit) -> QuotasView {
        QuotasView {
            tenants: self.tenants.insert(
                tenant,
                Self::limited(self.tenants.contains_key(tenant), self.tenants[tenant], limit),
            ),
            ..self
        }
    }

    pub open spec fn set_scope_limit(self, tenant: TenantId, scope: Seq<char>, limit: QuotaLimit) -> (
        QuotasView,
        Result<(), ErrorView>,
    ) {
        let key = (tenant, scope);
        if !self.tenants.contains_key(tenant) {
            (self, Err(ErrorView::UnknownTenant(tenant)))
        } else {
            (
                QuotasView {
                    scopes: self.scopes.insert(
                        key,
                        Self::limited(self.scopes.contains_key(key), self.scopes[key], limit),
                    ),
                    ..self
                },
                Ok(()),
            )
        }
    }

    /// Whether a charge is admitted: by the tenant's limit first, then by the
    /// scope's.
    pub open spec fn verdict(self, tenant: TenantId, scope: Seq<char>, bytes: u64, objects: u64) -> Result<
        (),
        ErrorView,
    > {
        let key = (tenant, scope);
        if !self.tenants.contains_key(tenant) {
            Err(ErrorView::UnknownTenant(tenant))
        } else {
            match self.tenants[tenant].verdict(bytes, objects, "tenant"@) {
                Err(e) => Err(e),
                Ok(_) => if self.scopes.contains_key(key) {
                    self.scopes[key].verdict(bytes, objects, scope)
                } else {
                    Ok(())
                },
            }
        }
    }

    /// Both accounts, where they exist, with a charge booked.
    pub open spec fn booked(self, tenant: TenantId, scope: Seq<char>, bytes: u64, objects: u64) -> QuotasView {
        let key = (tenant, scope);
        QuotasView {
            tenants: if self.tenants.contains_key(tenant) {
                self.tenants.insert(tenant, self.tenants[tenant].charged(bytes, objects))
            } else {
                self.tenants
            },
            scopes: if self.scopes.contains_key(key) {
                self.scopes.insert(key, self.scopes[key].charged(bytes, objects))
            } else {
                self.scopes
            },
        }
    }

    pub open spec fn charge(self, tenant: TenantId, scope: Seq<char>, bytes: u64, objects: u64) -> (
        QuotasView,
        Result<(), ErrorView>,
    ) {
        match self.verdict(tenant, scope, bytes, objects) {
            Err(e) => (self, Err(e)),
            Ok(_) => (self.booked(tenant, scope, bytes, objects), Ok(())),
        }
    }

    /// Whether an admitted charge fits in 64 bits.
    pub open spec fn can_charge(self, tenant: TenantId, scope: Seq<char>, bytes: u64, objects: u64) -> bool {
        let key = (tenant, scope);
        self.verdict(tenant, scope, bytes, objects) is Ok ==> {
            &&& self.tenants[tenant].holds(bytes, objects)
            &&& self.scopes.contains_key(key) ==> self.scopes[key].holds(bytes, objects)
        }
    }

    pub open spec fn release(self, tenant: TenantId, scope: Seq<char>, bytes: u64, objects: u64) -> QuotasView {
        let key = (tenant, scope);
        QuotasView {
            tenants: if self.tenants.contains_key(tenant) {
                self.tenants.insert(tenant, self.tenants[tenant].released(bytes, objects))
            } else {
                self.tenants
            },
            scopes: if self.scopes.contains_key(key) {
                self.scopes.insert(key, self.scopes[key].released(bytes, objects))
            } else {
                self.scopes
            },
        }
    }

    pub open spec fn remove_tenant(self, tenant: TenantId) -> QuotasView {
        QuotasView {
            tenants: self.tenants.remove(tenant),
            scopes: Map::new(
                |k: (TenantId, Seq<char>)| self.scopes.contains_key(k) && k.0 != tenant,
                |k: (TenantId, Seq<char>)| self.scopes[k],
            ),
        }
    }
}

/// Keeps the accounts of tenants and of scopes within them.
#[derive(Debug)]
pub struct QuotaManager {
    tenants: SortedMap<TenantId, Account>,
    scopes: SortedMap<ScopeKey, Account>,
}

impl View for QuotaManager {
    type V = QuotasView;

    closed spec fn view(&self) -> QuotasView {
        QuotasView { tenants: self.tenants@, scopes: self.scopes@ }
    }
}

impl Default for QuotaManager {
    fn default() -> (r: Self)
        ensures
            r.wf(),
            r@ == QuotasView::empty(),
    {
        QuotaManager::new()
    }
}

impl QuotaManager {
    pub closed spec fn wf(&self) -> bool {
        self.tenants.wf() && self.scopes.wf()
    }

    pub fn new() -> (r: Self)
        ensures
            r.wf(),
            r@ == QuotasView::empty(),
    {
        QuotaManager { tenants: SortedMap::new(), scopes: SortedMap::new() }
    }

    /// Sets a tenant's limit.
    pub fn set_tenant_limit(&mut self, tenant: TenantId, limit: QuotaLimit)
        requires
            old(self).wf(),
        ensures
            final(self).wf(),
            final(self)@ == old(self)@.set_tenant_limit(tenant, limit),
    {
        let usage: Usage = match self.tenants.get(&tenant) {
            Some(a) => a.usage,
            None => Usage { bytes: 0, objects: 0 },
        };
        self.tenants.insert(tenant, Account { limit, usage });
    }

    /// Sets the limit of a scope within a tenant.
    pub fn set_scope_limit(&mut self, tenant: TenantId, scope: &str, limit: QuotaLimit) -> (r: Result<(), Error>)
        requires
            old(self).wf(),
        ensures
            final(self).wf(),
            (final(self)@, types::outcome(r)) == old(self)@.set_scope_limit(tenant, scope@, limit),
    {
        if !self.tenants.contains_key(&tenant) {
            return Err(Error::UnknownTenant(tenant));
        }
        let key = ScopeKey::new(tenant, scope);
        let usage: Usage = match self.scopes.get(&key) {
            Some(a) => a.usage,
            None => Usage { bytes: 0, objects: 0 },
        };
        self.scopes.insert(key, Account { limit, usage });
        Ok(())
    }

    /// Tests a charge: by the tenant's limit first, then by the scope's.
    pub(crate) fn check(&self, tenant: TenantId, scope: &str, bytes: u64, objects: u64) -> (r: Result<(), Error>)
        requires
            self.wf(),
        ensures
            types::outcome(r) == self@.verdict(tenant, scope@, bytes, objects),
    {
        match self.tenants.get(&tenant) {
            Some(t) => match t.check(bytes, objects, "tenant") {
                Ok(()) => {},
                Err(e) => {
                    return Err(e);
                },
            },
            None => {
                return Err(Error::UnknownTenant(tenant));
            },
        }
        match self.scopes.get(&ScopeKey::new(tenant, scope)) {
            Some(s) => s.check(bytes, objects, scope),
            None => Ok(()),
        }
    }

    /// Tests whether the sums of a charge that is accepted fit in 64 bits.
    pub(crate) fn charge_fits(&self, tenant: TenantId, scope: &str, bytes: u64, objects: u64) -> (b: bool)
        requires
            self.wf(),
        ensures
            b == self@.can_charge(tenant, scope@, bytes, objects),
    {
        if self.check(tenant, scope, bytes, objects).is_err() {
            return true;
        }
        let tenant_fits = match self.tenants.get(&tenant) {
            Some(t) => t.charge_fits(bytes, objects),
            None => true,
        };
        let scope_fits = match self.scopes.get(&ScopeKey::new(tenant, scope)) {
            Some(s) => s.charge_fits(bytes, objects),
            None => true,
        };
        tenant_fits && scope_fits
    }

    /// Charges a write, if both levels accept it; books it on both or on neither.
    pub fn charge(&mut self, tenant: TenantId, scope: &str, bytes: u64, objects: u64) -> (r: Result<(), Error>)
        requires
            old(self).wf(),
            old(self)@.can_charge(tenant, scope@, bytes, objects),
        ensures
            final(self).wf(),
            (final(self)@, types::outcome(r)) == old(self)@.charge(tenant, scope@, bytes, objects),
    {
        match self.check(tenant, scope, bytes, objects) {
            Ok(()) => {},
            Err(e) => {
                return Err(e);
            },
        }
        let key = ScopeKey::new(tenant, scope);
        let ghost before = self@;
        match self.tenants.get_mut(&tenant) {
            Some(t) => {
                t.commit(bytes, objects);
            },
            None => {},
        }
        match self.scopes.get_mut(&key) {
            Some(s) => {
                s.commit(bytes, objects);
            },
            None => {},
        }
        assert(self@.scopes =~= before.booked(tenant, scope@, bytes, objects).scopes);
        assert(self@.tenants =~= before.booked(tenant, scope@, bytes, objects).tenants);
        Ok(())
    }

    /// Gives back what was charged.
    pub fn release(&mut self, tenant: TenantId, scope: &str, bytes: u64, objects: u64)
        requires
            old(self).wf(),
        ensures
            final(self).wf(),
            final(self)@ == old(self)@.release(tenant, scope@, bytes, objects),
    {
        let key = ScopeKey::new(tenant, scope);
        match self.tenants.get_mut(&tenant) {
            Some(t) => {
                t.release(bytes, objects);
            },
            None => {},
        }
        match self.scopes.get_mut(&key) {
            Some(s) => {
                s.release(bytes, objects);
            },
            None => {},
        }
    }

    pub fn tenant_usage(&self, tenant: TenantId) -> (r: Option<Usage>)
        requires
            self.wf(),
        ensures
            r == (if self@.tenants.contains_key(tenant) {
                Some(self@.tenants[tenant].usage)
            } else {
                None
            }),
    {
        match self.tenants.get(&tenant) {
            Some(a) => Some(a.usage),
            None => None,
        }
    }

    /// Forgets a tenant and all its scopes.
    pub fn remove_tenant(&mut self, tenant: TenantId)
        requires
            old(self).wf(),
        ensures
            final(self).wf(),
            final(self)@ == old(self)@.remove_tenant(tenant),
    {
        let ghost before = self@;
        let mut scopes: SortedMap<ScopeKey, Account> = SortedMap::new();
        let ghost ks = self.scopes.keys();
        let mut i: usize = 0;
        while i < self.scopes.len()
            invariant
                self.wf(),
                scopes.wf(),
                self@ == before,
                ks == self.scopes.keys(),
                i <= ks.len(),
                forall|k: (TenantId, Seq<char>)| #[trigger]
                    scopes@.contains_key(k) <==> k.0 != tenant && exists|j: int| 0 <= j < i && #[trigger] ks[j] == k,
                forall|k: (TenantId, Seq<char>)| #[trigger]
                    scopes@.contains_key(k) ==> scopes@[k] == before.scopes[k],
            decreases ks.len() - i,
        {
            proof {
                self.scopes.lemma_entries();
            }
            let key: &ScopeKey = self.scopes.key_at(i);
            let account: Account = *self.scopes.value_at(i);
            assert(before.scopes[ks[i as int]] == account);
            let ghost sofar = scopes@;
            if key.tenant.0 != tenant.0 {
                scopes.insert(ScopeKey::new(key.tenant, key.name.as_str()), account);
            }
            proof {
                assert(key@ == ks[i as int]);
                assert forall|k: (TenantId, Seq<char>)| #[trigger] scopes@.contains_key(k) <==> k.0 != tenant
                    && exists|j: int| 0 <= j < i + 1 && #[trigger] ks[j] == k by {
                    if scopes@.contains_key(k) {
                        if sofar.contains_key(k) {
                            let j = choose|j: int| 0 <= j < i && #[trigger] ks[j] == k;
                            assert(0 <= j < i + 1 && ks[j] == k);
                        } else {
                            assert(ks[i as int] == k);
                        }
                    }
                    if k.0 != tenant && exists|j: int| 0 <= j < i + 1 && #[trigger] ks[j] == k {
                        let j = choose|j: int| 0 <= j < i + 1 && #[trigger] ks[j] == k;
                        if j < i {
                            assert(sofar.contains_key(k));
                        }
                    }
                }
            }
            i += 1;
        }
        proof {
            self.scopes.lemma_entries();
            assert forall|k: (TenantId, Seq<char>)| #[trigger] scopes@.contains_key(k) <==> k.0 != tenant
                && before.scopes.contains_key(k) by {
                if before.scopes.contains_key(k) {
                    let j = choose|j: int| 0 <= j < ks.len() && ks[j] == k;
                    assert(ks[j] == k);
                }
                if scopes@.contains_key(k) {
                    let j = choose|j: int| 0 <= j < ks.len() && #[trigger] ks[j] == k;
                    assert(before.scopes.contains_key(ks[j]));
                }
            }
        }
        self.tenants.remove(&tenant);
        self.scopes = scopes;
        assert(self@.scopes =~= before.remove_tenant(tenant).scopes);
    }
}

/// A refused charge books nothing anywhere; an admitted one leaves both accounts
/// within their limits.
pub proof fn law_charge(q: QuotasView, tenant: TenantId, scope: Seq<char>, bytes: u64, objects: u64)
    requires
        q.can_charge(tenant, scope, bytes, objects),
    ensures
        ({
            let (w, r) = q.charge(tenant, scope, bytes, objects);
            let key = (tenant, scope);
            &&& r is Err ==> w == q
            &&& r is Ok ==> w.tenants[tenant].within()
            &&& r is Ok && q.scopes.contains_key(key) ==> w.scopes[key].within()
            &&& r is Ok ==> w.tenants[tenant].usage == (Usage {
                bytes: (q.tenants[tenant].usage.bytes + bytes) as u64,
                objects: (q.tenants[tenant].usage.objects + objects) as u64,
            })
        }),
{
}

/// Releasing what was just charged restores every account.
pub proof fn law_release_undoes_charge(q: QuotasView, tenant: TenantId, scope: Seq<char>, bytes: u64, objects: u64)
    requires
        q.can_charge(tenant, scope, bytes, objects),
        q.charge(tenant, scope, bytes, objects).1 is Ok,
    ensures
        q.charge(tenant, scope, bytes, objects).0.release(tenant, scope, bytes, objects) == q,
{
    let w = q.charge(tenant, scope, bytes, objects).0.release(tenant, scope, bytes, objects);
    assert(w.tenants =~= q.tenants);
    assert(w.scopes =~= q.scopes);
}

/// Nothing done for one tenant touches the accounts of another, nor, within a
/// tenant, those of another scope.
pub proof fn law_accounts_are_apart(
    q: QuotasView,
    tenant: TenantId,
    scope: Seq<char>,
    bytes: u64,
    objects: u64,
    other: (TenantId, Seq<char>),
)
    ensures
        other.0 != tenant ==> {
            &&& q.charge(tenant, scope, bytes, objects).0.tenants[other.0] == q.tenants[other.0]
            &&& q.release(tenant, scope, bytes, objects).tenants[other.0] == q.tenants[other.0]
            &&& q.remove_tenant(tenant).tenants.contains_key(other.0) <==> q.tenants.contains_key(other.0)
            &&& q.remove_tenant(tenant).scopes.contains_key(other) <==> q.scopes.contains_key(other)
        },
        other != (tenant, scope) ==> {
            &&& q.charge(tenant, scope, bytes, objects).0.scopes[other] == q.scopes[other]
            &&& q.release(tenant, scope, bytes, objects).scopes[other] == q.scopes[other]
        },
{
}

/// Once a tenant is removed, its charges are refused and none of its scopes is
/// left.
pub proof fn law_removed_tenant_is_gone(
    q: QuotasView,
    tenant: TenantId,
    scope: Seq<char>,
    bytes: u64,
    objects: u64,
)
    ensures
        q.remove_tenant(tenant).charge(tenant, scope, bytes, objects).1 == Err::<(), _>(
            ErrorView::UnknownTenant(tenant),
        ),
        !q.remove_tenant(tenant).scopes.contains_key((tenant, scope)),
{
}

/// Quotas are hard, and nothing else is: a charge is admitted if and only if the tenant
/// exists and with the charge both accounts, the tenant's and the scope's if there is
/// one, are within their limits in both dimensions, or have none. (A limit at the greatest
/// 64-bit number is no limit.)
pub proof fn law_admitted_if_and_only_if_within(
    q: QuotasView,
    tenant: TenantId,
    scope: Seq<char>,
    bytes: u64,
    objects: u64,
)
    ensures
        ({
            let fits = |a: Account| {
                &&& a.limit.capacity_bytes matches Some(l) ==> l == u64::MAX || a.usage.bytes + bytes <= l
                &&& a.limit.object_count matches Some(l) ==> l == u64::MAX || a.usage.objects + objects <= l
            };
            let key = (tenant, scope);
            q.charge(tenant, scope, bytes, objects).1 is Ok <==> {
                &&& q.tenants.contains_key(tenant)
                &&& fits(q.tenants[tenant])
                &&& q.scopes.contains_key(key) ==> fits(q.scopes[key])
            }
        }),
{
}

/// A refusal says what stood in the way: the tenant is not known; or else its capacity,
/// its number of objects, the scope's capacity, the scope's number of objects, whichever
/// comes first.
pub proof fn law_refusal_names_the_limit(
    q: QuotasView,
    tenant: TenantId,
    scope: Seq<char>,
    bytes: u64,
    objects: u64,
)
    ensures
        ({
            let full = |a: Account| {
                &&& a.limit.capacity_bytes matches Some(l)
                &&& l < u64::MAX && a.usage.bytes + bytes > l
            };
            let crowded = |a: Account| {
                &&& a.limit.object_count matches Some(l)
                &&& l < u64::MAX && a.usage.objects + objects > l
            };
            let key = (tenant, scope);
            let t = q.tenants[tenant];
            let s = q.scopes[key];
            let r = q.charge(tenant, scope, bytes, objects).1;
            let exceeded = |what: Seq<char>| Err::<(), ErrorView>(ErrorView::QuotaExceeded { scope: what });
            &&& !q.tenants.contains_key(tenant) ==> r == Err::<(), ErrorView>(ErrorView::UnknownTenant(tenant))
            &&& q.tenants.contains_key(tenant) ==> {
                &&& full(t) ==> r == exceeded("tenant:capacity"@)
                &&& !full(t) && crowded(t) ==> r == exceeded("tenant:objects"@)
                &&& !full(t) && !crowded(t) && q.scopes.contains_key(key) ==> {
                    &&& full(s) ==> r == exceeded(scope + ":capacity"@)
                    &&& !full(s) && crowded(s) ==> r == exceeded(scope + ":objects"@)
                }
            }
        }),
{
    reveal_strlit("tenant");
    reveal_strlit(":capacity");
    reveal_strlit(":objects");
    reveal_strlit("tenant:capacity");
    reveal_strlit("tenant:objects");
    assert("tenant"@ + ":capacity"@ =~= "tenant:capacity"@);
    assert("tenant"@ + ":objects"@ =~= "tenant:objects"@);
}

/// An admitted charge is booked to the byte and to the object, on both levels; a release
/// takes off as much, as far as there is anything. Neither touches a limit, nor adds or
/// removes an account.
pub proof fn law_bookings_are_exact(
    q: QuotasView,
    tenant: TenantId,
    scope: Seq<char>,
    bytes: u64,
    objects: u64,
    other: (TenantId, Seq<char>),
)
    ensures
        ({
            let (w, r) = q.charge(tenant, scope, bytes, objects);
            let v = q.release(tenant, scope, bytes, objects);
            let key = (tenant, scope);
            let added = |a: Account, b: Account| {
                &&& b.limit == a.limit
                &&& a.usage.bytes + bytes <= u64::MAX ==> b.usage.bytes == a.usage.bytes + bytes
                &&& a.usage.objects + objects <= u64::MAX ==> b.usage.objects == a.usage.objects + objects
            };
            let taken = |a: Account, b: Account| {
                &&& b.limit == a.limit
                &&& a.usage.bytes >= bytes ==> b.usage.bytes + bytes == a.usage.bytes
                &&& a.usage.bytes < bytes ==> b.usage.bytes == 0
                &&& a.usage.objects >= objects ==> b.usage.objects + objects == a.usage.objects
                &&& a.usage.objects < objects ==> b.usage.objects == 0
            };
            &&& r is Ok ==> added(q.tenants[tenant], w.tenants[tenant])
            &&& r is Ok && q.scopes.contains_key(key) ==> added(q.scopes[key], w.scopes[key])
            &&& q.tenants.contains_key(tenant) ==> taken(q.tenants[tenant], v.tenants[tenant])
            &&& q.scopes.contains_key(key) ==> taken(q.scopes[key], v.scopes[key])
            &&& w.tenants.contains_key(other.0) <==> q.tenants.contains_key(other.0)
            &&& w.scopes.contains_key(other) <==> q.scopes.contains_key(other)
            &&& v.tenants.contains_key(other.0) <==> q.tenants.contains_key(other.0)
            &&& v.scopes.contains_key(other) <==> q.scopes.contains_key(other)
        }),
{
}

/// It does not matter in how many steps a charge is made: what is admitted as a whole is
/// admitted in two parts and leaves the same accounts, and the other way round.
pub proof fn law_charges_add_up(
    q: QuotasView,
    tenant: TenantId,
    scope: Seq<char>,
    first: (u64, u64),
    second: (u64, u64),
)
    requires
        q.tenants.contains_key(tenant) ==> {
            &&& q.tenants[tenant].usage.bytes + first.0 + second.0 <= u64::MAX
            &&& q.tenants[tenant].usage.objects + first.1 + second.1 <= u64::MAX
        },
        q.scopes.contains_key((tenant, scope)) ==> {
            &&& q.scopes[(tenant, scope)].usage.bytes + first.0 + second.0 <= u64::MAX
            &&& q.scopes[(tenant, scope)].usage.objects + first.1 + second.1 <= u64::MAX
        },
    ensures
        ({
            let (u, a) = q.charge(tenant, scope, first.0, first.1);
            let (v, b) = u.charge(tenant, scope, second.0, second.1);
            let (w, r) = q.charge(tenant, scope, (first.0 + second.0) as u64, (first.1 + second.1) as u64);
            &&& q.tenants.contains_key(tenant) ==> (r is Ok <==> a is Ok && b is Ok)
            &&& r is Ok ==> v == w
        }),
{
    let u = q.charge(tenant, scope, first.0, first.1).0;
    let v = u.charge(tenant, scope, second.0, second.1).0;
    let w = q.charge(tenant, scope, (first.0 + second.0) as u64, (first.1 + second.1) as u64).0;
    if q.charge(tenant, scope, (first.0 + second.0) as u64, (first.1 + second.1) as u64).1 is Ok {
        assert(v.tenants =~= w.tenants);
        assert(v.scopes =~= w.scopes);
    }
}

/// A new limit takes the place of the old one; what is in use stays, and an account that
/// was not there starts empty. No other account changes. A scope gets a limit only
/// within a tenant that exists.
pub proof fn law_limits_are_set(
    q: QuotasView,
    tenant: TenantId,
    scope: Seq<char>,
    limit: QuotaLimit,
    other: (TenantId, Seq<char>),
)
    ensures
        ({
            let v = q.set_tenant_limit(tenant, limit);
            let (w, r) = q.set_scope_limit(tenant, scope, limit);
            let key = (tenant, scope);
            let none = Usage { bytes: 0, objects: 0 };
            &&& v.tenants.contains_key(tenant) && v.tenants[tenant].limit == limit
            &&& q.tenants.contains_key(tenant) ==> v.tenants[tenant].usage == q.tenants[tenant].usage
            &&& !q.tenants.contains_key(tenant) ==> v.tenants[tenant].usage == none
            &&& other.0 != tenant ==> (v.tenants.contains_key(other.0) <==> q.tenants.contains_key(other.0))
                && v.tenants[other.0] == q.tenants[other.0]
            &&& v.scopes == q.scopes
            &&& w.tenants == q.tenants
            &&& q.tenants.contains_key(tenant) ==> {
                &&& r is Ok
                &&& w.scopes.contains_key(key) && w.scopes[key].limit == limit
                &&& q.scopes.contains_key(key) ==> w.scopes[key].usage == q.scopes[key].usage
                &&& !q.scopes.contains_key(key) ==> w.scopes[key].usage == none
            }
            &&& !q.tenants.contains_key(tenant) ==> w == q && r == Err::<(), ErrorView>(
                ErrorView::UnknownTenant(tenant),
            )
            &&& other != key ==> (w.scopes.contains_key(other) <==> q.scopes.contains_key(other))
                && w.scopes[other] == q.scopes[other]
        }),
{
}

/// Removing a tenant takes its account and those of its scopes away, and leaves every
/// other account as it was.
pub proof fn law_removal_spares_the_others(q: QuotasView, tenant: TenantId, other: (TenantId, Seq<char>))
    ensures
        ({
            let v = q.remove_tenant(tenant);
            &&& v.tenants.contains_key(other.0) <==> q.tenants.contains_key(other.0) && other.0 != tenant
            &&& v.scopes.contains_key(other) <==> q.scopes.contains_key(other) && other.0 != tenant
            &&& v.tenants.contains_key(other.0) ==> v.tenants[other.0] == q.tenants[other.0]
            &&& v.scopes.contains_key(other) ==> v.scopes[other] == q.scopes[other]
        }),
{
}

} // verus!
