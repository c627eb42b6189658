//! Tenants: registration, placement, a key each, and deletion that destroys the
//! key and with it all access to the data.

use vstd::prelude::*;

use crate::order;
use crate::sorted_map;
use crate::sorted_map::SortedMap;
use crate::text;
use crate::types;
use crate::types::{Error, ErrorView, PoolId, TenantId};

verus! {

/// Where a tenant's data goes.
#[derive(Debug, Clone, Copy, PartialEq, Eq, Structural)]
pub enum Placement {
    /// Shared pools; isolation is logical.
    Shared,
    /// A pool of its own; isolation is physical.
    DedicatedPool(PoolId),
}

/// A handle on a tenant's key-encryption key: its name and generation.
#[derive(Debug, Clone, PartialEq, Eq)]
pub struct KeyHandle {
    pub key_id: String,
    pub generation: u32,
}

/// A key handle as a value.
pub struct KeyView {
    pub key_id: Seq<char>,
    pub generation: u32,
}

impl View for KeyHandle {
    type V = KeyView;

    open spec fn view(&self) -> KeyView {
        KeyView { key_id: self.key_id@, generation: self.generation }
    }
}

/// What a tenant is created with.
#[derive(Debug, Clone)]
pub struct TenantSpec {
    pub name: String,
    pub placement: Placement,
}

/// The same as a value.
pub struct SpecView {
    pub name: Seq<char>,
    pub placement: Placement,
}

impl View for TenantSpec {
    type V = SpecView;

    open spec fn view(&self) -> SpecView {
        SpecView { name: self.name@, placement: self.placement }
    }
}

/// A tenant: what it was created with, and its key, unless that was destroyed.
#[derive(Debug)]
pub struct TenantEntry {
    spec: TenantSpec,
    kek: Option<KeyHandle>,
}

/// A tenant as a value.
pub struct EntryView {
    pub spec: SpecView,
    pub kek: Option<KeyView>,
}

impl View for TenantEntry {
    type V = EntryView;

    closed spec fn view(&self) -> EntryView {
        EntryView {
            spec: self.spec@,
            kek: match self.kek {
                Some(k) => Some(k@),
                None => None,
            },
        }
    }
}

/// The tenants.
pub struct RegistryView {
    pub tenants: Map<TenantId, EntryView>,
    /// The number of the last tenant created.
    pub next_id: u32,
}

impl RegistryView {
    pub open spec fn empty() -> RegistryView {
        RegistryView { tenants: Map::empty(), next_id: 0 }
    }

    pub open spec fn name_taken(self, name: Seq<char>) -> bool {
        exists|t: TenantId| #[trigger] self.tenants.contains_key(t) && self.tenants[t].spec.name == name
    }

    pub open spec fn create(self, spec: SpecView) -> (RegistryView, Result<TenantId, ErrorView>) {
        if self.name_taken(spec.name) {
            (self, Err(ErrorView::Invalid("tenant name '"@ + spec.name + "' already exists"@)))
        } else {
            let id = TenantId((self.next_id + 1) as u32);
            let kek = KeyView { key_id: spec.name + "-kek"@, generation: 1 };
            (
                RegistryView {
                    tenants: self.tenants.insert(id, EntryView { spec, kek: Some(kek) }),
                    next_id: id.0,
                },
                Ok(id),
            )
        }
    }

    pub open spec fn get(self, id: TenantId) -> Result<SpecView, ErrorView> {
        if self.tenants.contains_key(id) {
            Ok(self.tenants[id].spec)
        } else {
            Err(ErrorView::UnknownTenant(id))
        }
    }

    pub open spec fn key(self, id: TenantId) -> Result<KeyView, ErrorView> {
        if self.tenants.contains_key(id) {
            match self.tenants[id].kek {
                Some(k) => Ok(k),
                None => Err(ErrorView::UnknownTenant(id)),
            }
        } else {
            Err(ErrorView::UnknownTenant(id))
        }
    }

    pub open spec fn rotate_key(self, id: TenantId) -> (RegistryView, Result<u32, ErrorView>) {
        match self.key(id) {
            Err(e) => (self, Err(e)),
            Ok(k) => {
                let generation = (k.generation + 1) as u32;
                let entry = EntryView { kek: Some(KeyView { generation, ..k }), ..self.tenants[id] };
                (RegistryView { tenants: self.tenants.insert(id, entry), ..self }, Ok(generation))
            },
        }
    }

    pub open spec fn delete(self, id: TenantId) -> (RegistryView, Result<(), ErrorView>) {
        if self.tenants.contains_key(id) {
            (RegistryView { tenants: self.tenants.remove(id), ..self }, Ok(()))
        } else {
            (self, Err(ErrorView::UnknownTenant(id)))
        }
    }

    pub open spec fn placement(self, id: TenantId) -> Result<Placement, ErrorView> {
        match self.get(id) {
            Ok(s) => Ok(s.placement),
            Err(e) => Err(e),
        }
    }

    /// The tenants by number.
    pub open spec fn list(self) -> Seq<(TenantId, SpecView)> {
        sorted_map::in_order::<TenantId>(self.tenants.dom()).map_values(
            |t: TenantId| (t, self.tenants[t].spec),
        )
    }

    /// No two tenants share a name, all are numbered up to the last one, and each
    /// key is named after its tenant.
    pub open spec fn consistent(self) -> bool {
        &&& self.tenants.dom().finite()
        &&& forall|a: TenantId, b: TenantId| #[trigger]
            self.tenants.contains_key(a) && #[trigger] self.tenants.contains_key(b) && self.tenants[a].spec.name
                == self.tenants[b].spec.name ==> a == b
        &&& forall|a: TenantId| #[trigger] self.tenants.contains_key(a) ==> 0 < a.0 <= self.next_id
        &&& forall|a: TenantId| #[trigger] self.tenants.contains_key(a) ==> self.tenants[a].well_named()
    }
}

impl EntryView {
    pub open spec fn well_named(self) -> bool {
        self.kek matches Some(k) ==> k.key_id == self.spec.name + "-kek"@
    }
}

/// The registry of tenants.
#[derive(Debug)]
pub struct TenantRegistry {
    tenants: SortedMap<TenantId, TenantEntry>,
    next_id: u32,
}

impl View for TenantRegistry {
    type V = RegistryView;

    closed spec fn view(&self) -> RegistryView {
        RegistryView { tenants: self.tenants@.map_values(|e: TenantEntry| e@), next_id: self.next_id }
    }
}

impl Default for TenantRegistry {
    fn default() -> (r: Self)
        ensures
            r.wf(),
            r@ == RegistryView::empty(),
    {
        TenantRegistry::new()
    }
}

impl TenantRegistry {
    /// The map of tenants is well-formed.
    pub closed spec fn parts_wf(&self) -> bool {
        self.tenants.wf()
    }

    pub open spec fn wf(&self) -> bool {
        self.parts_wf() && self@.consistent()
    }

    pub fn new() -> (r: Self)
        ensures
            r.wf(),
            r@ == RegistryView::empty(),
    {
        let r = TenantRegistry { tenants: SortedMap::new(), next_id: 0 };
        assert(r@.tenants =~= Map::empty());
        assert(r@.tenants.dom() =~= Set::empty());
        r
    }

    /// Whether a tenant has the name.
    pub(crate) fn has_name(&self, name: &str) -> (r: bool)
        requires
            self.wf(),
        ensures
            r == self@.name_taken(name@),
    {
        let mut i: usize = 0;
        let ghost ks = self.tenants.keys();
        while i < self.tenants.len()
            invariant
                self.wf(),
                ks == self.tenants.keys(),
                i <= ks.len(),
                forall|k: int| 0 <= k < i ==> self@.tenants[#[trigger] ks[k]].spec.name != name@,
            decreases ks.len() - i,
        {
            proof {
                self.tenants.lemma_entries();
            }
            let e: &TenantEntry = self.tenants.value_at(i);
            assert(self.tenants@[ks[i as int]] == e);
            assert(self@.tenants.contains_key(ks[i as int]));
            if text::same_text(e.spec.name.as_str(), name) {
                return true;
            }
            i += 1;
        }
        proof {
            self.tenants.lemma_entries();
            if self@.name_taken(name@) {
                let t = choose|t: TenantId| #[trigger]
                    self@.tenants.contains_key(t) && self@.tenants[t].spec.name == name@;
                assert(self.tenants@.contains_key(t));
                let k = choose|k: int| 0 <= k < ks.len() && ks[k] == t;
                assert(self@.tenants[ks[k]].spec.name != name@);
            }
        }
        false
    }

    /// Creates a tenant: its name must not be in use; it gets its first key.
    pub fn create(&mut self, spec: TenantSpec) -> (r: Result<TenantId, Error>)
        requires
            old(self).wf(),
            !old(self)@.name_taken(spec@.name) ==> old(self)@.next_id < u32::MAX,
        ensures
            final(self).wf(),
            (final(self)@, types::outcome(r)) == old(self)@.create(spec@),
    {
        if self.has_name(spec.name.as_str()) {
            let head = text::join("tenant name '", spec.name.as_str());
            return Err(Error::Invalid(text::join(head.as_str(), "' already exists")));
        }
        let ghost before = self@;
        proof {
            law_create(before, spec@, TenantId(0));
        }
        self.next_id = self.next_id + 1;
        let id = TenantId(self.next_id);
        let kek = KeyHandle { key_id: text::join(spec.name.as_str(), "-kek"), generation: 1 };
        let entry = TenantEntry { spec, kek: Some(kek) };
        let ghost e = entry@;
        self.tenants.insert(id, entry);
        assert(self@.tenants =~= before.tenants.insert(id, e));
        Ok(id)
    }

    pub fn get(&self, id: TenantId) -> (r: Result<&TenantSpec, Error>)
        requires
            self.wf(),
        ensures
            match r {
                Ok(s) => self@.get(id) == Ok::<_, ErrorView>(s@),
                Err(e) => self@.get(id) == Err::<SpecView, _>(e@),
            },
    {
        match self.tenants.get(&id) {
            Some(e) => Ok(&e.spec),
            None => Err(Error::UnknownTenant(id)),
        }
    }

    /// The key of a tenant: once the tenant is deleted there is none.
    pub fn key(&self, id: TenantId) -> (r: Result<&KeyHandle, Error>)
        requires
            self.wf(),
        ensures
            match r {
                Ok(k) => self@.key(id) == Ok::<_, ErrorView>(k@),
                Err(e) => self@.key(id) == Err::<KeyView, _>(e@),
            },
    {
        match self.tenants.get(&id) {
            Some(e) => match &e.kek {
                Some(k) => Ok(k),
                None => Err(Error::UnknownTenant(id)),
            },
            None => Err(Error::UnknownTenant(id)),
        }
    }

    /// Rotates a tenant's key: one generation on.
    pub fn rotate_key(&mut self, id: TenantId) -> (r: Result<u32, Error>)
        requires
            old(self).wf(),
            old(self)@.key(id) matches Ok(k) ==> k.generation < u32::MAX,
        ensures
            final(self).wf(),
            (final(self)@, types::outcome(r)) == old(self)@.rotate_key(id),
    {
        let ghost before = self@;
        let r = match self.tenants.get_mut(&id) {
            Some(e) => match &mut e.kek {
                Some(k) => {
                    k.generation = k.generation + 1;
                    Ok(k.generation)
                },
                None => Err(Error::UnknownTenant(id)),
            },
            None => Err(Error::UnknownTenant(id)),
        };
        assert(self@.tenants =~= before.rotate_key(id).0.tenants);
        proof {
            lemma_rotation_consistent(before, id);
        }
        r
    }

    /// Deletes a tenant. Its key is destroyed with it, so nothing that was
    /// encrypted for it can be read again.
    pub fn delete(&mut self, id: TenantId) -> (r: Result<(), Error>)
        requires
            old(self).wf(),
        ensures
            final(self).wf(),
            (final(self)@, types::outcome(r)) == old(self)@.delete(id),
    {
        let ghost before = self@;
        proof {
            law_deletion_destroys_the_key(before, id, TenantId(0));
        }
        match self.tenants.remove(&id) {
            Some(_) => {
                assert(self@.tenants =~= before.tenants.remove(id));
                Ok(())
            },
            None => {
                assert(self@.tenants =~= before.tenants);
                Err(Error::UnknownTenant(id))
            },
        }
    }

    pub fn placement(&self, id: TenantId) -> (r: Result<Placement, Error>)
        requires
            self.wf(),
        ensures
            types::outcome(r) == self@.placement(id),
    {
        match self.get(id) {
            Ok(s) => Ok(s.placement),
            Err(e) => Err(e),
        }
    }

    /// The number of the last tenant created.
    pub(crate) fn last_id(&self) -> (n: u32)
        ensures
            n == self@.next_id,
    {
        self.next_id
    }

    /// The tenants by number.
    pub fn list(&self) -> (r: Vec<(TenantId, &TenantSpec)>)
        requires
            self.wf(),
        ensures
            r@.map_values(|e: (TenantId, &TenantSpec)| (e.0, e.1@)) == self@.list(),
            self@.tenants.dom().finite(),
            r@.len() == self@.tenants.dom().len(),
    {
        let mut r: Vec<(TenantId, &TenantSpec)> = Vec::new();
        let mut i: usize = 0;
        let ghost ks = self.tenants.keys();
        while i < self.tenants.len()
            invariant
                self.wf(),
                ks == self.tenants.keys(),
                i <= ks.len(),
                r@.len() == i,
                forall|k: int|
                    0 <= k < i ==> (#[trigger] r@[k]).0 == ks[k] && r@[k].1@ == self@.tenants[ks[k]].spec,
            decreases ks.len() - i,
        {
            proof {
                self.tenants.lemma_entries();
            }
            let id: TenantId = *self.tenants.key_at(i);
            let e: &TenantEntry = self.tenants.value_at(i);
            assert(self.tenants@[ks[i as int]] == e);
            r.push((id, &e.spec));
            i += 1;
        }
        proof {
            self.tenants.lemma_entries();
            assert(self@.tenants.dom() =~= self.tenants@.dom());
            assert(r@.map_values(|e: (TenantId, &TenantSpec)| (e.0, e.1@)) =~= self@.list());
        }
        r
    }
}

/// Creating a tenant gives it a number that no tenant had, its placement, and a
/// key of the first generation; no other tenant changes. A name in use is
/// refused, and nothing changes.
pub proof fn law_create(v: RegistryView, spec: SpecView, other: TenantId)
    requires
        v.consistent(),
        !v.name_taken(spec.name) ==> v.next_id < u32::MAX,
    ensures
        ({
            let (w, r) = v.create(spec);
            &&& w.consistent()
            &&& r is Err <==> v.name_taken(spec.name)
            &&& r is Err ==> w == v
            &&& r matches Ok(id) ==> {
                &&& !v.tenants.contains_key(id)
                &&& id.0 > v.next_id
                &&& w.get(id) == Ok::<_, ErrorView>(spec)
                &&& w.key(id) matches Ok(k) && k.generation == 1
                &&& other != id ==> w.key(other) == v.key(other) && w.get(other) == v.get(other)
            }
        }),
{
    let (w, r) = v.create(spec);
    if !v.name_taken(spec.name) {
        let id = TenantId((v.next_id + 1) as u32);
        assert forall|a: TenantId, b: TenantId| #[trigger] w.tenants.contains_key(a) && #[trigger]
            w.tenants.contains_key(b) && w.tenants[a].spec.name == w.tenants[b].spec.name implies a == b by {
            if a != id {
                assert(v.tenants.contains_key(a));
            }
            if b != id {
                assert(v.tenants.contains_key(b));
            }
        }
        assert forall|a: TenantId| #[trigger] w.tenants.contains_key(a) implies 0 < a.0 <= w.next_id
            && w.tenants[a].well_named() by {
            if a != id {
                assert(v.tenants.contains_key(a));
            }
        }
    }
}

/// Different tenants have different keys.
pub proof fn law_keys_differ(v: RegistryView, a: TenantId, b: TenantId)
    requires
        v.consistent(),
        a != b,
        v.key(a) is Ok,
        v.key(b) is Ok,
    ensures
        v.key(a)->Ok_0.key_id != v.key(b)->Ok_0.key_id,
{
    let suffix = "-kek"@;
    let (x, y) = (v.tenants[a].spec.name, v.tenants[b].spec.name);
    assert(v.tenants[a].well_named() && v.tenants[b].well_named());
    if x + suffix == y + suffix {
        assert((x + suffix).take((x + suffix).len() - suffix.len()) =~= x);
        assert((y + suffix).take((y + suffix).len() - suffix.len()) =~= y);
    }
}

/// Deleting a tenant destroys its key: neither it nor the tenant can be reached
/// any more, and no other tenant is touched.
pub proof fn law_deletion_destroys_the_key(v: RegistryView, id: TenantId, other: TenantId)
    requires
        v.consistent(),
    ensures
        ({
            let (w, r) = v.delete(id);
            &&& w.consistent()
            &&& r is Ok <==> v.tenants.contains_key(id)
            &&& w.key(id) == Err::<KeyView, _>(ErrorView::UnknownTenant(id))
            &&& w.get(id) == Err::<SpecView, _>(ErrorView::UnknownTenant(id))
            &&& other != id ==> w.key(other) == v.key(other) && w.get(other) == v.get(other)
        }),
{
    let w = v.delete(id).0;
    assert forall|a: TenantId, b: TenantId| #[trigger] w.tenants.contains_key(a) && #[trigger]
        w.tenants.contains_key(b) && w.tenants[a].spec.name == w.tenants[b].spec.name implies a == b by {
        assert(v.tenants.contains_key(a) && v.tenants.contains_key(b));
    }
    assert forall|a: TenantId| #[trigger] w.tenants.contains_key(a) implies 0 < a.0 <= w.next_id
        && w.tenants[a].well_named() by {
        assert(v.tenants.contains_key(a));
    }
}

/// Rotating a key keeps the registry consistent.
pub proof fn lemma_rotation_consistent(v: RegistryView, id: TenantId)
    requires
        v.consistent(),
    ensures
        v.rotate_key(id).0.consistent(),
{
    let w = v.rotate_key(id).0;
    if v.key(id) is Ok {
        assert(v.tenants[id].well_named());
        assert(w.tenants.dom() =~= v.tenants.dom());
    }
    assert forall|a: TenantId, b: TenantId| #[trigger] w.tenants.contains_key(a) && #[trigger]
        w.tenants.contains_key(b) && w.tenants[a].spec.name == w.tenants[b].spec.name implies a == b by {
        assert(v.tenants.contains_key(a) && v.tenants.contains_key(b));
    }
    assert forall|a: TenantId| #[trigger] w.tenants.contains_key(a) implies 0 < a.0 <= w.next_id
        && w.tenants[a].well_named() by {
        assert(v.tenants.contains_key(a));
    }
}

/// Rotating a key moves it one generation on, under the same name; no other
/// tenant is touched.
pub proof fn law_rotation(v: RegistryView, id: TenantId, other: TenantId)
    requires
        v.consistent(),
        v.key(id) matches Ok(k) && k.generation < u32::MAX,
    ensures
        ({
            let (w, r) = v.rotate_key(id);
            let k = v.key(id)->Ok_0;
            &&& w.consistent()
            &&& r == Ok::<u32, ErrorView>((k.generation + 1) as u32)
            &&& w.key(id) == Ok::<_, ErrorView>(KeyView { generation: (k.generation + 1) as u32, ..k })
            &&& w.get(id) == v.get(id)
            &&& other != id ==> w.key(other) == v.key(other)
        }),
{
    lemma_rotation_consistent(v, id);
}

/// What creating a tenant does, in the entries of the registry. A name that some tenant
/// has is refused, with that name, and nothing changes. Any other name gets the next
/// number, and under it exactly what was asked for and a first key named after it; no other
/// entry changes.
pub proof fn law_a_new_tenant_is_entered(v: RegistryView, spec: SpecView, other: TenantId)
    requires
        v.next_id < u32::MAX,
    ensures
        ({
            let (w, r) = v.create(spec);
            let known = exists|t: TenantId| #[trigger] v.tenants.contains_key(t) && v.tenants[t].spec.name == spec.name;
            &&& known ==> w == v && r == Err::<TenantId, ErrorView>(
                ErrorView::Invalid("tenant name '"@ + spec.name + "' already exists"@),
            )
            &&& !known ==> {
                let id = TenantId((v.next_id + 1) as u32);
                &&& r == Ok::<TenantId, ErrorView>(id)
                &&& w.next_id == v.next_id + 1
                &&& w.tenants.contains_key(id)
                &&& w.tenants[id].spec.name == spec.name && w.tenants[id].spec.placement == spec.placement
                &&& w.tenants[id].kek matches Some(k) && k.generation == 1 && k.key_id == spec.name + "-kek"@
                &&& other != id ==> (w.tenants.contains_key(other) <==> v.tenants.contains_key(other))
                    && w.tenants[other] == v.tenants[other]
            }
        }),
{
}

/// What can be learnt of a tenant is what its entry says, and of a tenant without an entry
/// that it is not known. A tenant whose key is gone has no key to show.
pub proof fn law_lookups_show_the_entry(v: RegistryView, id: TenantId)
    ensures
        ({
            let e = v.tenants[id];
            if v.tenants.contains_key(id) {
                &&& v.get(id) == Ok::<SpecView, ErrorView>(e.spec)
                &&& v.placement(id) == Ok::<Placement, ErrorView>(e.spec.placement)
                &&& e.kek matches Some(k) ==> v.key(id) == Ok::<KeyView, ErrorView>(k)
                &&& e.kek is None ==> v.key(id) == Err::<KeyView, ErrorView>(ErrorView::UnknownTenant(id))
            } else {
                &&& v.get(id) == Err::<SpecView, ErrorView>(ErrorView::UnknownTenant(id))
                &&& v.placement(id) == Err::<Placement, ErrorView>(ErrorView::UnknownTenant(id))
                &&& v.key(id) == Err::<KeyView, ErrorView>(ErrorView::UnknownTenant(id))
            }
        }),
{
}

/// Deleting takes away exactly the one entry, and never frees its number; rotating changes
/// exactly the generation of the one key, by one. For a tenant that is not known, and for
/// rotating one without a key, both are refused and change nothing.
pub proof fn law_changes_touch_one_entry(v: RegistryView, id: TenantId, other: TenantId)
    ensures
        ({
            let (w, r) = v.delete(id);
            let (x, s) = v.rotate_key(id);
            let unknown = ErrorView::UnknownTenant(id);
            &&& w.next_id == v.next_id && x.next_id == v.next_id
            &&& w.tenants.contains_key(other) <==> v.tenants.contains_key(other) && other != id
            &&& other != id ==> w.tenants[other] == v.tenants[other] && x.tenants[other] == v.tenants[other]
            &&& x.tenants.contains_key(other) <==> v.tenants.contains_key(other)
            &&& if v.tenants.contains_key(id) {
                r is Ok
            } else {
                w == v && r == Err::<(), ErrorView>(unknown)
            }
            &&& match (v.tenants.contains_key(id), v.tenants[id].kek) {
                (true, Some(k)) => k.generation < u32::MAX ==> {
                    &&& s == Ok::<u32, ErrorView>((k.generation + 1) as u32)
                    &&& x.tenants[id].spec == v.tenants[id].spec
                    &&& x.tenants[id].kek matches Some(l) && l.key_id == k.key_id && l.generation == k.generation + 1
                },
                _ => x == v && s == Err::<u32, ErrorView>(unknown),
            }
        }),
{
}

/// The listing has every tenant once, by number, each with what it was created with.
pub proof fn law_every_tenant_is_listed(v: RegistryView, id: TenantId)
    requires
        v.consistent(),
    ensures
        ({
            let l = v.list();
            &&& l.len() == v.tenants.dom().len()
            &&& forall|i: int|
                0 <= i < l.len() ==> v.tenants.contains_key((#[trigger] l[i]).0) && l[i].1 == v.tenants[l[i].0].spec
            &&& forall|i: int, j: int| 0 <= i < j < l.len() ==> (#[trigger] l[i]).0.0 < (#[trigger] l[j]).0.0
            &&& v.tenants.contains_key(id) ==> l.contains((id, v.tenants[id].spec))
        }),
{
    let lt = sorted_map::key_order::<TenantId>();
    let ks = sorted_map::in_order::<TenantId>(v.tenants.dom());
    <TenantId as sorted_map::Key>::lemma_order();
    order::lemma_ranking_exists(v.tenants.dom(), lt);
    order::lemma_ranking_len(ks, v.tenants.dom(), lt);
    let l = v.list();
    assert forall|i: int| 0 <= i < l.len() implies v.tenants.contains_key((#[trigger] l[i]).0) && l[i].1
        == v.tenants[l[i].0].spec by {
        assert(ks.contains(ks[i]));
        assert(v.tenants.dom().contains(ks[i]));
    }
    assert forall|i: int, j: int| 0 <= i < j < l.len() implies (#[trigger] l[i]).0.0 < (#[trigger] l[j]).0.0 by {
        assert(lt(ks[i], ks[j]));
    }
    if v.tenants.contains_key(id) {
        assert(v.tenants.dom().contains(id));
        let i = choose|i: int| 0 <= i < ks.len() && ks[i] == id;
        assert(l[i] == (id, v.tenants[id].spec));
    }
}

} // verus!
