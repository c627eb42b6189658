use omnistor::tenant::{Placement, TenantRegistry, TenantSpec};
use omnistor::types::{Error, PoolId, TenantId};

fn spec(name: &str) -> TenantSpec {
    TenantSpec {
        name: name.into(),
        placement: Placement::Shared,
    }
}

#[test]
fn create_issues_unique_ids_and_keys() {
    let mut r = TenantRegistry::new();
    let a = r.create(spec("acme")).unwrap();
    let b = r.create(spec("globex")).unwrap();
    assert_ne!(a, b);
    assert_ne!(r.key(a).unwrap().key_id, r.key(b).unwrap().key_id);
}

#[test]
fn duplicate_name_rejected() {
    let mut r = TenantRegistry::new();
    r.create(spec("acme")).unwrap();
    assert!(r.create(spec("acme")).is_err());
}

#[test]
fn delete_is_crypto_shredding() {
    let mut r = TenantRegistry::new();
    let id = r.create(spec("acme")).unwrap();
    assert!(r.key(id).is_ok());
    r.delete(id).unwrap();
    assert_eq!(r.key(id).unwrap_err(), Error::UnknownTenant(id));
    assert_eq!(r.get(id).unwrap_err(), Error::UnknownTenant(id));
}

#[test]
fn key_rotation_bumps_generation() {
    let mut r = TenantRegistry::new();
    let id = r.create(spec("acme")).unwrap();
    assert_eq!(r.key(id).unwrap().generation, 1);
    assert_eq!(r.rotate_key(id).unwrap(), 2);
    assert_eq!(r.key(id).unwrap().generation, 2);
}

#[test]
fn dedicated_pool_placement() {
    let mut r = TenantRegistry::new();
    let id = r
        .create(TenantSpec {
            name: "bank".into(),
            placement: Placement::DedicatedPool(PoolId(7)),
        })
        .unwrap();
    assert_eq!(
        r.placement(id).unwrap(),
        Placement::DedicatedPool(PoolId(7))
    );
}

#[test]
fn tenants_are_numbered_and_have_keys() {
    let mut r = TenantRegistry::default();
    assert_eq!(r.create(spec("acme")), Ok(TenantId(1)));
    assert_eq!(
        r.create(spec("acme")),
        Err(Error::Invalid("tenant name 'acme' already exists".into()))
    );
    assert_eq!(r.create(spec("")), Ok(TenantId(2)));
    assert_eq!(r.key(TenantId(1)).unwrap().key_id, "acme-kek");
    assert_eq!(r.key(TenantId(2)).unwrap().key_id, "-kek");
    assert_eq!(r.get(TenantId(1)).unwrap().name, "acme");
}

#[test]
fn a_deleted_name_is_free_and_its_number_is_not() {
    let mut r = TenantRegistry::new();
    let old = r.create(spec("acme")).unwrap();
    r.rotate_key(old).unwrap();
    r.delete(old).unwrap();
    let new = r.create(spec("acme")).unwrap();
    assert_ne!(old, new);
    assert_eq!(r.key(new).unwrap().generation, 1);
    let gone = Error::UnknownTenant(old);
    assert_eq!(r.delete(old).unwrap_err(), gone);
    assert_eq!(r.rotate_key(old).unwrap_err(), gone);
    assert_eq!(r.placement(old).unwrap_err(), gone);
}

#[test]
fn rotation_keeps_the_name_of_the_key_and_other_keys() {
    let mut r = TenantRegistry::new();
    let a = r.create(spec("acme")).unwrap();
    let b = r.create(spec("globex")).unwrap();
    r.rotate_key(a).unwrap();
    r.rotate_key(a).unwrap();
    assert_eq!(r.key(a).unwrap().key_id, "acme-kek");
    assert_eq!(r.key(a).unwrap().generation, 3);
    assert_eq!(r.key(b).unwrap().generation, 1);
}

#[test]
fn tenants_are_listed_by_number() {
    let mut r = TenantRegistry::new();
    for name in ["zeta", "acme", "mid"] {
        r.create(spec(name)).unwrap();
    }
    r.delete(TenantId(2)).unwrap();
    let listed: Vec<(u32, &str)> = r
        .list()
        .iter()
        .map(|(id, s)| (id.0, s.name.as_str()))
        .collect();
    assert_eq!(listed, vec![(1, "zeta"), (3, "mid")]);
}
