use omnistor::quota::{QuotaLimit, QuotaManager, Usage};
use omnistor::types::{Error, TenantId};

const T: TenantId = TenantId(1);

fn mgr() -> QuotaManager {
    let mut m = QuotaManager::new();
    m.set_tenant_limit(
        T,
        QuotaLimit {
            capacity_bytes: Some(1000),
            object_count: Some(10),
        },
    );
    m
}

#[test]
fn tenant_hard_limit_rejects() {
    let mut m = mgr();
    m.charge(T, "b1", 900, 5).unwrap();
    let err = m.charge(T, "b1", 200, 1).unwrap_err();
    assert!(matches!(err, Error::QuotaExceeded { .. }));
    m.charge(T, "b1", 100, 1).unwrap();
}

#[test]
fn scope_sublimit_within_tenant() {
    let mut m = mgr();
    m.set_scope_limit(
        T,
        "bucket-a",
        QuotaLimit {
            capacity_bytes: Some(100),
            object_count: None,
        },
    )
    .unwrap();
    m.charge(T, "bucket-a", 100, 1).unwrap();
    let err = m.charge(T, "bucket-a", 1, 1).unwrap_err();
    assert_eq!(
        err,
        Error::QuotaExceeded {
            scope: "bucket-a:capacity".into()
        }
    );
    m.charge(T, "bucket-b", 500, 1).unwrap();
}

#[test]
fn release_returns_budget() {
    let mut m = mgr();
    m.charge(T, "b", 1000, 10).unwrap();
    m.release(T, "b", 600, 4);
    assert_eq!(
        m.tenant_usage(T).unwrap(),
        Usage {
            bytes: 400,
            objects: 6
        }
    );
    m.charge(T, "b", 600, 4).unwrap();
}

#[test]
fn failed_check_commits_nothing() {
    let mut m = mgr();
    m.set_scope_limit(
        T,
        "s",
        QuotaLimit {
            capacity_bytes: Some(50),
            object_count: None,
        },
    )
    .unwrap();
    let before = m.tenant_usage(T).unwrap();
    assert!(m.charge(T, "s", 60, 1).is_err());
    assert_eq!(m.tenant_usage(T).unwrap(), before);
}

#[test]
fn unknown_tenant_rejected() {
    let mut m = QuotaManager::new();
    assert_eq!(
        m.charge(TenantId(9), "x", 1, 1).unwrap_err(),
        Error::UnknownTenant(TenantId(9))
    );
}

fn exceeded(scope: &str) -> Result<(), Error> {
    Err(Error::QuotaExceeded {
        scope: scope.into(),
    })
}

#[test]
fn an_error_says_which_limit() {
    let mut m = mgr();
    m.set_scope_limit(
        T,
        "s",
        QuotaLimit {
            capacity_bytes: None,
            object_count: Some(2),
        },
    )
    .unwrap();
    assert_eq!(m.charge(T, "s", 1001, 11), exceeded("tenant:capacity"));
    assert_eq!(m.charge(T, "s", 1000, 11), exceeded("tenant:objects"));
    assert_eq!(m.charge(T, "s", 1000, 3), exceeded("s:objects"));
    assert_eq!(m.charge(T, "s", 1000, 2), Ok(()));
}

#[test]
fn a_limit_is_reached_by_saturating_sums() {
    let mut m = mgr();
    m.charge(T, "s", 1, 1).unwrap();
    assert_eq!(m.charge(T, "s", u64::MAX, 1), exceeded("tenant:capacity"));
    assert_eq!(m.charge(T, "s", 1, u64::MAX), exceeded("tenant:objects"));
}

#[test]
fn a_new_limit_keeps_the_use() {
    let mut m = mgr();
    m.charge(T, "s", 500, 5).unwrap();
    m.set_tenant_limit(
        T,
        QuotaLimit {
            capacity_bytes: Some(600),
            object_count: None,
        },
    );
    assert_eq!(m.charge(T, "s", 101, 1), exceeded("tenant:capacity"));
    m.charge(T, "s", 100, 100).unwrap();
    assert_eq!(
        m.tenant_usage(T),
        Some(Usage {
            bytes: 600,
            objects: 105
        })
    );
}

fn bytes_only(limit: u64) -> QuotaLimit {
    QuotaLimit {
        capacity_bytes: Some(limit),
        object_count: None,
    }
}

#[test]
fn scopes_count_from_when_they_are_limited() {
    let mut m = mgr();
    m.charge(T, "s", 500, 5).unwrap();
    m.set_scope_limit(T, "s", bytes_only(10)).unwrap();
    m.charge(T, "s", 7, 1).unwrap();
    assert_eq!(m.charge(T, "s", 4, 1), exceeded("s:capacity"));
    // A new limit keeps the count.
    m.set_scope_limit(T, "s", bytes_only(11)).unwrap();
    assert_eq!(m.charge(T, "s", 5, 1), exceeded("s:capacity"));
    m.charge(T, "s", 4, 1).unwrap();
    assert_eq!(
        m.set_scope_limit(TenantId(2), "s", QuotaLimit::default()),
        Err(Error::UnknownTenant(TenantId(2)))
    );
}

#[test]
fn release_undoes_a_charge_and_stops_at_zero() {
    let mut m = mgr();
    m.set_scope_limit(T, "s", bytes_only(320)).unwrap();
    m.charge(T, "s", 300, 3).unwrap();
    let before = m.tenant_usage(T);
    m.charge(T, "s", 20, 2).unwrap();
    assert_eq!(m.charge(T, "s", 1, 1), exceeded("s:capacity"));
    m.release(T, "s", 20, 2);
    assert_eq!(m.tenant_usage(T), before);
    m.charge(T, "s", 20, 2).unwrap();
    m.release(T, "s", 5000, 5000);
    assert_eq!(m.tenant_usage(T), Some(Usage::default()));
    assert_eq!(m.charge(T, "s", 321, 1), exceeded("s:capacity"));
    m.charge(T, "s", 320, 1).unwrap();
    m.release(TenantId(8), "s", 1, 1);
    assert_eq!(m.tenant_usage(TenantId(8)), None);
}

#[test]
fn a_removed_tenant_leaves_no_account() {
    let mut m = mgr();
    let other = TenantId(2);
    m.set_tenant_limit(other, QuotaLimit::default());
    for t in [T, other] {
        m.set_scope_limit(t, "s", bytes_only(10)).unwrap();
        m.set_scope_limit(t, "u", bytes_only(10)).unwrap();
        m.charge(t, "s", 10, 1).unwrap();
    }
    m.remove_tenant(T);
    assert_eq!(m.tenant_usage(T), None);
    assert_eq!(m.charge(T, "s", 1, 1), Err(Error::UnknownTenant(T)));
    // Neither limits nor counts of its scopes are left for a tenant of that number.
    m.set_tenant_limit(T, QuotaLimit::default());
    m.charge(T, "s", 100, 1).unwrap();
    m.charge(T, "u", 100, 1).unwrap();
    assert_eq!(m.charge(other, "s", 1, 1), exceeded("s:capacity"));
}
