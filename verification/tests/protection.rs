use omnistor::protection::{ProtectionScheme, RebuildTask, StripeHealth, StripeId, StripeManager};
use omnistor::types::{CNodeId, Error, PoolId, SNodeId};
use std::collections::BTreeSet;

fn manager(domains: u32) -> StripeManager {
    let mut m = StripeManager::new(PoolId(1), ProtectionScheme::new(8, 2).unwrap());
    for i in 0..domains {
        m.add_domain(SNodeId(i));
    }
    m
}

#[test]
fn scheme_validation_and_efficiency() {
    assert!(ProtectionScheme::new(3, 2).is_err());
    assert!(ProtectionScheme::new(8, 3).is_err());
    let wide = ProtectionScheme::new(16, 2).unwrap();
    let narrow = ProtectionScheme::new(4, 2).unwrap();
    assert!(wide.efficiency_permille() > narrow.efficiency_permille());
    assert_eq!(wide.efficiency_permille(), 888);
}

#[test]
fn stripe_members_never_share_fault_domain() {
    let mut m = manager(12);
    for _ in 0..100 {
        let (_, members) = m.place_stripe().unwrap();
        let unique: BTreeSet<_> = members.iter().collect();
        assert_eq!(unique.len(), 10, "duplicate fault domain in stripe");
    }
}

#[test]
fn placement_balances_across_domains() {
    let mut m = manager(20);
    for _ in 0..200 {
        m.place_stripe().unwrap();
    }
    let counts: Vec<u64> = (0..20).map(|i| m.shards_on(SNodeId(i))).collect();
    let (min, max) = (counts.iter().min().unwrap(), counts.iter().max().unwrap());
    assert!(max - min <= 1, "imbalance: min={min} max={max}");
}

#[test]
fn too_few_domains_is_rejected() {
    let mut m = manager(9);
    assert!(m.place_stripe().is_err());
}

#[test]
fn degraded_read_within_parity() {
    let mut m = manager(12);
    let (id, members) = m.place_stripe().unwrap();
    assert_eq!(m.health(id).unwrap(), StripeHealth::Healthy);
    m.fail_domain(members[0]);
    m.fail_domain(members[1]);
    assert_eq!(m.health(id).unwrap(), StripeHealth::Degraded { lost: 2 });
    let alive = m.readable_members(id).unwrap();
    assert_eq!(alive.len(), 8);
    m.fail_domain(members[2]);
    assert_eq!(m.health(id).unwrap(), StripeHealth::Lost);
    assert!(m.readable_members(id).is_err());
}

#[test]
fn rebuild_lists_only_affected_stripes() {
    let mut m = manager(14);
    let mut placed = Vec::new();
    for _ in 0..50 {
        placed.push(m.place_stripe().unwrap());
    }
    let victim = SNodeId(0);
    let affected = m.fail_domain(victim);
    let expected = placed
        .iter()
        .filter(|(_, mem)| mem.contains(&victim))
        .count();
    assert_eq!(affected, expected);
    let tasks = m.plan_rebuild(&[CNodeId(1)]).unwrap();
    assert_eq!(tasks.len(), expected);
}

#[test]
fn rebuild_spreads_over_cnodes_and_ranks_by_risk() {
    let mut m = manager(16);
    for _ in 0..60 {
        m.place_stripe().unwrap();
    }
    m.fail_domain(SNodeId(0));
    m.fail_domain(SNodeId(1));
    let cnodes: Vec<CNodeId> = (0..4).map(CNodeId).collect();
    let tasks = m.plan_rebuild(&cnodes).unwrap();
    assert!(!tasks.is_empty());
    for w in tasks.windows(2) {
        assert!(w[0].lost >= w[1].lost, "high-risk stripes must come first");
    }
    let assignees: BTreeSet<_> = tasks.iter().map(|t| t.assigned_to).collect();
    assert_eq!(assignees.len(), 4);
    for t in &tasks {
        for target in &t.write_to {
            assert!(!t.read_from.contains(target));
            assert!(target != &SNodeId(0) && target != &SNodeId(1));
        }
    }
}

#[test]
fn apply_rebuild_restores_health() {
    let mut m = manager(12);
    let (id, members) = m.place_stripe().unwrap();
    let victim = members[3];
    m.fail_domain(victim);
    assert_eq!(m.health(id).unwrap(), StripeHealth::Degraded { lost: 1 });
    let tasks = m.plan_rebuild(&[CNodeId(7)]).unwrap();
    assert_eq!(tasks.len(), 1);
    m.apply_rebuild(&tasks[0]).unwrap();
    assert_eq!(m.health(id).unwrap(), StripeHealth::Healthy);
    assert_eq!(m.shards_on(victim), 0);
    m.recover_domain(victim);
    assert_eq!(m.health(id).unwrap(), StripeHealth::Healthy);
}

#[test]
fn release_stripe_returns_capacity() {
    let mut m = manager(12);
    let (id, members) = m.place_stripe().unwrap();
    m.release_stripe(id).unwrap();
    for mem in members {
        assert_eq!(m.shards_on(mem), 0);
    }
    assert_eq!(m.stripe_count(), 0);
    assert_eq!(m.fail_domain(SNodeId(0)), 0);
}

#[test]
fn bigger_cluster_rebuilds_with_less_work_per_cnode() {
    let mut m = manager(20);
    for _ in 0..100 {
        m.place_stripe().unwrap();
    }
    m.fail_domain(SNodeId(0));
    let few: Vec<CNodeId> = (0..2).map(CNodeId).collect();
    let many: Vec<CNodeId> = (0..10).map(CNodeId).collect();
    let t_few = m.plan_rebuild(&few).unwrap();
    let t_many = m.plan_rebuild(&many).unwrap();
    let max_load = |tasks: &[RebuildTask], n: usize| {
        (0..n)
            .map(|c| {
                tasks
                    .iter()
                    .filter(|t| t.assigned_to == CNodeId(c as u32))
                    .count()
            })
            .max()
            .unwrap()
    };
    assert!(max_load(&t_many, 10) < max_load(&t_few, 2));
}

#[test]
fn schemes_on_offer() {
    for data in 0..=255u8 {
        for parity in 0..=6u8 {
            let r = ProtectionScheme::new(data, parity);
            let offered = (4..=16).contains(&data) && (parity == 2 || parity == 4);
            assert_eq!(r.is_ok(), offered);
            if let Ok(s) = r {
                assert_eq!(s.width(), usize::from(data) + usize::from(parity));
            }
        }
    }
    assert_eq!(
        ProtectionScheme::new(17, 3),
        Err(Error::Invalid("data shards 17 not in 4..=16".into()))
    );
    assert_eq!(
        ProtectionScheme::new(4, 3),
        Err(Error::Invalid("parity shards 3 not 2 or 4".into()))
    );
    assert_eq!(
        ProtectionScheme::new(8, 4).unwrap().efficiency_permille(),
        666
    );
}

#[test]
fn placement_prefers_the_least_used_and_rotates() {
    let mut m = manager(12);
    assert_eq!((m.pool(), m.scheme().data), (PoolId(1), 8));
    let (id, members) = m.place_stripe().unwrap();
    assert_eq!(id, StripeId(0));
    assert_eq!(members, (0..10).map(SNodeId).collect::<Vec<_>>());
    // The two that were left out come first now.
    let (id, members) = m.place_stripe().unwrap();
    assert_eq!(id, StripeId(1));
    assert_eq!(members[..2], [SNodeId(10), SNodeId(11)]);
    assert_eq!(members[2..], (0..8).map(SNodeId).collect::<Vec<_>>()[..]);
    assert_eq!(m.stripe_count(), 2);
    // The order among equals turns with the number of the stripe.
    let mut far = StripeManager::new(PoolId(2), ProtectionScheme::new(4, 2).unwrap());
    for i in 991..997 {
        far.add_domain(SNodeId(i));
    }
    far.add_domain(SNodeId(997));
    let (_, members) = far.place_stripe().unwrap();
    assert_eq!(members[0], SNodeId(997));
}

#[test]
fn too_few_domains_says_how_many() {
    let mut m = manager(11);
    m.fail_domain(SNodeId(4));
    m.fail_domain(SNodeId(5));
    assert_eq!(
        m.place_stripe().unwrap_err(),
        Error::Invalid("pool 1 has 9 healthy fault domains, stripe needs 10".into())
    );
    m.recover_domain(SNodeId(5));
    let (_, members) = m.place_stripe().unwrap();
    assert!(!members.contains(&SNodeId(4)));
}

#[test]
fn a_stripe_that_is_not_there() {
    let mut m = manager(12);
    let none = Error::Invalid("no stripe 5".into());
    assert_eq!(m.health(StripeId(5)).unwrap_err(), none);
    assert_eq!(m.readable_members(StripeId(5)).unwrap_err(), none);
    assert_eq!(m.release_stripe(StripeId(5)).unwrap_err(), none);
    let task = RebuildTask {
        stripe: StripeId(5),
        lost: 1,
        assigned_to: CNodeId(0),
        read_from: vec![],
        write_to: vec![],
    };
    assert_eq!(m.apply_rebuild(&task).unwrap_err(), none);
}

#[test]
fn a_lost_stripe_cannot_be_rebuilt() {
    let mut m = manager(14);
    let (id, members) = m.place_stripe().unwrap();
    for victim in &members[..3] {
        m.fail_domain(*victim);
    }
    assert_eq!(
        m.readable_members(id).unwrap_err(),
        Error::Invalid("stripe 0 lost beyond parity".into())
    );
    assert_eq!(
        m.plan_rebuild(&[CNodeId(1)]).unwrap_err(),
        Error::Invalid("stripe 0 lost beyond parity, rebuild impossible".into())
    );
    assert_eq!(
        m.plan_rebuild(&[]).unwrap_err(),
        Error::Invalid("no cnodes to rebuild".into())
    );
}

#[test]
fn without_spare_domains_nothing_is_rebuilt() {
    let mut m = manager(10);
    m.place_stripe().unwrap();
    m.fail_domain(SNodeId(0));
    assert_eq!(
        m.plan_rebuild(&[CNodeId(1)]).unwrap_err(),
        Error::Invalid("pool 1 lacks spare fault domains for stripe 0".into())
    );
}

#[test]
fn a_task_with_too_few_targets_is_refused() {
    let mut m = manager(12);
    let (id, members) = m.place_stripe().unwrap();
    m.fail_domain(members[0]);
    m.fail_domain(members[1]);
    let task = RebuildTask {
        stripe: id,
        lost: 2,
        assigned_to: CNodeId(0),
        read_from: vec![],
        write_to: vec![SNodeId(11)],
    };
    assert_eq!(
        m.apply_rebuild(&task).unwrap_err(),
        Error::Invalid("rebuild targets exhausted".into())
    );
    // The first of the two was written.
    assert_eq!(m.health(id).unwrap(), StripeHealth::Degraded { lost: 1 });
    assert_eq!(m.shards_on(SNodeId(11)), 1);
}

#[test]
fn a_plan_names_sources_targets_and_workers() {
    let mut m = manager(12);
    for _ in 0..3 {
        m.place_stripe().unwrap();
    }
    m.fail_domain(SNodeId(3));
    let tasks = m.plan_rebuild(&[CNodeId(4), CNodeId(5)]).unwrap();
    let stripes: Vec<u64> = tasks.iter().map(|t| t.stripe.0).collect();
    assert!(stripes.windows(2).all(|w| w[0] < w[1]));
    for (i, t) in tasks.iter().enumerate() {
        assert_eq!(t.assigned_to, CNodeId(4 + (i as u32) % 2));
        assert_eq!((t.lost, t.read_from.len(), t.write_to.len()), (1, 9, 1));
        assert!(!t.read_from.contains(&SNodeId(3)));
    }
}

#[test]
fn a_plan_heals_the_pool() {
    let mut m = manager(16);
    for _ in 0..40 {
        m.place_stripe().unwrap();
    }
    let before: u64 = (0..16).map(|i| m.shards_on(SNodeId(i))).sum();
    m.fail_domain(SNodeId(2));
    m.fail_domain(SNodeId(9));
    let tasks = m.plan_rebuild(&[CNodeId(1), CNodeId(2), CNodeId(3)]).unwrap();
    for t in &tasks {
        m.apply_rebuild(t).unwrap();
    }
    for i in 0..40 {
        assert_eq!(m.health(StripeId(i)).unwrap(), StripeHealth::Healthy);
    }
    assert_eq!(m.shards_on(SNodeId(2)) + m.shards_on(SNodeId(9)), 0);
    let after: u64 = (0..16).map(|i| m.shards_on(SNodeId(i))).sum();
    assert_eq!(before, after);
    assert!(m.plan_rebuild(&[CNodeId(1)]).unwrap().is_empty());
}

#[test]
fn adding_a_domain_again_changes_nothing() {
    let mut m = manager(12);
    let (_, members) = m.place_stripe().unwrap();
    m.add_domain(members[0]);
    assert_eq!(m.shards_on(members[0]), 1);
    assert_eq!(m.shards_on(SNodeId(99)), 0);
}

#[test]
fn a_wide_stripe_is_lost_beyond_its_parity() {
    let scheme = ProtectionScheme { data: 10, parity: 250 };
    let mut m = StripeManager::new(PoolId(1), scheme);
    for i in 0..260 {
        m.add_domain(SNodeId(i));
    }
    let (id, members) = m.place_stripe().unwrap();
    for d in &members[..250] {
        m.fail_domain(*d);
    }
    assert_eq!(m.health(id).unwrap(), StripeHealth::Degraded { lost: 250 });
    assert_eq!(m.readable_members(id).unwrap().len(), 10);
    for d in &members[250..] {
        m.fail_domain(*d);
        assert_eq!(m.health(id).unwrap(), StripeHealth::Lost);
        assert!(m.readable_members(id).is_err());
        assert!(m.plan_rebuild(&[CNodeId(1)]).is_err());
    }
}

#[test]
fn one_failure_costs_one_shard() {
    let mut m = manager(12);
    let mut ids = Vec::new();
    for _ in 0..6 {
        ids.push(m.place_stripe().unwrap());
    }
    m.fail_domain(SNodeId(3));
    for (id, members) in ids {
        let lost = members.contains(&SNodeId(3));
        let expected = if lost { StripeHealth::Degraded { lost: 1 } } else { StripeHealth::Healthy };
        assert_eq!(m.health(id).unwrap(), expected);
    }
}

#[test]
fn shards_add_up_to_the_stripes() {
    let mut m = manager(20);
    for _ in 0..200 {
        m.place_stripe().unwrap();
    }
    for i in 0..20 {
        assert_eq!(m.shards_on(SNodeId(i)), 100);
    }
    assert_eq!(m.shards_on(SNodeId(20)), 0);
    let total: u64 = (0..20).map(|i| m.shards_on(SNodeId(i))).sum();
    assert_eq!(total, (m.stripe_count() * m.scheme().width()) as u64);
}

#[test]
fn a_rebuild_moves_the_lost_shards_and_no_others() {
    let mut m = manager(14);
    let mut placed = Vec::new();
    for _ in 0..5 {
        placed.push(m.place_stripe().unwrap());
    }
    m.fail_domain(SNodeId(0));
    m.fail_domain(SNodeId(1));
    let mut tasks = m.plan_rebuild(&[CNodeId(0)]).unwrap();
    // In whatever order.
    tasks.reverse();
    for task in &tasks {
        let before: Vec<u64> = (0..14).map(|i| m.shards_on(SNodeId(i))).collect();
        let members = placed
            .iter()
            .find(|(id, _)| *id == task.stripe)
            .map(|(_, members)| members.clone())
            .unwrap();
        m.apply_rebuild(task).unwrap();
        for i in 0..14 {
            let d = SNodeId(i);
            let mut expected = before[i as usize];
            if task.write_to.contains(&d) {
                expected += 1;
            }
            if i < 2 && members.contains(&d) {
                expected -= 1;
            }
            assert_eq!(m.shards_on(d), expected);
        }
        let now: BTreeSet<_> = m.readable_members(task.stripe).unwrap().into_iter().collect();
        let expected: BTreeSet<_> = task.read_from.iter().chain(&task.write_to).copied().collect();
        assert_eq!(now, expected);
    }
    m.recover_domain(SNodeId(0));
    m.recover_domain(SNodeId(1));
    for task in &tasks {
        assert_eq!(m.health(task.stripe).unwrap(), StripeHealth::Healthy);
    }
    let total: u64 = (0..14).map(|i| m.shards_on(SNodeId(i))).sum();
    assert_eq!(total, 50);
}
