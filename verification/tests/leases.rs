use ffs::file_tree::BlobLocator;
use ffs::lease::{Lease, LeaseEntry};
use ffs::leases::ActiveLeases;
use std::collections::BTreeMap;

fn lease(uuids: &[u128]) -> Lease {
    let blobs = uuids
        .iter()
        .map(|uuid| LeaseEntry::new(BlobLocator { backend_id: 1, uuid: *uuid }, 5))
        .collect();
    Lease { valid_until_unix: 10, blobs }
}

fn uuids(leases: &ActiveLeases) -> Vec<u128> {
    leases.all_entries().iter().map(|e| e.locator.uuid).collect()
}

#[test]
fn entries_come_in_the_order_of_the_leases() {
    let mut leases = ActiveLeases::default();
    assert!(leases.all_entries().is_empty());
    leases.insert(9, lease(&[1, 2]));
    leases.insert(3, lease(&[7]));
    leases.insert(5, lease(&[]));
    assert_eq!(uuids(&leases), vec![7, 1, 2]);
    leases.insert(9, lease(&[4]));
    assert_eq!(uuids(&leases), vec![7, 4]);
}

#[test]
fn nothing_is_planned_where_the_leases_agree() {
    let mut leases = ActiveLeases::default();
    assert!(leases.plan_refresh(&vec![]).is_none());
    leases.insert(9, lease(&[]));
    leases.insert(3, lease(&[]));
    assert!(leases.plan_refresh(&vec![9, 3, 9]).is_none());
}

#[test]
fn a_refresh_is_planned() {
    let mut leases = ActiveLeases::default();
    for id in [9, 3, 5] {
        leases.insert(id, lease(&[id]));
    }
    let plan = leases.plan_refresh(&vec![20, 5, 10, 10]).unwrap();
    assert_eq!(plan.to_drop, vec![3, 9]);
    assert_eq!(plan.to_add, vec![10, 20]);
}

#[test]
fn a_refresh_is_applied() {
    let mut leases = ActiveLeases::default();
    for id in [9, 3, 5] {
        leases.insert(id, lease(&[id]));
    }
    let confirmed = vec![20, 5, 10];
    let plan = leases.plan_refresh(&confirmed).unwrap();
    let mut fetched = BTreeMap::new();
    for id in &plan.to_add {
        fetched.insert(*id, lease(&[*id, *id]));
    }
    leases.apply_refresh(&plan.to_drop, fetched);
    assert_eq!(uuids(&leases), vec![5, 10, 10, 20, 20]);
    assert!(leases.plan_refresh(&confirmed).is_none());
}

#[test]
fn a_lease_that_is_gone_is_not_put_in_force() {
    let mut leases = ActiveLeases::default();
    leases.insert(9, lease(&[9]));
    let confirmed = vec![10, 11];
    let plan = leases.plan_refresh(&confirmed).unwrap();
    let mut fetched = BTreeMap::new();
    fetched.insert(11, lease(&[11]));
    leases.apply_refresh(&plan.to_drop, fetched);
    assert_eq!(uuids(&leases), vec![11]);
    assert_eq!(leases.plan_refresh(&confirmed).unwrap().to_add, vec![10]);
}
