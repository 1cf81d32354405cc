use ztdns::engine::{address_in_pools, reconcile};
use ztdns::model::{Action, ActualState, AddressPool, DesiredState, DnsRecord, Member};

fn ip(a: u32, b: u32, c: u32, d: u32) -> u32 {
    (a << 24) | (b << 16) | (c << 8) | d
}

fn member(name: &str, address: u32) -> Member {
    Member { name: name.to_string(), address }
}

fn record(label: &str, address: u32, handle: &str) -> DnsRecord {
    DnsRecord { label: label.to_string(), address, handle: handle.to_string() }
}

fn pool(start: u32, end: u32) -> AddressPool {
    AddressPool { range_start: start, range_end: end }
}

fn lan_pool() -> Vec<AddressPool> {
    vec![pool(ip(10, 0, 0, 0), ip(10, 0, 0, 255))]
}

/// Applies actions to a zone, issuing the handle "new-<label>" for creates.
fn apply(actual: &ActualState, actions: &[Action]) -> ActualState {
    let mut records = actual.records.clone();
    for a in actions {
        match a {
            Action::Create { label, address } => {
                records.push(record(label, *address, &format!("new-{}", label)))
            }
            Action::Update { handle, label, address } => {
                for r in records.iter_mut() {
                    if r.handle == *handle {
                        r.label = label.clone();
                        r.address = *address;
                    }
                }
            }
            Action::Delete { handle } => records.retain(|r| r.handle != *handle),
        }
    }
    ActualState { records }
}

#[test]
fn create_for_new_member() {
    let desired = DesiredState { members: vec![member("host1", ip(10, 0, 0, 5))], pools: vec![] };
    let actual = ActualState { records: vec![] };
    let actions = reconcile(&desired, &actual);
    assert_eq!(
        actions,
        vec![Action::Create { label: "host1".to_string(), address: ip(10, 0, 0, 5) }]
    );
}

#[test]
fn update_for_changed_address() {
    let desired = DesiredState { members: vec![member("host1", ip(10, 0, 0, 5))], pools: vec![] };
    let actual = ActualState { records: vec![record("host1", ip(10, 0, 0, 9), "h1")] };
    let actions = reconcile(&desired, &actual);
    assert_eq!(
        actions,
        vec![Action::Update {
            handle: "h1".to_string(),
            label: "host1".to_string(),
            address: ip(10, 0, 0, 5),
        }]
    );
}

#[test]
fn delete_departed_member_in_pool() {
    let desired = DesiredState { members: vec![], pools: lan_pool() };
    let actual = ActualState { records: vec![record("old", ip(10, 0, 0, 3), "h2")] };
    let actions = reconcile(&desired, &actual);
    assert_eq!(actions, vec![Action::Delete { handle: "h2".to_string() }]);
}

#[test]
fn keep_record_outside_pool() {
    let desired = DesiredState { members: vec![], pools: lan_pool() };
    let actual = ActualState { records: vec![record("external", ip(192, 168, 1, 1), "h3")] };
    assert_eq!(reconcile(&desired, &actual), vec![]);
}

#[test]
fn nothing_when_in_sync() {
    let desired = DesiredState { members: vec![member("host1", ip(10, 0, 0, 5))], pools: vec![] };
    let actual = ActualState { records: vec![record("host1", ip(10, 0, 0, 5), "h1")] };
    assert_eq!(reconcile(&desired, &actual), vec![]);
}

#[test]
fn empty_inputs_give_no_action() {
    let desired = DesiredState { members: vec![], pools: vec![] };
    let actual = ActualState { records: vec![] };
    assert_eq!(reconcile(&desired, &actual), vec![]);
}

#[test]
fn empty_pools_never_delete() {
    let desired = DesiredState { members: vec![], pools: vec![] };
    let actual = ActualState {
        records: vec![record("a", ip(10, 0, 0, 3), "h1"), record("b", 0, "h2")],
    };
    assert_eq!(reconcile(&desired, &actual), vec![]);
}

#[test]
fn malformed_pool_matches_nothing() {
    let pools = vec![pool(ip(10, 0, 0, 255), ip(10, 0, 0, 0))];
    assert!(!address_in_pools(&pools, ip(10, 0, 0, 3)));
    let desired = DesiredState { members: vec![], pools };
    let actual = ActualState { records: vec![record("old", ip(10, 0, 0, 3), "h2")] };
    assert_eq!(reconcile(&desired, &actual), vec![]);
}

#[test]
fn pool_bounds_are_inclusive() {
    let pools = lan_pool();
    assert!(address_in_pools(&pools, ip(10, 0, 0, 0)));
    assert!(address_in_pools(&pools, ip(10, 0, 0, 255)));
    assert!(!address_in_pools(&pools, ip(10, 0, 1, 0)));
    assert!(!address_in_pools(&pools, ip(9, 255, 255, 255)));
    assert!(!address_in_pools(&vec![], ip(10, 0, 0, 1)));
}

#[test]
fn creates_and_updates_come_before_deletes() {
    let desired = DesiredState {
        members: vec![member("b", ip(10, 0, 0, 2)), member("a", ip(10, 0, 0, 1))],
        pools: lan_pool(),
    };
    let actual = ActualState {
        records: vec![
            record("gone", ip(10, 0, 0, 7), "h0"),
            record("a", ip(10, 0, 0, 9), "h1"),
            record("outside", ip(172, 16, 0, 1), "h2"),
        ],
    };
    let actions = reconcile(&desired, &actual);
    assert_eq!(
        actions,
        vec![
            Action::Create { label: "b".to_string(), address: ip(10, 0, 0, 2) },
            Action::Update {
                handle: "h1".to_string(),
                label: "a".to_string(),
                address: ip(10, 0, 0, 1),
            },
            Action::Delete { handle: "h0".to_string() },
        ]
    );
}

#[test]
fn second_run_after_apply_is_empty() {
    let desired = DesiredState {
        members: vec![member("a", ip(10, 0, 0, 1)), member("b", ip(10, 0, 0, 2))],
        pools: lan_pool(),
    };
    let actual = ActualState {
        records: vec![
            record("a", ip(10, 0, 0, 9), "h1"),
            record("old", ip(10, 0, 0, 3), "h2"),
            record("ext", ip(8, 8, 8, 8), "h3"),
        ],
    };
    let first = reconcile(&desired, &actual);
    assert_eq!(first.len(), 3);
    let after = apply(&actual, &first);
    assert_eq!(reconcile(&desired, &after), vec![]);
}

#[test]
fn deletes_only_unclaimed_pooled_records() {
    let desired = DesiredState { members: vec![member("a", ip(192, 168, 0, 1))], pools: lan_pool() };
    let actual = ActualState {
        records: vec![
            record("a", ip(10, 0, 0, 4), "h1"),
            record("x", ip(10, 0, 0, 5), "h2"),
            record("y", ip(11, 0, 0, 5), "h3"),
        ],
    };
    let actions = reconcile(&desired, &actual);
    for a in &actions {
        if let Action::Delete { handle } = a {
            let r = actual.records.iter().find(|r| r.handle == *handle).unwrap();
            assert!(address_in_pools(&desired.pools, r.address));
            assert!(!desired.members.iter().any(|m| m.name == r.label));
        }
    }
    assert!(actions.contains(&Action::Delete { handle: "h2".to_string() }));
    assert!(!actions.contains(&Action::Delete { handle: "h3".to_string() }));
}

#[test]
fn apply_makes_members_resolve_and_keeps_outside_records() {
    let desired = DesiredState {
        members: vec![member("a", ip(10, 0, 0, 1)), member("b", ip(10, 0, 0, 2))],
        pools: lan_pool(),
    };
    let outside = record("ext", ip(8, 8, 8, 8), "h3");
    let actual = ActualState {
        records: vec![record("b", ip(10, 0, 0, 9), "h1"), outside.clone(), record("c", ip(10, 0, 0, 3), "h4")],
    };
    let after = apply(&actual, &reconcile(&desired, &actual));
    for m in &desired.members {
        let found: Vec<&DnsRecord> = after.records.iter().filter(|r| r.label == m.name).collect();
        assert_eq!(found.len(), 1);
        assert_eq!(found[0].address, m.address);
    }
    assert!(after.records.contains(&outside));
    assert!(!after.records.iter().any(|r| r.label == "c"));
}
