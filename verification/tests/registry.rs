//! Behaviour of the registry's mutating operations: effects, emitted
//! events, and the exact error returned for each rejected call.

use node_authorization::peer::{AccountId, PeerId};
use node_authorization::registry::{Event, Registry, RegistryError};

fn pid(bytes: &[u8]) -> PeerId {
    PeerId::new(bytes.to_vec())
}

/// A registry with capacity bound 4 — room for three nodes, since the
/// well-known set stays strictly below the bound — and identifiers
/// under 5 bytes, bootstrapped with nodes 1 and 2 owned by accounts 10
/// and 20.
fn genesis_two() -> Registry {
    let mut r = Registry::new(4, 5);
    r.initialize_nodes(&vec![(pid(&[1]), 10), (pid(&[2]), 20)]);
    r
}

fn well_known_contains(r: &Registry, bytes: &[u8]) -> bool {
    r.well_known_nodes().contains(&pid(bytes))
}

#[test]
fn genesis_loads_nodes_and_owners() {
    let r = genesis_two();
    assert_eq!(r.well_known_nodes().len(), 2);
    assert!(well_known_contains(&r, &[1]));
    assert!(well_known_contains(&r, &[2]));
    assert_eq!(r.owners(&pid(&[1])), Some(10));
    assert_eq!(r.owners(&pid(&[2])), Some(20));
    assert_eq!(r.owners(&pid(&[3])), None);
}

#[test]
fn genesis_empty_list() {
    let mut r = Registry::new(3, 5);
    r.initialize_nodes(&vec![]);
    assert_eq!(r.well_known_nodes().len(), 0);
}

#[test]
fn genesis_duplicate_ids_last_owner_wins() {
    let mut r = Registry::new(3, 5);
    r.initialize_nodes(&vec![(pid(&[1]), 10), (pid(&[1]), 77)]);
    assert_eq!(r.well_known_nodes().len(), 1);
    assert_eq!(r.owners(&pid(&[1])), Some(77));
}

#[test]
fn add_well_known_node_succeeds() {
    let mut r = genesis_two();
    let ev = r.add_well_known_node(pid(&[3]), 30).unwrap();
    match ev {
        Event::NodeAdded(n, a) => {
            assert_eq!(n, pid(&[3]));
            assert_eq!(a, 30);
        },
        _ => panic!("wrong event"),
    }
    assert_eq!(r.well_known_nodes().len(), 3);
    assert!(well_known_contains(&r, &[1]));
    assert!(well_known_contains(&r, &[2]));
    assert!(well_known_contains(&r, &[3]));
    assert_eq!(r.owners(&pid(&[3])), Some(30));
}

#[test]
fn add_well_known_node_overwrites_claimed_owner() {
    let mut r = genesis_two();
    r.claim_node(pid(&[3]), 99).unwrap();
    r.add_well_known_node(pid(&[3]), 30).unwrap();
    assert_eq!(r.owners(&pid(&[3])), Some(30));
}

#[test]
fn add_rejects_long_id() {
    let mut r = genesis_two();
    assert_eq!(
        r.add_well_known_node(pid(&[9, 9, 9, 9, 9]), 30),
        Err(RegistryError::PeerIdTooLong)
    );
    assert_eq!(r.well_known_nodes().len(), 2);
}

#[test]
fn add_accepts_id_just_under_the_bound() {
    let mut r = genesis_two();
    assert!(r.add_well_known_node(pid(&[9, 9, 9, 9]), 30).is_ok());
}

#[test]
fn add_rejects_when_full() {
    let mut r = genesis_two();
    r.add_well_known_node(pid(&[3]), 30).unwrap();
    assert_eq!(
        r.add_well_known_node(pid(&[4]), 40),
        Err(RegistryError::TooManyNodes)
    );
    assert_eq!(r.well_known_nodes().len(), 3);
}

#[test]
fn add_rejects_when_result_would_reach_bound() {
    // capacity is judged against the resulting set: with a bound of 3,
    // a third node would fill the set to the bound and is rejected
    let mut r = Registry::new(3, 5);
    r.initialize_nodes(&vec![(pid(&[1]), 10), (pid(&[2]), 20)]);
    assert_eq!(
        r.add_well_known_node(pid(&[3]), 30),
        Err(RegistryError::TooManyNodes)
    );
    assert_eq!(r.well_known_nodes().len(), 2);
    assert_eq!(r.owners(&pid(&[3])), None);
}

#[test]
fn add_of_present_node_fails_as_joined_even_when_full() {
    // membership is judged before capacity: re-adding a present node
    // would change nothing, so it is never a capacity violation
    let mut r = Registry::new(3, 5);
    r.initialize_nodes(&vec![(pid(&[1]), 10), (pid(&[2]), 20)]);
    assert_eq!(
        r.add_well_known_node(pid(&[1]), 99),
        Err(RegistryError::AlreadyJoined)
    );
    assert_eq!(r.owners(&pid(&[1])), Some(10));
}

#[test]
fn add_twice_rejected_and_state_kept() {
    let mut r = Registry::new(4, 5);
    r.initialize_nodes(&vec![(pid(&[1]), 10), (pid(&[2]), 20)]);
    r.add_well_known_node(pid(&[3]), 30).unwrap();
    assert_eq!(
        r.add_well_known_node(pid(&[3]), 31),
        Err(RegistryError::AlreadyJoined)
    );
    assert_eq!(r.well_known_nodes().len(), 3);
    assert_eq!(r.owners(&pid(&[3])), Some(30));
}

#[test]
fn remove_well_known_node_cascades() {
    let mut r = genesis_two();
    r.add_connections(pid(&[1]), vec![pid(&[7])], 10).unwrap();
    let ev = r.remove_well_known_node(pid(&[1])).unwrap();
    match ev {
        Event::NodeRemoved(n) => assert_eq!(n, pid(&[1])),
        _ => panic!("wrong event"),
    }
    assert_eq!(r.well_known_nodes().len(), 1);
    assert!(!well_known_contains(&r, &[1]));
    assert!(well_known_contains(&r, &[2]));
    assert_eq!(r.owners(&pid(&[1])), None);
    assert_eq!(r.additional_connections(&pid(&[1])).len(), 0);
}

#[test]
fn remove_rejects_absent_node() {
    let mut r = genesis_two();
    assert_eq!(
        r.remove_well_known_node(pid(&[8])),
        Err(RegistryError::NotExist)
    );
    assert_eq!(
        r.remove_well_known_node(pid(&[9, 9, 9, 9, 9])),
        Err(RegistryError::PeerIdTooLong)
    );
}

#[test]
fn swap_exchanges_records() {
    let mut r = genesis_two();
    r.add_connections(pid(&[1]), vec![pid(&[7])], 10).unwrap();
    let ev = r.swap_well_known_node(pid(&[1]), pid(&[3])).unwrap();
    match ev {
        Some(Event::NodeSwapped(a, b)) => {
            assert_eq!(a, pid(&[1]));
            assert_eq!(b, pid(&[3]));
        },
        _ => panic!("wrong event"),
    }
    assert!(!well_known_contains(&r, &[1]));
    assert!(well_known_contains(&r, &[3]));
    // node 3 inherited node 1's owner and connections; node 1 kept none
    assert_eq!(r.owners(&pid(&[3])), Some(10));
    assert_eq!(r.owners(&pid(&[1])), None);
    assert!(r.additional_connections(&pid(&[3])).contains(&pid(&[7])));
    assert_eq!(r.additional_connections(&pid(&[1])).len(), 0);
}

#[test]
fn swap_self_is_a_silent_no_op() {
    let mut r = genesis_two();
    let ev = r.swap_well_known_node(pid(&[1]), pid(&[1])).unwrap();
    assert!(ev.is_none());
    assert_eq!(r.well_known_nodes().len(), 2);
    assert_eq!(r.owners(&pid(&[1])), Some(10));
}

#[test]
fn swap_round_trip_restores_state() {
    let mut r = genesis_two();
    r.add_connections(pid(&[1]), vec![pid(&[7])], 10).unwrap();
    r.swap_well_known_node(pid(&[1]), pid(&[3])).unwrap();
    r.swap_well_known_node(pid(&[3]), pid(&[1])).unwrap();
    assert_eq!(r.well_known_nodes().len(), 2);
    assert!(well_known_contains(&r, &[1]));
    assert!(well_known_contains(&r, &[2]));
    assert!(!well_known_contains(&r, &[3]));
    assert_eq!(r.owners(&pid(&[1])), Some(10));
    assert_eq!(r.owners(&pid(&[3])), None);
    let conns = r.additional_connections(&pid(&[1]));
    assert_eq!(conns.len(), 1);
    assert!(conns.contains(&pid(&[7])));
    assert_eq!(r.additional_connections(&pid(&[3])).len(), 0);
}

#[test]
fn swap_rejects_bad_nodes() {
    let mut r = genesis_two();
    assert_eq!(
        r.swap_well_known_node(pid(&[8]), pid(&[3])),
        Err(RegistryError::NotExist)
    );
    assert_eq!(
        r.swap_well_known_node(pid(&[1]), pid(&[2])),
        Err(RegistryError::AlreadyJoined)
    );
    assert_eq!(
        r.swap_well_known_node(pid(&[9, 9, 9, 9, 9]), pid(&[3])),
        Err(RegistryError::PeerIdTooLong)
    );
    assert_eq!(
        r.swap_well_known_node(pid(&[1]), pid(&[9, 9, 9, 9, 9])),
        Err(RegistryError::PeerIdTooLong)
    );
}

#[test]
fn reset_replaces_set_and_keeps_stale_records() {
    let mut r = genesis_two();
    r.add_connections(pid(&[2]), vec![pid(&[7])], 20).unwrap();
    let ev = r.reset_well_known_nodes(vec![(pid(&[1]), 11)]).unwrap();
    match ev {
        Event::NodesReset(list) => assert_eq!(list.len(), 1),
        _ => panic!("wrong event"),
    }
    assert_eq!(r.well_known_nodes().len(), 1);
    assert!(well_known_contains(&r, &[1]));
    assert!(!well_known_contains(&r, &[2]));
    assert_eq!(r.owners(&pid(&[1])), Some(11));
    // the dropped node keeps its ownership and connection records
    assert_eq!(r.owners(&pid(&[2])), Some(20));
    let conns = r.additional_connections(&pid(&[2]));
    assert_eq!(conns.len(), 1);
    assert!(conns.contains(&pid(&[7])));
}

#[test]
fn reset_rejects_oversized_list() {
    let mut r = genesis_two();
    let list = vec![
        (pid(&[1]), 10),
        (pid(&[2]), 20),
        (pid(&[3]), 30),
        (pid(&[4]), 40),
    ];
    assert_eq!(
        r.reset_well_known_nodes(list),
        Err(RegistryError::TooManyNodes)
    );
    assert_eq!(r.well_known_nodes().len(), 2);
    assert_eq!(r.owners(&pid(&[3])), None);
}

#[test]
fn reset_rejects_long_id_in_list() {
    let mut r = genesis_two();
    let list = vec![(pid(&[1]), 10), (pid(&[9, 9, 9, 9, 9]), 90)];
    assert_eq!(
        r.reset_well_known_nodes(list),
        Err(RegistryError::PeerIdTooLong)
    );
    assert_eq!(r.well_known_nodes().len(), 2);
    assert!(r.well_known_nodes().contains(&pid(&[2])));
    assert_eq!(r.owners(&pid(&[9, 9, 9, 9, 9])), None);
}

#[test]
fn claim_and_reclaim() {
    let mut r = genesis_two();
    let ev = r.claim_node(pid(&[4]), 40).unwrap();
    match ev {
        Event::NodeClaimed(n, a) => {
            assert_eq!(n, pid(&[4]));
            assert_eq!(a, 40);
        },
        _ => panic!("wrong event"),
    }
    assert_eq!(r.owners(&pid(&[4])), Some(40));
    assert_eq!(
        r.claim_node(pid(&[4]), 41),
        Err(RegistryError::AlreadyClaimed)
    );
    assert_eq!(r.owners(&pid(&[4])), Some(40));
}

#[test]
fn claim_rejects_long_id() {
    let mut r = genesis_two();
    assert_eq!(
        r.claim_node(pid(&[9, 9, 9, 9, 9]), 40),
        Err(RegistryError::PeerIdTooLong)
    );
}

#[test]
fn remove_claim_for_own_node() {
    let mut r = genesis_two();
    r.claim_node(pid(&[4]), 40).unwrap();
    r.add_connections(pid(&[4]), vec![pid(&[7])], 40).unwrap();
    let ev = r.remove_claim(pid(&[4]), 40).unwrap();
    match ev {
        Event::ClaimRemoved(n, a) => {
            assert_eq!(n, pid(&[4]));
            assert_eq!(a, 40);
        },
        _ => panic!("wrong event"),
    }
    assert_eq!(r.owners(&pid(&[4])), None);
    assert_eq!(r.additional_connections(&pid(&[4])).len(), 0);
}

#[test]
fn remove_claim_rejections() {
    let mut r = genesis_two();
    r.claim_node(pid(&[4]), 40).unwrap();
    assert_eq!(
        r.remove_claim(pid(&[5]), 40),
        Err(RegistryError::NotClaimed)
    );
    assert_eq!(r.remove_claim(pid(&[4]), 41), Err(RegistryError::NotOwner));
    // a well-known node's claim can only go through the remove operation
    assert_eq!(
        r.remove_claim(pid(&[1]), 10),
        Err(RegistryError::PermissionDenied)
    );
    assert_eq!(r.owners(&pid(&[1])), Some(10));
}

#[test]
fn transfer_node_changes_owner() {
    let mut r = genesis_two();
    let ev = r.transfer_node(pid(&[1]), 55, 10).unwrap();
    match ev {
        Event::NodeTransferred(n, a) => {
            assert_eq!(n, pid(&[1]));
            assert_eq!(a, 55);
        },
        _ => panic!("wrong event"),
    }
    assert_eq!(r.owners(&pid(&[1])), Some(55));
}

#[test]
fn transfer_rejections() {
    let mut r = genesis_two();
    assert_eq!(
        r.transfer_node(pid(&[5]), 55, 10),
        Err(RegistryError::NotClaimed)
    );
    assert_eq!(
        r.transfer_node(pid(&[1]), 55, 99),
        Err(RegistryError::NotOwner)
    );
    assert_eq!(r.owners(&pid(&[1])), Some(10));
}
