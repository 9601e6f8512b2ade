//! Behaviour of the connection allow-lists and of the read-side
//! aggregation that the network layer consults.

use node_authorization::peer::PeerId;
use node_authorization::registry::{Event, Registry, RegistryError};

fn pid(bytes: &[u8]) -> PeerId {
    PeerId::new(bytes.to_vec())
}

fn ids(list: &[PeerId]) -> Vec<Vec<u8>> {
    let mut v: Vec<Vec<u8>> = list.iter().map(|p| p.bytes.clone()).collect();
    v.sort();
    v
}

/// Capacity bound 4 (room for three nodes, strictly below the bound),
/// identifiers under 5 bytes, nodes 1 and 2 at genesis owned by
/// accounts 10 and 20.
fn genesis_two() -> Registry {
    let mut r = Registry::new(4, 5);
    r.initialize_nodes(&vec![(pid(&[1]), 10), (pid(&[2]), 20)]);
    r
}

#[test]
fn add_connections_skips_the_node_itself() {
    let mut r = genesis_two();
    let ev = r
        .add_connections(pid(&[2]), vec![pid(&[1]), pid(&[2]), pid(&[5])], 20)
        .unwrap();
    match ev {
        Event::ConnectionsAdded(n, list) => {
            assert_eq!(n, pid(&[2]));
            assert_eq!(list.len(), 3);
        },
        _ => panic!("wrong event"),
    }
    let conns = r.additional_connections(&pid(&[2]));
    assert_eq!(conns.len(), 2);
    assert!(conns.contains(&pid(&[1])));
    assert!(conns.contains(&pid(&[5])));
    assert!(!conns.contains(&pid(&[2])));
}

#[test]
fn add_connections_is_cumulative_without_duplicates() {
    let mut r = genesis_two();
    r.add_connections(pid(&[2]), vec![pid(&[5])], 20).unwrap();
    r.add_connections(pid(&[2]), vec![pid(&[5]), pid(&[6])], 20).unwrap();
    let conns = r.additional_connections(&pid(&[2]));
    assert_eq!(conns.len(), 2);
    assert!(conns.contains(&pid(&[5])));
    assert!(conns.contains(&pid(&[6])));
}

#[test]
fn add_connections_rejects_long_connection_id() {
    let mut r = genesis_two();
    assert_eq!(
        r.add_connections(pid(&[2]), vec![pid(&[5]), pid(&[9, 9, 9, 9, 9])], 20),
        Err(RegistryError::PeerIdTooLong)
    );
    assert_eq!(r.additional_connections(&pid(&[2])).len(), 0);
}

#[test]
fn add_connections_rejections() {
    let mut r = genesis_two();
    assert_eq!(
        r.add_connections(pid(&[9, 9, 9, 9, 9]), vec![pid(&[5])], 20),
        Err(RegistryError::PeerIdTooLong)
    );
    assert_eq!(
        r.add_connections(pid(&[4]), vec![pid(&[5])], 20),
        Err(RegistryError::NotClaimed)
    );
    assert_eq!(
        r.add_connections(pid(&[2]), vec![pid(&[5])], 99),
        Err(RegistryError::NotOwner)
    );
    assert_eq!(r.additional_connections(&pid(&[2])).len(), 0);
}

#[test]
fn remove_connections_strikes_listed_peers() {
    let mut r = genesis_two();
    r.add_connections(pid(&[2]), vec![pid(&[5]), pid(&[6]), pid(&[7])], 20).unwrap();
    let ev = r
        .remove_connections(pid(&[2]), vec![pid(&[5]), pid(&[8])], 20)
        .unwrap();
    match ev {
        Event::ConnectionsRemoved(n, list) => {
            assert_eq!(n, pid(&[2]));
            assert_eq!(list.len(), 2);
        },
        _ => panic!("wrong event"),
    }
    let conns = r.additional_connections(&pid(&[2]));
    assert_eq!(conns.len(), 2);
    assert!(!conns.contains(&pid(&[5])));
    assert!(conns.contains(&pid(&[6])));
    assert!(conns.contains(&pid(&[7])));
}

#[test]
fn remove_connections_rejections() {
    let mut r = genesis_two();
    assert_eq!(
        r.remove_connections(pid(&[4]), vec![pid(&[5])], 20),
        Err(RegistryError::NotClaimed)
    );
    assert_eq!(
        r.remove_connections(pid(&[2]), vec![pid(&[5])], 99),
        Err(RegistryError::NotOwner)
    );
}

#[test]
fn authorized_nodes_for_a_well_known_node() {
    let mut r = genesis_two();
    r.add_well_known_node(pid(&[3]), 30).unwrap();
    r.add_connections(pid(&[2]), vec![pid(&[1]), pid(&[2]), pid(&[5])], 20).unwrap();
    // its extra allow-list joined with every other well-known node
    let got = r.get_authorized_nodes(&pid(&[2]));
    assert_eq!(
        ids(&got),
        vec![vec![1u8], vec![3u8], vec![5u8]]
    );
}

#[test]
fn authorized_nodes_for_a_claimed_only_node() {
    let mut r = genesis_two();
    r.claim_node(pid(&[4]), 40).unwrap();
    r.add_connections(pid(&[4]), vec![pid(&[1]), pid(&[5])], 40).unwrap();
    let got = r.get_authorized_nodes(&pid(&[4]));
    assert_eq!(ids(&got), vec![vec![1u8], vec![5u8]]);
}

#[test]
fn authorized_nodes_for_an_unknown_node_is_empty() {
    let r = genesis_two();
    let got = r.get_authorized_nodes(&pid(&[9]));
    assert!(got.is_empty());
}

#[test]
fn authorized_nodes_without_extra_connections() {
    let r = genesis_two();
    let got = r.get_authorized_nodes(&pid(&[1]));
    assert_eq!(ids(&got), vec![vec![2u8]]);
}
