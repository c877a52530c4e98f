use txgossip::node::{Node, NodeEvent, NodeStatus};

fn running_node(id: &str) -> Node {
    let mut n = Node::new(id.to_string(), "transaction".to_string());
    n.start();
    n
}

#[test]
fn lifecycle_idle_running_terminated() {
    let mut n = Node::new("peerA".to_string(), "transaction".to_string());
    assert_eq!(n.status(), NodeStatus::Idle);
    n.start();
    assert_eq!(n.status(), NodeStatus::Running);
    n.terminate();
    assert_eq!(n.status(), NodeStatus::Terminated);
}

#[test]
fn discovery_is_recorded_once() {
    let mut n = running_node("peerA");
    n.handle_event(NodeEvent::PeerDiscovered { peer: "peerB".to_string() });
    n.handle_event(NodeEvent::PeerDiscovered { peer: "peerB".to_string() });
    n.handle_event(NodeEvent::PeerDiscovered { peer: "peerC".to_string() });
    assert_eq!(n.discovered(), vec!["peerB".to_string(), "peerC".to_string()]);
    // discovery does not touch the table
    assert_eq!(n.peer_count(), 0);
    assert_eq!(n.tx_count(), 0);
}

#[test]
fn other_events_are_ignored() {
    let mut n = running_node("peerA");
    n.handle_event(NodeEvent::Other);
    assert_eq!(n.discovered(), Vec::<String>::new());
    assert_eq!(n.tx_count(), 0);
}

#[test]
fn malformed_envelope_is_dropped() {
    let mut n = running_node("peerB");
    n.handle_event(NodeEvent::MessageReceived { data: "not an envelope".to_string() });
    assert_eq!(n.peer_count(), 0);
    assert_eq!(n.tx_count(), 0);
}

#[test]
fn broadcast_names_this_node_and_time() {
    let n = running_node("peerA");
    let prep = n.prepare_broadcast(&vec![0x01, 0x02, 0x03], 42).unwrap();
    assert_eq!(prep.message.sender, "peerA");
    assert_eq!(prep.message.timestamp, 42);
    assert_eq!(prep.message.transaction, "AQID");
    assert_eq!(
        prep.wire,
        "{\"transaction\":\"AQID\",\"sender\":\"peerA\",\"timestamp\":42}"
    );
}

#[test]
fn broadcast_fails_on_identity_that_cannot_travel() {
    let n = running_node("peer\"A");
    assert!(n.prepare_broadcast(&vec![0x01], 42).is_none());
}

#[test]
fn broadcast_reaches_the_receiving_table() {
    // Node A (sender "peerA") publishes a transaction whose decoded bytes
    // are [1, 2, 3]; node B receives the wire envelope.
    let a = running_node("peerA");
    let prep = a.prepare_broadcast(&vec![0x01, 0x02, 0x03], 7).unwrap();

    let mut b = running_node("peerB");
    b.handle_event(NodeEvent::MessageReceived { data: prep.wire });

    assert_eq!(b.lookup_hash(&"010203".to_string()), Some("AQID".to_string()));
    assert_eq!(b.transactions_of(&"peerA".to_string()), vec!["AQID".to_string()]);
    assert_eq!(b.peer_count(), 1);
    assert_eq!(b.tx_count(), 1);
}

#[test]
fn broadcast_reaches_every_meshed_node() {
    let a = running_node("peerA");
    let prep = a.prepare_broadcast(&vec![0x09, 0x08], 7).unwrap();

    let mut others = vec![running_node("peerB"), running_node("peerC"), running_node("peerD")];
    for n in others.iter_mut() {
        n.handle_event(NodeEvent::MessageReceived { data: prep.wire.clone() });
    }
    for n in others.iter() {
        assert_eq!(n.lookup_hash(&"0908".to_string()), Some(prep.message.transaction.clone()));
        assert_eq!(
            n.transactions_of(&"peerA".to_string()),
            vec![prep.message.transaction.clone()]
        );
    }
}
