use txgossip::message::TransactionMessage;
use txgossip::table::TxTable;
use txgossip::hex_digest;

fn msg(transaction: &str, sender: &str, timestamp: u64) -> TransactionMessage {
    TransactionMessage {
        transaction: transaction.to_string(),
        sender: sender.to_string(),
        timestamp,
    }
}

#[test]
fn hex_digest_of_bytes() {
    assert_eq!(hex_digest(&vec![0x01, 0x02, 0x03]), "010203");
    assert_eq!(hex_digest(&vec![]), "");
    assert_eq!(hex_digest(&vec![0x00, 0xff, 0xa5]), "00ffa5");
}

#[test]
fn base64_crate_agrees_on_the_scenario_payload() {
    // the encoded form the tests below rely on
    assert_eq!(base64::encode(&[0x01u8, 0x02, 0x03]), "AQID");
    assert_eq!(base64::decode("AQID").unwrap(), vec![0x01u8, 0x02, 0x03]);
}

#[test]
fn ingest_valid_message_updates_both_views() {
    let mut t = TxTable::new();
    t.ingest(&msg("AQID", "peerA", 1));
    assert_eq!(t.peer_count(), 1);
    assert_eq!(t.tx_count(), 1);
    // hash key is the lowercase hex of the decoded bytes, not of the encoding
    assert_eq!(t.lookup_hash(&"010203".to_string()), Some("AQID".to_string()));
    assert_eq!(t.lookup_hash(&"415149".to_string()), None);
    assert_eq!(t.transactions_of(&"peerA".to_string()), vec!["AQID".to_string()]);
    assert_eq!(t.transactions_of(&"peerB".to_string()), Vec::<String>::new());
}

#[test]
fn malformed_payload_changes_nothing() {
    let mut t = TxTable::new();
    t.ingest(&msg("AQID", "peerA", 1));
    t.ingest(&msg("%%%not-base64%%%", "peerB", 2));
    assert_eq!(t.peer_count(), 1);
    assert_eq!(t.tx_count(), 1);
    assert_eq!(t.transactions_of(&"peerB".to_string()), Vec::<String>::new());
}

#[test]
fn duplicate_payload_same_sender_appends_log_but_dedups_index() {
    let mut t = TxTable::new();
    t.ingest(&msg("AQID", "peerA", 1));
    t.ingest(&msg("AQID", "peerA", 2));
    assert_eq!(t.tx_count(), 1);
    assert_eq!(
        t.transactions_of(&"peerA".to_string()),
        vec!["AQID".to_string(), "AQID".to_string()]
    );
}

#[test]
fn duplicate_payload_distinct_senders_records_both_logs() {
    let mut t = TxTable::new();
    t.ingest(&msg("AQID", "peerA", 1));
    t.ingest(&msg("AQID", "peerB", 2));
    assert_eq!(t.tx_count(), 1);
    assert_eq!(t.peer_count(), 2);
    assert_eq!(t.transactions_of(&"peerA".to_string()), vec!["AQID".to_string()]);
    assert_eq!(t.transactions_of(&"peerB".to_string()), vec!["AQID".to_string()]);
}

#[test]
fn same_sender_log_keeps_receipt_order() {
    let mut t = TxTable::new();
    let p1 = base64::encode(&[1u8]);
    let p2 = base64::encode(&[2u8]);
    let p3 = base64::encode(&[3u8]);
    t.ingest(&msg(&p1, "peerA", 1));
    t.ingest(&msg(&p2, "peerA", 2));
    t.ingest(&msg(&p3, "peerA", 3));
    assert_eq!(
        t.transactions_of(&"peerA".to_string()),
        vec![p1, p2, p3]
    );
}

#[test]
fn distinct_senders_distinct_payloads_one_entry_each() {
    let mut t = TxTable::new();
    let senders = ["peer1", "peer2", "peer3", "peer4"];
    for (i, s) in senders.iter().enumerate() {
        let payload = base64::encode(&[i as u8 + 1]);
        t.ingest(&msg(&payload, s, i as u64));
    }
    assert_eq!(t.peer_count(), 4);
    assert_eq!(t.tx_count(), 4);
    for (i, s) in senders.iter().enumerate() {
        let payload = base64::encode(&[i as u8 + 1]);
        assert_eq!(t.transactions_of(&s.to_string()), vec![payload.clone()]);
        let hash = hex_digest(&vec![i as u8 + 1]);
        assert_eq!(t.lookup_hash(&hash), Some(payload));
    }
}

#[test]
fn hash_index_overwrites_under_equal_key() {
    // two encodings of the same bytes: canonical and one the decoder also
    // accepts would collide on the hash key; re-ingesting the canonical one
    // overwrites with an equal value
    let mut t = TxTable::new();
    t.ingest(&msg("AQID", "peerA", 1));
    t.ingest(&msg("AQID", "peerB", 2));
    assert_eq!(t.lookup_hash(&"010203".to_string()), Some("AQID".to_string()));
    assert_eq!(t.tx_count(), 1);
}

#[test]
fn snapshot_copies_both_views() {
    let mut t = TxTable::new();
    t.ingest(&msg("AQID", "peerA", 1));
    t.ingest(&msg("AQ==", "peerA", 2));
    let (peers, txs) = t.snapshot();
    assert_eq!(
        peers,
        vec![("peerA".to_string(), vec!["AQID".to_string(), "AQ==".to_string()])]
    );
    assert_eq!(
        txs,
        vec![
            ("010203".to_string(), "AQID".to_string()),
            ("01".to_string(), "AQ==".to_string()),
        ]
    );
}
