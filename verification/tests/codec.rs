use txgossip::message::{decode_message, encode_message, TransactionMessage};

fn msg(transaction: &str, sender: &str, timestamp: u64) -> TransactionMessage {
    TransactionMessage {
        transaction: transaction.to_string(),
        sender: sender.to_string(),
        timestamp,
    }
}

#[test]
fn encode_produces_compact_envelope() {
    let m = msg("AQID", "peerA", 5);
    let wire = encode_message(&m).unwrap();
    assert_eq!(wire, "{\"transaction\":\"AQID\",\"sender\":\"peerA\",\"timestamp\":5}");
}

#[test]
fn round_trip_preserves_every_field() {
    let m = msg("dGhpcyBpcyBhIHRlc3Q=", "12D3KooWExample", 1700000000);
    let wire = encode_message(&m).unwrap();
    let back = decode_message(&wire).unwrap();
    assert_eq!(back.transaction, m.transaction);
    assert_eq!(back.sender, m.sender);
    assert_eq!(back.timestamp, m.timestamp);
}

#[test]
fn round_trip_with_empty_fields() {
    let m = msg("", "", 0);
    let wire = encode_message(&m).unwrap();
    assert_eq!(wire, "{\"transaction\":\"\",\"sender\":\"\",\"timestamp\":0}");
    let back = decode_message(&wire).unwrap();
    assert_eq!(back.transaction, "");
    assert_eq!(back.sender, "");
    assert_eq!(back.timestamp, 0);
}

#[test]
fn round_trip_largest_timestamp() {
    let m = msg("AQID", "peerA", u64::MAX);
    let wire = encode_message(&m).unwrap();
    let back = decode_message(&wire).unwrap();
    assert_eq!(back.timestamp, u64::MAX);
}

#[test]
fn encode_rejects_quote_in_sender() {
    let m = msg("AQID", "peer\"A", 5);
    assert!(encode_message(&m).is_none());
}

#[test]
fn encode_rejects_backslash_in_transaction() {
    let m = msg("AQ\\ID", "peerA", 5);
    assert!(encode_message(&m).is_none());
}

#[test]
fn encode_rejects_control_character() {
    let m = msg("AQID", "peer\nA", 5);
    assert!(encode_message(&m).is_none());
}

#[test]
fn decode_rejects_empty_and_truncated() {
    assert!(decode_message("").is_none());
    assert!(decode_message("{").is_none());
    assert!(decode_message("{\"transaction\":\"AQID\",\"sender\":\"peerA\"").is_none());
    assert!(decode_message("{\"transaction\":\"AQID\",\"sender\":\"peerA\",\"timestamp\":5").is_none());
}

#[test]
fn decode_rejects_wrong_keys() {
    assert!(decode_message("{\"payload\":\"AQID\",\"sender\":\"peerA\",\"timestamp\":5}").is_none());
    assert!(decode_message("{\"transaction\":\"AQID\",\"from\":\"peerA\",\"timestamp\":5}").is_none());
}

#[test]
fn decode_rejects_leading_zero_timestamp() {
    assert!(decode_message("{\"transaction\":\"AQID\",\"sender\":\"peerA\",\"timestamp\":05}").is_none());
    assert!(decode_message("{\"transaction\":\"AQID\",\"sender\":\"peerA\",\"timestamp\":00}").is_none());
}

#[test]
fn decode_accepts_zero_timestamp() {
    let back = decode_message("{\"transaction\":\"AQID\",\"sender\":\"peerA\",\"timestamp\":0}").unwrap();
    assert_eq!(back.timestamp, 0);
}

#[test]
fn decode_rejects_empty_timestamp() {
    assert!(decode_message("{\"transaction\":\"AQID\",\"sender\":\"peerA\",\"timestamp\":}").is_none());
}

#[test]
fn decode_rejects_timestamp_overflow() {
    // one past u64::MAX
    assert!(decode_message(
        "{\"transaction\":\"AQID\",\"sender\":\"peerA\",\"timestamp\":18446744073709551616}"
    ).is_none());
    // u64::MAX itself is fine
    let back = decode_message(
        "{\"transaction\":\"AQID\",\"sender\":\"peerA\",\"timestamp\":18446744073709551615}"
    ).unwrap();
    assert_eq!(back.timestamp, u64::MAX);
}

#[test]
fn decode_rejects_trailing_garbage() {
    assert!(decode_message("{\"transaction\":\"AQID\",\"sender\":\"peerA\",\"timestamp\":5}x").is_none());
    assert!(decode_message("{\"transaction\":\"AQID\",\"sender\":\"peerA\",\"timestamp\":5}}").is_none());
}

#[test]
fn decode_rejects_control_character_in_field() {
    assert!(decode_message("{\"transaction\":\"AQ\nID\",\"sender\":\"peerA\",\"timestamp\":5}").is_none());
}
