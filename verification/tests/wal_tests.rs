use kv_store::hashring::HashRing;
use kv_store::routes_resp::{Wal, WalOp};
use kv_store::wal::{WalCounter, recover_from_wal, get_wal_stats};
use sha2::Digest;

fn temp_db() -> sled::Db {
    sled::Config::new().temporary(true).open().expect("open temporary sled db")
}

fn five_node_ring() -> HashRing {
    let mut ring = HashRing::new(100);
    for id in ["n0", "n1", "n2", "n3", "n4"] {
        ring.add_node(id, temp_db());
    }
    ring
}

fn checksum_of(operation_json: &str) -> String {
    let digest = sha2::Sha256::digest(operation_json.as_bytes());
    let mut out = String::new();
    for b in digest.iter().take(8) {
        out.push_str(&format!("{:02x}", b));
    }
    out
}

#[test]
fn sequence_numbers_increase_by_one() {
    let mut counter = WalCounter::new();
    let e1 = Wal::new(WalOp::Delete { key: "a".to_string() }, &mut counter);
    let e2 = Wal::new(WalOp::Delete { key: "b".to_string() }, &mut counter);
    let e3 = Wal::new(WalOp::Delete { key: "c".to_string() }, &mut counter);
    assert_eq!(e1.sequence_number, 1);
    assert_eq!(e2.sequence_number, e1.sequence_number + 1);
    assert_eq!(e3.sequence_number, e2.sequence_number + 1);
}

#[test]
fn set_entry_round_trips_through_replay() {
    let ring = five_node_ring();
    let mut counter = WalCounter::new();
    let entry = Wal::new(
        WalOp::Put { key: "foo".to_string(), value: "bar".to_string() },
        &mut counter,
    );
    let line = entry.to_log_line(&ring);
    assert!(line.ends_with('\n'));

    let records = recover_from_wal(&line);
    assert_eq!(records.len(), 1);
    let rec = &records[0];
    assert_eq!(rec.seq, entry.sequence_number);
    assert_eq!(rec.timestamp, entry.timestamp);
    assert_eq!(rec.node_id, ring.get_node("foo").unwrap().id);
    match &rec.operation {
        WalOp::Put { key, value } => {
            assert_eq!(key, "foo");
            assert_eq!(value, "bar");
        },
        other => panic!("expected a SET operation, got {:?}", other),
    }
    // the stored checksum matches one recomputed from the recovered operation
    let expected = checksum_of(
        "{\"op\":\"SET\",\"key\":\"foo\",\"value\":\"bar\",\"key_size\":3,\"value_size\":3}",
    );
    assert_eq!(rec.checksum, expected);
}

#[test]
fn delete_entry_round_trips_through_replay() {
    let ring = five_node_ring();
    let mut counter = WalCounter::new();
    let entry = Wal::new(WalOp::Delete { key: "gone".to_string() }, &mut counter);
    let line = entry.to_log_line(&ring);
    let records = recover_from_wal(&line);
    assert_eq!(records.len(), 1);
    match &records[0].operation {
        WalOp::Delete { key } => assert_eq!(key, "gone"),
        other => panic!("expected a DELETE operation, got {:?}", other),
    }
    let expected = checksum_of("{\"op\":\"DELETE\",\"key\":\"gone\",\"key_size\":4}");
    assert_eq!(records[0].checksum, expected);
}

#[test]
fn escaped_characters_round_trip() {
    let ring = five_node_ring();
    let mut counter = WalCounter::new();
    let key = "ke\"y\\with\nodd\tchars".to_string();
    let value = "va\"lue\u{1}".to_string();
    let entry = Wal::new(WalOp::Put { key: key.clone(), value: value.clone() }, &mut counter);
    let line = entry.to_log_line(&ring);
    // the escapes keep the entry on a single line
    assert_eq!(line.matches('\n').count(), 1);
    let records = recover_from_wal(&line);
    assert_eq!(records.len(), 1);
    match &records[0].operation {
        WalOp::Put { key: k, value: v } => {
            assert_eq!(*k, key);
            assert_eq!(*v, value);
        },
        other => panic!("expected a SET operation, got {:?}", other),
    }
}

#[test]
fn truncated_last_line_is_dropped() {
    let ring = five_node_ring();
    let mut counter = WalCounter::new();
    let e1 = Wal::new(
        WalOp::Put { key: "k1".to_string(), value: "v1".to_string() },
        &mut counter,
    );
    let e2 = Wal::new(
        WalOp::Put { key: "k2".to_string(), value: "v2".to_string() },
        &mut counter,
    );
    let line1 = e1.to_log_line(&ring);
    let line2 = e2.to_log_line(&ring);
    // the second line is cut mid-write, as after a crash
    let cut = &line2[..line2.len() - 10];
    let content = format!("{}{}", line1, cut);
    let records = recover_from_wal(&content);
    assert_eq!(records.len(), 1);
    assert_eq!(records[0].seq, e1.sequence_number);
}

#[test]
fn blank_and_garbage_lines_are_skipped() {
    let ring = five_node_ring();
    let mut counter = WalCounter::new();
    let entry = Wal::new(
        WalOp::Put { key: "real".to_string(), value: "one".to_string() },
        &mut counter,
    );
    let line = entry.to_log_line(&ring);
    let content = format!("\n   \nnot json at all\n{}\n{{\"seq\":broken\n", line);
    let records = recover_from_wal(&content);
    assert_eq!(records.len(), 1);
    assert_eq!(records[0].seq, entry.sequence_number);
}

#[test]
fn stats_count_entries_and_report_last_sequence() {
    let ring = five_node_ring();
    let mut counter = WalCounter::new();
    let mut content = String::new();
    for key in ["a", "b", "c"] {
        let entry = Wal::new(
            WalOp::Put { key: key.to_string(), value: "v".to_string() },
            &mut counter,
        );
        content.push_str(&entry.to_log_line(&ring));
    }
    let stats = get_wal_stats(&content, content.len() as u64);
    assert_eq!(stats.total_entries, 3);
    assert_eq!(stats.file_size_bytes, content.len() as u64);
    assert_eq!(stats.last_sequence, 3);

    let empty = get_wal_stats("", 0);
    assert_eq!(empty.total_entries, 0);
    assert_eq!(empty.last_sequence, 0);
}

#[test]
fn empty_ring_serializes_to_empty_line() {
    let ring = HashRing::new(100);
    let mut counter = WalCounter::new();
    let entry = Wal::new(
        WalOp::Put { key: "foo".to_string(), value: "bar".to_string() },
        &mut counter,
    );
    assert_eq!(entry.to_log_line(&ring), "");
}
