use std::collections::HashMap;
use kv_store::hashring::HashRing;
use kv_store::routes::{set_value, get_value, delete_value, set_response_for, get_response_for,
    delete_response_for, get_decision, delete_decision, scan_replica_probes, SetOutcome,
    GetOutcome, GetAction, DeleteOutcome};
use kv_store::storage::StorageProbe;
use kv_store::gprotocol::probe_verdict;
use kv_store::routes_resp::{Status, WalOp};
use kv_store::replication::{assess_replication, retry_decision, quorum_achieved, apply_to_node,
    RetryDecision, REPLICATION_MAX_ATTEMPTS};

fn temp_db() -> sled::Db {
    sled::Config::new().temporary(true).open().expect("open temporary sled db")
}

/// A five-node ring plus direct handles on each node's engine.
fn five_node_ring() -> (HashRing, HashMap<String, sled::Db>) {
    let mut ring = HashRing::new(100);
    let mut handles = HashMap::new();
    for id in ["n0", "n1", "n2", "n3", "n4"] {
        let db = temp_db();
        handles.insert(id.to_string(), db.clone());
        ring.add_node(id, db);
    }
    (ring, handles)
}

#[test]
fn set_twice_reports_already_present_and_keeps_first_value() {
    let (ring, _handles) = five_node_ring();
    let key = "twice".to_string();
    let first = set_value(&ring, &key, &"original".to_string());
    assert_eq!(first, SetOutcome::Inserted);
    let second = set_value(&ring, &key, &"imposter".to_string());
    assert_eq!(second, SetOutcome::AlreadyPresent);
    match get_value(&ring, &key) {
        GetOutcome::Found(v) => assert_eq!(v, "original"),
        other => panic!("expected the first value, got {:?}", other),
    }
    // both outcomes are reported as successes, with distinguishing messages
    let r1 = set_response_for(&first, &key);
    assert_eq!(r1.status, Status::Success);
    assert_eq!(r1.message, "key stored");
    let r2 = set_response_for(&second, &key);
    assert_eq!(r2.status, Status::Success);
    assert_eq!(r2.message, "key already present");
}

#[test]
fn set_on_empty_ring_reports_no_node() {
    let ring = HashRing::new(100);
    let outcome = set_value(&ring, &"k".to_string(), &"v".to_string());
    assert_eq!(outcome, SetOutcome::NoNode);
    let resp = set_response_for(&outcome, &"k".to_string());
    assert_eq!(resp.status, Status::Error);
    assert_eq!(resp.message, "No node available");
}

#[test]
fn get_and_delete_on_empty_ring_report_no_node() {
    let ring = HashRing::new(100);
    match get_value(&ring, &"k".to_string()) {
        GetOutcome::NoNode => {},
        other => panic!("expected NoNode, got {:?}", other),
    }
    let err = get_response_for(GetOutcome::NoNode).unwrap_err();
    assert_eq!(err.error, "No node available");
    let outcome = delete_value(&ring, &"k".to_string());
    assert_eq!(outcome, DeleteOutcome::NoNode);
    let err = delete_response_for(&outcome, &"k".to_string()).unwrap_err();
    assert_eq!(err.error, "No node available");
}

#[test]
fn get_falls_back_to_a_replica() {
    let (ring, handles) = five_node_ring();
    let key = "replica only".to_string();
    // the value sits only on one follower, as after a leader restart
    let followers = ring.get_follower_node_ids(&key);
    let db = handles.get(&followers[0]).unwrap();
    db.insert(key.as_bytes(), b"rescued").unwrap();
    db.flush().unwrap();
    match get_value(&ring, &key) {
        GetOutcome::Found(v) => assert_eq!(v, "rescued"),
        other => panic!("expected the replica's value, got {:?}", other),
    }
}

#[test]
fn get_missing_key_reports_not_found() {
    let (ring, _handles) = five_node_ring();
    match get_value(&ring, &"never stored".to_string()) {
        GetOutcome::NotFound => {},
        other => panic!("expected NotFound, got {:?}", other),
    }
    let err = get_response_for(GetOutcome::NotFound).unwrap_err();
    assert_eq!(err.error, "Key not found in any node");
}

#[test]
fn delete_removes_the_key() {
    let (ring, _handles) = five_node_ring();
    let key = "short lived".to_string();
    assert_eq!(set_value(&ring, &key, &"v".to_string()), SetOutcome::Inserted);
    let outcome = delete_value(&ring, &key);
    assert_eq!(outcome, DeleteOutcome::Deleted);
    match get_value(&ring, &key) {
        GetOutcome::NotFound => {},
        other => panic!("expected NotFound after delete, got {:?}", other),
    }
    let ok = delete_response_for(&outcome, &key).unwrap();
    assert_eq!(ok.status, Status::Success);
    assert_eq!(ok.message, "key deleted ");
}

#[test]
fn quorum_with_one_of_two_followers() {
    // exactly 1 of 2 apply attempts succeeded: ratio 0.5, quorum reached
    let report = assess_replication(&vec![true, false]);
    assert_eq!(report.success_count, 1);
    assert_eq!(report.total_attempts, 2);
    assert!(report.quorum);
}

#[test]
fn no_quorum_with_zero_of_two_followers() {
    let report = assess_replication(&vec![false, false]);
    assert_eq!(report.success_count, 0);
    assert_eq!(report.total_attempts, 2);
    assert!(!report.quorum);
}

#[test]
fn quorum_accounting_edge_cases() {
    assert!(!assess_replication(&Vec::new()).quorum);
    assert!(assess_replication(&vec![true, true]).quorum);
    assert!(quorum_achieved(2, 3));
    assert!(!quorum_achieved(1, 3));
}

#[test]
fn retry_policy_is_fixed() {
    assert_eq!(retry_decision(true, 2), RetryDecision::Done);
    assert_eq!(retry_decision(false, 2), RetryDecision::RetryAfterDelay);
    assert_eq!(retry_decision(false, 0), RetryDecision::GiveUp);
    assert_eq!(REPLICATION_MAX_ATTEMPTS, 3);
}

#[test]
fn end_to_end_set_replicate_read() {
    let (ring, handles) = five_node_ring();
    let key = "foo".to_string();
    let value = "bar".to_string();

    // the write lands on some leader and is immediately readable
    assert_eq!(set_value(&ring, &key, &value), SetOutcome::Inserted);
    match get_value(&ring, &key) {
        GetOutcome::Found(v) => assert_eq!(v, "bar"),
        other => panic!("expected bar, got {:?}", other),
    }

    // the coordinator applies the entry to both followers
    let leader = ring.get_node(&key).unwrap().id.clone();
    let followers = ring.get_follower_node_ids(&key);
    assert_eq!(followers.len(), 2);
    let op = WalOp::Put { key: key.clone(), value: value.clone() };
    let mut outcomes = Vec::new();
    for follower in &followers {
        outcomes.push(apply_to_node(&ring, follower, &op));
    }
    let report = assess_replication(&outcomes);
    assert_eq!(report.success_count, 2);
    assert!(report.quorum);

    // both followers now hold the value in their raw storage
    for follower in &followers {
        assert_ne!(*follower, leader);
        let db = handles.get(follower).unwrap();
        let raw = db.get(key.as_bytes()).unwrap().expect("replicated value");
        assert_eq!(raw.as_ref(), b"bar");
    }
}

#[test]
fn get_decision_maps_each_probe() {
    assert_eq!(get_decision(&StorageProbe::Present(b"v".to_vec())), GetAction::DeliverValue);
    assert_eq!(get_decision(&StorageProbe::Absent), GetAction::ScanReplicas);
    assert_eq!(get_decision(&StorageProbe::Failed), GetAction::ReportStoreError);
}

#[test]
fn replica_scan_takes_the_first_hit() {
    let probes = vec![
        StorageProbe::Failed,
        StorageProbe::Absent,
        StorageProbe::Present(b"first".to_vec()),
        StorageProbe::Present(b"second".to_vec()),
    ];
    assert_eq!(scan_replica_probes(&probes), Some("first".to_string()));
    let misses = vec![StorageProbe::Absent, StorageProbe::Failed];
    assert_eq!(scan_replica_probes(&misses), None);
    assert_eq!(scan_replica_probes(&Vec::new()), None);
}

#[test]
fn delete_decision_maps_the_removal_result() {
    assert_eq!(delete_decision(true), DeleteOutcome::Deleted);
    assert_eq!(delete_decision(false), DeleteOutcome::StoreError);
}

#[test]
fn probe_verdict_counts_only_engine_failures_as_dead() {
    assert!(probe_verdict(&StorageProbe::Present(b"x".to_vec())));
    assert!(probe_verdict(&StorageProbe::Absent));
    assert!(!probe_verdict(&StorageProbe::Failed));
}

#[test]
fn apply_to_unknown_node_fails() {
    let (ring, _handles) = five_node_ring();
    let op = WalOp::Delete { key: "k".to_string() };
    assert!(!apply_to_node(&ring, "stranger", &op));
}
