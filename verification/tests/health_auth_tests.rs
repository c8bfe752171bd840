use kv_store::hashring::HashRing;
use kv_store::config::{HealthTable, NodeHealth};
use kv_store::gprotocol::{health_check_iteration, heartbeat_iteration, current_timestamp_ms};
use kv_store::auth::{extract_bearer_token, login_claims};

fn temp_db() -> sled::Db {
    sled::Config::new().temporary(true).open().expect("open temporary sled db")
}

#[test]
fn upsert_overwrites_in_place() {
    let mut table = HealthTable::new();
    table.upsert(NodeHealth { id: "n0".to_string(), last_heartbeat: 10, is_alive: true });
    table.upsert(NodeHealth { id: "n1".to_string(), last_heartbeat: 11, is_alive: false });
    assert_eq!(table.get("n0"), Some((10, true)));
    assert_eq!(table.get("n1"), Some((11, false)));
    assert_eq!(table.get("n2"), None);
    // a later record for the same node replaces the earlier one
    table.upsert(NodeHealth { id: "n0".to_string(), last_heartbeat: 20, is_alive: false });
    assert_eq!(table.get("n0"), Some((20, false)));
    assert_eq!(table.get("n1"), Some((11, false)));
}

#[test]
fn heartbeat_marks_self_alive() {
    let mut table = HealthTable::new();
    heartbeat_iteration(&mut table, &"me".to_string(), 12345);
    assert_eq!(table.get("me"), Some((12345, true)));
}

#[test]
fn peer_check_records_every_ring_member() {
    let mut ring = HashRing::new(10);
    for id in ["n0", "n1", "n2"] {
        ring.add_node(id, temp_db());
    }
    let mut table = HealthTable::new();
    table.upsert(NodeHealth { id: "outsider".to_string(), last_heartbeat: 1, is_alive: false });
    health_check_iteration(&ring, &mut table, 777);
    for id in ["n0", "n1", "n2"] {
        let (ts, alive) = table.get(id).expect("probed node has a record");
        assert_eq!(ts, 777);
        assert!(alive);
    }
    // a record for a node outside the ring is left alone
    assert_eq!(table.get("outsider"), Some((1, false)));
}

#[test]
fn timestamps_are_epoch_milliseconds() {
    let t1 = current_timestamp_ms();
    let t2 = current_timestamp_ms();
    // after 2020-01-01 in milliseconds, and never going backwards here
    assert!(t1 > 1_577_836_800_000);
    assert!(t2 >= t1);
}

#[test]
fn bearer_token_is_extracted() {
    assert_eq!(extract_bearer_token("Bearer abc.def.ghi"), Some("abc.def.ghi".to_string()));
    assert_eq!(extract_bearer_token("Bearer "), Some(String::new()));
    assert_eq!(extract_bearer_token("Basic abc"), None);
    assert_eq!(extract_bearer_token("bearer abc"), None);
    assert_eq!(extract_bearer_token(""), None);
}

#[test]
fn login_claims_expire_five_hours_out() {
    let claims = login_claims("user@example.com".to_string(), 1_000_000);
    assert_eq!(claims.email, "user@example.com");
    assert_eq!(claims.exp, 1_000_000 + 5 * 3600);
}
