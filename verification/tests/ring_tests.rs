use kv_store::hashring::HashRing;
use kv_store::ring::get_node_for_key;

fn temp_db() -> sled::Db {
    sled::Config::new().temporary(true).open().expect("open temporary sled db")
}

fn ring_with(ids: &[&str], vnodes: usize) -> HashRing {
    let mut ring = HashRing::new(vnodes);
    for id in ids {
        ring.add_node(id, temp_db());
    }
    ring
}

#[test]
fn position_is_sha256_prefix() {
    // SHA-256("foo") begins with 2c 26 b4 6b 68 ff c6 8f.
    assert_eq!(get_node_for_key("foo"), 0x2c26b46b68ffc68f_u64);
    // SHA-256 of the empty string begins with e3 b0 c4 42 98 fc 1c 14.
    assert_eq!(get_node_for_key(""), 0xe3b0c44298fc1c14_u64);
}

#[test]
fn locate_is_deterministic() {
    let ring = ring_with(&["n0", "n1", "n2", "n3", "n4"], 100);
    for key in ["foo", "bar", "", "some longer key with spaces"] {
        let first = ring.get_node(key).expect("nonempty ring").id.clone();
        for _ in 0..3 {
            assert_eq!(ring.get_node(key).expect("nonempty ring").id, first);
        }
    }
}

#[test]
fn empty_ring_locates_nothing() {
    let ring = HashRing::new(100);
    assert!(ring.get_node("foo").is_none());
    assert!(ring.get_follower_node_ids("foo").is_empty());
    assert!(ring.get_all_node_ids().is_empty());
}

#[test]
fn nonempty_ring_covers_every_key() {
    let ring = ring_with(&["only"], 100);
    for key in ["a", "b", "anything at all", ""] {
        let node = ring.get_node(key).expect("single-node ring owns every key");
        assert_eq!(node.id, "only");
    }
}

#[test]
fn followers_distinct_with_three_or_more_nodes() {
    let ring = ring_with(&["n0", "n1", "n2", "n3", "n4"], 100);
    for key in ["foo", "bar", "baz", "qux"] {
        let leader = ring.get_node(key).unwrap().id.clone();
        let followers = ring.get_follower_node_ids(key);
        assert_eq!(followers.len(), 2);
        assert_ne!(followers[0], leader);
        assert_ne!(followers[1], leader);
        assert_ne!(followers[0], followers[1]);
    }
}

#[test]
fn followers_shrink_with_fewer_nodes() {
    let two = ring_with(&["a", "b"], 50);
    let leader = two.get_node("foo").unwrap().id.clone();
    let followers = two.get_follower_node_ids("foo");
    assert_eq!(followers.len(), 1);
    assert_ne!(followers[0], leader);

    let one = ring_with(&["solo"], 50);
    assert!(one.get_follower_node_ids("foo").is_empty());
}

#[test]
fn node_ids_are_sorted_and_unique() {
    let mut ring = HashRing::new(10);
    for id in ["zeta", "alpha", "mike", "alpha", "bravo"] {
        ring.add_node(id, temp_db());
    }
    let ids = ring.get_all_node_ids();
    assert_eq!(ids, vec!["alpha", "bravo", "mike", "zeta"]);
}

#[test]
fn remove_node_deregisters() {
    let mut ring = ring_with(&["n0", "n1", "n2"], 20);
    ring.remove_node("n1");
    assert_eq!(ring.get_all_node_ids(), vec!["n0", "n2"]);
    assert!(ring.get_node_by_id("n1").is_none());
    // lookups still succeed, and never name the removed node
    for key in ["k1", "k2", "k3", "k4", "k5"] {
        let owner = ring.get_node(key).expect("two nodes remain").id.clone();
        assert!(owner == "n0" || owner == "n2");
    }
    // removing an absent node is a no-op
    ring.remove_node("ghost");
    assert_eq!(ring.get_all_node_ids(), vec!["n0", "n2"]);
}

#[test]
fn get_node_by_id_finds_registered_nodes() {
    let ring = ring_with(&["x", "y"], 5);
    assert_eq!(ring.get_node_by_id("x").unwrap().id, "x");
    assert!(ring.get_node_by_id("z").is_none());
}
