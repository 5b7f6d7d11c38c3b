use kademlia_dht::kademlia::NodeId;

#[test]
fn test_plus_one_simple() {
    let node_id: NodeId = NodeId::new(1, 0, 0, 0, 0);
    let node_id_plus_one = node_id.plus_one();
    let expected = NodeId::new(2, 0, 0, 0, 0);
    assert_eq!(node_id_plus_one, expected);
}

#[test]
fn test_plus_one_carry_over() {
    let node_id: NodeId = NodeId::new(0xffffffff, 0, 0, 0, 0);
    let node_id_plus_one = node_id.plus_one();
    let expected = NodeId::new(0, 1, 0, 0, 0);
    assert_eq!(node_id_plus_one, expected);
}

#[test]
fn test_plus_one_carry_over_twice() {
    let node_id = NodeId::new(0xffffffff, 0xffffffff, 0, 0, 0);
    let node_id_plus_one = node_id.plus_one();
    let expected = NodeId::new(0, 0, 1, 0, 0);
    assert_eq!(node_id_plus_one, expected);
}

#[test]
fn test_distance() {
    let id1 = NodeId::new(1, 0, 0, 0, 0);
    let id2 = NodeId::new(0, 0, 0xffffffff, 0, 1);
    assert_eq!(id1.distance(id2), 34);
}

#[test]
fn test_midpoint_simple() {
    let id1 = NodeId::new(1, 0, 0, 0, 0);
    let id2 = NodeId::new(8, 0, 0, 0, 0);
    let id3 = NodeId::new(9, 0, 0, 0, 0);

    assert_eq!(id1.midpoint(id2), NodeId::new(4, 0, 0, 0, 0));
    assert_eq!(id1.midpoint(id3), NodeId::new(5, 0, 0, 0, 0));
}

#[test]
fn test_midpoint_simple_2() {
    let id1 = NodeId::new(0, 0, 0, 0, 0);
    let id2 = NodeId::new(0, 1, 0, 0, 0);
    assert_eq!(id1.midpoint(id2), NodeId::new(2147483648, 0, 0, 0, 0));
}

#[test]
fn test_xor_distance_zero_on_equal() {
    let id1 = NodeId::new(7, 11, 13, 17, 19);
    assert_eq!(id1.xor_distance(id1), NodeId::new(0, 0, 0, 0, 0));
    let id2 = NodeId::new(5, 0, 0, 0, 0);
    assert_eq!(id1.xor_distance(id2), id2.xor_distance(id1));
    assert_eq!(id1.xor_distance(id2), NodeId::new(2, 11, 13, 17, 19));
}

#[test]
fn test_plus_one_wraps_at_maximum() {
    let max = NodeId::new(0xffffffff, 0xffffffff, 0xffffffff, 0xffffffff, 0xffffffff);
    assert_eq!(max.plus_one(), NodeId::new(0, 0, 0, 0, 0));
}

#[test]
fn test_ordering_is_numeric_not_lexicographic() {
    // word 0 is least significant: {word1 = 1} is 2^32, larger than any
    // value held in word 0 alone.
    let small = NodeId::new(0xffffffff, 0, 0, 0, 0);
    let big = NodeId::new(0, 1, 0, 0, 0);
    assert!(small.lt(&big));
    assert!(!big.lt(&small));
    assert!(small.le(&big));
    assert!(small.same_id(&small));
    assert!(!small.same_id(&big));
}

#[test]
fn test_midpoint_between_bounds() {
    let id1 = NodeId::new(3, 0, 0, 0, 0);
    let id2 = NodeId::new(10, 0, 0, 0, 0);
    let mid = id1.midpoint(id2);
    assert!(id1.le(&mid));
    assert!(mid.le(&id2));
    assert_eq!(id1.midpoint(id1), id1);
}
