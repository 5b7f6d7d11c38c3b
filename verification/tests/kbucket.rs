use kademlia_dht::kademlia::{Node, NodeId, RoutingTable};

fn node(id: NodeId, port: u16) -> Node {
    Node { ip_address: [10, 0, 0, 2], port, id }
}

#[test]
fn bucket_lookup_and_oldest() {
    let local = node(NodeId::new(0, 0, 0, 0, 0), 1);
    let mut table = RoutingTable::new(local, 4, 0);
    let a = node(NodeId::new(7, 0, 0, 0, 0), 70);
    let b = node(NodeId::new(9, 0, 0, 0, 0), 90);
    table.add(a);
    table.add(b);
    let idx = table.get_bucket_for(&a);
    let bucket = &table.buckets[idx];
    assert!(bucket.has_in_range(a));
    assert!(bucket.contains(&a.id));
    // index 0 is the least recently seen contact
    let oldest = bucket.oldest_contact().unwrap();
    assert_eq!(oldest.id, a.id);
    assert_eq!(bucket.depth(), 0);
}

#[test]
fn node_distance_is_hamming_weight() {
    let a = node(NodeId::new(1, 0, 0, 0, 0), 1);
    let b = node(NodeId::new(0, 0, 0xffffffff, 0, 1), 2);
    assert_eq!(a.distance(b), 34);
    assert_eq!(a.distance(a), 0);
}
