use kademlia_dht::kademlia::{AddResult, Node, NodeId, RoutingTable};

fn node(id: NodeId, port: u16) -> Node {
    Node { ip_address: [127, 0, 0, 1], port, id }
}

#[test]
fn add_twice_keeps_one_updated_entry() {
    let local = node(NodeId::new(0, 0, 0, 0, 0), 1);
    let mut table = RoutingTable::new(local, 2, 0);
    let id = NodeId::new(5, 0, 0, 0, 0);
    assert!(matches!(table.add(node(id, 1000)), AddResult::Inserted));
    assert!(matches!(table.add(node(id, 2000)), AddResult::Inserted));
    let found = table.closest(&id, 10);
    let with_id: Vec<_> = found.iter().filter(|n| n.id == id).collect();
    assert_eq!(with_id.len(), 1);
    assert_eq!(with_id[0].port, 2000);
}

#[test]
fn full_ineligible_bucket_keeps_k_entries() {
    // local id 0; identifiers with the top bit set end up, after one split,
    // in a bucket that excludes the local id and (depth limit 0) cannot
    // split further.
    let local = node(NodeId::new(0, 0, 0, 0, 0), 1);
    let mut table = RoutingTable::new(local, 2, 0);
    let a = NodeId::new(0, 0, 0, 0, 0x80000000);
    let b = NodeId::new(1, 0, 0, 0, 0x80000000);
    let c = NodeId::new(2, 0, 0, 0, 0x80000000);
    assert!(matches!(table.add(node(a, 10)), AddResult::Inserted));
    assert!(matches!(table.add(node(b, 11)), AddResult::Inserted));
    let outcome = table.add(node(c, 12));
    match outcome {
        AddResult::NeedsPing(oldest) => assert_eq!(oldest.id, a),
        AddResult::Inserted => panic!("bucket should have been full"),
    }
    // dead oldest: evicted, the new contact takes its place
    table.resolve_eviction(node(c, 12), false);
    let found = table.closest(&a, 10);
    assert_eq!(found.len(), 2); // the bucket still holds exactly k entries
    let ids: Vec<NodeId> = found.iter().map(|n| n.id).collect();
    assert!(!ids.contains(&a));
    assert!(ids.contains(&b));
    assert!(ids.contains(&c));
}

#[test]
fn full_ineligible_bucket_discards_when_oldest_alive() {
    let local = node(NodeId::new(0, 0, 0, 0, 0), 1);
    let mut table = RoutingTable::new(local, 2, 0);
    let a = NodeId::new(0, 0, 0, 0, 0x80000000);
    let b = NodeId::new(1, 0, 0, 0, 0x80000000);
    let c = NodeId::new(2, 0, 0, 0, 0x80000000);
    table.add(node(a, 10));
    table.add(node(b, 11));
    assert!(matches!(table.add(node(c, 12)), AddResult::NeedsPing(_)));
    // alive oldest: the new contact is discarded
    table.resolve_eviction(node(c, 12), true);
    let found = table.closest(&a, 10);
    let ids: Vec<NodeId> = found.iter().map(|n| n.id).collect();
    assert!(ids.contains(&a));
    assert!(ids.contains(&b));
    assert!(!ids.contains(&c));
}

#[test]
fn scenario_local_zero_ids_one_two_four_eight() {
    let local = node(NodeId::new(0, 0, 0, 0, 0), 1);
    let mut table = RoutingTable::new(local, 2, 0);
    for (i, w) in [1u32, 2, 4, 8].iter().enumerate() {
        let outcome = table.add(node(NodeId::new(*w, 0, 0, 0, 0), 2000 + i as u16));
        assert!(matches!(outcome, AddResult::Inserted));
    }
    // closest(3, 2): XOR distances to 3 are 1->2, 2->1, 4->7, 8->11,
    // so the two closest are 2 then 1, in ascending distance order.
    let target = NodeId::new(3, 0, 0, 0, 0);
    let found = table.closest(&target, 2);
    assert_eq!(found.len(), 2);
    assert_eq!(found[0].id, NodeId::new(2, 0, 0, 0, 0));
    assert_eq!(found[1].id, NodeId::new(1, 0, 0, 0, 0));
}

#[test]
fn splitting_the_full_range_partitions_it() {
    // Splitting [0, 2^160-1] at its midpoint gives two touching,
    // non-overlapping children; each inserted id lands in exactly one
    // resulting bucket, which closest() can still find.
    let local = node(NodeId::new(0, 0, 0, 0, 0), 1);
    let mut table = RoutingTable::new(local, 2, 0);
    let ids = [
        NodeId::new(1, 0, 0, 0, 0),
        NodeId::new(2, 0, 0, 0, 0),
        NodeId::new(4, 0, 0, 0, 0),
        NodeId::new(8, 0, 0, 0, 0),
    ];
    for id in ids.iter() {
        table.add(node(*id, 7));
    }
    let everyone = table.closest(&NodeId::new(0, 0, 0, 0, 0), 100);
    assert_eq!(everyone.len(), 4);
    for id in ids.iter() {
        assert_eq!(everyone.iter().filter(|n| n.id == *id).count(), 1);
    }
}

#[test]
fn closest_orders_by_xor_distance() {
    let local = node(NodeId::new(0, 0, 0, 0, 0), 1);
    let mut table = RoutingTable::new(local, 20, 0);
    for w in [3u32, 9, 12, 200].iter() {
        table.add(node(NodeId::new(*w, 0, 0, 0, 0), 5));
    }
    let target = NodeId::new(10, 0, 0, 0, 0);
    // distances: 3^10=9, 9^10=3, 12^10=6, 200^10=194
    let found = table.closest(&target, 3);
    assert_eq!(found.len(), 3);
    assert_eq!(found[0].id, NodeId::new(9, 0, 0, 0, 0));
    assert_eq!(found[1].id, NodeId::new(12, 0, 0, 0, 0));
    assert_eq!(found[2].id, NodeId::new(3, 0, 0, 0, 0));
}
