use kademlia_routing::kademlia::{InsertOutcome, NodeDescription};
use kademlia_routing::Node;

#[test]
fn build_node_simple() {
    let node = Node::new(1);
    assert_eq!(1, node.id);
}

#[test]
fn node_table_starts_usable() {
    let mut node = Node::new(1);
    assert_eq!(0, node.table.population());
    assert_eq!(1, node.table.hoods.len());
    let outcome = node.table.insert(NodeDescription::_dummy(0)).unwrap();
    assert_eq!(outcome, InsertOutcome::Inserted);
    assert_eq!(1, node.table.population());
    assert_eq!(node.table.lookup(0), vec![NodeDescription::_dummy(0)]);
}
