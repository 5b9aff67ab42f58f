//! A Kademlia-style routing table over an XOR-metric identifier space.
//!
//! Known peers are partitioned into prefix-length buckets around a local
//! node's identifier; the table grows by splitting its catch-all bucket and
//! answers bounded proximity queries.

use vstd::prelude::*;

pub mod bits;
pub mod kademlia;

verus! {

/// A local node: its identifier and the routing table built around it.
pub struct Node {
    pub id: kademlia::NodeID,
    pub table: kademlia::VectorRoutingTable,
}

impl Node {
    /// A node with a small starter table: one bucket class, capacity five.
    pub fn new(id: kademlia::NodeID) -> (r: Node)
        ensures
            r.id == id,
            r.table.id == id,
            r.table.key_space == 1,
            r.table.kay == 5,
            r.table.wf(),
            r.table.spec_population() == 0,
    {
        let table = match kademlia::VectorRoutingTable::new(id, 1, 5) {
            Ok(t) => t,
            Err(_) => vstd::pervasive::unreached(),
        };
        Node { id, table }
    }
}

} // verus!
