//! Routing-table core of a Kademlia-style distributed hash table node,
//! together with the bencode codec used for wire-level peer records.

pub mod bencode;
pub mod err;
pub mod kademlia;
