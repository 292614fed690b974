//! A Kademlia-style distributed hash table node: the 160-bit key space and its
//! XOR metric, k-buckets and the routing table, the node's local store, and the
//! decisions taken for each request a peer sends.

pub mod bucket;
pub mod command;
pub mod digest;
pub mod dispatch;
pub mod error;
pub mod hash_table;
pub mod key;
pub mod node;
pub mod request;
pub mod response;
pub mod rpc;
pub mod store;
