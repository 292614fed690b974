use crate::key::Key;
use vstd::prelude::*;

verus! {

/// The payload of a request between nodes.
#[derive(Debug, PartialEq, Eq)]
pub enum Rpc {
    /// Checks that the node is online.
    Ping,
    /// Stores the value under the key.
    Store(Key, Vec<u8>),
    /// Asks for the peers closest to the id.
    FindNode(Key),
    /// Asks for the value under the key.
    FindValue(Key),
}

} // verus!
