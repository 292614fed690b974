use crate::node::NodeInfo;
use crate::rpc::Rpc;
use vstd::prelude::*;

verus! {

/// A request from one node to another: the sender, if it names itself, the
/// addressee, and the payload.
#[derive(Debug)]
pub struct Request {
    from: Option<NodeInfo>,
    to: NodeInfo,
    rpc: Rpc,
}

impl Request {
    pub closed spec fn from_spec(&self) -> Option<NodeInfo> {
        self.from
    }

    pub closed spec fn to_spec(&self) -> NodeInfo {
        self.to
    }

    pub closed spec fn rpc_spec(&self) -> Rpc {
        self.rpc
    }

    pub fn new(from: Option<NodeInfo>, rpc: Rpc, to: NodeInfo) -> (r: Request)
        ensures
            r.from_spec() == from,
            r.to_spec() == to,
            r.rpc_spec() == rpc,
    {
        Request { from, to, rpc }
    }

    pub fn get_from(&self) -> (r: Option<&NodeInfo>)
        ensures
            r matches Some(n) ==> self.from_spec() == Some(*n),
            r is None ==> self.from_spec() is None,
    {
        match &self.from {
            Some(n) => Some(n),
            None => None,
        }
    }

    pub fn get_rpc(&self) -> (r: &Rpc)
        ensures
            *r == self.rpc_spec(),
    {
        &self.rpc
    }

    pub fn get_to(&self) -> (r: &NodeInfo)
        ensures
            *r == self.to_spec(),
    {
        &self.to
    }

    /// The sender, the addressee and the payload, taken apart.
    pub fn into_parts(self) -> (r: (Option<NodeInfo>, NodeInfo, Rpc))
        ensures
            r == (self.from_spec(), self.to_spec(), self.rpc_spec()),
    {
        (self.from, self.to, self.rpc)
    }
}

} // verus!
