use crate::node::NodeInfo;
use crate::request::Request;
use crate::rpc::Rpc;
use vstd::prelude::*;

verus! {

/// What a response carries back.
#[derive(Debug)]
pub enum ResponseBody {
    /// The node is online.
    PONG,
    /// The value stored under the key asked for.
    VALUE(Vec<u8>),
    /// Peers close to the id asked for.
    NODES(Vec<NodeInfo>),
}

/// A response to a request: the payload it answers, the responder, the
/// requester if it named itself, and what the response carries.
#[derive(Debug)]
pub struct Response {
    request_rpc: Rpc,
    from: NodeInfo,
    to: Option<NodeInfo>,
    body: Option<ResponseBody>,
}

impl Response {
    pub closed spec fn request_rpc_spec(&self) -> Rpc {
        self.request_rpc
    }

    pub closed spec fn from_spec(&self) -> NodeInfo {
        self.from
    }

    pub closed spec fn to_spec(&self) -> Option<NodeInfo> {
        self.to
    }

    pub closed spec fn body_spec(&self) -> Option<ResponseBody> {
        self.body
    }

    pub fn new(from: NodeInfo, to: Option<NodeInfo>, rpc: Rpc, body: Option<ResponseBody>) -> (r:
        Response)
        ensures
            r.from_spec() == from,
            r.to_spec() == to,
            r.request_rpc_spec() == rpc,
            r.body_spec() == body,
    {
        Response { from, to, request_rpc: rpc, body }
    }

    pub fn get_request_rpc(&self) -> (r: &Rpc)
        ensures
            *r == self.request_rpc_spec(),
    {
        &self.request_rpc
    }

    pub fn get_from(&self) -> (r: &NodeInfo)
        ensures
            *r == self.from_spec(),
    {
        &self.from
    }

    pub fn get_to(&self) -> (r: Option<&NodeInfo>)
        ensures
            r matches Some(n) ==> self.to_spec() == Some(*n),
            r is None ==> self.to_spec() is None,
    {
        match &self.to {
            Some(n) => Some(n),
            None => None,
        }
    }

    pub fn get_body(&self) -> (r: Option<&ResponseBody>)
        ensures
            r matches Some(b) ==> self.body_spec() == Some(*b),
            r is None ==> self.body_spec() is None,
    {
        match &self.body {
            Some(b) => Some(b),
            None => None,
        }
    }

    pub fn set_body(&mut self, body: Option<ResponseBody>)
        ensures
            final(self).body_spec() == body,
            final(self).request_rpc_spec() == old(self).request_rpc_spec(),
            final(self).from_spec() == old(self).from_spec(),
            final(self).to_spec() == old(self).to_spec(),
    {
        self.body = body
    }

    /// The empty response to `req`: it answers the request's payload, comes
    /// from its addressee and goes to its sender.
    pub fn from_request(req: Request) -> (r: Response)
        ensures
            r.from_spec() == req.to_spec(),
            r.to_spec() == req.from_spec(),
            r.request_rpc_spec() == req.rpc_spec(),
            r.body_spec() is None,
    {
        let (from, to, rpc) = req.into_parts();
        Response { from: to, to: from, request_rpc: rpc, body: None }
    }
}

} // verus!
