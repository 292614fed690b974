use crate::bucket::{is_closest, K, N_BUCKETS};
use crate::node::{bucket_index, routed, Node, NodeInfo};
use crate::request::Request;
use crate::response::{Response, ResponseBody};
use crate::rpc::Rpc;
use crate::store::lookup;
use vstd::prelude::*;

verus! {

/// The body of the response to `rpc`, given the node's store `values` and
/// routing table `table`.
pub open spec fn body_ok(
    rpc: Rpc,
    values: Map<Seq<u8>, Seq<u8>>,
    table: Seq<Seq<NodeInfo>>,
    body: Option<ResponseBody>,
) -> bool {
    match rpc {
        Rpc::Ping => body == Some(ResponseBody::PONG),
        Rpc::Store(_, _) => body is None,
        Rpc::FindValue(k) => match lookup(values, k@) {
            Some(v) => body matches Some(ResponseBody::VALUE(b)) && b@ == v,
            None => body is None,
        },
        Rpc::FindNode(id) => body matches Some(ResponseBody::NODES(ns)) && is_closest(
            table,
            id@,
            ns@,
        ),
    }
}

/// Serves one request on `node`, all under one exclusive borrow: answers the
/// payload (a ping is acknowledged, a store is written, a value or the closest
/// peers are looked up) and then records the sender, when it names itself, in
/// the routing table. Returns the response, and the head of the sender's
/// bucket when that bucket is full and the sender unknown: it is to be probed,
/// and the outcome handed to `Node::resolve_probe`.
pub fn handle_request(node: &mut Node, req: Request) -> (r: (Response, Option<NodeInfo>))
    requires
        old(node).wf(),
    ensures
        final(node).wf(),
        final(node).id_spec() == old(node).id_spec(),
        final(node).host_spec() == old(node).host_spec(),
        r.0.from_spec() == req.to_spec(),
        r.0.to_spec() == req.from_spec(),
        r.0.request_rpc_spec() == req.rpc_spec(),
        body_ok(req.rpc_spec(), old(node).values(), old(node).routing(), r.0.body_spec()),
        final(node).values() == match req.rpc_spec() {
            Rpc::Store(k, v) => old(node).values().insert(k@, v@),
            _ => old(node).values(),
        },
        final(node).routing() == match req.from_spec() {
            Some(f) => routed(old(node).routing(), old(node).id_spec()@, f),
            None => old(node).routing(),
        },
        r.1 == match req.from_spec() {
            Some(f) => {
                let i = bucket_index(old(node).id_spec()@, f) as int;
                if i < N_BUCKETS && !old(node).routing()[i].contains(f)
                    && old(node).routing()[i].len() >= K {
                    Some(old(node).routing()[i][0])
                } else {
                    None
                }
            },
            None => None,
        },
{
    let (from, to, rpc) = req.into_parts();
    let (rpc, body) = match rpc {
        Rpc::Ping => (Rpc::Ping, Some(ResponseBody::PONG)),
        Rpc::Store(k, v) => {
            node.store(k, v.clone());
            (Rpc::Store(k, v), None)
        },
        Rpc::FindValue(k) => {
            let body = match node.find_value(&k) {
                Some(v) => Some(ResponseBody::VALUE(v)),
                None => None,
            };
            (Rpc::FindValue(k), body)
        },
        Rpc::FindNode(id) => {
            let nodes = node.find_node(&id);
            (Rpc::FindNode(id), Some(ResponseBody::NODES(nodes)))
        },
    };
    let probe = match from {
        Some(f) => node.update_bucket(f),
        None => None,
    };
    (Response::new(to, from, rpc, body), probe)
}

} // verus!
