use kadrs::bucket::K;
use kadrs::dispatch::handle_request;
use kadrs::key::Key;
use kadrs::node::{Host, Node, NodeInfo};
use kadrs::request::Request;
use kadrs::response::{Response, ResponseBody};
use kadrs::rpc::Rpc;
use async_std::sync::RwLock;
use std::sync::Arc;

fn host(port: u16) -> Host {
    Host::new([127, 0, 0, 1], port)
}

#[test]
fn host_text_matches_socket_address_form() {
    assert_eq!(host(2000).to_text(), b"127.0.0.1:2000".to_vec());
    assert_eq!(Host::new([10, 200, 3, 45], 0).to_text(), b"10.200.3.45:0".to_vec());
    assert_eq!(Host::new([255, 255, 255, 255], 65535).to_text(), b"255.255.255.255:65535".to_vec());
}

#[test]
fn node_id_is_hash_of_address() {
    let info = NodeInfo::from_host(host(2000));
    assert_eq!(info.get_id(), &Key::from("127.0.0.1:2000"));
    assert_eq!(info.get_host(), &host(2000));
    let node = Node::new(host(2000)).unwrap();
    assert_eq!(node.get_id(), &Key::from("127.0.0.1:2000"));
    assert_eq!(node.get_host(), &host(2000));
}

#[test]
fn store_then_find_value_round_trips() {
    let mut node = Node::new(host(2000)).unwrap();
    let k = Key::from("x");
    assert_eq!(node.find_value(&k), None);
    node.store(k, b"v1".to_vec());
    assert_eq!(node.find_value(&k), Some(b"v1".to_vec()));
    node.store(k, b"v2".to_vec());
    assert_eq!(node.find_value(&k), Some(b"v2".to_vec()));
    assert_eq!(node.find_value(&Key::from("y")), None);
}

#[test]
fn concurrent_readers_and_writer_see_whole_value() {
    async_std::task::block_on(async {
        let node = Arc::new(RwLock::new(Node::new(host(2000)).unwrap()));
        let k = Key::from("x");
        let v = b"value".to_vec();
        let mut tasks = Vec::new();
        for i in 0..3 {
            let node = Arc::clone(&node);
            let v = v.clone();
            tasks.push(async_std::task::spawn(async move {
                if i == 1 {
                    node.write().await.store(k, v);
                    None
                } else {
                    node.read().await.find_value(&k)
                }
            }));
        }
        for t in tasks {
            let seen = t.await;
            assert!(seen.is_none() || seen == Some(v.clone()));
        }
        assert_eq!(node.read().await.find_value(&k), Some(v));
    });
}

#[test]
fn update_bucket_routes_by_shared_prefix() {
    let mut node = Node::new(host(2000)).unwrap();
    let peer = NodeInfo::from_host(host(2001));
    let i = peer.get_id().distance(node.get_id()).most_significant_bit() as usize;
    assert_eq!(node.update_bucket(peer), None);
    assert_eq!(node.get_k_bucket().bucket(i).to_vec(), vec![peer]);
    assert_eq!(node.get_k_bucket().peers(), vec![peer]);

    // the node never routes to itself
    let me = NodeInfo::from_host(host(2000));
    assert_eq!(node.update_bucket(me), None);
    assert_eq!(node.get_k_bucket().peers(), vec![peer]);
}

#[test]
fn full_bucket_asks_for_probe() {
    let mut node = Node::new(host(2000)).unwrap();
    let mut first = None;
    let mut pending = None;
    for port in 3000..4000u16 {
        let peer = NodeInfo::new(host(port), Key::new(prefix_key(0x80, port)));
        match node.update_bucket(peer) {
            None => {
                if first.is_none() {
                    first = Some(peer);
                }
            }
            Some(head) => {
                pending = Some((head, peer));
                break;
            }
        }
    }
    let (head, peer) = pending.unwrap();
    let i = peer.get_id().distance(node.get_id()).most_significant_bit() as usize;
    assert_eq!(Some(head), node.get_k_bucket().bucket(i).get(0));
    assert_eq!(node.get_k_bucket().bucket(i).len(), K);
    node.resolve_probe(&head, false, peer);
    let bucket = node.get_k_bucket().bucket(i).to_vec();
    assert_eq!(bucket[K - 1], peer);
    assert!(!bucket.contains(&head));
}

// Keys whose distance to the node's id all start with the same top bit
// relation land in one bucket.
fn prefix_key(top: u8, n: u16) -> [u8; 20] {
    let me = Key::from("127.0.0.1:2000").as_bytes();
    let mut k = me;
    k[0] = me[0] ^ top;
    k[18] = (n >> 8) as u8;
    k[19] = n as u8;
    k
}

#[test]
fn handle_ping_store_and_find() {
    let mut node = Node::new(host(2000)).unwrap();
    let me = NodeInfo::from_host(host(2000));
    let sender = NodeInfo::from_host(host(2001));

    let (res, probe) = handle_request(&mut node, Request::new(Some(sender), Rpc::Ping, me));
    assert!(probe.is_none());
    assert!(matches!(res.get_body(), Some(ResponseBody::PONG)));
    assert_eq!(res.get_from(), &me);
    assert_eq!(res.get_to(), Some(&sender));
    assert_eq!(res.get_request_rpc(), &Rpc::Ping);
    assert_eq!(node.get_k_bucket().peers(), vec![sender]);

    let k = Key::from("x");
    let (res, _) = handle_request(&mut node, Request::new(None, Rpc::FindValue(k), me));
    assert!(res.get_body().is_none());
    assert_eq!(res.get_to(), None);

    let (res, _) =
        handle_request(&mut node, Request::new(None, Rpc::Store(k, b"hello".to_vec()), me));
    assert!(res.get_body().is_none());
    assert_eq!(res.get_request_rpc(), &Rpc::Store(k, b"hello".to_vec()));

    let (res, _) = handle_request(&mut node, Request::new(None, Rpc::FindValue(k), me));
    match res.get_body() {
        Some(ResponseBody::VALUE(v)) => assert_eq!(v, &b"hello".to_vec()),
        other => panic!("unexpected body {:?}", other),
    }
}

#[test]
fn handle_find_node_lists_closest_first() {
    let mut node = Node::new(host(2000)).unwrap();
    let me = NodeInfo::from_host(host(2000));
    let mut peers = Vec::new();
    for port in 2001..2031u16 {
        let p = NodeInfo::from_host(host(port));
        node.update_bucket(p);
        peers.push(p);
    }
    let target = Key::from("target");
    let known = node.get_k_bucket().peers();
    let (res, _) = handle_request(&mut node, Request::new(None, Rpc::FindNode(target), me));
    let found = match res.get_body() {
        Some(ResponseBody::NODES(ns)) => ns.clone(),
        other => panic!("unexpected body {:?}", other),
    };
    assert_eq!(found.len(), K.min(known.len()));
    let dist = |n: &NodeInfo| n.get_id().distance(&target).as_bytes();
    for w in found.windows(2) {
        assert!(dist(&w[0]) <= dist(&w[1]));
    }
    for p in known.iter().filter(|p| !found.contains(p)) {
        assert!(dist(&found[found.len() - 1]) <= dist(p));
    }
}

#[test]
fn response_from_request_swaps_ends() {
    let a = NodeInfo::from_host(host(1));
    let b = NodeInfo::from_host(host(2));
    let req = Request::new(Some(a), Rpc::FindNode(Key::from("k")), b);
    assert_eq!(req.get_from(), Some(&a));
    assert_eq!(req.get_to(), &b);
    let mut res = Response::from_request(req);
    assert_eq!(res.get_from(), &b);
    assert_eq!(res.get_to(), Some(&a));
    assert_eq!(res.get_request_rpc(), &Rpc::FindNode(Key::from("k")));
    assert!(res.get_body().is_none());
    res.set_body(Some(ResponseBody::PONG));
    assert!(matches!(res.get_body(), Some(ResponseBody::PONG)));
    let made = Response::new(b, None, Rpc::Ping, None);
    assert_eq!(made.get_to(), None);
}
