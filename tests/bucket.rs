use kadrs::bucket::{Bucket, KBucket, K};
use kadrs::error::Error;
use kadrs::key::Key;
use kadrs::node::{Host, NodeInfo};

fn create_node_info(port: u16, key: &str) -> NodeInfo {
    NodeInfo::new(Host::new([127, 0, 0, 1], port), Key::from(key))
}

fn last(bucket: &Bucket) -> NodeInfo {
    bucket.get(bucket.len() - 1).unwrap()
}

#[test]
fn test_push_node() {
    let mut bucket = Bucket::new();
    let _ = bucket.push_back(create_node_info(1999, "key1"));
    let _ = bucket.push_back(create_node_info(2000, "key2"));
    let _ = bucket.push_back(create_node_info(2001, "key3"));
    assert_eq!(bucket.len(), 3);
}

#[test]
fn test_remove_node() {
    let mut bucket = Bucket::new();
    let _ = bucket.push_back(create_node_info(2000, "key1"));
    let _ = bucket.push_back(create_node_info(2001, "key2"));
    let node_info = bucket.remove(1);
    assert_eq!(bucket.len(), 1);
    assert_eq!(node_info, create_node_info(2001, "key2"));
}

#[test]
fn test_node_move_to_tail() {
    let mut bucket = Bucket::new();
    let _ = bucket.push_back(create_node_info(1999, "key1"));
    let _ = bucket.push_back(create_node_info(2000, "key2"));
    let _ = bucket.push_back(create_node_info(2001, "key3"));
    let _ = bucket.push_back(create_node_info(2002, "key4"));
    let res = bucket.move_to_tail(0);
    assert!(res.is_ok(), "success move to tail");
    let back = last(&bucket);
    assert_eq!(back.get_id(), &Key::from("key1"));
}

#[test]
fn test_node_move_to_tail_fail() {
    let mut bucket = Bucket::new();
    let _ = bucket.push_back(create_node_info(2001, "key1"));
    let _ = bucket.push_back(create_node_info(2002, "key2"));
    let res = bucket.move_to_tail(2);
    assert!(res.is_err(), "fail move to tail");
}

#[test]
fn test_update_bucket_with_one_already_in_the_bucket() {
    let node2 = create_node_info(2002, "key2");
    let mut bucket = Bucket::new();
    let _ = bucket.push_back(create_node_info(2001, "key1"));
    let _ = bucket.push_back(node2.clone());
    let _ = bucket.push_back(create_node_info(2002, "key3"));
    let _ = bucket.push_back(create_node_info(2003, "key4"));
    bucket.update(node2.clone());
    assert_eq!(&last(&bucket), &node2);
}

#[test]
fn test_update_bucket_new_node() {
    let mut bucket = Bucket::new();
    let _ = bucket.push_back(create_node_info(1999, "key1"));
    let _ = bucket.push_back(create_node_info(2000, "key2"));
    let _ = bucket.push_back(create_node_info(2001, "key3"));
    let _ = bucket.push_back(create_node_info(2002, "key4"));
    let node = create_node_info(2002, "new_key");

    bucket.update(node.clone());
    assert_eq!(&last(&bucket), &node);
}

// A full bucket asks for its head to be probed; an unknown peer only gets in
// when the head does not answer.
#[test]
fn test_update_full_bucket_new_node() {
    let mut bucket = Bucket::new();

    let node1 = create_node_info(2002, "key1");
    let _ = bucket.push_back(node1.clone());

    let _ = bucket.push_back(create_node_info(2001, "key2"));
    let _ = bucket.push_back(create_node_info(2002, "key3"));
    let _ = bucket.push_back(create_node_info(2003, "key4"));
    let _ = bucket.push_back(create_node_info(2004, "key5"));
    let _ = bucket.push_back(create_node_info(2005, "key6"));
    let _ = bucket.push_back(create_node_info(2003, "key7"));
    let _ = bucket.push_back(create_node_info(2004, "key8"));
    let _ = bucket.push_back(create_node_info(2005, "key9"));
    let _ = bucket.push_back(create_node_info(2005, "key10"));

    let node = create_node_info(2002, "new_key");
    let before = bucket.to_vec();

    let probe = bucket.update(node.clone());
    assert_eq!(probe, Some(node1.clone()));
    assert_eq!(bucket.to_vec(), before);

    bucket.resolve_probe(&node1, true, node.clone());
    assert_eq!(bucket.to_vec(), before);

    bucket.resolve_probe(&node1, false, node.clone());
    assert_eq!(bucket.len(), K);
    assert_eq!(&last(&bucket), &node);
    assert_eq!(bucket.get(0), Some(create_node_info(2001, "key2")));
    assert_eq!(bucket.to_vec().iter().filter(|n| **n == node1).count(), 0);
}

#[test]
fn update_reorders_and_probes_head() {
    let a = create_node_info(3000, "A");
    let b = create_node_info(3001, "B");
    let c = create_node_info(3002, "C");
    let mut bucket = Bucket::new();
    let _ = bucket.push_back(a);
    let _ = bucket.push_back(b);
    let _ = bucket.push_back(c);
    assert_eq!(bucket.update(b), None);
    assert_eq!(bucket.to_vec(), vec![a, c, b]);

    for i in 0..(K - 3) {
        assert_eq!(bucket.update(create_node_info(4000 + i as u16, "filler")), None);
    }
    assert_eq!(bucket.len(), K);
    let d = create_node_info(5000, "D");
    let full = bucket.to_vec();
    assert_eq!(bucket.update(d), Some(a));
    assert_eq!(bucket.to_vec(), full);

    // the head answered: the new peer is dropped
    bucket.resolve_probe(&a, true, d);
    assert_eq!(bucket.to_vec(), full);

    // the head timed out: it is evicted and the new peer appended
    bucket.resolve_probe(&a, false, d);
    let mut expected = full[1..].to_vec();
    expected.push(d);
    assert_eq!(bucket.to_vec(), expected);
}

#[test]
fn resolve_probe_ignores_stale_head() {
    let a = create_node_info(3000, "A");
    let b = create_node_info(3001, "B");
    let mut bucket = Bucket::new();
    let _ = bucket.push_back(a);
    let _ = bucket.push_back(b);
    let d = create_node_info(5000, "D");
    bucket.resolve_probe(&b, false, d);
    assert_eq!(bucket.to_vec(), vec![a, b]);
    bucket.resolve_probe(&a, false, b);
    assert_eq!(bucket.to_vec(), vec![a, b]);
}

#[test]
fn update_twice_keeps_one_copy_at_tail() {
    let a = create_node_info(3000, "A");
    let b = create_node_info(3001, "B");
    let mut bucket = Bucket::new();
    bucket.update(a);
    bucket.update(b);
    bucket.update(a);
    let len = bucket.len();
    bucket.update(a);
    assert_eq!(bucket.len(), len);
    assert_eq!(bucket.to_vec(), vec![b, a]);
}

#[test]
fn updates_never_exceed_capacity_or_duplicate() {
    let mut bucket = Bucket::new();
    for i in 0..40u16 {
        let peer = create_node_info(6000 + (i * 7) % 13, "p");
        bucket.update(peer);
        assert!(bucket.len() <= K);
        let v = bucket.to_vec();
        for x in 0..v.len() {
            for y in (x + 1)..v.len() {
                assert_ne!(v[x], v[y]);
            }
        }
        if v.contains(&peer) {
            assert_eq!(v[v.len() - 1], peer);
        }
    }
}

#[test]
fn push_back_fails_when_full() {
    let mut bucket = Bucket::new();
    for i in 0..K {
        assert_eq!(bucket.push_back(create_node_info(7000 + i as u16, "x")), Ok(()));
    }
    let before = bucket.to_vec();
    assert_eq!(bucket.push_back(create_node_info(8000, "y")), Err(Error::CapacityError));
    assert_eq!(bucket.to_vec(), before);
}

#[test]
fn move_to_tail_reports_index_and_length() {
    let mut bucket = Bucket::new();
    assert_eq!(bucket.move_to_tail(0), Err(Error::IndexOutOfBounds(0, 0)));
    let _ = bucket.push_back(create_node_info(1, "a"));
    let _ = bucket.push_back(create_node_info(2, "b"));
    assert_eq!(bucket.move_to_tail(2), Err(Error::IndexOutOfBounds(2, 2)));
}

#[test]
fn routing_table_picks_bucket_by_prefix_length() {
    let mut table = KBucket::new();
    let peer = create_node_info(9000, "peer");
    let mut d = [0u8; 20];
    d[2] = 0x10;
    let distance = Key::new(d);
    assert_eq!(distance.most_significant_bit(), 19);
    assert_eq!(table.update_bucket(peer, distance), None);
    assert_eq!(table.bucket(19).to_vec(), vec![peer]);
    for i in 0..160 {
        if i != 19 {
            assert_eq!(table.bucket(i).len(), 0);
        }
    }
    // a zero distance is the node itself: never routed
    assert_eq!(table.update_bucket(peer, Key::new([0; 20])), None);
    assert_eq!(table.peers(), vec![peer]);
}
