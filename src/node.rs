use crate::bucket::{
    is_closest, lemma_probe_shape, lemma_update_shape, probed, updated, KBucket, K, N_BUCKETS,
};
use crate::digest::digestible;
use crate::error::Error;
use crate::key::{key_of, leading_zero_bits, xor_bytes, Key, KEY_BITS};
use crate::store::{lookup, LocalStore};
use vstd::prelude::*;

verus! {

/// The decimal digits of `n`, in ASCII.
pub open spec fn decimal(n: nat) -> Seq<u8>
    decreases n,
{
    if n < 10 {
        seq![(48 + n) as u8]
    } else {
        decimal(n / 10).push((48 + n % 10) as u8)
    }
}

/// An IPv4 socket address: a 32-bit address and a port.
#[derive(Clone, Copy, Debug, PartialEq, Eq, Hash, Structural)]
pub struct Host {
    pub ip: u32,
    pub port: u16,
}

impl Host {
    /// The `k`-th octet of the address, most significant first.
    pub open spec fn octet(self, k: int) -> nat {
        ((self.ip as nat) / pow256(3 - k)) % 256
    }

    /// The address written `a.b.c.d:port`, all numbers in decimal.
    pub open spec fn text(self) -> Seq<u8> {
        decimal(self.octet(0)) + seq![46u8] + decimal(self.octet(1)) + seq![46u8] + decimal(
            self.octet(2),
        ) + seq![46u8] + decimal(self.octet(3)) + seq![58u8] + decimal(self.port as nat)
    }

    /// The address with octets `octets` and port `port`.
    pub fn new(octets: [u8; 4], port: u16) -> (r: Host)
        ensures
            r.ip == octets[0] as nat * 0x100_0000 + octets[1] as nat * 0x1_0000 + octets[2] as nat
                * 0x100 + octets[3] as nat,
            r.port == port,
    {
        let ip: u32 = octets[0] as u32 * 0x100_0000 + octets[1] as u32 * 0x1_0000 + octets[2] as u32
            * 0x100 + octets[3] as u32;
        Host { ip, port }
    }

    /// The address as text, `a.b.c.d:port`.
    pub fn to_text(&self) -> (r: Vec<u8>)
        ensures
            r@ == self.text(),
    {
        let mut out: Vec<u8> = Vec::new();
        push_decimal(&mut out, self.ip / 0x100_0000);
        out.push(46u8);
        push_decimal(&mut out, (self.ip / 0x1_0000) % 256);
        out.push(46u8);
        push_decimal(&mut out, (self.ip / 0x100) % 256);
        out.push(46u8);
        push_decimal(&mut out, self.ip % 256);
        out.push(58u8);
        push_decimal(&mut out, self.port as u32);
        assert(out@ =~= self.text());
        out
    }
}

/// 256 to the power `k`, for `k` in 0..=3.
pub open spec fn pow256(k: int) -> nat {
    if k <= 0 {
        1
    } else if k == 1 {
        0x100
    } else if k == 2 {
        0x1_0000
    } else {
        0x100_0000
    }
}

/// Appends the decimal digits of `n` to `out`.
fn push_decimal(out: &mut Vec<u8>, n: u32)
    ensures
        final(out)@ == old(out)@ + decimal(n as nat),
    decreases n,
{
    if n >= 10 {
        push_decimal(out, n / 10);
    }
    out.push((48 + n % 10) as u8);
    assert(final(out)@ =~= old(out)@ + decimal(n as nat));
}

/// The decimal form of `n` has at most `n + 1` digits.
pub proof fn lemma_decimal_len(n: nat)
    ensures
        decimal(n).len() <= n + 1,
    decreases n,
{
    if n >= 10 {
        lemma_decimal_len(n / 10);
    }
}

/// A peer: its socket address and its id.
#[derive(Clone, Copy, Debug)]
pub struct NodeInfo {
    host: Host,
    id: Key,
}

impl PartialEq for NodeInfo {
    fn eq(&self, other: &NodeInfo) -> (r: bool)
        ensures
            r == (*self == *other),
    {
        let r = self.host == other.host && self.id == other.id;
        proof {
            if self.id@ == other.id@ {
                Key::lemma_view_eq(self.id, other.id);
            }
        }
        r
    }
}

impl vstd::std_specs::cmp::PartialEqSpecImpl for NodeInfo {
    open spec fn obeys_eq_spec() -> bool {
        true
    }

    open spec fn eq_spec(&self, other: &NodeInfo) -> bool {
        *self == *other
    }
}

impl Eq for NodeInfo {
}

impl NodeInfo {
    pub closed spec fn host_spec(self) -> Host {
        self.host
    }

    pub closed spec fn id_spec(self) -> Key {
        self.id
    }

    pub fn new(host: Host, id: Key) -> (r: NodeInfo)
        ensures
            r.host_spec() == host,
            r.id_spec() == id,
    {
        NodeInfo { host, id }
    }

    pub fn get_id(&self) -> (r: &Key)
        ensures
            *r == self.id_spec(),
    {
        &self.id
    }

    pub fn get_host(&self) -> (r: &Host)
        ensures
            *r == self.host_spec(),
    {
        &self.host
    }

    /// The peer at `host`, with the id that its address text hashes to.
    pub fn from_host(host: Host) -> (r: NodeInfo)
        ensures
            r.host_spec() == host,
            r.id_spec()@ == key_of(host.text()),
    {
        let text = host.to_text();
        proof {
            lemma_decimal_len(host.octet(0));
            lemma_decimal_len(host.octet(1));
            lemma_decimal_len(host.octet(2));
            lemma_decimal_len(host.octet(3));
            lemma_decimal_len(host.port as nat);
            assert(digestible(text@.len()));
        }
        let id = Key::hash(text.as_slice());
        NodeInfo { host, id }
    }
}

/// Index of the bucket that `x` belongs to in the table of the node `self_id`:
/// the leading zero bits of their distance.
pub open spec fn bucket_index(self_id: Seq<u8>, x: NodeInfo) -> nat {
    leading_zero_bits(xor_bytes(x.id_spec()@, self_id))
}

/// The routing table `t` of the node `self_id` after a sighting of `x`: the
/// bucket that `x` belongs to is updated; a node never routes to itself.
pub open spec fn routed(t: Seq<Seq<NodeInfo>>, self_id: Seq<u8>, x: NodeInfo) -> Seq<
    Seq<NodeInfo>,
> {
    let i = bucket_index(self_id, x) as int;
    if i < N_BUCKETS {
        t.update(i, updated(t[i], x))
    } else {
        t
    }
}

/// Every peer that the table `t` holds is in the bucket its distance to
/// `self_id` picks, and no bucket holds a peer twice or more than `K` peers.
pub open spec fn routing_ok(t: Seq<Seq<NodeInfo>>, self_id: Seq<u8>) -> bool {
    &&& t.len() == N_BUCKETS
    &&& forall|i: int| 0 <= i < N_BUCKETS ==> (#[trigger] t[i]).len() <= K && t[i].no_duplicates()
    &&& forall|i: int, y: NodeInfo|
        0 <= i < N_BUCKETS && #[trigger] t[i].contains(y) ==> bucket_index(self_id, y) == i
}

/// A sighting of a peer lands it in the bucket of its shared-prefix length
/// with the node, at the tail when that bucket knew it or had room, and
/// leaves every other bucket as it was; the table stays well formed.
pub proof fn lemma_routed_lands(t: Seq<Seq<NodeInfo>>, self_id: Seq<u8>, x: NodeInfo)
    requires
        routing_ok(t, self_id),
    ensures
        routing_ok(routed(t, self_id, x), self_id),
        bucket_index(self_id, x) < N_BUCKETS && (t[bucket_index(self_id, x) as int].contains(x)
            || t[bucket_index(self_id, x) as int].len() < K) ==> routed(t, self_id, x)[bucket_index(
            self_id,
            x,
        ) as int].last() == x,
        forall|j: int|
            0 <= j < N_BUCKETS && j != bucket_index(self_id, x) ==> #[trigger] routed(t, self_id, x)[j]
                == t[j],
{
    let i = bucket_index(self_id, x) as int;
    if i < N_BUCKETS {
        lemma_update_shape(t[i], x);
        let u = routed(t, self_id, x);
        assert forall|j: int, y: NodeInfo|
            0 <= j < N_BUCKETS && #[trigger] u[j].contains(y) implies bucket_index(self_id, y)
            == j by {
            if j == i {
                assert(updated(t[i], x).contains(y));
            }
        }
    }
}

/// The table after a probe of the head `head` of the bucket that `x` belongs
/// to, which `alive` answered.
pub open spec fn probe_routed(
    t: Seq<Seq<NodeInfo>>,
    self_id: Seq<u8>,
    head: NodeInfo,
    alive: bool,
    x: NodeInfo,
) -> Seq<Seq<NodeInfo>> {
    let i = bucket_index(self_id, x) as int;
    if i < N_BUCKETS {
        t.update(i, probed(t[i], head, alive, x))
    } else {
        t
    }
}

/// Settling a probe keeps the table well formed.
pub proof fn lemma_probe_routed(
    t: Seq<Seq<NodeInfo>>,
    self_id: Seq<u8>,
    head: NodeInfo,
    alive: bool,
    x: NodeInfo,
)
    requires
        routing_ok(t, self_id),
    ensures
        routing_ok(probe_routed(t, self_id, head, alive, x), self_id),
        ({
            let i = bucket_index(self_id, x) as int;
            i < N_BUCKETS && !alive && t[i].len() > 0 && t[i][0] == head && !t[i].contains(x)
                ==> probe_routed(t, self_id, head, alive, x)[i].last() == x
        }),
{
    let i = bucket_index(self_id, x) as int;
    if i < N_BUCKETS {
        lemma_probe_shape(t[i], head, alive, x);
        let u = probe_routed(t, self_id, head, alive, x);
        assert forall|j: int, y: NodeInfo|
            0 <= j < N_BUCKETS && #[trigger] u[j].contains(y) implies bucket_index(self_id, y)
            == j by {
            if j == i {
                assert(probed(t[i], head, alive, x).contains(y));
            }
        }
    }
}

/// A DHT node: its identity, its shard of the table and its routing table.
pub struct Node {
    id: Key,
    host: Host,
    local_table: LocalStore,
    k_bucket: KBucket,
}

impl Node {
    pub closed spec fn id_spec(&self) -> Key {
        self.id
    }

    pub closed spec fn host_spec(&self) -> Host {
        self.host
    }

    /// The key/value pairs the node stores.
    pub closed spec fn values(&self) -> Map<Seq<u8>, Seq<u8>> {
        self.local_table@
    }

    /// The routing table, bucket by bucket.
    pub closed spec fn routing(&self) -> Seq<Seq<NodeInfo>> {
        self.k_bucket@
    }

    /// The id is the hash of the address text, and the routing table and the
    /// store are well formed.
    pub closed spec fn wf(&self) -> bool {
        &&& self.id@ == key_of(self.host.text())
        &&& self.k_bucket.wf()
        &&& self.local_table.wf()
        &&& routing_ok(self.k_bucket@, self.id@)
    }

    /// A fresh node at `host`, its id derived from the address text; it never
    /// fails.
    pub fn new(host: Host) -> (r: Result<Node, Error>)
        ensures
            r is Ok,
            r matches Ok(n) && {
                &&& n.wf()
                &&& n.host_spec() == host
                &&& n.id_spec()@ == key_of(host.text())
                &&& n.values() == Map::<Seq<u8>, Seq<u8>>::empty()
                &&& n.routing() == Seq::new(N_BUCKETS as nat, |i: int| Seq::<NodeInfo>::empty())
            },
    {
        let info = NodeInfo::from_host(host);
        let id = *info.get_id();
        let k_bucket = KBucket::new();
        let n = Node { id, host, local_table: LocalStore::new(), k_bucket };
        proof {
            k_bucket.lemma_wf();
            assert(routing_ok(n.k_bucket@, n.id@));
        }
        Ok(n)
    }

    pub fn get_id(&self) -> (r: &Key)
        ensures
            *r == self.id_spec(),
    {
        &self.id
    }

    pub fn get_host(&self) -> (r: &Host)
        ensures
            *r == self.host_spec(),
    {
        &self.host
    }

    /// The routing table.
    pub fn get_k_bucket(&self) -> (r: &KBucket)
        requires
            self.wf(),
        ensures
            r@ == self.routing(),
            r.wf(),
    {
        &self.k_bucket
    }

    /// A copy of the value stored under `key`, if any.
    pub fn find_value(&self, key: &Key) -> (r: Option<Vec<u8>>)
        requires
            self.wf(),
        ensures
            match r {
                Some(v) => lookup(self.values(), key@) == Some(v@),
                None => lookup(self.values(), key@) is None,
            },
    {
        match self.local_table.get(key) {
            Some(v) => Some(v.clone()),
            None => None,
        }
    }

    /// The known peers closest to `id`, nearest first.
    pub fn find_node(&self, id: &Key) -> (r: Vec<NodeInfo>)
        requires
            self.wf(),
        ensures
            is_closest(self.routing(), id@, r@),
    {
        self.k_bucket.closest(id)
    }

    /// Stores `value` under `key`; the last write wins.
    pub fn store(&mut self, key: Key, value: Vec<u8>)
        requires
            old(self).wf(),
        ensures
            final(self).wf(),
            final(self).values() == old(self).values().insert(key@, value@),
            final(self).routing() == old(self).routing(),
            final(self).id_spec() == old(self).id_spec(),
            final(self).host_spec() == old(self).host_spec(),
    {
        self.local_table.put(key, value);
    }

    /// Records a sighting of the peer `node_info`, with the id it gave, in the
    /// bucket its distance to this node picks. The result is the head of that
    /// bucket when it is full and the peer unknown: the head is to be probed
    /// and the outcome handed to `resolve_probe`.
    pub fn update_bucket(&mut self, node_info: NodeInfo) -> (r: Option<NodeInfo>)
        requires
            old(self).wf(),
        ensures
            final(self).wf(),
            final(self).routing() == routed(old(self).routing(), old(self).id_spec()@, node_info),
            final(self).values() == old(self).values(),
            final(self).id_spec() == old(self).id_spec(),
            final(self).host_spec() == old(self).host_spec(),
            ({
                let i = bucket_index(old(self).id_spec()@, node_info) as int;
                r == (if i < N_BUCKETS && !old(self).routing()[i].contains(node_info)
                    && old(self).routing()[i].len() >= K {
                    Some(old(self).routing()[i][0])
                } else {
                    None
                })
            }),
    {
        let distance = node_info.get_id().distance(&self.id);
        let r = self.k_bucket.update_bucket(node_info, distance);
        proof {
            lemma_routed_lands(old(self).k_bucket@, self.id@, node_info);
            assert(self.k_bucket@ =~= routed(old(self).k_bucket@, self.id@, node_info));
        }
        r
    }

    /// Settles the bucket of `node_info` once its head `head` has been probed:
    /// a head that did not answer is evicted and `node_info` appended.
    pub fn resolve_probe(&mut self, head: &NodeInfo, alive: bool, node_info: NodeInfo)
        requires
            old(self).wf(),
        ensures
            final(self).wf(),
            final(self).routing() == probe_routed(
                old(self).routing(),
                old(self).id_spec()@,
                *head,
                alive,
                node_info,
            ),
            final(self).values() == old(self).values(),
            final(self).id_spec() == old(self).id_spec(),
            final(self).host_spec() == old(self).host_spec(),
    {
        let distance = node_info.get_id().distance(&self.id);
        self.k_bucket.resolve_probe(distance, head, alive, node_info);
        proof {
            lemma_probe_routed(old(self).k_bucket@, self.id@, *head, alive, node_info);
            assert(self.k_bucket@ =~= probe_routed(
                old(self).k_bucket@,
                self.id@,
                *head,
                alive,
                node_info,
            ));
        }
    }
}

} // verus!
