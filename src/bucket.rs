use crate::error::Error;
use crate::key::{leading_zero_bits, xor_bytes, Key, KEY_BITS, KEY_LEN};
use crate::node::NodeInfo;
use arrayvec::{ArrayVec, CapacityError};
use vstd::prelude::*;

verus! {

/// Capacity of a bucket.
pub const K: usize = 10;

/// Number of buckets in a routing table: one per possible shared-prefix length
/// below 160.
pub const N_BUCKETS: usize = 160;

/// arrayvec's `ArrayVec`, the fixed-capacity vector a bucket keeps its peers
/// in; opaque here, its contents are named by `entries_of`.
#[verifier::external_type_specification]
#[verifier::external_body]
#[verifier::reject_recursive_types(T)]
pub struct ExArrayVec<T, const CAP: usize>(ArrayVec<T, CAP>);

/// arrayvec's `CapacityError`, returned by `ArrayVec::try_push` on a full
/// vector; carried through and mapped to `Error::CapacityError`.
#[verifier::external_type_specification]
#[verifier::external_body]
#[verifier::reject_recursive_types(T)]
pub struct ExCapacityError<T>(CapacityError<T>);

/// The peers an `ArrayVec` holds, in order.
pub uninterp spec fn entries_of(v: ArrayVec<NodeInfo, K>) -> Seq<NodeInfo>;

/// Relies on arrayvec's `ArrayVec::new`: an empty vector.
#[verifier::external_body]
fn entries_new() -> (r: ArrayVec<NodeInfo, K>)
    ensures
        entries_of(r) == Seq::<NodeInfo>::empty(),
{
    ArrayVec::new()
}

/// Relies on arrayvec's `ArrayVec::as_slice`: the elements, in order.
#[verifier::external_body]
fn entries_slice(v: &ArrayVec<NodeInfo, K>) -> (r: &[NodeInfo])
    ensures
        r@ == entries_of(*v),
{
    v.as_slice()
}

/// Relies on arrayvec's `ArrayVec::try_push`: below capacity the element is
/// appended; at capacity it comes back in the error and the vector is unchanged.
#[verifier::external_body]
fn entries_try_push(v: &mut ArrayVec<NodeInfo, K>, e: NodeInfo) -> (r: Result<
    (),
    CapacityError<NodeInfo>,
>)
    ensures
        entries_of(*old(v)).len() < K ==> r is Ok && entries_of(*final(v)) == entries_of(
            *old(v),
        ).push(e),
        entries_of(*old(v)).len() >= K ==> r is Err && entries_of(*final(v)) == entries_of(
            *old(v),
        ),
{
    v.try_push(e)
}

/// Relies on arrayvec's `ArrayVec::remove`: removes the element at `index` and
/// shifts the rest down; it panics when `index` is out of range.
#[verifier::external_body]
fn entries_remove(v: &mut ArrayVec<NodeInfo, K>, index: usize) -> (r: NodeInfo)
    requires
        index < entries_of(*old(v)).len(),
    ensures
        r == entries_of(*old(v))[index as int],
        entries_of(*final(v)) == entries_of(*old(v)).remove(index as int),
{
    v.remove(index)
}

/// Position of the first occurrence of `x` in `s`, or `s.len()` if it does not occur.
pub open spec fn position(s: Seq<NodeInfo>, x: NodeInfo) -> int
    decreases s.len(),
{
    if s.len() == 0 {
        0
    } else if s[0] == x {
        0
    } else {
        1 + position(s.drop_first(), x)
    }
}

/// `s` with its element at `i` moved to the tail.
pub open spec fn moved_to_tail(s: Seq<NodeInfo>, i: int) -> Seq<NodeInfo> {
    s.remove(i).push(s[i])
}

/// What one sighting of `x` does to a bucket holding `s`: a known peer moves to
/// the tail; an unknown one is appended while there is room; a full bucket is
/// left as it is until its head has been probed.
pub open spec fn updated(s: Seq<NodeInfo>, x: NodeInfo) -> Seq<NodeInfo> {
    if s.contains(x) {
        moved_to_tail(s, position(s, x))
    } else if s.len() < K {
        s.push(x)
    } else {
        s
    }
}

/// What a probe of the head `head` that `alive` answers does to a full bucket
/// holding `s`, for the unknown peer `x`: a head that did not answer is evicted
/// and `x` appended; otherwise nothing changes.
pub open spec fn probed(s: Seq<NodeInfo>, head: NodeInfo, alive: bool, x: NodeInfo) -> Seq<
    NodeInfo,
> {
    if !alive && s.len() > 0 && s[0] == head && !s.contains(x) {
        s.drop_first().push(x)
    } else {
        s
    }
}

pub proof fn lemma_position(s: Seq<NodeInfo>, x: NodeInfo)
    ensures
        0 <= position(s, x) <= s.len(),
        s.contains(x) <==> position(s, x) < s.len(),
        position(s, x) < s.len() ==> s[position(s, x)] == x,
        forall|j: int| 0 <= j < position(s, x) ==> s[j] != x,
    decreases s.len(),
{
    if s.len() > 0 && s[0] != x {
        lemma_position(s.drop_first(), x);
        assert forall|j: int| 0 <= j < position(s, x) implies s[j] != x by {
            if j > 0 {
                assert(s[j] == s.drop_first()[j - 1]);
            }
        }
        if s.contains(x) {
            let k = choose|k: int| 0 <= k < s.len() && s[k] == x;
            assert(s.drop_first()[k - 1] == x);
        }
        if position(s, x) < s.len() {
            assert(s.drop_first().contains(x));
        }
    }
}

/// Removing an element of a sequence without duplicates leaves none, and
/// leaves out that element.
pub proof fn lemma_remove_distinct(s: Seq<NodeInfo>, i: int)
    requires
        s.no_duplicates(),
        0 <= i < s.len(),
    ensures
        s.remove(i).no_duplicates(),
        !s.remove(i).contains(s[i]),
        forall|y: NodeInfo| #[trigger] s.remove(i).contains(y) ==> s.contains(y),
{
    let r = s.remove(i);
    assert forall|a: int, b: int| 0 <= a < r.len() && 0 <= b < r.len() && a != b implies r[a]
        != r[b] by {
        let a2 = if a < i { a } else { a + 1 };
        let b2 = if b < i { b } else { b + 1 };
        assert(r[a] == s[a2] && r[b] == s[b2]);
    }
    if r.contains(s[i]) {
        let k = choose|k: int| 0 <= k < r.len() && r[k] == s[i];
        let k2 = if k < i { k } else { k + 1 };
        assert(s[k2] == s[i]);
    }
    assert forall|y: NodeInfo| #[trigger] r.contains(y) implies s.contains(y) by {
        let k = choose|k: int| 0 <= k < r.len() && r[k] == y;
        let k2 = if k < i { k } else { k + 1 };
        assert(s[k2] == y);
    }
}

/// Appending an element that a sequence without duplicates lacks keeps it
/// without duplicates.
pub proof fn lemma_push_distinct(s: Seq<NodeInfo>, x: NodeInfo)
    requires
        s.no_duplicates(),
        !s.contains(x),
    ensures
        s.push(x).no_duplicates(),
{
    let t = s.push(x);
    assert forall|a: int, b: int| 0 <= a < t.len() && 0 <= b < t.len() && a != b implies t[a]
        != t[b] by {
        if a == s.len() {
            assert(s[b] == t[b]);
        } else if b == s.len() {
            assert(s[a] == t[a]);
        }
    }
}

/// One sighting keeps a bucket within capacity and free of duplicates; the
/// peer is kept exactly when it was known or there was room, and then it is
/// at the tail.
pub proof fn lemma_update_shape(s: Seq<NodeInfo>, x: NodeInfo)
    requires
        s.len() <= K,
        s.no_duplicates(),
    ensures
        updated(s, x).len() <= K,
        updated(s, x).no_duplicates(),
        updated(s, x).contains(x) <==> (s.contains(x) || s.len() < K),
        updated(s, x).contains(x) ==> updated(s, x).last() == x,
        s.contains(x) ==> updated(s, x).len() == s.len(),
        forall|y: NodeInfo| #[trigger] updated(s, x).contains(y) ==> s.contains(y) || y == x,
{
    lemma_position(s, x);
    let t = updated(s, x);
    if s.contains(x) {
        let i = position(s, x);
        lemma_remove_distinct(s, i);
        lemma_push_distinct(s.remove(i), x);
        assert forall|y: NodeInfo| #[trigger] t.contains(y) implies s.contains(y) || y == x by {
            if y != x {
                let k = choose|k: int| 0 <= k < t.len() && t[k] == y;
                assert(s.remove(i).contains(y)) by {
                    assert(s.remove(i)[k] == y);
                }
            }
        }
        assert(t.last() == x);
        assert(t.contains(x)) by {
            assert(t[t.len() - 1] == x);
        }
    } else if s.len() < K {
        lemma_push_distinct(s, x);
        assert(t[t.len() - 1] == x);
        assert forall|y: NodeInfo| #[trigger] t.contains(y) implies s.contains(y) || y == x by {
            let k = choose|k: int| 0 <= k < t.len() && t[k] == y;
            if k < s.len() {
                assert(s[k] == y);
            }
        }
    }
}

/// Probing the head keeps a bucket within capacity and free of duplicates.
pub proof fn lemma_probe_shape(s: Seq<NodeInfo>, head: NodeInfo, alive: bool, x: NodeInfo)
    requires
        s.len() <= K,
        s.no_duplicates(),
    ensures
        probed(s, head, alive, x).len() <= K,
        probed(s, head, alive, x).no_duplicates(),
        forall|y: NodeInfo| #[trigger] probed(s, head, alive, x).contains(y) ==> s.contains(y) || y
            == x,
{
    if !alive && s.len() > 0 && s[0] == head && !s.contains(x) {
        lemma_remove_distinct(s, 0);
        assert(s.remove(0) =~= s.drop_first());
        lemma_push_distinct(s.drop_first(), x);
        let t = probed(s, head, alive, x);
        assert forall|y: NodeInfo| #[trigger] t.contains(y) implies s.contains(y) || y == x by {
            let k = choose|k: int| 0 <= k < t.len() && t[k] == y;
            if k < t.len() - 1 {
                assert(s[k + 1] == y);
            }
        }
    }
}

/// The bucket that the sightings `xs`, in order, make of `s`.
pub open spec fn updated_all(s: Seq<NodeInfo>, xs: Seq<NodeInfo>) -> Seq<NodeInfo>
    decreases xs.len(),
{
    if xs.len() == 0 {
        s
    } else {
        updated(updated_all(s, xs.drop_last()), xs.last())
    }
}

/// Over any sequence of sightings a bucket never exceeds its capacity, never
/// holds two equal peers, and the last peer sighted, when the bucket kept it,
/// is at the tail.
pub proof fn lemma_updates_shape(s: Seq<NodeInfo>, xs: Seq<NodeInfo>)
    requires
        s.len() <= K,
        s.no_duplicates(),
    ensures
        updated_all(s, xs).len() <= K,
        updated_all(s, xs).no_duplicates(),
        xs.len() > 0 && updated_all(s, xs).contains(xs.last()) ==> updated_all(s, xs).last()
            == xs.last(),
    decreases xs.len(),
{
    if xs.len() > 0 {
        lemma_updates_shape(s, xs.drop_last());
        lemma_update_shape(updated_all(s, xs.drop_last()), xs.last());
    }
}

/// Sighting the same peer twice in a row, in a bucket that knew it or had
/// room, leaves the length as the first sighting made it, with exactly one
/// copy of the peer, at the tail.
pub proof fn lemma_update_twice(s: Seq<NodeInfo>, x: NodeInfo)
    requires
        s.len() <= K,
        s.no_duplicates(),
        s.contains(x) || s.len() < K,
    ensures
        updated(updated(s, x), x).len() == updated(s, x).len(),
        updated(updated(s, x), x).last() == x,
        forall|i: int|
            0 <= i < updated(updated(s, x), x).len() - 1 ==> #[trigger] updated(
                updated(s, x),
                x,
            )[i] != x,
{
    let t = updated(s, x);
    lemma_update_shape(s, x);
    lemma_update_shape(t, x);
    lemma_position(t, x);
    let p = position(t, x);
    assert(t[t.len() - 1] == x);
    assert(p == t.len() - 1) by {
        if p < t.len() - 1 {
            assert(t[p] == t[t.len() - 1]);
        }
    }
    assert(moved_to_tail(t, p) =~= t);
    let u = updated(t, x);
    assert forall|i: int| 0 <= i < u.len() - 1 implies #[trigger] u[i] != x by {
        assert(u[i] == t[i]);
    }
}

/// A bounded, recency-ordered list of peers: least recently seen at the head,
/// most recently seen at the tail.
#[derive(Debug)]
pub struct Bucket {
    nodes: ArrayVec<NodeInfo, K>,
}

impl View for Bucket {
    type V = Seq<NodeInfo>;

    closed spec fn view(&self) -> Seq<NodeInfo> {
        entries_of(self.nodes)
    }
}

impl Bucket {
    /// The bucket holds at most `K` peers.
    pub open spec fn wf(&self) -> bool {
        self@.len() <= K
    }

    pub fn new() -> (r: Bucket)
        ensures
            r@ == Seq::<NodeInfo>::empty(),
            r.wf(),
    {
        Bucket { nodes: entries_new() }
    }

    /// Number of peers in the bucket.
    pub fn len(&self) -> (r: usize)
        ensures
            r == self@.len(),
    {
        entries_slice(&self.nodes).len()
    }

    /// The peer at position `index`, if there is one.
    pub fn get(&self, index: usize) -> (r: Option<NodeInfo>)
        ensures
            index < self@.len() ==> r == Some(self@[index as int]),
            index >= self@.len() ==> r is None,
    {
        let s = entries_slice(&self.nodes);
        if index < s.len() {
            Some(s[index])
        } else {
            None
        }
    }

    /// The peers, head first.
    pub fn to_vec(&self) -> (r: Vec<NodeInfo>)
        ensures
            r@ == self@,
    {
        let s = entries_slice(&self.nodes);
        let mut out: Vec<NodeInfo> = Vec::new();
        let mut i: usize = 0;
        while i < s.len()
            invariant
                i <= s@.len(),
                out@ == s@.subrange(0, i as int),
            decreases s@.len() - i,
        {
            out.push(s[i]);
            i = i + 1;
            assert(out@ =~= s@.subrange(0, i as int));
        }
        assert(out@ =~= s@);
        out
    }

    /// Appends `node_info` at the tail; fails, changing nothing, when the bucket
    /// is full.
    pub fn push_back(&mut self, node_info: NodeInfo) -> (r: Result<(), Error>)
        requires
            old(self).wf(),
        ensures
            final(self).wf(),
            old(self)@.len() < K ==> r is Ok && final(self)@ == old(self)@.push(node_info),
            old(self)@.len() >= K ==> r == Err::<(), Error>(Error::CapacityError) && final(self)@
                == old(self)@,
    {
        match entries_try_push(&mut self.nodes, node_info) {
            Ok(()) => Ok(()),
            Err(_) => Err(Error::CapacityError),
        }
    }

    /// Removes and returns the peer at `index`.
    pub fn remove(&mut self, index: usize) -> (r: NodeInfo)
        requires
            index < old(self)@.len(),
        ensures
            r == old(self)@[index as int],
            final(self)@ == old(self)@.remove(index as int),
    {
        entries_remove(&mut self.nodes, index)
    }

    /// Moves the peer at `index` to the tail; fails, changing nothing, when
    /// `index` is out of range.
    pub fn move_to_tail(&mut self, index: usize) -> (r: Result<(), Error>)
        requires
            old(self).wf(),
        ensures
            final(self).wf(),
            index < old(self)@.len() ==> r is Ok && final(self)@ == moved_to_tail(
                old(self)@,
                index as int,
            ),
            index >= old(self)@.len() ==> r == Err::<(), Error>(
                Error::IndexOutOfBounds(index, old(self)@.len() as usize),
            ) && final(self)@ == old(self)@,
    {
        let len = self.len();
        if index >= len {
            return Err(Error::IndexOutOfBounds(index, len));
        }
        let node = self.remove(index);
        let r = self.push_back(node);
        assert(r is Ok);
        Ok(())
    }

    /// Records a sighting of `node_info`. A known peer moves to the tail; an
    /// unknown one is appended while there is room. When the bucket is full and
    /// the peer unknown, nothing changes and the head is returned: it is to be
    /// probed, and the outcome handed to `resolve_probe`.
    pub fn update(&mut self, node_info: NodeInfo) -> (r: Option<NodeInfo>)
        requires
            old(self).wf(),
        ensures
            final(self).wf(),
            final(self)@ == updated(old(self)@, node_info),
            r == (if !old(self)@.contains(node_info) && old(self)@.len() >= K {
                Some(old(self)@[0])
            } else {
                None
            }),
    {
        let index = self.position_of(&node_info);
        let len = self.len();
        proof {
            lemma_position(self@, node_info);
        }
        if index < len {
            let _ = self.move_to_tail(index);
            None
        } else if len < K {
            let _ = self.push_back(node_info);
            None
        } else {
            self.get(0)
        }
    }

    /// Settles a full bucket once its head `head` has been probed for the
    /// unknown peer `node_info`: a head that did not answer (`alive` false) is
    /// evicted and `node_info` appended; a head that answered stays and
    /// `node_info` is dropped. Nothing changes either if the bucket no longer
    /// starts with `head` or already holds `node_info`.
    pub fn resolve_probe(&mut self, head: &NodeInfo, alive: bool, node_info: NodeInfo)
        requires
            old(self).wf(),
        ensures
            final(self).wf(),
            final(self)@ == probed(old(self)@, *head, alive, node_info),
    {
        if alive {
            return ;
        }
        let index = self.position_of(&node_info);
        let len = self.len();
        proof {
            lemma_position(self@, node_info);
        }
        match self.get(0) {
            Some(first) => {
                if first == *head && index == len {
                    let _ = self.remove(0);
                    let _ = self.push_back(node_info);
                    assert(final(self)@ =~= old(self)@.drop_first().push(node_info));
                }
            },
            None => {},
        }
    }

    /// Position of the first peer equal to `node_info`, or the length of the
    /// bucket if there is none.
    fn position_of(&self, node_info: &NodeInfo) -> (r: usize)
        ensures
            r == position(self@, *node_info),
    {
        let s = entries_slice(&self.nodes);
        let mut i: usize = 0;
        proof {
            lemma_position(s@, *node_info);
        }
        while i < s.len()
            invariant
                i <= s@.len(),
                s@ == self@,
                forall|j: int| 0 <= j < i ==> s@[j] != *node_info,
                0 <= position(s@, *node_info) <= s@.len(),
                position(s@, *node_info) < s@.len() ==> s@[position(s@, *node_info)]
                    == *node_info,
                forall|j: int| 0 <= j < position(s@, *node_info) ==> s@[j] != *node_info,
            decreases s@.len() - i,
        {
            if s[i] == *node_info {
                return i;
            }
            i = i + 1;
        }
        i
    }
}


/// The routing table: `N_BUCKETS` buckets, bucket `i` holding the peers whose
/// distance to the local id has exactly `i` leading zero bits.
pub struct KBucket {
    buckets: Vec<Bucket>,
}

impl View for KBucket {
    type V = Seq<Seq<NodeInfo>>;

    closed spec fn view(&self) -> Seq<Seq<NodeInfo>> {
        self.buckets@.map_values(|b: Bucket| b@)
    }
}

impl KBucket {
    /// There are `N_BUCKETS` buckets, each within capacity.
    pub closed spec fn wf(&self) -> bool {
        &&& self.buckets@.len() == N_BUCKETS
        &&& forall|i: int| 0 <= i < N_BUCKETS ==> (#[trigger] self.buckets@[i]).wf()
    }

    pub proof fn lemma_wf(&self)
        requires
            self.wf(),
        ensures
            self@.len() == N_BUCKETS,
            forall|i: int| 0 <= i < N_BUCKETS ==> (#[trigger] self@[i]).len() <= K,
    {
        assert forall|i: int| 0 <= i < N_BUCKETS implies (#[trigger] self@[i]).len() <= K by {
            assert(self.buckets@[i].wf());
        }
    }

    /// A table of empty buckets, each built on its own.
    pub fn new() -> (r: KBucket)
        ensures
            r.wf(),
            r@ == Seq::new(N_BUCKETS as nat, |i: int| Seq::<NodeInfo>::empty()),
    {
        let mut buckets: Vec<Bucket> = Vec::new();
        let mut i: usize = 0;
        while i < N_BUCKETS
            invariant
                i <= N_BUCKETS,
                buckets@.len() == i,
                forall|j: int| 0 <= j < i ==> (#[trigger] buckets@[j]).wf() && buckets@[j]@ == Seq::<
                    NodeInfo,
                >::empty(),
            decreases N_BUCKETS - i,
        {
            buckets.push(Bucket::new());
            i = i + 1;
        }
        let r = KBucket { buckets };
        assert(r@ =~= Seq::new(N_BUCKETS as nat, |i: int| Seq::<NodeInfo>::empty()));
        r
    }

    /// The bucket at `index`.
    pub fn bucket(&self, index: usize) -> (r: &Bucket)
        requires
            self.wf(),
            index < N_BUCKETS,
        ensures
            r@ == self@[index as int],
            r.wf(),
    {
        &self.buckets[index]
    }

    /// Records a sighting of `node_info`, whose distance to the local id is
    /// `distance`, in the bucket that the distance's leading zero bits pick.
    /// A distance of 160 leading zero bits is the local id itself, which the
    /// table never holds: nothing changes then. The result is that of
    /// `Bucket::update`: the head of a full bucket, to be probed.
    pub fn update_bucket(&mut self, node_info: NodeInfo, distance: Key) -> (r: Option<NodeInfo>)
        requires
            old(self).wf(),
        ensures
            final(self).wf(),
            leading_zero_bits(distance@) >= N_BUCKETS ==> final(self)@ == old(self)@ && r is None,
            leading_zero_bits(distance@) < N_BUCKETS ==> {
                let i = leading_zero_bits(distance@) as int;
                &&& final(self)@ == old(self)@.update(i, updated(old(self)@[i], node_info))
                &&& r == (if !old(self)@[i].contains(node_info) && old(self)@[i].len() >= K {
                    Some(old(self)@[i][0])
                } else {
                    None
                })
            },
    {
        let i = distance.most_significant_bit();
        if i >= KEY_BITS {
            return None;
        }
        let i = i as usize;
        let r = self.buckets[i].update(node_info);
        proof {
            assert forall|j: int| 0 <= j < N_BUCKETS implies (#[trigger] self.buckets@[j]).wf() by {
                if j != i {
                    assert(self.buckets@[j] == old(self).buckets@[j]);
                }
            }
            assert(self@ =~= old(self)@.update(i as int, updated(old(self)@[i as int], node_info)));
        }
        r
    }

    /// Settles the bucket that `distance` picks once its head `head` has been
    /// probed for `node_info`, as `Bucket::resolve_probe` does.
    pub fn resolve_probe(&mut self, distance: Key, head: &NodeInfo, alive: bool, node_info: NodeInfo)
        requires
            old(self).wf(),
        ensures
            final(self).wf(),
            leading_zero_bits(distance@) >= N_BUCKETS ==> final(self)@ == old(self)@,
            leading_zero_bits(distance@) < N_BUCKETS ==> {
                let i = leading_zero_bits(distance@) as int;
                final(self)@ == old(self)@.update(i, probed(old(self)@[i], *head, alive, node_info))
            },
    {
        let i = distance.most_significant_bit();
        if i >= KEY_BITS {
            return ;
        }
        let i = i as usize;
        self.buckets[i].resolve_probe(head, alive, node_info);
        proof {
            assert forall|j: int| 0 <= j < N_BUCKETS implies (#[trigger] self.buckets@[j]).wf() by {
                if j != i {
                    assert(self.buckets@[j] == old(self).buckets@[j]);
                }
            }
            assert(self@ =~= old(self)@.update(
                i as int,
                probed(old(self)@[i as int], *head, alive, node_info),
            ));
        }
    }
}


/// `a` is no greater than `b` as a big-endian number of the same length.
pub open spec fn le_bytes(a: Seq<u8>, b: Seq<u8>) -> bool
    decreases a.len(),
{
    if a.len() == 0 || b.len() == 0 {
        true
    } else if a[0] != b[0] {
        a[0] < b[0]
    } else {
        le_bytes(a.drop_first(), b.drop_first())
    }
}

/// `a` is no farther from `target` than `b` is.
pub open spec fn no_farther(target: Seq<u8>, a: NodeInfo, b: NodeInfo) -> bool {
    le_bytes(xor_bytes(a.id_spec()@, target), xor_bytes(b.id_spec()@, target))
}

/// `r` lists the peers of the table `t` closest to `target`, nearest first:
/// `K` of them, or all if there are fewer; every peer left out is no closer
/// than every peer listed.
pub open spec fn is_closest(t: Seq<Seq<NodeInfo>>, target: Seq<u8>, r: Seq<NodeInfo>) -> bool {
    &&& r.len() == if all_peers(t).len() < K {
        all_peers(t).len()
    } else {
        K as nat
    }
    &&& forall|k: int| 0 <= k < r.len() ==> all_peers(t).contains(#[trigger] r[k])
    &&& forall|k1: int, k2: int|
        0 <= k1 < k2 < r.len() ==> no_farther(target, #[trigger] r[k1], #[trigger] r[k2])
    &&& forall|k: int, p: NodeInfo|
        0 <= k < r.len() && #[trigger] all_peers(t).contains(p) && !r.contains(p) ==> no_farther(
            target,
            #[trigger] r[k],
            p,
        )
}

/// All the peers of the table `t`, bucket after bucket.
pub open spec fn all_peers(t: Seq<Seq<NodeInfo>>) -> Seq<NodeInfo>
    decreases t.len(),
{
    if t.len() == 0 {
        Seq::empty()
    } else {
        all_peers(t.drop_last()) + t.last()
    }
}

/// Of two byte strings of the same length, one is no greater than the other.
pub proof fn lemma_le_bytes_total(a: Seq<u8>, b: Seq<u8>)
    requires
        a.len() == b.len(),
    ensures
        le_bytes(a, b) || le_bytes(b, a),
    decreases a.len(),
{
    if a.len() > 0 && a[0] == b[0] {
        lemma_le_bytes_total(a.drop_first(), b.drop_first());
    }
}

/// Every byte string is no greater than itself.
pub proof fn lemma_le_bytes_refl(a: Seq<u8>)
    ensures
        le_bytes(a, a),
    decreases a.len(),
{
    if a.len() > 0 {
        lemma_le_bytes_refl(a.drop_first());
    }
}

/// Comparing byte strings of the same length is transitive.
pub proof fn lemma_le_bytes_trans(a: Seq<u8>, b: Seq<u8>, c: Seq<u8>)
    requires
        a.len() == b.len(),
        b.len() == c.len(),
        le_bytes(a, b),
        le_bytes(b, c),
    ensures
        le_bytes(a, c),
    decreases a.len(),
{
    if a.len() > 0 && a[0] == b[0] && b[0] == c[0] {
        lemma_le_bytes_trans(a.drop_first(), b.drop_first(), c.drop_first());
    }
}

/// Whether `a` is no greater than `b`, both read as big-endian numbers.
fn le_key(a: &Key, b: &Key) -> (r: bool)
    ensures
        r == le_bytes(a@, b@),
{
    proof {
        a.lemma_len();
        b.lemma_len();
    }
    let x = a.as_bytes();
    let y = b.as_bytes();
    let mut i: usize = 0;
    assert(x@.subrange(0, 20) =~= x@);
    assert(y@.subrange(0, 20) =~= y@);
    while i < KEY_LEN
        invariant
            i <= KEY_LEN,
            x@ == a@,
            y@ == b@,
            x@.len() == KEY_LEN,
            y@.len() == KEY_LEN,
            le_bytes(a@, b@) == le_bytes(
                x@.subrange(i as int, KEY_LEN as int),
                y@.subrange(i as int, KEY_LEN as int),
            ),
        decreases KEY_LEN - i,
    {
        assert(x@.subrange(i as int, KEY_LEN as int).drop_first() =~= x@.subrange(
            i + 1,
            KEY_LEN as int,
        ));
        assert(y@.subrange(i as int, KEY_LEN as int).drop_first() =~= y@.subrange(
            i + 1,
            KEY_LEN as int,
        ));
        if x[i] != y[i] {
            return x[i] < y[i];
        }
        i = i + 1;
    }
    true
}

impl KBucket {
    /// All the peers of the table, bucket after bucket.
    pub fn peers(&self) -> (r: Vec<NodeInfo>)
        requires
            self.wf(),
        ensures
            r@ == all_peers(self@),
    {
        let mut all: Vec<NodeInfo> = Vec::new();
        let mut i: usize = 0;
        assert(self@.subrange(0, 0) =~= Seq::<Seq<NodeInfo>>::empty());
        while i < N_BUCKETS
            invariant
                self.wf(),
                i <= N_BUCKETS,
                all@ == all_peers(self@.subrange(0, i as int)),
            decreases N_BUCKETS - i,
        {
            let b = self.bucket(i).to_vec();
            let ghost before = all@;
            let mut j: usize = 0;
            while j < b.len()
                invariant
                    j <= b@.len(),
                    all@ == before + b@.subrange(0, j as int),
                decreases b@.len() - j,
            {
                all.push(b[j]);
                j = j + 1;
                assert(all@ =~= before + b@.subrange(0, j as int));
            }
            assert(b@.subrange(0, b@.len() as int) =~= b@);
            assert(self@.subrange(0, i + 1).drop_last() =~= self@.subrange(0, i as int));
            i = i + 1;
        }
        assert(self@.subrange(0, N_BUCKETS as int) =~= self@);
        all
    }

    /// The peers of the table closest to `target`, nearest first: `K` of them,
    /// or all if there are fewer. Every peer left out is no closer than every
    /// peer returned.
    pub fn closest(&self, target: &Key) -> (r: Vec<NodeInfo>)
        requires
            self.wf(),
        ensures
            is_closest(self@, target@, r@),
    {
        let all = self.peers();
        let n = all.len();
        let mut taken: Vec<bool> = Vec::new();
        let mut t: usize = 0;
        while t < n
            invariant
                t <= n,
                taken@.len() == t,
                forall|j: int| 0 <= j < t ==> !taken@[j],
            decreases n - t,
        {
            taken.push(false);
            t = t + 1;
        }
        let mut r: Vec<NodeInfo> = Vec::new();
        let ghost mut idx: Seq<int> = Seq::empty();
        while r.len() < K && r.len() < n
            invariant
                n == all@.len(),
                all@ == all_peers(self@),
                taken@.len() == n,
                r@.len() == idx.len(),
                r@.len() <= K,
                r@.len() <= n,
                forall|k: int| 0 <= k < idx.len() ==> 0 <= #[trigger] idx[k] < n,
                forall|k: int| 0 <= k < idx.len() ==> r@[k] == all@[#[trigger] idx[k]],
                forall|j: int| 0 <= j < n ==> (#[trigger] taken@[j] <==> idx.contains(j)),
                idx.no_duplicates(),
                forall|k: int, j: int|
                    0 <= k < r@.len() && 0 <= j < n && !#[trigger] taken@[j] ==> no_farther(
                        target@,
                        #[trigger] r@[k],
                        all@[j],
                    ),
                forall|k1: int, k2: int|
                    0 <= k1 < k2 < r@.len() ==> no_farther(
                        target@,
                        #[trigger] r@[k1],
                        #[trigger] r@[k2],
                    ),
            decreases n - r@.len(),
        {
            // Some index is free: fewer are taken than there are.
            proof {
                lemma_free_index(idx, n as int, taken@);
            }
            let mut best: usize = n;
            let mut best_dist: Key = *target;
            let mut j: usize = 0;
            while j < n
                invariant
                    n == all@.len(),
                    taken@.len() == n,
                    j <= n,
                    best == n || (best < j && !taken@[best as int] && best_dist@ == xor_bytes(
                        all@[best as int].id_spec()@,
                        target@,
                    )),
                    best == n ==> forall|m: int| 0 <= m < j ==> #[trigger] taken@[m],
                    best < n ==> forall|m: int|
                        0 <= m < j && !#[trigger] taken@[m] ==> no_farther(
                            target@,
                            all@[best as int],
                            all@[m],
                        ),
                decreases n - j,
            {
                if !taken[j] {
                    let d = all[j].get_id().distance(target);
                    proof {
                        d.lemma_len();
                        best_dist.lemma_len();
                        target.lemma_len();
                        lemma_le_bytes_refl(d@);
                    }
                    if best == n || !le_key(&best_dist, &d) {
                        proof {
                            if best < n {
                                lemma_le_bytes_total(best_dist@, d@);
                                assert forall|m: int|
                                    0 <= m < j && !#[trigger] taken@[m] implies no_farther(
                                    target@,
                                    all@[j as int],
                                    all@[m],
                                ) by {
                                    all@[m].id_spec().lemma_len();
                                    lemma_le_bytes_trans(
                                        d@,
                                        best_dist@,
                                        xor_bytes(all@[m].id_spec()@, target@),
                                    );
                                }
                            }
                        }
                        best = j;
                        best_dist = d;
                    } else {
                        assert(no_farther(target@, all@[best as int], all@[j as int]));
                    }
                }
                j = j + 1;
            }
            assert(best < n) by {
                if best == n {
                    let f = choose|f: int| 0 <= f < n && !taken@[f];
                    assert(taken@[f]);
                }
            }
            let ghost old_r = r@;
            let ghost old_taken = taken@;
            taken.set(best, true);
            r.push(all[best]);
            proof {
                let old_idx = idx;
                idx = idx.push(best as int);
                assert(!old_idx.contains(best as int));
                assert forall|j: int| 0 <= j < n implies (#[trigger] taken@[j] <==> idx.contains(
                    j,
                )) by {
                    if j != best {
                        if idx.contains(j) {
                            let k = choose|k: int| 0 <= k < idx.len() && idx[k] == j;
                            assert(k < old_idx.len());
                            assert(old_idx[k] == j);
                        }
                        if old_idx.contains(j) {
                            let k = choose|k: int| 0 <= k < old_idx.len() && old_idx[k] == j;
                            assert(idx[k] == j);
                        }
                    } else {
                        assert(idx[idx.len() - 1] == j);
                    }
                }
                assert forall|k1: int, k2: int|
                    0 <= k1 < k2 < r@.len() implies no_farther(
                    target@,
                    #[trigger] r@[k1],
                    #[trigger] r@[k2],
                ) by {
                    if k2 == r@.len() - 1 {
                        assert(!old_taken[best as int]);
                        assert(old_r[k1] == r@[k1]);
                    } else {
                        assert(old_r[k1] == r@[k1] && old_r[k2] == r@[k2]);
                    }
                }
                assert forall|k: int, j: int|
                    0 <= k < r@.len() && 0 <= j < n && !#[trigger] taken@[j] implies no_farther(
                    target@,
                    #[trigger] r@[k],
                    all@[j],
                ) by {
                    assert(!old_taken[j]);
                    if k < r@.len() - 1 {
                        assert(old_r[k] == r@[k]);
                    }
                }
            }
        }
        proof {
            assert forall|k: int| 0 <= k < r@.len() implies all_peers(self@).contains(
                #[trigger] r@[k],
            ) by {
                assert(all@[idx[k]] == r@[k]);
            }
            assert forall|k: int, p: NodeInfo|
                0 <= k < r@.len() && #[trigger] all_peers(self@).contains(p) && !r@.contains(
                    p,
                ) implies no_farther(target@, #[trigger] r@[k], p) by {
                let j = choose|j: int| 0 <= j < n && all@[j] == p;
                if taken@[j] {
                    let m = choose|m: int| 0 <= m < idx.len() && idx[m] == j;
                    assert(r@[m] == p);
                }
            }
        }
        r
    }
}

/// While fewer distinct indices below `n` are taken than `n`, some index is free.
proof fn lemma_free_index(idx: Seq<int>, n: int, taken: Seq<bool>)
    requires
        idx.len() < n,
        taken.len() == n,
        idx.no_duplicates(),
        forall|k: int| 0 <= k < idx.len() ==> 0 <= #[trigger] idx[k] < n,
        forall|j: int| 0 <= j < n ==> (#[trigger] taken[j] <==> idx.contains(j)),
    ensures
        exists|f: int| 0 <= f < n && !taken[f],
{
    if forall|f: int| 0 <= f < n ==> taken[f] {
        let all = Set::new(|j: int| 0 <= j < n);
        assert(all =~= vstd::set_lib::set_int_range(0, n));
        vstd::set_lib::lemma_int_range(0, n);
        assert forall|j: int| all.contains(j) implies idx.to_set().contains(j) by {
            assert(taken[j]);
        }
        vstd::set_lib::lemma_len_subset(all, idx.to_set());
        idx.unique_seq_to_set();
    }
}

} // verus!
