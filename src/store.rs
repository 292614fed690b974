use crate::key::Key;
use vstd::prelude::*;

verus! {

/// The value that `m` holds under `k`, if any.
pub open spec fn lookup(m: Map<Seq<u8>, Seq<u8>>, k: Seq<u8>) -> Option<Seq<u8>> {
    if m.contains_key(k) {
        Some(m[k])
    } else {
        None
    }
}

/// A node's shard of the table: at most one value per key, the last write
/// winning, no expiry.
pub struct LocalStore {
    keys: Vec<Key>,
    values: Vec<Vec<u8>>,
}

impl LocalStore {
    /// Whether some entry holds the key `k`.
    pub closed spec fn has(self, k: Seq<u8>) -> bool {
        exists|i: int| 0 <= i < self.keys@.len() && #[trigger] self.keys@[i]@ == k
    }

    /// The entry that holds the key `k`.
    pub closed spec fn slot(self, k: Seq<u8>) -> int {
        choose|i: int| 0 <= i < self.keys@.len() && #[trigger] self.keys@[i]@ == k
    }

    /// The entries are paired, and no key occurs twice.
    pub closed spec fn wf(self) -> bool {
        &&& self.keys@.len() == self.values@.len()
        &&& forall|i: int, j: int|
            0 <= i < self.keys@.len() && 0 <= j < self.keys@.len() && i != j ==> #[trigger] self.keys@[i]@
                != #[trigger] self.keys@[j]@
    }
}

impl View for LocalStore {
    type V = Map<Seq<u8>, Seq<u8>>;

    closed spec fn view(&self) -> Map<Seq<u8>, Seq<u8>> {
        Map::new(|k: Seq<u8>| self.has(k), |k: Seq<u8>| self.values@[self.slot(k)]@)
    }
}

impl LocalStore {
    pub fn new() -> (r: LocalStore)
        ensures
            r.wf(),
            r@ == Map::<Seq<u8>, Seq<u8>>::empty(),
    {
        let r = LocalStore { keys: Vec::new(), values: Vec::new() };
        assert(r@ =~= Map::<Seq<u8>, Seq<u8>>::empty());
        r
    }

    /// Position of the entry for `key`, if there is one.
    fn find(&self, key: &Key) -> (r: Option<usize>)
        requires
            self.wf(),
        ensures
            match r {
                Some(i) => i < self.keys@.len() && self.keys@[i as int]@ == key@ && self.slot(key@)
                    == i,
                None => !self.has(key@),
            },
    {
        let mut i: usize = 0;
        while i < self.keys.len()
            invariant
                i <= self.keys@.len(),
                self.wf(),
                forall|j: int| 0 <= j < i ==> self.keys@[j]@ != key@,
            decreases self.keys@.len() - i,
        {
            if self.keys[i] == *key {
                proof {
                    assert(self.keys@[i as int]@ == key@);
                    assert(self.has(key@));
                    let s = self.slot(key@);
                    assert(self.keys@[s]@ == key@);
                    if s != i as int {
                        assert(self.keys@[s]@ != self.keys@[i as int]@);
                    }
                }
                return Some(i);
            }
            i = i + 1;
        }
        None
    }

    /// The value stored under `key`, if any.
    pub fn get(&self, key: &Key) -> (r: Option<&Vec<u8>>)
        requires
            self.wf(),
        ensures
            match r {
                Some(v) => lookup(self@, key@) == Some(v@),
                None => lookup(self@, key@) is None,
            },
    {
        match self.find(key) {
            Some(i) => Some(&self.values[i]),
            None => None,
        }
    }

    /// Stores `value` under `key`, replacing what was there.
    pub fn put(&mut self, key: Key, value: Vec<u8>)
        requires
            old(self).wf(),
        ensures
            final(self).wf(),
            final(self)@ == old(self)@.insert(key@, value@),
    {
        match self.find(&key) {
            Some(i) => {
                self.values.set(i, value);
                assert forall|k: Seq<u8>| #[trigger] self.has(k) implies self.slot(k) == old(
                    self,
                ).slot(k) by {
                    let s = self.slot(k);
                    let t = old(self).slot(k);
                    assert(self.keys@[s]@ == k);
                    assert(old(self).has(k));
                    assert(old(self).keys@[t]@ == k);
                }
                assert forall|k: Seq<u8>| old(self).has(k) implies #[trigger] self.has(k) by {
                    let t = old(self).slot(k);
                    assert(self.keys@[t]@ == k);
                }
            },
            None => {
                self.keys.push(key);
                self.values.push(value);
                let ghost n: int = self.keys@.len() - 1;
                assert(self.keys@[n]@ == key@);
                assert forall|k: Seq<u8>| #[trigger] self.has(k) && k != key@ implies old(
                    self,
                ).has(k) && self.slot(k) == old(self).slot(k) by {
                    let s = self.slot(k);
                    assert(self.keys@[s]@ == k);
                    assert(s < n);
                    assert(old(self).keys@[s]@ == k);
                    let t = old(self).slot(k);
                    assert(old(self).keys@[t]@ == k);
                    assert(self.keys@[t]@ == k);
                }
                assert forall|k: Seq<u8>| old(self).has(k) implies #[trigger] self.has(k) by {
                    let t = old(self).slot(k);
                    assert(self.keys@[t]@ == k);
                }
                assert(self.slot(key@) == n) by {
                    let s = self.slot(key@);
                    assert(self.keys@[s]@ == key@);
                }
            },
        }
        assert(self@ =~= old(self)@.insert(key@, value@));
    }
}

/// A value stored under a key is what a lookup of that key then gives back,
/// and a key never stored gives nothing.
pub proof fn lemma_store_then_find(m: Map<Seq<u8>, Seq<u8>>, k: Seq<u8>, v: Seq<u8>)
    ensures
        lookup(m.insert(k, v), k) == Some(v),
        !m.contains_key(k) ==> lookup(m, k) is None,
{
}

} // verus!
