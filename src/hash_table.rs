use crate::digest::{be_u32, digestible, read_u32_be, sha256, sha256_of};
use std::collections::HashMap;
use vstd::prelude::*;
use vstd::string::StringSliceAdditionalSpecFns;
use vstd::utf8::encode_utf8;

verus! {

broadcast use vstd::std_specs::hash::group_hash_axioms;

/// The 32-bit key of a byte string: the first four bytes of its SHA-256 digest,
/// read big-endian.
pub open spec fn key32_of(data: Seq<u8>) -> u32 {
    be_u32(sha256_of(data)) as u32
}

/// Key of the in-memory table: a string hashed with SHA-256 and truncated to
/// its first 32 bits.
#[derive(Clone, Copy, Debug, PartialEq, Eq, Hash)]
pub struct Key {
    inner: u32,
}

impl View for Key {
    type V = u32;

    closed spec fn view(&self) -> u32 {
        self.inner
    }
}

impl Key {
    /// The key of the UTF-8 bytes of `s`.
    pub fn new(s: String) -> (r: Key)
        requires
            digestible(encode_utf8(s@).len()),
        ensures
            r@ == key32_of(encode_utf8(s@)),
    {
        let bytes = s.as_str().as_bytes();
        let digest = sha256(bytes);
        let inner = read_u32_be(digest.as_slice());
        Key { inner }
    }

    /// The key of the UTF-8 bytes of `s`.
    pub fn from(s: &str) -> (r: Key)
        requires
            digestible(s.spec_bytes().len()),
        ensures
            r@ == key32_of(s.spec_bytes()),
    {
        let digest = sha256(s.as_bytes());
        let inner = read_u32_be(digest.as_slice());
        Key { inner }
    }

    /// The XOR distance between two keys.
    pub fn distance(&self, lhs: &Key) -> (r: u32)
        ensures
            r == self@ ^ lhs@,
    {
        self.inner ^ lhs.inner
    }
}

/// An in-memory table from keys to byte strings; the last write to a key wins.
pub struct Table {
    inner: HashMap<u32, Vec<u8>>,
}

impl View for Table {
    type V = Map<u32, Seq<u8>>;

    closed spec fn view(&self) -> Map<u32, Seq<u8>> {
        self.inner@.map_values(|v: Vec<u8>| v@)
    }
}

impl Table {
    pub fn new() -> (r: Table)
        ensures
            r@ == Map::<u32, Seq<u8>>::empty(),
    {
        let r = Table { inner: HashMap::new() };
        assert(r@ =~= Map::<u32, Seq<u8>>::empty());
        r
    }

    /// The value stored under `key`, if any.
    pub fn get(&self, key: Key) -> (r: Option<&Vec<u8>>)
        ensures
            match r {
                Some(v) => self@.contains_key(key@) && v@ == self@[key@],
                None => !self@.contains_key(key@),
            },
    {
        self.inner.get(&key.inner)
    }

    /// Stores `value` under `key` and hands back the value it replaces.
    pub fn put(&mut self, key: Key, value: Vec<u8>) -> (r: Option<Vec<u8>>)
        ensures
            final(self)@ == old(self)@.insert(key@, value@),
            match r {
                Some(v) => old(self)@.contains_key(key@) && v@ == old(self)@[key@],
                None => !old(self)@.contains_key(key@),
            },
    {
        let r = self.inner.insert(key.inner, value);
        assert(self@ =~= old(self)@.insert(key@, value@));
        r
    }
}

} // verus!
