use crate::digest::{digestible, sha256, sha256_of};
use vstd::prelude::*;
use vstd::std_specs::bits::u8_leading_zeros;
use vstd::string::StringSliceAdditionalSpecFns;

verus! {

/// Number of bytes in a key.
pub const KEY_LEN: usize = 20;

/// Number of bits in a key.
pub const KEY_BITS: u32 = 160;

/// Bytewise XOR of two byte strings of the same length.
pub open spec fn xor_bytes(a: Seq<u8>, b: Seq<u8>) -> Seq<u8> {
    Seq::new(a.len(), |i: int| a[i] ^ b[i])
}

/// Number of leading zero bits of a big-endian bit string.
pub open spec fn leading_zero_bits(b: Seq<u8>) -> nat
    decreases b.len(),
{
    if b.len() == 0 {
        0
    } else if b[0] == 0 {
        8 + leading_zero_bits(b.drop_first())
    } else {
        u8_leading_zeros(b[0]) as nat
    }
}

/// The key that hashing `data` yields: the first twenty bytes of its SHA-256 digest.
pub open spec fn key_of(data: Seq<u8>) -> Seq<u8> {
    sha256_of(data).subrange(0, KEY_LEN as int)
}

/// A 160-bit identifier: the id of a node, or the key of a stored value.
/// Distances between keys are taken by XOR.
#[derive(Clone, Copy, Debug, Hash)]
pub struct Key([u8; 20]);

impl View for Key {
    type V = Seq<u8>;

    closed spec fn view(&self) -> Seq<u8> {
        self.0@
    }
}

impl PartialEq for Key {
    fn eq(&self, other: &Key) -> (r: bool)
        ensures
            r == (self@ == other@),
    {
        let mut i: usize = 0;
        while i < KEY_LEN
            invariant
                i <= KEY_LEN,
                self@.len() == KEY_LEN,
                other@.len() == KEY_LEN,
                forall|j: int| 0 <= j < i ==> self@[j] == other@[j],
            decreases KEY_LEN - i,
        {
            if self.0[i] != other.0[i] {
                return false;
            }
            i = i + 1;
        }
        assert(self@ =~= other@);
        true
    }
}

impl vstd::std_specs::cmp::PartialEqSpecImpl for Key {
    open spec fn obeys_eq_spec() -> bool {
        true
    }

    open spec fn eq_spec(&self, other: &Key) -> bool {
        self@ == other@
    }
}

impl Eq for Key {
}

impl Key {
    /// Every key is twenty bytes long.
    pub proof fn lemma_len(&self)
        ensures
            self@.len() == KEY_LEN,
    {
    }

    /// Two keys with the same bytes are the same key.
    pub proof fn lemma_view_eq(a: Key, b: Key)
        requires
            a@ == b@,
        ensures
            a == b,
    {
        assert(a.0 =~= b.0);
    }

    pub fn new(k: [u8; 20]) -> (r: Key)
        ensures
            r@ == k@,
    {
        Key(k)
    }

    /// The bytes of the key, most significant first.
    pub fn as_bytes(&self) -> (r: [u8; 20])
        ensures
            r@ == self@,
    {
        self.0
    }

    /// The XOR distance between `self` and `rhs`.
    pub fn distance(&self, rhs: &Key) -> (r: Key)
        ensures
            r@ == xor_bytes(self@, rhs@),
    {
        let mut arr: [u8; 20] = [0u8; 20];
        let mut i: usize = 0;
        while i < KEY_LEN
            invariant
                i <= KEY_LEN,
                self@.len() == KEY_LEN,
                rhs@.len() == KEY_LEN,
                arr@.len() == KEY_LEN,
                forall|j: int| 0 <= j < i ==> arr@[j] == self@[j] ^ rhs@[j],
            decreases KEY_LEN - i,
        {
            arr[i] = self.0[i] ^ rhs.0[i];
            i = i + 1;
        }
        assert(arr@ =~= xor_bytes(self@, rhs@));
        Key(arr)
    }

    /// Number of leading zero bits of the key: 160 for the all-zero key. Taken of
    /// a distance, this is the length of the prefix the two keys share.
    pub fn most_significant_bit(&self) -> (r: u32)
        ensures
            r as nat == leading_zero_bits(self@),
            r <= KEY_BITS,
    {
        let mut b: u32 = 0;
        let mut i: usize = 0;
        assert(self@.subrange(0, KEY_LEN as int) =~= self@);
        while i < KEY_LEN
            invariant
                i <= KEY_LEN,
                self@.len() == KEY_LEN,
                b == 8 * i,
                leading_zero_bits(self@) == b + leading_zero_bits(
                    self@.subrange(i as int, KEY_LEN as int),
                ),
            decreases KEY_LEN - i,
        {
            let byte = self.0[i];
            assert(self@.subrange(i as int, KEY_LEN as int).drop_first() =~= self@.subrange(
                i + 1,
                KEY_LEN as int,
            ));
            if byte == 0 {
                b = b + 8;
            } else {
                proof {
                    lemma_leading_zeros_nonzero(byte);
                }
                return b + byte.leading_zeros();
            }
            i = i + 1;
        }
        assert(self@.subrange(KEY_LEN as int, KEY_LEN as int).len() == 0);
        b
    }

    /// The key of `data`: the first twenty bytes of its SHA-256 digest.
    pub fn hash(data: &[u8]) -> (r: Key)
        requires
            digestible(data@.len()),
        ensures
            r@ == key_of(data@),
    {
        let digest = sha256(data);
        let mut arr: [u8; 20] = [0u8; 20];
        let mut i: usize = 0;
        while i < KEY_LEN
            invariant
                i <= KEY_LEN,
                digest@.len() == 32,
                arr@.len() == KEY_LEN,
                forall|j: int| 0 <= j < i ==> arr@[j] == digest@[j],
            decreases KEY_LEN - i,
        {
            arr[i] = digest[i];
            i = i + 1;
        }
        assert(arr@ =~= key_of(data@));
        Key(arr)
    }

    /// The key of the UTF-8 bytes of `s`.
    pub fn from(s: &str) -> (r: Key)
        requires
            digestible(s.spec_bytes().len()),
        ensures
            r@ == key_of(s.spec_bytes()),
    {
        Key::hash(s.as_bytes())
    }
}

/// The all-zero key's bytes.
pub open spec fn zero_bytes() -> Seq<u8> {
    Seq::new(KEY_LEN as nat, |i: int| 0u8)
}

/// The distance is symmetric, and the distance of a key to itself is the
/// all-zero key.
pub proof fn lemma_distance_symmetric(a: Key, b: Key)
    ensures
        xor_bytes(a@, b@) == xor_bytes(b@, a@),
        xor_bytes(a@, a@) == zero_bytes(),
{
    a.lemma_len();
    b.lemma_len();
    assert forall|i: int| 0 <= i < KEY_LEN implies #[trigger] xor_bytes(a@, b@)[i] == xor_bytes(
        b@,
        a@,
    )[i] && xor_bytes(a@, a@)[i] == 0u8 by {
        let x = a@[i];
        let y = b@[i];
        assert(x ^ y == y ^ x) by (bit_vector);
        assert(x ^ x == 0u8) by (bit_vector);
    }
    assert(xor_bytes(a@, b@) =~= xor_bytes(b@, a@));
    assert forall|i: int| 0 <= i < KEY_LEN implies #[trigger] xor_bytes(a@, a@)[i]
        == zero_bytes()[i] by {
        let x = a@[i];
        assert(x ^ x == 0u8) by (bit_vector);
    }
    assert(xor_bytes(a@, a@) =~= zero_bytes());
}

/// An all-zero byte string has eight leading zero bits per byte.
pub proof fn lemma_leading_zero_bits_of_zeros(z: Seq<u8>)
    requires
        forall|i: int| 0 <= i < z.len() ==> z[i] == 0u8,
    ensures
        leading_zero_bits(z) == 8 * z.len(),
    decreases z.len(),
{
    if z.len() > 0 {
        lemma_leading_zero_bits_of_zeros(z.drop_first());
    }
}

/// A key shares all 160 bits of its prefix with itself.
pub proof fn lemma_self_distance_prefix(a: Key)
    ensures
        leading_zero_bits(xor_bytes(a@, a@)) == KEY_BITS,
{
    lemma_distance_symmetric(a, a);
    lemma_leading_zero_bits_of_zeros(zero_bytes());
}

/// Leading zeros of a non-zero byte are fewer than eight.
pub proof fn lemma_leading_zeros_nonzero(b: u8)
    requires
        b != 0,
    ensures
        u8_leading_zeros(b) < 8,
{
    vstd::std_specs::bits::axiom_u8_leading_zeros(b);
}

} // verus!
