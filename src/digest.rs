use vstd::prelude::*;

verus! {

/// Inputs of this many bytes or more overflow SHA-256's 64-bit length field.
pub open spec fn digestible(len: nat) -> bool {
    len < 0x2000_0000_0000_0000
}

/// Exec counterpart of `digestible`.
pub fn is_digestible(len: usize) -> (r: bool)
    ensures
        r == digestible(len as nat),
{
    (len as u64) < 0x2000_0000_0000_0000u64
}

/// The SHA-256 digest of a byte string.
pub uninterp spec fn sha256_of(data: Seq<u8>) -> Seq<u8>;

/// Relies on ring::digest::digest with ring::digest::SHA256: the 32-byte digest
/// of `data`, which depends on `data` alone. It panics only where the bit length
/// of `data` does not fit in 64 bits.
#[verifier::external_body]
pub(crate) fn sha256(data: &[u8]) -> (r: Vec<u8>)
    requires
        digestible(data@.len()),
    ensures
        r@ == sha256_of(data@),
        r@.len() == 32,
{
    ring::digest::digest(&ring::digest::SHA256, data).as_ref().to_vec()
}

/// The big-endian value of the first four bytes of `b`.
pub open spec fn be_u32(b: Seq<u8>) -> int {
    b[0] as int * 0x100_0000 + b[1] as int * 0x1_0000 + b[2] as int * 0x100 + b[3] as int
}

/// Relies on byteorder's `BigEndian::read_u32`: the first four bytes of `buf`
/// read as a big-endian integer; it panics on fewer than four bytes.
#[verifier::external_body]
pub(crate) fn read_u32_be(buf: &[u8]) -> (r: u32)
    requires
        buf@.len() >= 4,
    ensures
        r as int == be_u32(buf@),
{
    <byteorder::BigEndian as byteorder::ByteOrder>::read_u32(buf)
}

} // verus!
