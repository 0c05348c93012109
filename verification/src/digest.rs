//! SHA-256 derived identifiers: little-endian preimages and little-endian digest words.

use vstd::prelude::*;
use crate::graph::{hex_encode, hex_lower};

verus! {

broadcast use vstd::array::group_array_axioms;

/// The SHA-256 digest of a byte string (FIPS 180-4), as computed by the `sha2` crate.
pub uninterp spec fn sha256(data: Seq<u8>) -> Seq<u8>;

/// Calls `sha2::Sha256::digest` through the `digest::Digest` trait and converts the
/// 32-byte `GenericArray` output into an array. The contract names the result only:
/// the same bytes always give the same digest.
#[verifier::external_body]
pub(crate) fn sha256_digest(data: &[u8]) -> (r: [u8; 32])
    ensures
        r@ == sha256(data@),
{
    <sha2::Sha256 as sha2::Digest>::digest(data).into()
}

/// The SHA-256 digest of a byte string in lower-case hexadecimal, high nibble first.
pub fn sha256_hex(data: &[u8]) -> (r: String)
    ensures
        r@ == hex_lower(sha256(data@)),
{
    let digest = sha256_digest(data);
    hex_encode(digest.as_slice())
}

/// The `n` low-order bytes of `v`, least significant first.
pub open spec fn le_bytes(v: nat, n: nat) -> Seq<u8>
    decreases n,
{
    if n == 0 {
        Seq::empty()
    } else {
        seq![(v % 256) as u8] + le_bytes(v / 256, (n - 1) as nat)
    }
}

/// The little-endian 64-bit word stored at `at` in a byte string.
pub open spec fn le_word(b: Seq<u8>, at: int) -> int {
    b[at] + 256 * (b[at + 1] + 256 * (b[at + 2] + 256 * (b[at + 3] + 256 * (b[at + 4] + 256 * (b[at + 5]
        + 256 * (b[at + 6] + 256 * b[at + 7]))))))
}

/// Append the `n` low-order bytes of `v`, least significant first.
pub fn push_le(buf: &mut Vec<u8>, v: u64, n: usize)
    requires
        n <= 8,
    ensures
        final(buf)@ == old(buf)@ + le_bytes(v as nat, n as nat),
{
    let mut x = v;
    let mut k: usize = 0;
    let ghost start = buf@;
    while k < n
        invariant
            k <= n,
            buf@ + le_bytes(x as nat, (n - k) as nat) == start + le_bytes(v as nat, n as nat),
        decreases n - k,
    {
        let ghost rest = le_bytes(x as nat, (n - k) as nat);
        assert(rest == seq![(x % 256) as u8] + le_bytes((x / 256) as nat, (n - k - 1) as nat));
        buf.push((x % 256) as u8);
        assert(buf@ + le_bytes((x / 256) as nat, (n - k - 1) as nat) =~= start + le_bytes(v as nat, n as nat));
        x = x / 256;
        k = k + 1;
    }
    assert(le_bytes(x as nat, 0) =~= Seq::<u8>::empty());
    assert(buf@ =~= start + le_bytes(v as nat, n as nat));
}

/// The little-endian 64-bit word at byte `at` of a digest.
pub fn digest_word(digest: &[u8; 32], at: usize) -> (r: u64)
    requires
        at <= 24,
    ensures
        r == le_word(digest@, at as int),
{
    let b0 = digest[at] as u64;
    let b1 = digest[at + 1] as u64;
    let b2 = digest[at + 2] as u64;
    let b3 = digest[at + 3] as u64;
    let b4 = digest[at + 4] as u64;
    let b5 = digest[at + 5] as u64;
    let b6 = digest[at + 6] as u64;
    let b7 = digest[at + 7] as u64;
    b0 + 256 * (b1 + 256 * (b2 + 256 * (b3 + 256 * (b4 + 256 * (b5 + 256 * (b6 + 256 * b7))))))
}

} // verus!
