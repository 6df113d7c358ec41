//! The hash engine: a digest of a byte block, and a digest of a pair of
//! child digests taken in left-then-right order.

use sha2::Digest;
use vstd::prelude::*;

verus! {

/// The digest that SHA-256 assigns to a byte sequence. The function itself is
/// left unspecified: every fact the library proves about digests holds
/// whatever its values are.
pub uninterp spec fn sha256_of(data: Seq<u8>) -> Seq<u8>;

/// The digest of an internal node: the two child digests are concatenated in
/// left-then-right order and hashed as a single input. The order is
/// load-bearing; nothing may treat the pair as commutative.
pub open spec fn pair_digest(left: Seq<u8>, right: Seq<u8>) -> Seq<u8> {
    sha256_of(left + right)
}

/// Relies on sha2's `Sha256` (via the `Digest` trait): the digest is a pure
/// function of the input bytes alone, and is always 32 bytes long.
#[verifier::external_body]
fn sha256(data: &[u8]) -> (r: Vec<u8>)
    ensures
        r@ == sha256_of(data@),
        r@.len() == 32,
{
    sha2::Sha256::digest(data).to_vec()
}

/// The digest of one data block: the leaf-hash operation.
pub fn digest_of(data: &[u8]) -> (r: Vec<u8>)
    ensures
        r@ == sha256_of(data@),
        r@.len() == 32,
{
    sha256(data)
}

/// The digest of an internal node from its two children's digests, in
/// left-then-right order.
pub fn digest_of_pair(left: &Vec<u8>, right: &Vec<u8>) -> (r: Vec<u8>)
    ensures
        r@ == pair_digest(left@, right@),
        r@.len() == 32,
{
    let mut buf: Vec<u8> = Vec::new();
    let mut i: usize = 0;
    while i < left.len()
        invariant
            i <= left@.len(),
            buf@ == left@.take(i as int),
        decreases left@.len() - i,
    {
        buf.push(left[i]);
        i = i + 1;
    }
    assert(buf@ == left@);
    let mut j: usize = 0;
    while j < right.len()
        invariant
            j <= right@.len(),
            buf@ == left@ + right@.take(j as int),
        decreases right@.len() - j,
    {
        buf.push(right[j]);
        j = j + 1;
    }
    assert(buf@ == left@ + right@);
    sha256(buf.as_slice())
}

} // verus!
