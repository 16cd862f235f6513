//! The digest engine: SHA-256 of a byte string, and the two ways the Merkle
//! tree uses it (a leaf's bytes, and two child digests side by side).

use sha2::Digest;
use vstd::prelude::*;

verus! {

/// A SHA-256 digest.
pub type Hash = [u8; 32];

/// The SHA-256 digest of `data` (FIPS 180-4): what `sha2::Sha256::digest`
/// returns for these bytes.
///
/// Nothing is stated about its values. The library relies only on its being a
/// function of the input bytes.
pub uninterp spec fn sha256(data: Seq<u8>) -> Seq<u8>;

/// The digest of a leaf: SHA-256 of the block's raw bytes.
pub open spec fn leaf_digest(data: Seq<u8>) -> Seq<u8> {
    sha256(data)
}

/// The digest of an inner node: SHA-256 of `left` followed by `right`.
pub open spec fn parent_digest(left: Seq<u8>, right: Seq<u8>) -> Seq<u8> {
    sha256(left + right)
}

/// Two different byte strings with the same SHA-256 digest.
pub open spec fn is_collision(x: Seq<u8>, y: Seq<u8>) -> bool {
    x != y && sha256(x) == sha256(y)
}

/// Some two different byte strings have the same SHA-256 digest.
pub open spec fn collision_exists() -> bool {
    exists|x: Seq<u8>, y: Seq<u8>| is_collision(x, y)
}

/// Order matters: the parent of two different digests of one length changes
/// when they are swapped, unless SHA-256 collides on the two concatenations.
pub proof fn lemma_parent_order_matters(a: Seq<u8>, b: Seq<u8>)
    requires
        a.len() == b.len(),
        a != b,
    ensures
        a + b != b + a,
        parent_digest(a, b) != parent_digest(b, a) || is_collision(a + b, b + a),
{
    if a + b == b + a {
        assert(a =~= (a + b).subrange(0, a.len() as int));
        assert(b =~= (b + a).subrange(0, b.len() as int));
    }
}

/// The SHA-256 digest of `data`, by `sha2::Sha256::digest`, the one-shot
/// call of the hasher.
///
/// Trusted, not proved: the 32 bytes returned are the SHA-256 digest of
/// exactly the bytes of `data`, and depend on nothing else.
#[verifier::external_body]
pub(crate) fn sha256_digest(data: &[u8]) -> (out: Hash)
    ensures
        out@ == sha256(data@),
{
    sha2::Sha256::digest(data).into()
}

/// Hashes two digests in left-then-right order.
pub fn hash_pair(left: Hash, right: Hash) -> (out: Hash)
    ensures
        out@ == parent_digest(left@, right@),
{
    let mut joined: Vec<u8> = Vec::with_capacity(64);
    joined.extend_from_slice(&left);
    joined.extend_from_slice(&right);
    assert(joined@ =~= left@ + right@);
    sha256_digest(joined.as_slice())
}

/// Byte-for-byte equality of two digests.
pub fn digest_eq(a: &Hash, b: &Hash) -> (same: bool)
    ensures
        same == (a@ == b@),
{
    let mut i: usize = 0;
    while i < 32
        invariant
            i <= 32,
            forall|k: int| 0 <= k < i ==> a@[k] == b@[k],
        decreases 32 - i,
    {
        if a[i] != b[i] {
            return false;
        }
        i += 1;
    }
    assert(a@ =~= b@);
    true
}

} // verus!
