//! Note commitments: one digest that binds a secret and a nullifier.

use crate::digest::{collision_exists, is_collision, sha256, sha256_digest};
use vstd::bytes::{
    lemma_auto_spec_u64_to_from_le_bytes, spec_u64_from_le_bytes, spec_u64_to_le_bytes,
    u64_to_le_bytes,
};
use vstd::prelude::*;

verus! {

/// What is hashed for a note: the secret, then the nullifier, each as its
/// eight little-endian bytes.
pub open spec fn note_preimage(secret: u64, nullifier: u64) -> Seq<u8> {
    spec_u64_to_le_bytes(secret) + spec_u64_to_le_bytes(nullifier)
}

/// The commitment to a note: the SHA-256 digest of its preimage.
pub open spec fn note_commitment(secret: u64, nullifier: u64) -> Seq<u8> {
    sha256(note_preimage(secret, nullifier))
}

/// Commits to `secret` and `nullifier`.
pub fn hash_note(secret: u64, nullifier: u64) -> (out: [u8; 32])
    ensures
        out@ == note_commitment(secret, nullifier),
{
    let mut preimage: Vec<u8> = u64_to_le_bytes(secret);
    let mut tail: Vec<u8> = u64_to_le_bytes(nullifier);
    preimage.append(&mut tail);
    sha256_digest(preimage.as_slice())
}

/// Different notes are hashed from different bytes, so their commitments
/// differ unless SHA-256 has a collision.
pub proof fn lemma_notes_are_told_apart(s1: u64, n1: u64, s2: u64, n2: u64)
    requires
        s1 != s2 || n1 != n2,
    ensures
        note_preimage(s1, n1) != note_preimage(s2, n2),
        note_commitment(s1, n1) != note_commitment(s2, n2) || collision_exists(),
{
    lemma_auto_spec_u64_to_from_le_bytes();
    let p = note_preimage(s1, n1);
    let q = note_preimage(s2, n2);
    if p == q {
        assert(spec_u64_to_le_bytes(s1) =~= p.subrange(0, 8));
        assert(spec_u64_to_le_bytes(s2) =~= q.subrange(0, 8));
        assert(spec_u64_to_le_bytes(n1) =~= p.subrange(8, 16));
        assert(spec_u64_to_le_bytes(n2) =~= q.subrange(8, 16));
        assert(spec_u64_from_le_bytes(spec_u64_to_le_bytes(s1)) == s1);
        assert(spec_u64_from_le_bytes(spec_u64_to_le_bytes(s2)) == s2);
        assert(spec_u64_from_le_bytes(spec_u64_to_le_bytes(n1)) == n1);
        assert(spec_u64_from_le_bytes(spec_u64_to_le_bytes(n2)) == n2);
    } else if note_commitment(s1, n1) == note_commitment(s2, n2) {
        assert(is_collision(p, q));
    }
}

} // verus!
