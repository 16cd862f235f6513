use basics::note::hash_note;
use sha2::{Digest, Sha256};

fn hex_digest(text: &str) -> [u8; 32] {
    let mut out = [0u8; 32];
    for i in 0..32 {
        out[i] = u8::from_str_radix(&text[2 * i..2 * i + 2], 16).unwrap();
    }
    out
}

#[test]
/// Verifies that the hashing process is deterministic.
fn test_hash_determinism() {
    let secret = 42;
    let nullifier = 100;

    let h1 = hash_note(secret, nullifier);
    let h2 = hash_note(secret, nullifier);

    assert_eq!(h1, h2, "hashes has to be deterministic");
}

#[test]
/// Verifies that different inputs result in different hash outputs.
fn test_hash_collision_resistance() {
    let h1 = hash_note(42, 100);
    let h2 = hash_note(42, 101);
    assert_ne!(h1, h2, "hashes has to bee collision resistent")
}

#[test]
fn note_commitment_exact_values() {
    assert_eq!(
        hash_note(42, 100),
        hex_digest("f3912d9671887273e3fb609f1ec4d17202dc11df7d15da2c37f30c6141a7e3ef")
    );
    assert_eq!(
        hash_note(0, 0),
        hex_digest("374708fff7719dd5979ec875d56cd2286f6d3cf7ec317a3b25632aab28ec37bb")
    );
}

#[test]
fn note_commitment_hashes_little_endian_secret_then_nullifier() {
    for (secret, nullifier) in [(1u64, 2u64), (u64::MAX, 0), (0x0102030405060708, 0xfffefdfcfbfaf9f8)] {
        let mut hasher = Sha256::new();
        hasher.update(secret.to_le_bytes());
        hasher.update(nullifier.to_le_bytes());
        let expected: [u8; 32] = hasher.finalize().into();
        assert_eq!(hash_note(secret, nullifier), expected);
        if secret != nullifier {
            assert_ne!(hash_note(secret, nullifier), hash_note(nullifier, secret));
        }
    }
}
