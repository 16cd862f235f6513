//! Powers of two: the shape of every leaf count a Merkle tree accepts.

use vstd::arithmetic::logarithm::{lemma_log_pow, log};
use vstd::arithmetic::power2::{
    is_pow2, is_pow2_equiv, is_pow2_exists, lemma_pow2, lemma_pow2_pos,
    lemma_pow2_strictly_increases, lemma_pow2_unfold, pow2,
};
use vstd::prelude::*;

verus! {

/// `n` is `2^k` for some natural `k`.
pub open spec fn is_power_of_two(n: nat) -> bool {
    exists|k: nat| pow2(k) == n
}

/// The bit trick: a nonzero word that shares no bit with its predecessor.
pub open spec fn has_single_bit(n: usize) -> bool {
    n != 0 && n & ((n - 1) as usize) == 0
}

proof fn lemma_single_bit_halves(n: usize)
    by (bit_vector)
    requires
        n >= 2,
    ensures
        (n & ((n - 1) as usize) == 0) <==> (n % 2 == 0 && (n / 2) & ((n / 2 - 1) as usize) == 0),
{
}

proof fn lemma_single_bit_is_pow2(n: usize)
    ensures
        has_single_bit(n) <==> is_pow2(n as int),
    decreases n,
{
    reveal(is_pow2);
    if n == 0 {
    } else if n == 1 {
        assert(1usize & 0usize == 0) by (bit_vector);
    } else {
        lemma_single_bit_halves(n);
        lemma_single_bit_is_pow2(n / 2);
    }
}

/// A machine word has a single bit set exactly when it is a power of two.
pub proof fn lemma_single_bit_is_power_of_two(n: usize)
    ensures
        has_single_bit(n) <==> is_power_of_two(n as nat),
{
    lemma_single_bit_is_pow2(n);
    is_pow2_equiv(n as int);
    if is_pow2_exists(n as int) {
        let i = choose|i: nat| vstd::arithmetic::power::pow(2, i) == n as int;
        lemma_pow2(i);
        assert(pow2(i) == n as nat);
    }
    if is_power_of_two(n as nat) {
        let k = choose|k: nat| pow2(k) == n as nat;
        lemma_pow2(k);
        assert(vstd::arithmetic::power::pow(2, k) == n as int);
    }
}

/// `2^0` is one, and no other power of two is.
pub proof fn lemma_pow2_is_one(e: nat)
    ensures
        pow2(e) == 1 <==> e == 0,
{
    lemma_pow2(0);
    vstd::arithmetic::power::lemma_pow0(2);
    if e > 0 {
        lemma_pow2_strictly_increases(0, e);
    }
}

/// Halving a power of two above one gives the power below it, exactly.
pub proof fn lemma_pow2_halves(e: nat)
    requires
        e > 0,
    ensures
        pow2(e) % 2 == 0,
        pow2(e) / 2 == pow2((e - 1) as nat),
        pow2((e - 1) as nat) > 0,
{
    lemma_pow2_unfold(e);
    lemma_pow2_pos((e - 1) as nat);
}

/// Powers of two are told apart by their exponents.
pub proof fn lemma_pow2_injective(a: nat, b: nat)
    requires
        pow2(a) == pow2(b),
    ensures
        a == b,
{
    if a < b {
        lemma_pow2_strictly_increases(a, b);
    }
    if b < a {
        lemma_pow2_strictly_increases(b, a);
    }
}

/// The base-two logarithm of `2^e` is `e`.
pub proof fn lemma_log2_pow2(e: nat)
    ensures
        log(2, pow2(e) as int) == e,
{
    lemma_pow2(e);
    lemma_log_pow(2, e);
}

} // verus!
