//! The greatest common divisor, by Euclid's algorithm.

use vstd::arithmetic::div_mod::{lemma_fundamental_div_mod, lemma_mod_multiples_basic};
use vstd::prelude::*;

verus! {

/// `d` divides `n`: `n` is a multiple of `d`. Zero divides only zero.
pub open spec fn divides(d: nat, n: nat) -> bool {
    if d == 0 {
        n == 0
    } else {
        n % d == 0
    }
}

/// `d` divides both `a` and `b`.
pub open spec fn is_common_divisor(d: nat, a: nat, b: nat) -> bool {
    divides(d, a) && divides(d, b)
}

/// `g` is the greatest common divisor of `a` and `b`: a common divisor that
/// every common divisor divides. Of zero and zero it is zero.
pub open spec fn is_gcd(g: nat, a: nat, b: nat) -> bool {
    &&& is_common_divisor(g, a, b)
    &&& forall|d: nat| #[trigger] is_common_divisor(d, a, b) ==> divides(d, g)
}

proof fn lemma_multiple_divides(d: nat, k: nat, n: nat)
    requires
        n == k * d,
    ensures
        divides(d, n),
{
    if d == 0 {
        assert(k * 0 == 0) by (nonlinear_arith);
    } else {
        lemma_mod_multiples_basic(k as int, d as int);
    }
}

proof fn lemma_divisor_has_factor(d: nat, n: nat) -> (k: nat)
    requires
        divides(d, n),
    ensures
        n == k * d,
{
    if d == 0 {
        0
    } else {
        lemma_fundamental_div_mod(n as int, d as int);
        assert(n / d >= 0) by (nonlinear_arith)
            requires
                d > 0,
                n >= 0,
        ;
        assert(d * (n / d) == (n / d) * d) by (nonlinear_arith);
        (n / d) as nat
    }
}

proof fn lemma_remainder_is_multiple(a: nat, b: nat, d: nat, ka: nat, kb: nat)
    requires
        b > 0,
        a == ka * d,
        b == kb * d,
    ensures
        divides(d, (a % b) as nat),
{
    let q = a / b;
    let r = a % b;
    assert(a == q * b + r && 0 <= r < b && 0 <= q) by (nonlinear_arith)
        requires
            b > 0,
            q == a / b,
            r == a % b,
    ;
    assert(d > 0) by (nonlinear_arith)
        requires
            b == kb * d,
            b > 0,
    ;
    assert(r == (ka - q * kb) * d) by (nonlinear_arith)
        requires
            a == q * b + r,
            a == ka * d,
            b == kb * d,
    ;
    assert(ka - q * kb >= 0) by (nonlinear_arith)
        requires
            r == (ka - q * kb) * d,
            r >= 0,
            d > 0,
    ;
    lemma_multiple_divides(d, (ka - q * kb) as nat, r as nat);
}

proof fn lemma_dividend_is_multiple(a: nat, b: nat, d: nat, kb: nat, kr: nat)
    requires
        b > 0,
        b == kb * d,
        (a % b) as nat == kr * d,
    ensures
        divides(d, a),
{
    let q = a / b;
    let r = a % b;
    assert(a == q * b + r && 0 <= q) by (nonlinear_arith)
        requires
            b > 0,
            q == a / b,
            r == a % b,
    ;
    assert(a == (q * kb + kr) * d) by (nonlinear_arith)
        requires
            a == q * b + r,
            b == kb * d,
            r == kr * d,
    ;
    assert(q * kb + kr >= 0) by (nonlinear_arith)
        requires
            q >= 0,
            kb >= 0,
            kr >= 0,
    ;
    lemma_multiple_divides(d, (q * kb + kr) as nat, a);
}

/// One step of Euclid's algorithm keeps the common divisors.
pub proof fn lemma_euclid_step(a: nat, b: nat, d: nat)
    requires
        b > 0,
    ensures
        is_common_divisor(d, a, b) <==> is_common_divisor(d, b, (a % b) as nat),
{
    if is_common_divisor(d, a, b) {
        let ka = lemma_divisor_has_factor(d, a);
        let kb = lemma_divisor_has_factor(d, b);
        lemma_remainder_is_multiple(a, b, d, ka, kb);
    }
    if is_common_divisor(d, b, (a % b) as nat) {
        let kb = lemma_divisor_has_factor(d, b);
        let kr = lemma_divisor_has_factor(d, (a % b) as nat);
        lemma_dividend_is_multiple(a, b, d, kb, kr);
    }
}

/// Every number is the greatest common divisor of itself and zero.
pub proof fn lemma_gcd_with_zero(a: nat)
    ensures
        is_gcd(a, a, 0),
{
    assert(a == 1 * a);
    lemma_multiple_divides(a, 1, a);
    assert(0 == 0 * a);
    lemma_multiple_divides(a, 0, 0);
}

/// Two numbers have one greatest common divisor.
pub proof fn lemma_gcd_is_unique(g: nat, h: nat, a: nat, b: nat)
    requires
        is_gcd(g, a, b),
        is_gcd(h, a, b),
    ensures
        g == h,
{
    assert(is_common_divisor(g, a, b));
    assert(is_common_divisor(h, a, b));
    let k = lemma_divisor_has_factor(g, h);
    let m = lemma_divisor_has_factor(h, g);
    assert(g == h) by (nonlinear_arith)
        requires
            h == k * g,
            g == m * h,
            k >= 0,
            m >= 0,
            g >= 0,
            h >= 0,
    ;
}

/// The greatest common divisor of `a` and `b`.
pub fn gcd(a: u64, b: u64) -> (g: u64)
    ensures
        is_gcd(g as nat, a as nat, b as nat),
{
    let mut x: u64 = a;
    let mut y: u64 = b;
    while y != 0
        invariant
            forall|d: nat|
                #[trigger] is_common_divisor(d, x as nat, y as nat) <==> is_common_divisor(
                    d,
                    a as nat,
                    b as nat,
                ),
        decreases y,
    {
        let remainder: u64 = x % y;
        proof {
            assert forall|d: nat|
                #[trigger] is_common_divisor(d, y as nat, remainder as nat) <==> is_common_divisor(
                    d,
                    a as nat,
                    b as nat,
                ) by {
                lemma_euclid_step(x as nat, y as nat, d);
            }
        }
        x = y;
        y = remainder;
    }
    proof {
        lemma_gcd_with_zero(x as nat);
        assert(is_common_divisor(x as nat, x as nat, 0));
        assert forall|d: nat| #[trigger] is_common_divisor(d, a as nat, b as nat) implies divides(
            d,
            x as nat,
        ) by {
            assert(is_common_divisor(d, x as nat, 0));
        }
    }
    x
}

} // verus!
