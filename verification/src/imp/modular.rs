//! Extended Euclid and modular inverses: how the inverse multipliers of
//! the substitution and expansion layers are found.

use vstd::arithmetic::div_mod::{
    lemma_fundamental_div_mod, lemma_fundamental_div_mod_converse, lemma_mod_mod,
    lemma_mod_bound, lemma_mod_multiples_vanish, lemma_mul_mod_noop_right, lemma_small_mod,
    lemma_sub_mod_noop,
};
use vstd::arithmetic::power2::{
    lemma2_to64, lemma2_to64_rest, lemma_pow2_pos, lemma_pow2_unfold, pow2,
};
use vstd::prelude::*;

verus! {

/// 2 to the power 128: the modulus of wrapping `u128` arithmetic.
pub open spec fn two_128() -> int {
    0x1_0000_0000_0000_0000_0000_0000_0000_0000int
}

/// The greatest common divisor, by Euclid's algorithm.
pub open spec fn gcd(a: nat, b: nat) -> nat
    decreases a,
{
    if a == 0 {
        b
    } else {
        gcd(b % a, a)
    }
}

/// The coefficients `(x, y)` that the extended Euclidean algorithm finds
/// for `a * x + b * y == gcd(a, b)`.
pub open spec fn bezout(a: nat, b: nat) -> (int, int)
    decreases a,
{
    if a == 0 {
        (0, 1)
    } else {
        let r = bezout(b % a, a);
        (r.1 - ((b / a) as int) * r.0, r.0)
    }
}

/// An integer reduced into the range of `u128`.
pub open spec fn wrap128(z: int) -> u128 {
    (z % two_128()) as u128
}

/// The residue of `bezout(a, m).0` modulo `m`: for odd `a` and `m` a power
/// of two, the inverse of `a` modulo `m`.
pub open spec fn inverse_spec(a: nat, m: nat) -> nat {
    (bezout(a, m).0 % (m as int)) as nat
}

/// The coefficients of [`bezout`] satisfy Bezout's identity.
pub proof fn lemma_bezout_identity(a: nat, b: nat)
    ensures
        a * bezout(a, b).0 + b * bezout(a, b).1 == gcd(a, b),
    decreases a,
{
    if a != 0 {
        let r = bezout(b % a, a);
        let q = (b / a) as int;
        lemma_bezout_identity(b % a, a);
        lemma_fundamental_div_mod(b as int, a as int);
        assert(a * (r.1 - q * r.0) + b * r.0 == (b % a) * r.0 + a * r.1) by (nonlinear_arith)
            requires
                b == a * q + (b % a),
        ;
    }
}

/// The greatest common divisor divides both numbers: the result holds the
/// two quotients.
pub proof fn lemma_gcd_divides(a: nat, b: nat) -> (pq: (nat, nat))
    ensures
        a == gcd(a, b) * pq.0,
        b == gcd(a, b) * pq.1,
    decreases a,
{
    if a == 0 {
        (0, 1)
    } else {
        let g = gcd(a, b);
        let inner = lemma_gcd_divides(b % a, a);
        let q = b / a;
        lemma_fundamental_div_mod(b as int, a as int);
        let second = inner.1 * q + inner.0;
        assert(b == g * second) by (nonlinear_arith)
            requires
                b == a * q + (b % a),
                b % a == g * inner.0,
                a == g * inner.1,
                second == inner.1 * q + inner.0,
        ;
        (inner.1, second)
    }
}

/// An odd number that divides a power of two is 1.
pub proof fn lemma_odd_factor_of_pow2(g: nat, q: nat, k: nat)
    requires
        g * q == pow2(k),
        g % 2 == 1,
    ensures
        g == 1,
    decreases k,
{
    lemma_pow2_pos(k);
    if k == 0 {
        lemma2_to64();
        assert(g == 1) by (nonlinear_arith)
            requires
                g * q == 1,
        ;
    } else {
        lemma_pow2_unfold(k);
        let h = g / 2;
        if q % 2 == 1 {
            let r = q / 2;
            assert(g * q == 2 * (2 * h * r + h + r) + 1) by (nonlinear_arith)
                requires
                    g == 2 * h + 1,
                    q == 2 * r + 1,
            ;
            lemma_fundamental_div_mod_converse((g * q) as int, 2, (2 * h * r + h + r) as int, 1);
        }
        let half = q / 2;
        assert(g * half == pow2((k - 1) as nat)) by (nonlinear_arith)
            requires
                q == 2 * half,
                g * q == 2 * pow2((k - 1) as nat),
        ;
        lemma_odd_factor_of_pow2(g, half, (k - 1) as nat);
    }
}

/// Modulo a power of two every odd number has an inverse, and the extended
/// Euclidean algorithm finds it.
pub proof fn lemma_inverse_of_odd(a: nat, k: nat)
    requires
        a % 2 == 1,
        k >= 1,
    ensures
        (a * inverse_spec(a, pow2(k))) % pow2(k) == 1,
        inverse_spec(a, pow2(k)) < pow2(k),
{
    let m = pow2(k);
    lemma_pow2_pos(k);
    lemma_pow2_unfold(k);
    lemma_pow2_pos((k - 1) as nat);
    let g = gcd(a, m);
    let pq = lemma_gcd_divides(a, m);
    if g % 2 == 0 {
        let h = g / 2;
        assert(a == 2 * (h * pq.0)) by (nonlinear_arith)
            requires
                a == g * pq.0,
                g == 2 * h,
        ;
        lemma_fundamental_div_mod_converse(a as int, 2, (h * pq.0) as int, 0);
    }
    lemma_odd_factor_of_pow2(g, pq.1, k);
    lemma_bezout_identity(a, m);
    let x = bezout(a, m).0;
    let y = bezout(a, m).1;
    assert(a * x == m * (-y) + 1) by (nonlinear_arith)
        requires
            a * x + m * y == 1,
    ;
    lemma_mod_multiples_vanish(-y, 1, m as int);
    lemma_small_mod(1, m);
    lemma_mul_mod_noop_right(a as int, x, m as int);
    lemma_mod_bound(x, m as int);
}

/// Wrapping subtraction computes the difference modulo 2^128.
proof fn lemma_wrapping_sub(a: u128, b: u128)
    ensures
        a.wrapping_sub(b) == wrap128(a - b),
{
    if a - b < 0 {
        lemma_fundamental_div_mod_converse(a - b, two_128(), -1, a - b + two_128());
    } else {
        lemma_small_mod((a - b) as nat, two_128() as nat);
    }
}

/// One step of the extended Euclidean algorithm in wrapping arithmetic
/// gives the exact coefficient reduced modulo 2^128.
proof fn lemma_wrapped_step(q: u128, x1: u128, y1: u128, bx: int, by: int)
    requires
        x1 == wrap128(bx),
        y1 == wrap128(by),
    ensures
        y1.wrapping_sub(q.wrapping_mul(x1)) == wrap128(by - q * bx),
{
    let m = two_128();
    let t = q.wrapping_mul(x1);
    lemma_mul_mod_noop_right(q as int, bx, m);
    assert(t == (q * bx) % m);
    lemma_wrapping_sub(y1, t);
    lemma_sub_mod_noop(by, q * bx, m);
}

/// Extended Euclidean algorithm in wrapping 128-bit arithmetic: returns the
/// greatest common divisor of `a` and `b` and leaves in `x` and `y` the
/// coefficients of Bezout's identity, reduced modulo 2^128.
pub fn gcd_extended(a: u128, b: u128, x: &mut u128, y: &mut u128) -> (g: u128)
    ensures
        g == gcd(a as nat, b as nat),
        *final(x) == wrap128(bezout(a as nat, b as nat).0),
        *final(y) == wrap128(bezout(a as nat, b as nat).1),
    decreases a,
{
    if a == 0 {
        *x = 0;
        *y = 1;
        proof {
            lemma_small_mod(0, two_128() as nat);
            lemma_small_mod(1, two_128() as nat);
        }
        b
    } else {
        let mut x1: u128 = 0;
        let mut y1: u128 = 0;
        let g = gcd_extended(b % a, a, &mut x1, &mut y1);
        proof {
            let r = bezout((b % a) as nat, a as nat);
            lemma_wrapped_step(b / a, x1, y1, r.0, r.1);
        }
        *x = y1.wrapping_sub((b / a).wrapping_mul(x1));
        *y = x1;
        g
    }
}

/// The residue modulo `m` of the coefficient that the extended Euclidean
/// algorithm finds for `a`, for a modulus that divides 2^128.
pub fn inverse_modulo(a: u128, m: u128) -> (r: u128)
    requires
        m > 0,
        two_128() % (m as int) == 0,
    ensures
        r == inverse_spec(a as nat, m as nat),
{
    let mut x: u128 = 0;
    let mut y: u128 = 0;
    let _ = gcd_extended(a, m, &mut x, &mut y);
    proof {
        let k = two_128() / (m as int);
        lemma_fundamental_div_mod(two_128(), m as int);
        assert(k > 0) by (nonlinear_arith)
            requires
                two_128() == m * k,
                m > 0,
                two_128() > 0,
        ;
        lemma_mod_mod(bezout(a as nat, m as nat).0, m as int, k);
        lemma_mod_bound(bezout(a as nat, m as nat).0, m as int);
    }
    x % m
}

/// The inverse of `a` modulo 2^63, when `a` is odd.
pub fn mod_inverse(a: u64) -> (r: u64)
    ensures
        r == inverse_spec(a as nat, 0x8000_0000_0000_0000),
{
    let m: u128 = 0x8000_0000_0000_0000;
    let r = inverse_modulo(a as u128, m);
    r as u64
}

/// For odd `a`, `mod_inverse(a)` times `a` is 1 modulo 2^63.
pub proof fn lemma_mod_inverse_inverts(a: u64)
    requires
        a % 2 == 1,
    ensures
        (a * inverse_spec(a as nat, 0x8000_0000_0000_0000)) % 0x8000_0000_0000_0000 == 1,
{
    lemma2_to64_rest();
    lemma_inverse_of_odd(a as nat, 63);
}

} // verus!
