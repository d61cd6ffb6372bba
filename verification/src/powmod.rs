//! Laws of modular exponentiation used by the completeness proofs.
use crate::bignum::pow_mod;
use crate::hec::neg_mod;
use crate::math::{inv_mod, lemma_inv_mod_exists, lemma_inverse_gives_coprime, lemma_unit_mul, lemma_unit_neg, spec_gcd};
use vstd::arithmetic::div_mod::{lemma_mod_bound, lemma_mul_mod_noop, lemma_small_mod, lemma_mod_twice};
use vstd::arithmetic::power::{lemma_pow_adds, lemma_pow_distributes, lemma_pow_mod_noop, lemma_pow_multiplies, pow, lemma_pow1};
use vstd::prelude::*;

verus! {

/// `pow_mod` lies in `[0, m)`.
pub proof fn lemma_pow_mod_bound(b: nat, e: nat, m: nat)
    requires
        m > 0,
    ensures
        pow_mod(b, e, m) < m,
{
    lemma_mod_bound(pow(b as int, e), m as int);
}

/// `b^(e1 + e2) == b^e1 * b^e2 (mod m)`.
pub proof fn lemma_pow_mod_add(b: nat, e1: nat, e2: nat, m: nat)
    requires
        m > 0,
    ensures
        pow_mod(b, e1 + e2, m) == (pow_mod(b, e1, m) * pow_mod(b, e2, m)) % m,
{
    lemma_pow_adds(b as int, e1, e2);
    lemma_mul_mod_noop(pow(b as int, e1), pow(b as int, e2), m as int);
}

/// `(b^e1)^e2 == b^(e1 e2) (mod m)`.
pub proof fn lemma_pow_mod_mul(b: nat, e1: nat, e2: nat, m: nat)
    requires
        m > 0,
    ensures
        pow_mod(pow_mod(b, e1, m), e2, m) == pow_mod(b, e1 * e2, m),
{
    lemma_pow_mod_noop(pow(b as int, e1), e2, m as int);
    lemma_pow_multiplies(b as int, e1, e2);
}

/// `(x y)^e == x^e y^e (mod m)`.
pub proof fn lemma_pow_mod_product(x: nat, y: nat, e: nat, m: nat)
    requires
        m > 0,
    ensures
        pow_mod((x * y) % m, e, m) == (pow_mod(x, e, m) * pow_mod(y, e, m)) % m,
{
    lemma_pow_mod_noop((x * y) as int, e, m as int);
    lemma_pow_distributes(x as int, y as int, e);
    lemma_mul_mod_noop(pow(x as int, e), pow(y as int, e), m as int);
}

/// Raising to an even power forgets a negation: `(-x)^(2e) == x^(2e) (mod m)`.
pub proof fn lemma_pow_mod_neg_even(x: nat, e: nat, m: nat)
    requires
        m > 0,
    ensures
        pow_mod(neg_mod(x, m), 2 * e, m) == pow_mod(x, 2 * e, m),
{
    let mi = m as int;
    let xi = x as int;
    assert(neg_mod(x, m) as int == (-xi) % mi) by {
        crate::math::lemma_neg_mod(x, m);
        lemma_mod_bound(xi, mi);
        if x % m == 0 {
            vstd::arithmetic::div_mod::lemma_mod_self_0(mi);
        } else {
            lemma_small_mod((m - x % m) as nat, m);
        }
    }
    lemma_pow_mod_noop(-xi, 2 * e, mi);
    lemma_pow_multiplies(-xi, 2, e);
    lemma_pow_multiplies(xi, 2, e);
    assert(pow(-xi, 2) == pow(xi, 2)) by {
        vstd::arithmetic::power::lemma_square_is_pow2(-xi);
        vstd::arithmetic::power::lemma_square_is_pow2(xi);
        assert((-xi) * (-xi) == xi * xi) by (nonlinear_arith);
    }
    assert(2 * e == e * 2) by (nonlinear_arith);
}

/// `g^a h^b mod m`.
pub open spec fn pair_pow(g: nat, h: nat, a: nat, b: nat, m: nat) -> nat {
    (pow_mod(g, a, m) * pow_mod(h, b, m)) % m
}

/// `(g^a h^b)^c == g^(ac) h^(bc) (mod m)`.
pub proof fn lemma_pair_pow_pow(g: nat, h: nat, a: nat, b: nat, c: nat, m: nat)
    requires
        m > 0,
    ensures
        pow_mod(pair_pow(g, h, a, b, m), c, m) == pair_pow(g, h, a * c, b * c, m),
{
    lemma_pow_mod_product(pow_mod(g, a, m), pow_mod(h, b, m), c, m);
    lemma_pow_mod_mul(g, a, c, m);
    lemma_pow_mod_mul(h, b, c, m);
}

/// `g^a h^b g^c h^d == g^(a+c) h^(b+d) (mod m)`.
pub proof fn lemma_pair_pow_mul(g: nat, h: nat, a: nat, b: nat, c: nat, d: nat, m: nat)
    requires
        m > 0,
    ensures
        (pair_pow(g, h, a, b, m) * pair_pow(g, h, c, d, m)) % m == pair_pow(g, h, a + c, b + d, m),
{
    let ga = pow_mod(g, a, m);
    let hb = pow_mod(h, b, m);
    let gc = pow_mod(g, c, m);
    let hd = pow_mod(h, d, m);
    lemma_pow_mod_add(g, a, c, m);
    lemma_pow_mod_add(h, b, d, m);
    lemma_mul_mod_noop((ga * hb) as int, (gc * hd) as int, m as int);
    lemma_mul_mod_noop((ga * gc) as int, (hb * hd) as int, m as int);
    assert((ga * hb) * (gc * hd) == (ga * gc) * (hb * hd)) by (nonlinear_arith);
}


/// `g^a h^b mod m` is reduced.
pub proof fn lemma_pair_pow_bound(g: nat, h: nat, a: nat, b: nat, m: nat)
    requires
        m > 0,
    ensures
        pair_pow(g, h, a, b, m) < m,
{
    lemma_mod_bound((pow_mod(g, a, m) * pow_mod(h, b, m)) as int, m as int);
}


/// A power of a unit is a unit: `a^e` has the inverse `i^e` modulo `m`.
pub proof fn lemma_unit_pow(a: nat, i: nat, e: nat, m: nat)
    requires
        m > 1,
        (a * i) % m == 1,
    ensures
        (pow_mod(a, e, m) * pow_mod(i, e, m)) % m == 1,
{
    lemma_pow_mod_product(a, i, e, m);
    vstd::arithmetic::power::lemma1_pow(e);
    lemma_small_mod(1, m);
}


/// The product of two numbers coprime to `m` is coprime to `m` once reduced.
pub proof fn lemma_coprime_mul(a: nat, b: nat, m: nat)
    requires
        m > 1,
        spec_gcd(m, a) == 1,
        spec_gcd(m, b) == 1,
    ensures
        spec_gcd(m, (a * b) % m) == 1,
{
    lemma_inv_mod_exists(a, m);
    lemma_inv_mod_exists(b, m);
    lemma_small_mod(1, m);
    let i = inv_mod(a, m);
    let j = inv_mod(b, m);
    lemma_unit_mul(a, i, b, j, m);
    lemma_inverse_gives_coprime((a * b) % m, (i * j) % m, m);
}

/// A power of a number coprime to `m` is coprime to `m`.
pub proof fn lemma_coprime_pow(a: nat, e: nat, m: nat)
    requires
        m > 1,
        spec_gcd(m, a) == 1,
    ensures
        spec_gcd(m, pow_mod(a, e, m)) == 1,
{
    lemma_inv_mod_exists(a, m);
    lemma_small_mod(1, m);
    let i = inv_mod(a, m);
    lemma_unit_pow(a, i, e, m);
    lemma_inverse_gives_coprime(pow_mod(a, e, m), pow_mod(i, e, m), m);
}

/// Reducing a number coprime to `m` keeps it coprime, and it is not zero.
pub proof fn lemma_coprime_mod(a: nat, m: nat)
    requires
        m > 1,
        spec_gcd(m, a) == 1,
    ensures
        spec_gcd(m, a % m) == 1,
        a % m != 0,
{
    lemma_inv_mod_exists(a, m);
    lemma_small_mod(1, m);
    let i = inv_mod(a, m);
    lemma_mul_mod_noop(a as int, i as int, m as int);
    lemma_mod_bound(i as int, m as int);
    lemma_small_mod(i, m);
    assert(((a % m) * i) % m == 1);
    lemma_inverse_gives_coprime(a % m, i, m);
    if a % m == 0 {
        assert((0nat * i) % m == 0);
    }
}

/// `m - x` is coprime to `m` when `x` in `(0, m)` is.
pub proof fn lemma_coprime_neg(x: nat, m: nat)
    requires
        m > 1,
        0 < x < m,
        spec_gcd(m, x) == 1,
    ensures
        spec_gcd(m, (m - x) as nat) == 1,
{
    lemma_inv_mod_exists(x, m);
    lemma_small_mod(1, m);
    let i = inv_mod(x, m);
    lemma_unit_neg(x, i, m);
    lemma_inverse_gives_coprime((m - x) as nat, (m - i) as nat, m);
}

/// One is coprime to every `m > 1`.
pub proof fn lemma_coprime_one(m: nat)
    requires
        m > 1,
    ensures
        spec_gcd(m, 1) == 1,
{
    lemma_small_mod(1, m);
    assert((1nat * 1nat) % m == 1);
    lemma_inverse_gives_coprime(1, 1, m);
}

/// For `u < m`, `gcd(u, m) == gcd(m, u)`.
pub proof fn lemma_gcd_swap_reduced(u: nat, m: nat)
    requires
        u < m,
    ensures
        spec_gcd(u, m) == spec_gcd(m, u),
{
    lemma_small_mod(u, m);
}

} // verus!
