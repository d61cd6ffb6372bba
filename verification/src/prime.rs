//! Fermat's little theorem and the soundness of Miller-Rabin on primes:
//! a prime is never rejected, whatever base is drawn.
use crate::bignum::pow_mod;
use crate::math::{is_prime, lemma_bezout, lemma_gcd_divides, lemma_gcd_pos, spec_gcd};
use vstd::arithmetic::div_mod::{
    lemma_add_mod_noop, lemma_fundamental_div_mod, lemma_mod_bound, lemma_mod_multiples_basic, lemma_mul_mod_noop_left,
    lemma_small_mod, lemma_sub_mod_noop,
};
use vstd::arithmetic::power::{lemma_pow_mod_noop, lemma_pow_multiplies, lemma_pow_positive, pow};
use vstd::arithmetic::power2::{lemma_pow2_unfold, lemma2_to64, pow2};
use vstd::prelude::*;

verus! {

/// The binomial coefficient `C(n, k)`, by Pascal's rule.
pub open spec fn binom(n: nat, k: nat) -> nat
    decreases n,
{
    if k == 0 {
        1
    } else if n == 0 {
        0
    } else {
        binom((n - 1) as nat, (k - 1) as nat) + binom((n - 1) as nat, k)
    }
}

/// `sum_{i <= m} C(n, i) x^i`.
pub open spec fn binom_sum(n: nat, x: int, m: nat) -> int
    decreases m,
{
    if m == 0 {
        1
    } else {
        binom_sum(n, x, (m - 1) as nat) + binom(n, m) * pow(x, m)
    }
}

/// `b^(e+1) == b * b^e`.
proof fn lemma_pow_succ(b: int, e: nat)
    ensures
        pow(b, e + 1) == b * pow(b, e),
{
    reveal(pow);
}

/// `b^0 == 1`.
proof fn lemma_pow_zero(b: int)
    ensures
        pow(b, 0) == 1,
{
    reveal(pow);
}

/// A sum of multiples of `p` is a multiple of `p`.
proof fn lemma_div_add(u: int, v: int, p: int)
    requires
        p > 0,
        u % p == 0,
        v % p == 0,
    ensures
        (u + v) % p == 0,
{
    lemma_add_mod_noop(u, v, p);
    lemma_small_mod(0, p as nat);
}

/// A difference of multiples of `p` is a multiple of `p`.
proof fn lemma_div_sub(u: int, v: int, p: int)
    requires
        p > 0,
        u % p == 0,
        v % p == 0,
    ensures
        (u - v) % p == 0,
{
    lemma_sub_mod_noop(u, v, p);
    lemma_small_mod(0, p as nat);
}

/// A multiple of a multiple of `p` is a multiple of `p`.
proof fn lemma_div_mul(u: int, c: int, p: int)
    requires
        p > 0,
        u % p == 0,
    ensures
        (u * c) % p == 0,
{
    lemma_mul_mod_noop_left(u, c, p);
    lemma_small_mod(0, p as nat);
}

/// `p * q` is a multiple of `p`.
proof fn lemma_div_times(p: int, q: int)
    requires
        p > 0,
    ensures
        (p * q) % p == 0,
{
    lemma_mod_multiples_basic(q, p);
    assert(q * p == p * q) by (nonlinear_arith);
}

/// `C(n, k) == 0` for `k > n`.
proof fn lemma_binom_above(n: nat, k: nat)
    requires
        k > n,
    ensures
        binom(n, k) == 0,
    decreases n,
{
    if n > 0 {
        lemma_binom_above((n - 1) as nat, (k - 1) as nat);
        lemma_binom_above((n - 1) as nat, k);
    }
}

/// `C(n, n) == 1`.
proof fn lemma_binom_diag(n: nat)
    ensures
        binom(n, n) == 1,
    decreases n,
{
    if n > 0 {
        lemma_binom_diag((n - 1) as nat);
        lemma_binom_above((n - 1) as nat, n);
    }
}

/// Pascal's rule on the partial sums:
/// `S(n+1, x, m) == S(n, x, m) + x * S(n, x, m-1)` for `m >= 1`.
proof fn lemma_binom_sum_pascal(n: nat, x: int, m: nat)
    requires
        m >= 1,
    ensures
        binom_sum(n + 1, x, m) == binom_sum(n, x, m) + x * binom_sum(n, x, (m - 1) as nat),
    decreases m,
{
    lemma_pow_succ(x, (m - 1) as nat);
    let a = binom(n, (m - 1) as nat);
    let b = binom(n, m);
    let pm = pow(x, m);
    let pm1 = pow(x, (m - 1) as nat);
    assert(binom((n + 1) as nat, m) == a + b);
    if m == 1 {
        lemma_pow_zero(x);
        assert(a == 1);
        assert(pm == x * pm1);
        assert(binom_sum(n + 1, x, 0) == 1);
        assert(binom_sum(n + 1, x, 1) == binom_sum(n + 1, x, 0) + binom(n + 1, 1) * pow(x, 1));
        assert(binom_sum(n + 1, x, 1) == 1 + (a + b) * pm);
        assert(binom_sum(n, x, 1) == binom_sum(n, x, 0) + binom(n, 1) * pow(x, 1));
        assert(binom_sum(n, x, 1) == 1 + b * pm);
        assert(binom_sum(n, x, 0) == 1);
        assert(1 + (a + b) * pm == (1 + b * pm) + x * 1) by (nonlinear_arith)
            requires
                a == 1,
                pm == x * pm1,
                pm1 == 1,
        ;
    } else {
        lemma_binom_sum_pascal(n, x, (m - 1) as nat);
        let s1 = binom_sum(n, x, (m - 1) as nat);
        let s2 = binom_sum(n, x, (m - 2) as nat);
        assert(binom_sum(n + 1, x, (m - 1) as nat) == s1 + x * s2);
        assert(s1 == s2 + a * pm1);
        assert(binom_sum(n + 1, x, m) == s1 + x * s2 + (a + b) * pm);
        assert(binom_sum(n, x, m) == s1 + b * pm);
        assert(s1 + x * s2 + (a + b) * pm == (s1 + b * pm) + x * s1) by (nonlinear_arith)
            requires
                s1 == s2 + a * pm1,
                pm == x * pm1,
        ;
    }
}

/// The binomial theorem: `(x + 1)^n == sum_{i <= n} C(n, i) x^i`.
proof fn lemma_binomial_theorem(x: int, n: nat)
    ensures
        pow(x + 1, n) == binom_sum(n, x, n),
    decreases n,
{
    if n == 0 {
        lemma_pow_zero(x + 1);
    } else {
        let m = (n - 1) as nat;
        lemma_binomial_theorem(x, m);
        lemma_pow_succ(x + 1, m);
        lemma_binom_sum_pascal(m, x, n);
        lemma_binom_above(m, n);
        assert(binom_sum(m, x, n) == binom_sum(m, x, m));
        let s = binom_sum(m, x, m);
        assert(pow(x + 1, n) == (x + 1) * s);
        assert((x + 1) * s == s + x * s) by (nonlinear_arith);
    }
}

/// Absorption: `k C(n, k) == n C(n-1, k-1)` for `n, k >= 1`.
proof fn lemma_binom_absorb(n: nat, k: nat)
    requires
        n >= 1,
        k >= 1,
    ensures
        k * binom(n, k) == n * binom((n - 1) as nat, (k - 1) as nat),
    decreases n,
{
    if n == 1 {
        if k > 1 {
            lemma_binom_above(0, (k - 1) as nat);
            lemma_binom_above(1, k);
            assert(binom(n, k) == 0);
            assert(k * binom(n, k) == 0) by (nonlinear_arith)
                requires
                    binom(n, k) == 0,
            ;
            assert(n * binom((n - 1) as nat, (k - 1) as nat) == 0);
        } else {
            assert(binom(0, 1) == 0);
            assert(binom(1, 1) == binom(0, 0) + binom(0, 1));
            assert(binom(n, k) == 1);
        }
    } else {
        let n1 = (n - 1) as nat;
        let n2 = (n - 2) as nat;
        let k1 = (k - 1) as nat;
        lemma_binom_absorb(n1, k);
        let c_k1 = binom(n1, k1);
        let c_k = binom(n1, k);
        assert(binom(n, k) == c_k1 + c_k);
        assert(k * c_k == n1 * binom(n2, k1));
        if k == 1 {
            assert(c_k1 == 1);
            assert(binom(n2, 0) == 1);
            assert(k * binom(n, k) == n * c_k1) by (nonlinear_arith)
                requires
                    k == 1,
                    binom(n, k) == c_k1 + c_k,
                    k * c_k == n1 * 1,
                    c_k1 == 1,
                    n1 == n - 1,
            ;
        } else {
            let k2 = (k - 2) as nat;
            lemma_binom_absorb(n1, k1);
            assert(k1 * c_k1 == n1 * binom(n2, k2));
            assert(c_k1 == binom(n2, k2) + binom(n2, k1));
            assert(k * binom(n, k) == n * c_k1) by (nonlinear_arith)
                requires
                    binom(n, k) == c_k1 + c_k,
                    k * c_k == n1 * binom(n2, k1),
                    k1 * c_k1 == n1 * binom(n2, k2),
                    c_k1 == binom(n2, k2) + binom(n2, k1),
                    k1 == k - 1,
                    n1 == n - 1,
            ;
        }
    }
}

/// Euclid's lemma: a prime that divides `a b` and not `a` divides `b`.
pub proof fn lemma_euclid(p: nat, a: int, b: int)
    requires
        is_prime(p),
        (a * b) % (p as int) == 0,
        a % (p as int) != 0,
    ensures
        b % (p as int) == 0,
{
    let pi = p as int;
    let ar = (a % pi) as nat;
    lemma_mod_bound(a, pi);
    lemma_gcd_pos(p, ar);
    lemma_gcd_divides(p, ar);
    let g = spec_gcd(p, ar);
    if g != 1 {
        if g < p {
            assert(p % g == 0);
            assert(1 < g < p);
            assert(false);
        } else {
            lemma_small_mod(ar, p);
            assert(ar < p);
            if ar > 0 {
                assert(ar % g == ar) by {
                    lemma_small_mod(ar, g);
                }
            }
        }
    }
    assert(g == 1);
    let (s, t) = lemma_bezout(p, ar);
    // b == b (p s + ar t) and ar b == a b (mod p).
    lemma_fundamental_div_mod(a, pi);
    let q = a / pi;
    assert(a == pi * q + ar);
    assert(b == pi * (s * b) + (a * b) * t - pi * (q * b * t)) by (nonlinear_arith)
        requires
            pi * s + ar * t == 1,
            a == pi * q + ar,
    ;
    lemma_div_times(pi, s * b);
    lemma_div_mul(a * b, t, pi);
    lemma_div_times(pi, q * b * t);
    lemma_div_add(pi * (s * b), (a * b) * t, pi);
    lemma_div_sub(pi * (s * b) + (a * b) * t, pi * (q * b * t), pi);
}

/// A prime divides `C(p, k)` for `0 < k < p`.
proof fn lemma_prime_divides_binom(p: nat, k: nat)
    requires
        is_prime(p),
        0 < k < p,
    ensures
        (binom(p, k) as int) % (p as int) == 0,
{
    lemma_binom_absorb(p, k);
    lemma_div_times(p as int, binom((p - 1) as nat, (k - 1) as nat) as int);
    lemma_small_mod(k, p);
    lemma_euclid(p, k as int, binom(p, k) as int);
}

/// The middle terms of `(x+1)^p` vanish modulo `p`: `S(p, x, m) == 1 (mod p)`
/// for `m < p`.
proof fn lemma_binom_sum_prime(p: nat, x: int, m: nat)
    requires
        is_prime(p),
        m < p,
    ensures
        (binom_sum(p, x, m) - 1) % (p as int) == 0,
    decreases m,
{
    let pi = p as int;
    if m == 0 {
        lemma_small_mod(0, p);
    } else {
        lemma_binom_sum_prime(p, x, (m - 1) as nat);
        lemma_prime_divides_binom(p, m);
        lemma_div_mul(binom(p, m) as int, pow(x, m), pi);
        lemma_div_add(binom_sum(p, x, (m - 1) as nat) - 1, binom(p, m) * pow(x, m), pi);
    }
}

/// `(x + 1)^p == x^p + 1 (mod p)`.
proof fn lemma_freshman(p: nat, x: int)
    requires
        is_prime(p),
    ensures
        (pow(x + 1, p) - pow(x, p) - 1) % (p as int) == 0,
{
    lemma_binomial_theorem(x, p);
    lemma_binom_diag(p);
    lemma_binom_sum_prime(p, x, (p - 1) as nat);
    assert(binom_sum(p, x, p) == binom_sum(p, x, (p - 1) as nat) + pow(x, p));
}

/// Fermat's little theorem: `a^p == a (mod p)`.
proof fn lemma_fermat_raw(p: nat, a: nat)
    requires
        is_prime(p),
    ensures
        (pow(a as int, p) - a) % (p as int) == 0,
    decreases a,
{
    if a == 0 {
        vstd::arithmetic::power::lemma0_pow(p);
        lemma_small_mod(0, p);
    } else {
        let b = (a - 1) as nat;
        lemma_fermat_raw(p, b);
        lemma_freshman(p, b as int);
        lemma_div_add(pow(b as int + 1, p) - pow(b as int, p) - 1, pow(b as int, p) - b, p as int);
        assert(pow(b as int + 1, p) - pow(b as int, p) - 1 + (pow(b as int, p) - b) == pow(a as int, p) - a);
    }
}

/// Fermat's little theorem for a unit: `a^(p-1) mod p == 1` when `p` does
/// not divide `a`.
pub proof fn lemma_fermat(p: nat, a: nat)
    requires
        is_prime(p),
        a % p != 0,
    ensures
        pow_mod(a, (p - 1) as nat, p) == 1,
{
    let pi = p as int;
    lemma_fermat_raw(p, a);
    let e = (p - 1) as nat;
    lemma_pow_succ(a as int, e);
    assert(pow(a as int, p) - a == (a as int) * (pow(a as int, e) - 1)) by (nonlinear_arith)
        requires
            pow(a as int, p) == (a as int) * pow(a as int, e),
    ;
    lemma_euclid(p, a as int, pow(a as int, e) - 1);
    if a == 0 {
        lemma_small_mod(0, p);
    }
    lemma_pow_positive(a as int, e);
    // pow(a, e) == 1 + p * q
    lemma_fundamental_div_mod(pow(a as int, e) - 1, pi);
    let q = (pow(a as int, e) - 1) / pi;
    assert(pow(a as int, e) == pi * q + 1);
    vstd::arithmetic::div_mod::lemma_mod_multiples_vanish(q, 1, pi);
    lemma_small_mod(1, p);
}

/// The only square roots of `1` modulo a prime are `1` and `p - 1`.
pub proof fn lemma_sqrt_one(p: nat, x: nat)
    requires
        is_prime(p),
        x < p,
        (x * x) % p == 1,
    ensures
        x == 1 || x == p - 1,
{
    let pi = p as int;
    let xi = x as int;
    lemma_fundamental_div_mod((x * x) as int, pi);
    let q = ((x * x) as int) / pi;
    assert(x * x == pi * q + 1);
    assert((xi - 1) * (xi + 1) == pi * q) by (nonlinear_arith)
        requires
            x * x == pi * q + 1,
            xi == x,
    ;
    lemma_div_times(pi, q);
    if (xi - 1) % pi != 0 {
        lemma_euclid(p, xi - 1, xi + 1);
        lemma_fundamental_div_mod(xi + 1, pi);
        assert(1 <= xi + 1 <= pi);
        if xi + 1 < pi {
            lemma_small_mod((x + 1) as nat, p);
        }
    } else {
        if x == 0 {
            lemma_small_mod(0, p);
            assert(false);
        }
        assert(0 <= xi - 1 < pi);
        lemma_small_mod((x - 1) as nat, p);
    }
}

/// The `j`-th term of the Miller-Rabin sequence of base `a`:
/// `a^(d 2^j) mod n`.
pub open spec fn mr_term(n: nat, a: nat, d: nat, j: nat) -> nat {
    pow_mod(a, d * pow2(j), n)
}

/// Base `a` passes the strong test of `n = d 2^s + 1`: `a^d == 1` or
/// `a^(d 2^j) == n - 1` for some `j < s`.
pub open spec fn strong_base(n: nat, a: nat, d: nat, s: nat) -> bool {
    mr_term(n, a, d, 0) == 1 || exists|j: nat| j < s && #[trigger] mr_term(n, a, d, j) == n - 1
}

/// `n` has passed the Miller-Rabin test for some base `2 <= a < n - 2`,
/// with `n - 1 = d 2^s` and `d` odd.
pub open spec fn passes_miller_rabin(n: nat) -> bool {
    exists|a: nat, d: nat, s: nat|
        #![trigger strong_base(n, a, d, s)]
        2 <= a < n - 2 && d % 2 == 1 && d * pow2(s) == n - 1 && strong_base(n, a, d, s)
}

/// Each term of the sequence is the square of the previous one.
pub proof fn lemma_mr_term_square(n: nat, a: nat, d: nat, j: nat)
    requires
        n > 0,
    ensures
        mr_term(n, a, d, j + 1) == pow_mod(mr_term(n, a, d, j), 2, n),
{
    crate::powmod::lemma_pow_mod_mul(a, d * pow2(j), 2, n);
    lemma_pow2_unfold(j + 1);
    assert(d * pow2(j + 1) == d * pow2(j) * 2) by (nonlinear_arith)
        requires
            pow2(j + 1) == 2 * pow2(j),
    ;
}

/// The first term is `a^d mod n`.
pub proof fn lemma_mr_term_first(n: nat, a: nat, d: nat)
    ensures
        mr_term(n, a, d, 0) == pow_mod(a, d, n),
{
    lemma2_to64();
}

/// Walking down from a term equal to `1`: if no term before `t` is
/// `p - 1`, the first term is `1`.
proof fn lemma_mr_descend(p: nat, a: nat, d: nat, t: nat)
    requires
        is_prime(p),
        mr_term(p, a, d, t) == 1,
        forall|j: nat| j < t ==> #[trigger] mr_term(p, a, d, j) != p - 1,
    ensures
        mr_term(p, a, d, 0) == 1,
    decreases t,
{
    if t > 0 {
        let u = (t - 1) as nat;
        lemma_mr_term_square(p, a, d, u);
        let x = mr_term(p, a, d, u);
        crate::powmod::lemma_pow_mod_bound(a, d * pow2(u), p);
        vstd::arithmetic::power::lemma_square_is_pow2(x as int);
        assert(pow_mod(x, 2, p) == (x * x) % p);
        lemma_sqrt_one(p, x);
        assert(mr_term(p, a, d, u) != p - 1);
        lemma_mr_descend(p, a, d, u);
    }
}

/// Miller-Rabin never rejects a prime: every base `1 <= a < p` passes.
pub proof fn lemma_prime_passes(p: nat, a: nat, d: nat, s: nat)
    requires
        is_prime(p),
        1 <= a < p,
        d * pow2(s) == p - 1,
    ensures
        strong_base(p, a, d, s),
{
    if !strong_base(p, a, d, s) {
        lemma_small_mod(a, p);
        lemma_fermat(p, a);
        assert(mr_term(p, a, d, s) == 1);
        lemma_mr_descend(p, a, d, s);
    }
}

} // verus!
