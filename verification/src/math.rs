//! Number theory used by every scheme: absolute-value representatives,
//! gcd, modular inverses, and safe-prime generation.
use crate::bignum::{big_modpow, big_set_bit, big_to_u64, bit_at, pow_mod, random_below, random_bits, random_range, lemma_bit_len_range, lemma_bit_len_of_range, lemma_bit_len_double_plus_one, big_add, big_bits, big_div, big_eq, big_is_zero, big_lt, big_mul, big_rem, big_shr, big_sub, bit_len, Int, Nat};
use crate::error::{CryptoError, CryptoResult};
use crate::prime::{lemma_mr_term_first, lemma_mr_term_square, lemma_prime_passes, mr_term, passes_miller_rabin, strong_base};
use vstd::arithmetic::div_mod::*;
use vstd::arithmetic::mul::*;
use vstd::arithmetic::power2::*;
use vstd::prelude::*;

verus! {

/// Representative of `x` in the absolute-value group `|QR_{n^2}|`:
/// `n^2 - x` when `x` exceeds `floor(n^2 / 2)`, else `x`.
pub open spec fn abs_rep(x: nat, n2: nat) -> nat {
    if x > n2 / 2 {
        (n2 - x) as nat
    } else {
        x
    }
}

/// Greatest common divisor by Euclid's recursion.
pub open spec fn spec_gcd(a: nat, b: nat) -> nat
    decreases b,
{
    if b == 0 {
        a
    } else {
        spec_gcd(b, a % b)
    }
}

/// `d` divides `x`.
pub open spec fn divides(d: nat, x: nat) -> bool {
    exists|k: nat| #[trigger] (k * d) == x
}

/// Maps an element to its representative in `|QR_{n^2}|`: if `x > floor(n^2/2)`
/// returns `n^2 - x`, otherwise `x`.
pub fn abs_qr_rep(x: &Nat, n2: &Nat) -> (r: Nat)
    requires
        x@ <= n2@,
    ensures
        r@ == abs_rep(x@, n2@),
{
    let half = big_shr(n2, 1);
    proof {
        vstd::arithmetic::power2::lemma2_to64();
    }
    if big_lt(&half, x) {
        big_sub(n2, x)
    } else {
        x.copy()
    }
}

/// Euclid's algorithm: `gcd(a, b)`.
pub fn gcd(a: Nat, b: Nat) -> (r: Nat)
    ensures
        r@ == spec_gcd(a@, b@),
{
    let ghost a0 = a@;
    let ghost b0 = b@;
    let mut a = a;
    let mut b = b;
    while !big_is_zero(&b)
        invariant
            spec_gcd(a@, b@) == spec_gcd(a0, b0),
        decreases b@,
    {
        let r = big_rem(&a, &b);
        proof {
            lemma_mod_bound(a@ as int, b@ as int);
        }
        a = b;
        b = r;
    }
    a
}

/// The gcd divides both of its arguments.
pub proof fn lemma_gcd_divides(a: nat, b: nat)
    ensures
        spec_gcd(a, b) == 0 || (a % spec_gcd(a, b) == 0 && b % spec_gcd(a, b) == 0),
    decreases b,
{
    if b == 0 {
        if a > 0 {
            lemma_mod_self_0(a as int);
            lemma_small_mod(0, a);
        }
    } else {
        let r = a % b;
        lemma_gcd_divides(b, r);
        let g = spec_gcd(b, r);
        assert(spec_gcd(a, b) == g);
        if g != 0 {
            lemma_fundamental_div_mod(a as int, b as int);
            let q = a / b;
            assert(a == b * q + r);
            lemma_mul_mod_noop_left(b as int, q as int, g as int);
            assert(((b % g) * q) as int == 0);
            lemma_small_mod(0, g);
            assert((b * q) % g == 0);
            lemma_add_mod_noop((b * q) as int, r as int, g as int);
            assert(a % g == 0);
        }
    }
}

/// Every common divisor of `a` and `b` divides their gcd.
pub proof fn lemma_common_divisor_divides_gcd(a: nat, b: nat, d: nat)
    requires
        d > 0,
        a % d == 0,
        b % d == 0,
    ensures
        spec_gcd(a, b) % d == 0,
    decreases b,
{
    if b != 0 {
        let q = a / b;
        let r = a % b;
        lemma_fundamental_div_mod(a as int, b as int);
        assert((b * q) % d == 0) by {
            lemma_mul_mod_noop_left(b as int, q as int, d as int);
            lemma_small_mod(0, d);
        }
        assert(r % d == 0) by {
            lemma_sub_mod_noop(a as int, (b * q) as int, d as int);
            lemma_small_mod(0, d);
        }
        lemma_common_divisor_divides_gcd(b, r, d);
    }
}

/// Remainder of a negated integer: `(-x) mod m` is `0` when `m | x`, else `m - (x mod m)`.
pub proof fn lemma_neg_mod(x: nat, m: nat)
    requires
        m > 0,
    ensures
        (-(x as int)) % (m as int) == (if x % m == 0 { 0 } else { m - x % m }),
{
    lemma_fundamental_div_mod(x as int, m as int);
    let q = (x / m) as int;
    let u = (x % m) as int;
    if u == 0 {
        assert(-(x as int) == (-q) * (m as int) + 0) by (nonlinear_arith)
            requires
                x as int == (m as int) * q + u,
                u == 0,
        ;
        lemma_fundamental_div_mod_converse(-(x as int), m as int, -q, 0);
    } else {
        assert(-(x as int) == (-q - 1) * (m as int) + ((m as int) - u)) by (nonlinear_arith)
            requires
                x as int == (m as int) * q + u,
        ;
        lemma_fundamental_div_mod_converse(-(x as int), m as int, -q - 1, (m as int) - u);
    }
}

/// The residue in `[0, m)` of the integer `t`, computed from its magnitude
/// as the truncated remainder followed by one addition of `m` when negative.
fn normalize_mod(t: &Int, m: &Nat) -> (r: Nat)
    requires
        m@ > 0,
    ensures
        r@ as int == t@ % (m@ as int),
        r@ < m@,
{
    let mag = t.magnitude();
    let u = big_rem(&mag, m);
    proof {
        lemma_mod_bound(mag@ as int, m@ as int);
    }
    if t.is_nonneg() {
        u
    } else if big_is_zero(&u) {
        proof {
            lemma_neg_mod(mag@, m@);
        }
        u
    } else {
        proof {
            lemma_neg_mod(mag@, m@);
        }
        big_sub(m, &u)
    }
}

/// One step of extended Euclid keeps the Bezout relations.
proof fn lemma_bezout_step(r: int, nr: int, q: int, m: int, a: int, s: int, t: int, ns: int, nt: int)
    requires
        r == m * s + a * t,
        nr == m * ns + a * nt,
    ensures
        r - q * nr == m * (s - q * ns) + a * (t - q * nt),
{
    assert(q * nr == m * (q * ns) + a * (q * nt)) by (nonlinear_arith)
        requires
            nr == m * ns + a * nt,
    ;
    assert(m * (s - q * ns) == m * s - m * (q * ns)) by (nonlinear_arith);
    assert(a * (t - q * nt) == a * t - a * (q * nt)) by (nonlinear_arith);
}

/// From a Bezout relation `1 = m s + a t`, the residue of `t` inverts `a` modulo `m`.
proof fn lemma_bezout_inverse(a: int, m: int, s: int, t: int)
    requires
        m > 0,
        1 == m * s + a * t,
    ensures
        (a * (t % m)) % m == 1int % m,
{
    lemma_mul_mod_noop_right(a, t, m);
    assert(a * t == 1 + m * (-s)) by (nonlinear_arith)
        requires
            1 == m * s + a * t,
    ;
    lemma_mul_is_commutative(m, -s);
    lemma_mod_multiples_vanish(-s, 1, m);
}

/// `i` is an inverse of `a` modulo `m` taken in `[0, m)`.
pub open spec fn is_inverse_mod(a: nat, i: nat, m: nat) -> bool {
    i < m && (a * i) % m == 1nat % m
}

/// The inverse of `a` modulo `m` in `[0, m)` (meaningful when one exists).
pub open spec fn inv_mod(a: nat, m: nat) -> nat {
    choose|i: nat| is_inverse_mod(a, i, m)
}

/// An inverse modulo `m` in `[0, m)` is unique.
pub proof fn lemma_inverse_unique(a: nat, i: nat, j: nat, m: nat)
    requires
        is_inverse_mod(a, i, m),
        is_inverse_mod(a, j, m),
    ensures
        i == j,
{
    let mi = m as int;
    assert(mi > 0);
    lemma_mul_mod_noop_right(i as int, (a * j) as int, mi);
    lemma_mul_mod_noop_left((a * i) as int, j as int, mi);
    assert((i as int) * ((a * j) as int) == ((a * i) as int) * (j as int)) by (nonlinear_arith);
    if m == 1 {
    } else {
        assert(1nat % m == 1) by {
            lemma_small_mod(1, m);
        }
        lemma_small_mod(i, m);
        lemma_small_mod(j, m);
        assert(((a * j) as int) % mi == 1);
        assert(((a * i) as int) % mi == 1);
        let tj = ((a * j) as int) % mi;
        let ti = ((a * i) as int) % mi;
        assert((i as int) * tj == i as int) by (nonlinear_arith)
            requires
                tj == 1,
        ;
        assert(ti * (j as int) == j as int) by (nonlinear_arith)
            requires
                ti == 1,
        ;
        assert(((i as int) * ((a * j) as int)) % mi == (i as int) % mi);
        assert((((a * i) as int) * (j as int)) % mi == (j as int) % mi);
    }
}

/// Bezout coefficients: `a s + b t == gcd(a, b)`.
pub proof fn lemma_bezout(a: nat, b: nat) -> (st: (int, int))
    ensures
        a * st.0 + b * st.1 == spec_gcd(a, b),
    decreases b,
{
    if b == 0 {
        (1, 0)
    } else {
        let (s1, t1) = lemma_bezout(b, a % b);
        lemma_fundamental_div_mod(a as int, b as int);
        let q = (a / b) as int;
        assert((a % b) as int == a - b * q);
        assert(a * t1 + b * (s1 - q * t1) == b * s1 + (a - b * q) * t1) by (nonlinear_arith);
        (t1, s1 - q * t1)
    }
}

/// An inverse exists when `gcd(m, a) == 1`.
proof fn lemma_inverse_witness(a: nat, m: nat)
    requires
        m > 0,
        spec_gcd(m, a) == 1,
    ensures
        exists|i: nat| is_inverse_mod(a, i, m),
{
    let (s, t) = lemma_bezout(m, a);
    lemma_bezout_inverse(a as int, m as int, s, t);
    lemma_mod_bound(t, m as int);
    let i = (t % (m as int)) as nat;
    assert(is_inverse_mod(a, i, m));
}

/// When `gcd(m, a) == 1` and `m > 0`, `inv_mod(a, m)` is an inverse of `a`.
pub proof fn lemma_inv_mod_exists(a: nat, m: nat)
    requires
        m > 0,
        spec_gcd(m, a) == 1,
    ensures
        is_inverse_mod(a, inv_mod(a, m), m),
{
    lemma_inverse_witness(a, m);
}

/// The gcd of a positive number with anything is positive.
pub proof fn lemma_gcd_pos(a: nat, b: nat)
    requires
        a > 0,
    ensures
        spec_gcd(a, b) > 0,
    decreases b,
{
    if b != 0 {
        lemma_gcd_pos(b, a % b);
    }
}

/// A number with an inverse modulo `m > 1` is coprime to `m`.
pub proof fn lemma_inverse_gives_coprime(a: nat, i: nat, m: nat)
    requires
        m > 1,
        (a * i) % m == 1,
    ensures
        spec_gcd(m, a) == 1,
{
    let d = spec_gcd(m, a);
    lemma_gcd_pos(m, a);
    lemma_gcd_divides(m, a);
    let di = d as int;
    let q = (a * i) / m;
    lemma_fundamental_div_mod((a * i) as int, m as int);
    assert((a * i) as int == (m as int) * (q as int) + 1);
    assert(((a * i) as int) % di == 0) by {
        lemma_mul_mod_noop_left(a as int, i as int, di);
        lemma_small_mod(0, d);
    }
    assert(((m as int) * (q as int)) % di == 0) by {
        lemma_mul_mod_noop_left(m as int, q as int, di);
        lemma_small_mod(0, d);
    }
    assert(1int % di == 0) by {
        lemma_sub_mod_noop((a * i) as int, (m as int) * (q as int), di);
        lemma_small_mod(0, d);
    }
    if d > 1 {
        lemma_small_mod(1, d);
    }
}

/// The product of two units is a unit, with the product of the inverses.
pub proof fn lemma_unit_mul(a: nat, i: nat, b: nat, j: nat, m: nat)
    requires
        m > 1,
        (a * i) % m == 1,
        (b * j) % m == 1,
    ensures
        (((a * b) % m) * ((i * j) % m)) % m == 1,
{
    let mi = m as int;
    lemma_mul_mod_noop((a * b) as int, (i * j) as int, mi);
    assert((a * b) * (i * j) == (a * i) * (b * j)) by (nonlinear_arith);
    lemma_mul_mod_noop((a * i) as int, (b * j) as int, mi);
    lemma_small_mod(1, m);
}

/// `m - x` is a unit when `x` is, with inverse `m - i`.
pub proof fn lemma_unit_neg(x: nat, i: nat, m: nat)
    requires
        m > 1,
        x <= m,
        i <= m,
        (x * i) % m == 1,
    ensures
        (((m - x) as nat) * ((m - i) as nat)) % m == 1,
{
    let mi = m as int;
    let k = mi - x - i;
    let u = mi - x;
    let v = mi - i;
    assert(u * v == mi * k + (x as int) * (i as int)) by (nonlinear_arith)
        requires
            k == mi - x - i,
            u == mi - x,
            v == mi - i,
    ;
    assert(((m - x) as nat) * ((m - i) as nat) == u * v);
    lemma_mod_multiples_vanish(k, (x * i) as int, mi);
}

/// Extended Euclid: the inverse of `a` modulo `m`, in `[0, m)`.
///
/// It exists exactly when `gcd(m, a) == 1`; otherwise the result is
/// `ModularInverseUnavailable`.
pub fn modinv(a: &Nat, m: &Nat) -> (r: CryptoResult<Nat>)
    requires
        m@ > 0 || a@ != 1,
    ensures
        r is Ok <==> spec_gcd(m@, a@) == 1,
        r matches Ok(inv) ==> inv@ < m@ && (a@ * inv@) % m@ == 1nat % m@ && inv@ == inv_mod(a@, m@),
        r matches Err(e) ==> e == CryptoError::ModularInverseUnavailable,
{
    let mut t = Int::zero();
    let mut new_t = Int::from_i64(1);
    let mut r = m.copy();
    let mut new_r = a.copy();
    let ghost mut s: int = 1;
    let ghost mut new_s: int = 0;

    while !big_is_zero(&new_r)
        invariant
            r@ as int == (m@ as int) * s + (a@ as int) * t@,
            new_r@ as int == (m@ as int) * new_s + (a@ as int) * new_t@,
            spec_gcd(r@, new_r@) == spec_gcd(m@, a@),
        decreases new_r@,
    {
        let q = big_div(&r, &new_r);
        let q_new_r = big_mul(&q, &new_r);
        proof {
            lemma_fundamental_div_mod(r@ as int, new_r@ as int);
            lemma_mul_is_commutative(q@ as int, new_r@ as int);
            lemma_mod_bound(r@ as int, new_r@ as int);
        }
        let temp_r = big_sub(&r, &q_new_r);
        let qi = Int::from_nat(&q);
        let temp_t = t.sub(&qi.mul(&new_t));
        proof {
            let ghost qq = q@ as int;
            lemma_bezout_step(r@ as int, new_r@ as int, qq, m@ as int, a@ as int, s, t@, new_s, new_t@);
            let ns = s - qq * new_s;
            s = new_s;
            new_s = ns;
        }
        t = new_t;
        new_t = temp_t;
        r = new_r;
        new_r = temp_r;
    }

    if !big_eq(&r, &Nat::one()) {
        return Err(CryptoError::ModularInverseUnavailable);
    }
    proof {
        if m@ == 0 {
            assert(0nat % a@ == 0);
            assert(spec_gcd(a@, 0) == a@);
            assert(spec_gcd(0, a@) == a@);
        }
    }
    let res = normalize_mod(&t, m);
    proof {
        lemma_bezout_inverse(a@ as int, m@ as int, s, t@);
        assert(is_inverse_mod(a@, res@, m@));
        let c = inv_mod(a@, m@);
        assert(is_inverse_mod(a@, c, m@));
        lemma_inverse_unique(a@, res@, c, m@);
    }
    Ok(res)
}

/// Bit length used for the plaintext bound `2^B`: `bitlen(n^2) - 2`.
///
/// Fails when `n^2` has fewer than three bits.
pub fn derive_b_bits_from_n2(n2: &Nat) -> (r: CryptoResult<usize>)
    ensures
        r is Ok <==> bit_len(n2@) >= 3 && bit_len(n2@) <= usize::MAX,
        r matches Ok(b) ==> b == bit_len(n2@) - 2,
        r matches Err(e) ==> e is InvalidInput,
{
    let bits_u64 = big_bits(n2);
    if bits_u64 > usize::MAX as u64 {
        return Err(CryptoError::InvalidInput("n^2 bit length too large"));
    }
    let bits = bits_u64 as usize;
    if bits < 3 {
        return Err(CryptoError::InvalidInput("n^2 too small to derive B"));
    }
    Ok(bits - 2)
}


/// `p` is a prime number.
pub open spec fn is_prime(p: nat) -> bool {
    p > 1 && forall|d: nat| 1 < d < p ==> #[trigger] (p % d) != 0
}

/// Upper bound (exclusive) of the small-prime table.
pub open spec fn small_prime_limit() -> nat {
    65536
}

/// Divisibility is transitive.
proof fn lemma_mod_zero_trans(i: nat, d: nat, f: nat)
    requires
        d > 0,
        f > 0,
        i % d == 0,
        d % f == 0,
    ensures
        i % f == 0,
{
    lemma_fundamental_div_mod(i as int, d as int);
    lemma_fundamental_div_mod(d as int, f as int);
    let a = (i / d) as int;
    let b = (d / f) as int;
    assert(i as int == (a * b) * (f as int)) by (nonlinear_arith)
        requires
            i as int == (d as int) * a,
            d as int == (f as int) * b,
    ;
    lemma_mod_multiples_basic(a * b, f as int);
}

/// The least divisor above one of `i`, searched from `d` upwards.
proof fn lemma_least_divisor(i: nat, d: nat) -> (p: nat)
    requires
        1 < d <= i,
        forall|e: nat| 1 < e < d ==> #[trigger] (i % e) != 0,
    ensures
        1 < p <= i,
        i % p == 0,
        forall|e: nat| 1 < e < p ==> #[trigger] (i % e) != 0,
    decreases i - d,
{
    if i % d == 0 {
        d
    } else {
        if d == i {
            lemma_mod_self_0(i as int);
        }
        lemma_least_divisor(i, d + 1)
    }
}

/// A number above one that is not prime has a prime factor whose square does not exceed it.
proof fn lemma_small_prime_factor(i: nat) -> (p: nat)
    requires
        i > 1,
        !is_prime(i),
    ensures
        is_prime(p),
        p < i,
        p * p <= i,
        i % p == 0,
{
    lemma_mod_self_0(i as int);
    let p = lemma_least_divisor(i, 2);
    assert forall|f: nat| 1 < f < p implies #[trigger] (p % f) != 0 by {
        if p % f == 0 {
            lemma_mod_zero_trans(i, p, f);
        }
    }
    if p == i {
        assert(is_prime(i));
    }
    lemma_fundamental_div_mod(i as int, p as int);
    let e = i / p;
    assert(i == p * e);
    assert(e > 1) by {
        if e <= 1 {
            assert(p * e <= p) by (nonlinear_arith)
                requires
                    e <= 1,
            ;
        }
    }
    assert(i % e == 0) by {
        lemma_mul_is_commutative(p as int, e as int);
        lemma_mod_multiples_basic(p as int, e as int);
    }
    assert(e < i) by (nonlinear_arith)
        requires
            i == p * e,
            p > 1,
            e > 1,
    ;
    assert(e >= p);
    assert(p * p <= p * e) by (nonlinear_arith)
        requires
            e >= p,
    ;
    p
}

/// An odd multiple of `i` in `[j, j + 2i)`, where `j` is an odd multiple of `i`, is `j` itself.
proof fn lemma_next_odd_multiple(i: nat, j: nat, k: nat)
    requires
        i > 0,
        i % 2 == 1,
        j % i == 0,
        j % 2 == 1,
        k % i == 0,
        k % 2 == 1,
        j <= k < j + 2 * i,
    ensures
        k == j,
{
    let x = (k - j) as nat;
    lemma_sub_mod_noop(k as int, j as int, i as int);
    lemma_small_mod(0, i);
    assert(x % i == 0);
    lemma_fundamental_div_mod(x as int, i as int);
    let q = x / i;
    assert(x == i * q);
    assert(q < 2) by {
        if q >= 2 {
            assert(i * q >= i * 2) by (nonlinear_arith)
                requires
                    q >= 2,
            ;
        }
    }
    lemma_mul_basics(i as int);
    if q == 0 {
        assert(x == 0);
    }
    if q == 1 {
        assert(x == i);
        assert(k == j + i);
        assert((j + i) % 2 == 0);
    }
}

/// The odd primes below `2^16`, in increasing order (sieve of Eratosthenes).
///
/// `2` is left out: the safe-prime search only sieves odd candidates.
pub fn small_odd_primes() -> (r: Vec<u64>)
    ensures
        forall|k: int| 0 <= k < r.len() ==> 3 <= #[trigger] r[k] < small_prime_limit() && is_prime(r[k] as nat),
        forall|k1: int, k2: int| 0 <= k1 < k2 < r.len() ==> r[k1] < r[k2],
        forall|p: nat| 3 <= p < small_prime_limit() && #[trigger] is_prime(p) ==> r@.contains(p as u64),
{
    let limit: usize = 65536;
    let mut composite: Vec<bool> = Vec::new();
    while composite.len() < limit
        invariant
            composite.len() <= limit,
            limit == 65536,
            forall|j: int| 0 <= j < composite.len() ==> !composite[j],
        decreases limit - composite.len(),
    {
        composite.push(false);
    }
    let mut primes: Vec<u64> = Vec::new();
    let mut i: usize = 3;
    while i < limit
        invariant
            limit == 65536,
            composite.len() == limit,
            3 <= i <= limit + 1,
            i % 2 == 1,
            forall|j: nat| j < limit && #[trigger] composite@[j as int] ==> !is_prime(j),
            forall|j: nat, p: nat|
                #![trigger composite@[j as int], is_prime(p)]
                j < limit && j % 2 == 1 && 3 <= p < i && is_prime(p) && p * p <= j && j % p == 0
                    ==> composite@[j as int],
            forall|k: int| 0 <= k < primes.len() ==> 3 <= #[trigger] primes[k] < i && is_prime(primes[k] as nat),
            forall|k1: int, k2: int| 0 <= k1 < k2 < primes.len() ==> primes[k1] < primes[k2],
            forall|p: nat| 3 <= p < i && #[trigger] is_prime(p) ==> primes@.contains(p as u64),
        decreases limit + 1 - i,
    {
        let ghost prev_primes = primes@;
        if !composite[i] {
            proof {
                if !is_prime(i as nat) {
                    let p = lemma_small_prime_factor(i as nat);
                    if p == 2 {
                        assert((i as nat) % 2 == 0);
                    }
                    assert(composite@[i as int]);
                }
            }
            primes.push(i as u64);
            proof {
                assert(primes@[primes.len() - 1] == i as u64);
                assert forall|p: nat| 3 <= p < i + 2 && #[trigger] is_prime(p) implies primes@.contains(p as u64) by {
                    if p < i {
                        assert(prev_primes.contains(p as u64));
                        let k = choose|k: int| 0 <= k < prev_primes.len() && prev_primes[k] == p as u64;
                        assert(primes@[k] == p as u64);
                    } else if p == i {
                        assert(primes@[primes.len() - 1] == p as u64);
                    } else {
                        assert(p % 2 == 0);
                    }
                }
            }
            proof {
                assert(i * i <= 65535 * 65535) by (nonlinear_arith)
                    requires
                        i <= 65535,
                ;
                assert(i < i * i) by (nonlinear_arith)
                    requires
                        i >= 3,
                ;
            }
            let mut j: usize = i * i;
            let ghost old_comp = composite@;
            proof {
                lemma_mod_multiples_basic(i as int, i as int);
                lemma_odd_square(i as nat);
            }
            while j < limit
                invariant
                    limit == 65536,
                    composite.len() == limit,
                    3 <= i < limit,
                    i % 2 == 1,
                    is_prime(i as nat),
                    i * i <= j,
                    (j as nat) % (i as nat) == 0,
                    j % 2 == 1,
                    i < i * i,
                    old_comp.len() == limit,
                    forall|x: int| 0 <= x < limit && #[trigger] old_comp[x] ==> composite@[x],
                    forall|x: nat| x < limit && #[trigger] composite@[x as int] ==> !is_prime(x),
                    forall|x: nat|
                        #![trigger composite@[x as int]]
                        x < limit && x % 2 == 1 && i * i <= x < j && x % (i as nat) == 0 ==> composite@[x as int],
                decreases limit + 2 * i - j,
            {
                proof {
                    assert(!is_prime(j as nat)) by {
                        assert(1 < i < j);
                        assert((j as nat) % (i as nat) == 0);
                    }
                }
                composite[j] = true;
                proof {
                    assert forall|x: nat|
                        x < limit && x % 2 == 1 && i * i <= x < j + 2 * i && x % (i as nat) == 0
                        implies #[trigger] composite@[x as int] by {
                        if x >= j {
                            lemma_next_odd_multiple(i as nat, j as nat, x);
                        }
                    }
                    lemma_mod_multiples_vanish(2, j as int, i as int);
                    assert((j + 2 * i) as int == 2 * (i as int) + j as int);
                }
                j = j + 2 * i;
            }
            proof {
                assert forall|x: nat, p: nat|
                    #![trigger composite@[x as int], is_prime(p)]
                    x < limit && x % 2 == 1 && 3 <= p < i + 2 && is_prime(p) && p * p <= x && x % p == 0
                        implies composite@[x as int] by {
                    if p < i {
                        assert(old_comp[x as int]);
                    } else if p == i {
                    } else {
                        assert(p % 2 == 0);
                    }
                }
            }
        } else {
            proof {
                assert forall|x: nat, p: nat|
                    #![trigger composite@[x as int], is_prime(p)]
                    x < limit && x % 2 == 1 && 3 <= p < i + 2 && is_prime(p) && p * p <= x && x % p == 0
                        implies composite@[x as int] by {
                    if p == i {
                        assert(!is_prime(i as nat));
                    } else if p == i + 1 {
                        assert(p % 2 == 0);
                    }
                }
                assert forall|p: nat| 3 <= p < i + 2 && #[trigger] is_prime(p) implies primes@.contains(p as u64) by {
                    if p == i {
                        assert(!is_prime(i as nat));
                    } else if p == i + 1 {
                        assert(p % 2 == 0);
                    }
                }
            }
        }
        i = i + 2;
    }
    proof {
        assert forall|k: int| 0 <= k < primes.len() implies #[trigger] primes[k] < small_prime_limit() by {
            if primes[k] == 65536 {
                assert((primes[k] as nat) % 2 == 0);
            }
        }
    }
    primes
}

/// The square of an odd number is odd.
proof fn lemma_odd_square(i: nat)
    requires
        i % 2 == 1,
    ensures
        (i * i) % 2 == 1,
{
    lemma_fundamental_div_mod(i as int, 2);
    let a = (i / 2) as int;
    assert((i * i) as int == (2 * a * a + 2 * a) * 2 + 1) by (nonlinear_arith)
        requires
            i as int == 2 * a + 1,
    ;
    lemma_mod_multiples_vanish(2 * a * a + 2 * a, 1, 2);
    lemma_small_mod(1, 2);
}

/// Strikes out `alive[first]`, `alive[first + step]`, `alive[first + 2 step]`, ...
pub fn strike_out(alive: &mut [bool], first: u64, step: u64)
    requires
        step > 0,
        step <= usize::MAX,
        first <= usize::MAX,
        old(alive)@.len() + step <= usize::MAX,
    ensures
        final(alive)@.len() == old(alive)@.len(),
        forall|k: int|
            0 <= k < old(alive)@.len() ==> #[trigger] final(alive)@[k] == (old(alive)@[k] && !(k >= first
                && (k - first) % (step as int) == 0)),
{
    let mut idx: usize = first as usize;
    let step: usize = step as usize;
    proof {
        lemma_small_mod(0, step as nat);
    }
    while idx < alive.len()
        invariant
            alive@.len() == old(alive)@.len(),
            step > 0,
            old(alive)@.len() + step <= usize::MAX,
            idx >= first,
            (idx - first) % (step as int) == 0,
            forall|k: int|
                0 <= k < alive@.len() ==> #[trigger] alive@[k] == (old(alive)@[k] && !(k >= first && k < idx
                    && (k - first) % (step as int) == 0)),
        decreases alive@.len() + step - idx,
    {
        alive[idx] = false;
        proof {
            assert forall|k: int| 0 <= k < alive@.len() implies #[trigger] alive@[k] == (old(alive)@[k] && !(k >= first
                && k < idx + step && (k - first) % (step as int) == 0)) by {
                if k > idx && k < idx + step && (k - first) % (step as int) == 0 {
                    lemma_next_step(k - first, idx - first, step as int);
                }
            }
            lemma_mod_multiples_vanish(1, (idx - first) as int, step as int);
        }
        idx = idx + step;
    }
}

/// Above a multiple `b` of `s`, the next multiple is `b + s`.
proof fn lemma_next_step(a: int, b: int, s: int)
    requires
        s > 0,
        0 <= b < a < b + s,
        b % s == 0,
    ensures
        a % s != 0,
{
    lemma_fundamental_div_mod(a, s);
    lemma_fundamental_div_mod(b, s);
    let qa = a / s;
    let qb = b / s;
    if a % s == 0 {
        assert(s * qa > s * qb);
        assert(qa > qb) by (nonlinear_arith)
            requires
                s * qa > s * qb,
                s > 0,
        ;
        assert(s * qa >= s * qb + s) by (nonlinear_arith)
            requires
                qa >= qb + 1,
                s > 0,
        ;
    }
}


/// Setting bit `k` of a number below `2^(k+1)` puts it in `[2^k, 2^(k+1))`.
proof fn lemma_set_top_bit(x: nat, k: nat)
    requires
        x < pow2(k + 1),
    ensures
        pow2(k) <= (if bit_at(x, k) { x } else { x + pow2(k) }) < pow2(k + 1),
{
    lemma_pow2_unfold(k + 1);
    lemma_pow2_pos(k);
    lemma_mul_basics(pow2(k) as int);
    let q = x / pow2(k);
    lemma_fundamental_div_mod(x as int, pow2(k) as int);
    lemma_mod_bound(x as int, pow2(k) as int);
    assert(q < 2) by {
        if q >= 2 {
            assert(pow2(k) * q >= pow2(k) * 2) by (nonlinear_arith)
                requires
                    q >= 2,
            ;
        }
    }
    if q == 1 {
        lemma_small_mod(1, 2);
    } else {
        assert(q == 0);
        lemma_small_mod(0, 2);
        lemma_mul_basics(pow2(k) as int);
    }
}

/// Setting bit 0 makes a number odd and keeps it below an even bound.
proof fn lemma_set_low_bit(x: nat, b: nat)
    requires
        b >= 1,
        x < pow2(b),
    ensures
        (if bit_at(x, 0) { x } else { x + 1 }) % 2 == 1,
        (if bit_at(x, 0) { x } else { x + 1 }) < pow2(b),
{
    lemma2_to64();
    lemma_pow2_unfold(b);
    assert(x / pow2(0) == x);
}

/// A random odd number of exactly `bits` bits (top bit forced to one).
///
/// Fails when `bits < 2`.
pub fn random_odd_with_bits(bits: usize) -> (r: CryptoResult<Nat>)
    ensures
        r is Ok <==> bits >= 2,
        r matches Ok(x) ==> x@ % 2 == 1 && pow2((bits - 1) as nat) <= x@ < pow2(bits as nat),
        r matches Err(e) ==> e is InvalidInput,
{
    if bits < 2 {
        return Err(CryptoError::InvalidInput("prime bits must be >= 2"));
    }
    let x0 = random_bits(bits);
    let x1 = big_set_bit(&x0, (bits - 1) as u64);
    proof {
        assert((bits - 1) as nat + 1 == bits as nat);
        lemma_set_top_bit(x0@, (bits - 1) as nat);
    }
    let x2 = big_set_bit(&x1, 0);
    proof {
        lemma_set_low_bit(x1@, bits as nat);
        lemma2_to64();
    }
    Ok(x2)
}

/// Miller-Rabin probabilistic primality test with `rounds` random bases.
///
/// Numbers below two are rejected, two and three accepted, other even
/// numbers rejected; an odd number above three is accepted unless one of
/// the random bases witnesses that it is composite. A prime is never
/// rejected, and an accepted odd number above three has passed the strong
/// test for at least one base when a round was asked for.
pub fn is_probable_prime(n: &Nat, rounds: usize) -> (r: bool)
    ensures
        n@ < 2 ==> !r,
        n@ == 2 || n@ == 3 ==> r,
        n@ > 3 && n@ % 2 == 0 ==> !r,
        n@ > 3 && n@ % 2 == 1 && rounds == 0 ==> r,
        is_prime(n@) ==> r,
        r && n@ > 3 && rounds >= 1 ==> passes_miller_rabin(n@),
{
    let two = Nat::from_u64(2);
    let three = Nat::from_u64(3);
    if big_lt(n, &two) {
        return false;
    }
    if big_eq(n, &two) || big_eq(n, &three) {
        return true;
    }
    if big_is_zero(&big_rem(n, &two)) {
        return false;
    }
    let one = Nat::one();
    let n_minus_one = big_sub(n, &one);
    let mut d = n_minus_one.copy();
    let mut s: u64 = 0;
    let nbits: u64 = big_bits(n);
    proof {
        lemma_bit_len_range(n@);
        lemma2_to64();
    }
    while big_is_zero(&big_rem(&d, &two))
        invariant
            d@ * pow2(s as nat) == n@ - 1,
            two@ == 2,
            n@ > 3,
            d@ > 0,
            nbits == bit_len(n@),
            n@ < pow2(nbits as nat),
        decreases d@,
    {
        let ghost d_old = d@;
        assert(d_old % 2 == 0);
        d = big_shr(&d, 1);
        proof {
            lemma2_to64();
            assert(d@ == d_old / 2);
            lemma_fundamental_div_mod(d_old as int, 2);
            lemma_pow2_unfold(s as nat + 1);
            assert(d@ * 2 == d_old);
            assert(d@ * pow2(s as nat + 1) == d_old * pow2(s as nat)) by (nonlinear_arith)
                requires
                    d@ * 2 == d_old,
                    pow2(s as nat + 1) == 2 * pow2(s as nat),
            ;
            assert(pow2(s as nat + 1) <= n@ - 1) by (nonlinear_arith)
                requires
                    d@ * pow2(s as nat + 1) == n@ - 1,
                    d@ >= 1,
            ;
            if s as nat + 1 >= nbits as nat {
                if s as nat + 1 > nbits as nat {
                    lemma_pow2_strictly_increases(nbits as nat, s as nat + 1);
                }
            }
        }
        s = s + 1;
    }
    let n_minus_two = big_sub(n, &two);
    let ghost dv = d@;
    let ghost sv = s as nat;
    let mut round: usize = 0;
    while round < rounds
        invariant
            n@ > 3,
            n@ % 2 == 1,
            n_minus_two@ == n@ - 2,
            two@ == 2,
            n_minus_one@ == n@ - 1,
            one@ == 1,
            d@ == dv && s == sv,
            dv % 2 == 1,
            dv * pow2(sv) == n@ - 1,
            round >= 1 ==> passes_miller_rabin(n@),
        decreases rounds - round,
    {
        let a = random_range(&two, &n_minus_two);
        let mut x = big_modpow(&a, &d, n);
        proof {
            lemma_mr_term_first(n@, a@, dv);
        }
        if big_eq(&x, &one) || big_eq(&x, &n_minus_one) {
            proof {
                if x@ == n@ - 1 {
                    assert(mr_term(n@, a@, dv, 0) == n@ - 1);
                    assert(sv > 0) by {
                        if sv == 0 {
                            lemma2_to64();
                        }
                    }
                }
                assert(strong_base(n@, a@, dv, sv));
            }
            round = round + 1;
            continue;
        }
        let mut witness_loop_ok = false;
        let mut j: u64 = 1;
        while j < s && !witness_loop_ok
            invariant
                n@ > 3,
                two@ == 2,
                n_minus_one@ == n@ - 1,
                s == sv,
                1 <= j,
                j <= s || s == 0,
                witness_loop_ok ==> strong_base(n@, a@, dv, sv),
                !witness_loop_ok ==> x@ == mr_term(n@, a@, dv, (j - 1) as nat),
                !witness_loop_ok ==> mr_term(n@, a@, dv, 0) != 1,
                !witness_loop_ok ==> forall|t: nat| t < j ==> #[trigger] mr_term(n@, a@, dv, t) != n@ - 1,
            decreases s - j,
        {
            let ghost x_old = x@;
            x = big_modpow(&x, &two, n);
            proof {
                lemma_mr_term_square(n@, a@, dv, (j - 1) as nat);
                assert((j - 1) as nat + 1 == j as nat);
                assert(x@ == mr_term(n@, a@, dv, j as nat));
            }
            if big_eq(&x, &n_minus_one) {
                witness_loop_ok = true;
                proof {
                    assert(mr_term(n@, a@, dv, j as nat) == n@ - 1);
                    assert(strong_base(n@, a@, dv, sv));
                }
            }
            j = j + 1;
        }
        if !witness_loop_ok {
            proof {
                if is_prime(n@) {
                    assert forall|t: nat| t < sv implies #[trigger] mr_term(n@, a@, dv, t) != n@ - 1 by {}
                    lemma_prime_passes(n@, a@, dv, sv);
                }
            }
            return false;
        }
        round = round + 1;
    }
    true
}

/// `x == y + q k` gives equal remainders modulo `q`.
proof fn lemma_congruent(x: int, y: int, q: int, k: int)
    requires
        q > 0,
        x == y + q * k,
    ensures
        x % q == y % q,
{
    lemma_mod_multiples_vanish(k, y, q);
}

/// A number whose remainder modulo `q` is `f` is struck by a stride of
/// `q` that starts at `f`.
proof fn lemma_struck(i: int, f: int, q: int)
    requires
        q > 0,
        i >= 0,
        i % q == f,
    ensures
        i >= f,
        (i - f) % q == 0,
{
    lemma_fundamental_div_mod(i, q);
    let m = i / q;
    assert(m >= 0) by {
        if m < 0 {
            assert(q * m <= -q) by (nonlinear_arith)
                requires
                    q > 0,
                    m < 0,
            ;
        }
    }
    assert(q * m >= 0) by (nonlinear_arith)
        requires
            q > 0,
            m >= 0,
    ;
    lemma_mod_multiples_basic(m, q);
    assert(i - f == m * q) by (nonlinear_arith)
        requires
            i == q * m + f,
    ;
}

/// The sieve's stride for `p' = start + 2i`: with `inv = (q + 1) / 2`, the
/// inverse of `2` modulo the odd `q`, `q | start + 2i` puts `i` at
/// `(-start) inv mod q`.
proof fn lemma_sieve_stride_a(start: nat, i: nat, q: nat, r: nat, neg: nat, inv: nat, first: nat)
    requires
        q >= 3,
        q % 2 == 1,
        r == start % q,
        neg == ((q - r % q) as nat) % q,
        inv == (q + 1) / 2,
        first == (neg * inv) % q,
        (start + 2 * i) % q == 0,
    ensures
        i % q == first,
{
    let qi = q as int;
    lemma_mod_bound(start as int, qi);
    lemma_small_mod(r, q);
    lemma_fundamental_div_mod(start as int, qi);
    let a = (start as int) / qi;
    lemma_fundamental_div_mod((start + 2 * i) as int, qi);
    let b = ((start + 2 * i) as int) / qi;
    lemma_fundamental_div_mod((q - r) as int, qi);
    let c = ((q - r) as int) / qi;
    assert(r % q == r);
    assert(2 * inv == q + 1);
    assert(neg == ((q - r) as int) % qi);
    assert((q - r) as int == qi * c + neg);
    assert(neg == qi * (1 - c) - r) by (nonlinear_arith)
        requires
            (q - r) as int == qi * c + neg,
            qi == q,
    ;
    let m1 = b - a - (1 - c);
    assert(2 * i == qi * m1 + neg) by (nonlinear_arith)
        requires
            start == qi * a + r,
            start + 2 * i == qi * b,
            neg == qi * (1 - c) - r,
            m1 == b - a - (1 - c),
    ;
    let k = m1 * inv - i;
    assert(i == neg * inv + qi * k) by (nonlinear_arith)
        requires
            2 * i == qi * m1 + neg,
            2 * inv == qi + 1,
            k == m1 * inv - i,
    ;
    lemma_congruent(i as int, (neg * inv) as int, qi, k);
}

/// The sieve's stride for `p = 2 p' + 1 = 2 start + 4 i + 1`: with
/// `inv4 = inv^2 mod q`, the inverse of `4`, `q | p` puts `i` at
/// `-(2 start + 1) inv4 mod q`.
proof fn lemma_sieve_stride_b(start: nat, i: nat, q: nat, r: nat, t: nat, neg_t: nat, inv: nat, inv4: nat, first: nat)
    requires
        q >= 3,
        q % 2 == 1,
        r == start % q,
        t == (2 * (r % q) + 1) % q,
        t < q,
        neg_t == ((q - t) as nat) % q,
        inv == (q + 1) / 2,
        inv4 == (inv * inv) % q,
        first == (neg_t * inv4) % q,
        (2 * (start + 2 * i) + 1) % q == 0,
    ensures
        i % q == first,
{
    let qi = q as int;
    lemma_mod_bound(start as int, qi);
    lemma_small_mod(r, q);
    lemma_fundamental_div_mod(start as int, qi);
    let a = (start as int) / qi;
    lemma_fundamental_div_mod((2 * (start + 2 * i) + 1) as int, qi);
    let b = ((2 * (start + 2 * i) + 1) as int) / qi;
    lemma_fundamental_div_mod((2 * r + 1) as int, qi);
    let e = ((2 * r + 1) as int) / qi;
    lemma_mod_bound((2 * r + 1) as int, qi);
    lemma_fundamental_div_mod((q - t) as int, qi);
    let c = ((q - t) as int) / qi;
    lemma_fundamental_div_mod((inv * inv) as int, qi);
    let f = ((inv * inv) as int) / qi;
    assert(r % q == r);
    assert(2 * inv == q + 1);
    assert(neg_t == ((q - t) as int) % qi);
    assert((q - t) as int == qi * c + neg_t);
    assert(neg_t == qi * (1 - c) - t) by (nonlinear_arith)
        requires
            (q - t) as int == qi * c + neg_t,
            qi == q,
    ;
    let m1 = b - 2 * a - e - (1 - c);
    assert(4 * i == qi * m1 + neg_t) by (nonlinear_arith)
        requires
            start == qi * a + r,
            2 * (start + 2 * i) + 1 == qi * b,
            2 * r + 1 == qi * e + t,
            neg_t == qi * (1 - c) - t,
            m1 == b - 2 * a - e - (1 - c),
    ;
    let w = inv * inv;
    assert(4 * w == qi * (qi + 2) + 1) by (nonlinear_arith)
        requires
            2 * inv == qi + 1,
            w == inv * inv,
    ;
    assert(i * (4 * w) == qi * (m1 * w + neg_t * f) + neg_t * inv4) by (nonlinear_arith)
        requires
            4 * i == qi * m1 + neg_t,
            w == qi * f + inv4,
    ;
    let k = m1 * w + neg_t * f - i * (qi + 2);
    assert(i == neg_t * inv4 + qi * k) by (nonlinear_arith)
        requires
            i * (4 * w) == qi * (m1 * w + neg_t * f) + neg_t * inv4,
            4 * w == qi * (qi + 2) + 1,
            k == m1 * w + neg_t * f - i * (qi + 2),
    ;
    lemma_congruent(i as int, (neg_t * inv4) as int, qi, k);
}

/// The sieve's invariant: after the primes `primes[..k]`, a live index
/// `i` gives `p' = start + 2i` and `p = 2p' + 1` with none of those primes
/// as a divisor.
spec fn sieve_clear(alive: Seq<bool>, primes: Seq<u64>, k: int, start: nat) -> bool {
    forall|t: int, i: int|
        #![trigger alive[i], primes[t]]
        0 <= t < k && 0 <= i < alive.len() && alive[i] ==> (start + 2 * i) % (primes[t] as int) != 0 && (2 * (
            start + 2 * i) + 1) % (primes[t] as int) != 0
}

/// What a generated safe prime `p = 2p' + 1` has passed: no odd prime below
/// `2^16` divides `p'` or `p`, `p` passed the Miller-Rabin test for some
/// base, and so did `p'` when it is above three.
pub open spec fn passed_safe_prime_tests(p: nat) -> bool {
    let h = ((p - 1) / 2) as nat;
    &&& passes_miller_rabin(p)
    &&& h > 3 ==> passes_miller_rabin(h)
    &&& forall|q: nat| 3 <= q < small_prime_limit() && #[trigger] is_prime(q) ==> h % q != 0 && p % q != 0
}

/// Generates a safe prime `p = 2p' + 1` of exactly `bits` bits, where `p'`
/// (of `bits - 1` bits) and `p` both pass 32 rounds of Miller-Rabin.
///
/// A random odd start is drawn and the segment `start, start+2, ...` is
/// sieved with the small odd primes on both `p'` and `2p'+1` before the
/// Miller-Rabin tests. Fails when `bits < 3`, or after an (unreachable in
/// practice) budget of candidates or segments.
pub fn generate_safe_prime(bits: usize) -> (r: CryptoResult<Nat>)
    ensures
        bits < 3 ==> r == Err::<Nat, CryptoError>(CryptoError::InvalidInput("safe prime bits must be >= 3")),
        r matches Err(e) ==> (e is InvalidInput && bits < 3) || e == CryptoError::PrimeGenerationFailed,
        r matches Ok(p) ==> bit_len(p@) == bits && p@ % 4 == 3 && bit_len(((p@ - 1) / 2) as nat)
            == bits - 1,
        r matches Ok(p) ==> passed_safe_prime_tests(p@),
{
    if bits < 3 {
        return Err(CryptoError::InvalidInput("safe prime bits must be >= 3"));
    }
    let one = Nat::one();
    let two = Nat::from_u64(2);
    let target_bits: u64 = (bits - 1) as u64;
    let max_candidates: u64 = 0x100_0000_0000;
    let mut examined: u64 = 0;
    let mut segments: u64 = 0;
    let segment_len: usize = 65536;
    while segments < max_candidates
        invariant
            bits >= 3,
            target_bits == bits - 1,
            one@ == 1,
            two@ == 2,
            segment_len == 65536,
        decreases max_candidates - segments,
    {
        segments = segments + 1;
        let start = match random_odd_with_bits(bits - 1) {
            Ok(v) => v,
            Err(e) => return Err(e),
        };
        let mut alive: Vec<bool> = Vec::new();
        while alive.len() < segment_len
            invariant
                alive.len() <= segment_len,
            decreases segment_len - alive.len(),
        {
            alive.push(true);
        }
        let primes = small_odd_primes();
        let ghost sv = start@;
        let mut k: usize = 0;
        while k < primes.len()
            invariant
                alive.len() == segment_len,
                segment_len == 65536,
                forall|t: int| 0 <= t < primes.len() ==> 3 <= #[trigger] primes[t] < small_prime_limit() && is_prime(primes[t] as nat),
                start@ == sv,
                sieve_clear(alive@, primes@, k as int, sv),
            decreases primes.len() - k,
        {
            let q: u64 = primes[k];
            assert(3 <= q < 65536);
            let modulus = Nat::from_u64(q);
            let rem = big_rem(&start, &modulus);
            proof {
                lemma_mod_bound(start@ as int, q as int);
            }
            let r: u64 = big_to_u64(&rem);
            let inv2: u64 = (q + 1) / 2;
            assert(inv2 <= 32768);
            assert(inv2 * inv2 <= 32768 * 32768) by (nonlinear_arith)
                requires
                    inv2 <= 32768,
            ;
            let neg_r: u64 = (q - r % q) % q;
            assert(neg_r * inv2 <= 65536 * 32768) by (nonlinear_arith)
                requires
                    inv2 <= 32768,
                    neg_r < q,
                    q < 65536,
            ;
            let inv4: u64 = (inv2 * inv2) % q;
            let first_a: u64 = (neg_r * inv2) % q;
            let ghost before_a = alive@;
            strike_out(alive.as_mut_slice(), first_a, q);
            let t: u64 = (2 * (r % q) + 1) % q;
            let neg_t: u64 = (q - t) % q;
            assert(neg_t * inv4 <= 65536 * 65536) by (nonlinear_arith)
                requires
                    inv4 < q,
                    neg_t < q,
                    q < 65536,
            ;
            let first_b: u64 = (neg_t * inv4) % q;
            let ghost before_b = alive@;
            strike_out(alive.as_mut_slice(), first_b, q);
            proof {
                assert(is_prime(q as nat));
                assert(q % 2 == 1) by {
                    if q % 2 == 0 {
                        assert((q as nat) % 2 == 0);
                        assert(1 < 2 < q);
                    }
                }
                assert forall|u: int, i: int|
                    #![trigger alive@[i], primes@[u]]
                    0 <= u < k + 1 && 0 <= i < alive@.len() && alive@[i] implies (sv + 2 * i) % (primes@[u] as int) != 0
                        && (2 * (sv + 2 * i) + 1) % (primes@[u] as int) != 0 by {
                    assert(before_b[i]);
                    assert(before_a[i]);
                    if u < k {
                        assert(before_a[i] && primes@[u] == primes@[u]);
                    } else {
                        assert(primes@[u] == q);
                        if (sv + 2 * i) % (q as int) == 0 {
                            lemma_sieve_stride_a(sv, i as nat, q as nat, r as nat, neg_r as nat, inv2 as nat, first_a as nat);
                            lemma_struck(i, first_a as int, q as int);
                        }
                        if (2 * (sv + 2 * i) + 1) % (q as int) == 0 {
                            lemma_sieve_stride_b(sv, i as nat, q as nat, r as nat, t as nat, neg_t as nat, inv2 as nat, inv4 as nat, first_b as nat);
                            lemma_struck(i, first_b as int, q as int);
                        }
                    }
                }
            }
            k = k + 1;
        }
        let mut i: usize = 0;
        while i < alive.len()
            invariant
                bits >= 3,
                target_bits == bits - 1,
                one@ == 1,
                two@ == 2,
                start@ % 2 == 1,
                start@ == sv,
                forall|t: int| 0 <= t < primes.len() ==> 3 <= #[trigger] primes[t] < small_prime_limit(),
                forall|q: nat| 3 <= q < small_prime_limit() && #[trigger] is_prime(q) ==> primes@.contains(q as u64),
                sieve_clear(alive@, primes@, primes@.len() as int, sv),
            decreases alive.len() - i,
        {
            if alive[i] {
                if examined >= max_candidates {
                    return Err(CryptoError::PrimeGenerationFailed);
                }
                examined = examined + 1;
                let p_prime = big_add(&start, &big_mul(&two, &Nat::from_u64(i as u64)));
                if big_bits(&p_prime) == target_bits && is_probable_prime(&p_prime, 32) {
                    let p = big_add(&big_mul(&two, &p_prime), &one);
                    if is_probable_prime(&p, 32) {
                        proof {
                            lemma_bit_len_double_plus_one(p_prime@);
                            lemma_fundamental_div_mod(p_prime@ as int, 2);
                            let h = (p_prime@ / 2) as int;
                            assert(p@ as int == 4 * h + 3);
                            lemma_fundamental_div_mod_converse(p@ as int, 4, h, 3);
                            assert((p@ - 1) / 2 == p_prime@);
                            assert forall|q: nat| 3 <= q < small_prime_limit() && is_prime(q) implies p_prime@ % q != 0 && p@
                                % q != 0 by {
                                assert(primes@.contains(q as u64));
                                let t = choose|t: int| 0 <= t < primes@.len() && primes@[t] == q as u64;
                                assert(alive@[i as int] && primes@[t] == q as u64);
                            }
                        }
                        return Ok(p);
                    }
                }
            }
            i = i + 1;
        }
    }
    Err(CryptoError::PrimeGenerationFailed)
}

/// `n` is a product of two distinct numbers of `bits / 2` bits each, both
/// `3 mod 4` and both having passed the safe-prime tests: the shape of a
/// modulus made by `generate_safe_rsa_modulus`.
pub open spec fn safe_modulus_shape(n: nat, bits: nat) -> bool {
    exists|p: nat, q: nat|
        #![trigger bit_len(p), bit_len(q)]
        n == p * q && p != q && p % 4 == 3 && q % 4 == 3 && bit_len(p) == bits / 2 && bit_len(q)
            == bits / 2 && passed_safe_prime_tests(p) && passed_safe_prime_tests(q)
}

/// Generates a safe RSA modulus `n = pq` with distinct safe primes `p, q`
/// of `bits / 2` bits each; returns `(p, q, n)`.
///
/// Fails when `bits` is odd or below 32, or when prime generation fails.
pub fn generate_safe_rsa_modulus(bits: usize) -> (r: CryptoResult<(Nat, Nat, Nat)>)
    ensures
        (bits < 32 || bits % 2 != 0) ==> r == Err::<(Nat, Nat, Nat), CryptoError>(CryptoError::InvalidInput("RSA bits must be even and >= 32")),
        r matches Err(e) ==> ((e is InvalidInput) && (bits < 32 || bits % 2 != 0)) || e
            == CryptoError::PrimeGenerationFailed,
        r matches Ok((p, q, n)) ==> n@ == p@ * q@ && p@ != q@ && bit_len(p@) == bits / 2
            && bit_len(q@) == bits / 2 && p@ % 4 == 3 && q@ % 4 == 3 && (bit_len(n@) == bits
            || bit_len(n@) == bits - 1) && safe_modulus_shape(n@, bits as nat) && n@ >= 9
            && passed_safe_prime_tests(p@) && passed_safe_prime_tests(q@),
{
    if bits < 32 || bits % 2 != 0 {
        return Err(CryptoError::InvalidInput("RSA bits must be even and >= 32"));
    }
    let half = bits / 2;
    let p = match generate_safe_prime(half) {
        Ok(v) => v,
        Err(e) => return Err(e),
    };
    let mut q = match generate_safe_prime(half) {
        Ok(v) => v,
        Err(e) => return Err(e),
    };
    let mut tries: usize = 0;
    while big_eq(&p, &q)
        invariant
            bits >= 32,
            bits % 2 == 0,
            half == bits / 2,
            bit_len(q@) == half,
            q@ % 4 == 3,
            passed_safe_prime_tests(q@),
            tries <= 65,
        decreases 65 - tries,
    {
        q = match generate_safe_prime(half) {
            Ok(v) => v,
            Err(_) => return Err(CryptoError::PrimeGenerationFailed),
        };
        tries = tries + 1;
        if tries > 64 {
            return Err(CryptoError::PrimeGenerationFailed);
        }
    }
    let n = big_mul(&p, &q);
    proof {
        lemma_product_bit_len(p@, q@, half as nat);
        assert(bit_len(p@) == bit_len(p@) && bit_len(q@) == bit_len(q@));
        assert(n@ >= 9) by (nonlinear_arith)
            requires
                p@ % 4 == 3,
                q@ % 4 == 3,
                n@ == p@ * q@,
        ;
    }
    Ok((p, q, n))
}

/// Two numbers of `h` bits multiply to one of `2h` or `2h - 1` bits.
proof fn lemma_product_bit_len(p: nat, q: nat, h: nat)
    requires
        h >= 1,
        bit_len(p) == h,
        bit_len(q) == h,
    ensures
        bit_len(p * q) == 2 * h || bit_len(p * q) == 2 * h - 1,
{
    lemma_bit_len_range(p);
    lemma_bit_len_range(q);
    let lo = pow2((h - 1) as nat);
    let hi = pow2(h);
    assert(lo * lo <= p * q) by (nonlinear_arith)
        requires
            lo <= p,
            lo <= q,
    ;
    assert(p * q < hi * hi) by (nonlinear_arith)
        requires
            p < hi,
            q < hi,
            0 <= p,
            0 <= q,
    ;
    lemma_pow2_adds((h - 1) as nat, (h - 1) as nat);
    lemma_pow2_adds(h, h);
    let pq = p * q;
    if pq >= pow2((2 * h - 1) as nat) {
        lemma_bit_len_of_range(pq, 2 * h);
    } else {
        lemma_bit_len_of_range(pq, (2 * h - 1) as nat);
    }
}

/// `gcd(n - 1, n) == 1` for `n >= 3`.
proof fn lemma_gcd_pred(n: nat)
    requires
        n >= 3,
    ensures
        spec_gcd((n - 1) as nat, n) == 1,
{
    let m = (n - 1) as nat;
    lemma_small_mod(m, n);
    lemma_fundamental_div_mod_converse(n as int, m as int, 1, 1);
    assert(spec_gcd(m, n) == spec_gcd(n, m));
    assert(spec_gcd(n, m) == spec_gcd(m, 1));
    assert(m % 1 == 0);
    assert(spec_gcd(m, 1) == spec_gcd(1, 0));
}

/// Samples a unit of `Z*_{n^2}` above one by rejection sampling.
///
/// After `u64::MAX` rejected draws (unreachable in practice) the unit
/// `n^2 - 1` is returned.
pub fn sample_unit_mod_n2(n2: &Nat) -> (r: Nat)
    requires
        n2@ >= 3,
    ensures
        1 < r@ < n2@,
        spec_gcd(r@, n2@) == 1,
{
    let one = Nat::one();
    let mut tries: u64 = 0;
    while tries < u64::MAX
        invariant
            n2@ >= 3,
            one@ == 1,
        decreases u64::MAX - tries,
    {
        let x = random_below(n2);
        if big_lt(&one, &x) && big_eq(&gcd(x.copy(), n2.copy()), &one) {
            return x;
        }
        tries = tries + 1;
    }
    proof {
        lemma_gcd_pred(n2@);
    }
    big_sub(n2, &one)
}

/// A sampled element of `|QR_{n^2}|`: the representative of the square of a sampled unit.
pub open spec fn is_abs_qr_sample(y: nat, n2: nat) -> bool {
    exists|x: nat| 1 < x < n2 && spec_gcd(x, n2) == 1 && y == #[trigger] abs_rep(pow_mod(x, 2, n2), n2)
}

/// Samples an element of `|QR_{n^2}|`: a unit `x`, squared modulo `n^2`,
/// mapped to its absolute-value representative.
pub fn sample_abs_qr_element(n2: &Nat) -> (r: Nat)
    requires
        n2@ >= 3,
    ensures
        is_abs_qr_sample(r@, n2@),
        r@ <= n2@ / 2,
{
    let x = sample_unit_mod_n2(n2);
    let y = big_modpow(&x, &Nat::from_u64(2), n2);
    proof {
        lemma_mod_bound(vstd::arithmetic::power::pow(x@ as int, 2), n2@ as int);
    }
    let r = abs_qr_rep(&y, n2);
    proof {
        assert(r@ == abs_rep(pow_mod(x@, 2, n2@), n2@));
    }
    r
}
} // verus!
