//! Arbitrary-precision naturals and integers.
//!
//! `Nat` holds the base-2^32 digits of a natural number, least significant
//! digit first; its view is the number itself. The arithmetic is done by
//! `num-bigint`: every call goes through a small wrapper that rebuilds a
//! `BigUint` from the digits, calls the crate, and reads the digits back.
//! `Int` is a sign and a magnitude; its operations are verified here from
//! the operations on `Nat`.
use num_bigint::{BigUint, RandBigInt};
use num_traits::Zero;
use rand::rngs::OsRng;
use rand::RngCore;
use vstd::arithmetic::power::pow;
use vstd::arithmetic::power2::pow2;
use vstd::prelude::*;

verus! {

/// Base of the digit representation.
pub open spec fn digit_base() -> nat {
    0x1_0000_0000
}

/// Value of little-endian base-2^32 digits.
pub open spec fn digits_value(d: Seq<u32>) -> nat
    decreases d.len(),
{
    if d.len() == 0 {
        0
    } else {
        d[0] as nat + digit_base() * digits_value(d.drop_first())
    }
}

/// Minimal big-endian bytes of a natural number; zero is a single zero byte.
pub open spec fn nat_to_be_bytes(v: nat) -> Seq<u8>
    decreases v,
{
    if v < 256 {
        seq![v as u8]
    } else {
        nat_to_be_bytes(v / 256).push((v % 256) as u8)
    }
}

/// Value of big-endian bytes.
pub open spec fn be_bytes_value(s: Seq<u8>) -> nat
    decreases s.len(),
{
    if s.len() == 0 {
        0
    } else {
        be_bytes_value(s.drop_last()) * 256 + s.last() as nat
    }
}

/// Number of bits needed to write `v` (zero needs none).
pub open spec fn bit_len(v: nat) -> nat
    decreases v,
{
    if v == 0 {
        0
    } else {
        1 + bit_len(v / 2)
    }
}

/// `b^e mod m` on naturals.
pub open spec fn pow_mod(b: nat, e: nat, m: nat) -> nat
    recommends
        m > 0,
{
    (pow(b as int, e) % (m as int)) as nat
}

/// Bit `k` of `v`.
pub open spec fn bit_at(v: nat, k: nat) -> bool {
    (v / pow2(k)) % 2 == 1
}

/// The bit length of `v` is `b` exactly when `2^(b-1) <= v < 2^b` (or `v == 0 == b`).
pub proof fn lemma_bit_len_range(v: nat)
    ensures
        v < pow2(bit_len(v)),
        bit_len(v) > 0 ==> pow2((bit_len(v) - 1) as nat) <= v,
        bit_len(v) == 0 <==> v == 0,
    decreases v,
{
    vstd::arithmetic::power2::lemma2_to64();
    if v > 0 {
        lemma_bit_len_range(v / 2);
        let b = bit_len(v / 2);
        vstd::arithmetic::power2::lemma_pow2_unfold(b + 1);
        if b > 0 {
            vstd::arithmetic::power2::lemma_pow2_unfold(b);
        }
    }
}

/// Bit lengths determine the order of magnitudes: `2^(b-1) <= v < 2^b` gives `bit_len(v) == b`.
pub proof fn lemma_bit_len_of_range(v: nat, b: nat)
    requires
        b > 0,
        pow2((b - 1) as nat) <= v < pow2(b),
    ensures
        bit_len(v) == b,
{
    lemma_bit_len_range(v);
    let c = bit_len(v);
    vstd::arithmetic::power2::lemma_pow2_pos((b - 1) as nat);
    if c < b {
        if c <= b - 1 {
            if c < b - 1 {
                vstd::arithmetic::power2::lemma_pow2_strictly_increases(c, (b - 1) as nat);
            }
        }
    } else if c > b {
        vstd::arithmetic::power2::lemma_pow2_strictly_increases(b, (c - 1) as nat);
        if b < (c - 1) as nat {
        }
    }
}

/// `bit_len(2v + 1) == bit_len(v) + 1`.
pub proof fn lemma_bit_len_double_plus_one(v: nat)
    ensures
        bit_len(2 * v + 1) == bit_len(v) + 1,
{
    assert((2 * v + 1) / 2 == v);
}

/// A natural number of arbitrary size.
#[derive(Debug, Clone, PartialEq, Eq)]
pub struct Nat {
    digits: Vec<u32>,
}

impl View for Nat {
    type V = nat;

    closed spec fn view(&self) -> nat {
        digits_value(self.digits@)
    }
}

/// Tail of the digit value: adding a leading zero digit changes nothing.
proof fn lemma_digits_push_zero(d: Seq<u32>)
    ensures
        digits_value(d.push(0u32)) == digits_value(d),
    decreases d.len(),
{
    if d.len() == 0 {
        assert(d.push(0u32).drop_first() =~= Seq::<u32>::empty());
        assert(digits_value(Seq::<u32>::empty()) == 0);
    } else {
        assert(d.push(0u32).drop_first() =~= d.drop_first().push(0u32));
        lemma_digits_push_zero(d.drop_first());
    }
}

impl Nat {
    /// Builds the number whose base-2^32 digits, least significant first, are
    /// `digits`; high zero digits are dropped.
    pub fn from_u32_digits(digits: Vec<u32>) -> (r: Nat)
        ensures
            r@ == digits_value(digits@),
    {
        let mut d = digits;
        while d.len() > 0 && d[d.len() - 1] == 0
            invariant
                digits_value(d@) == digits_value(digits@),
            decreases d.len(),
        {
            let ghost before = d@;
            d.pop();
            proof {
                assert(before =~= d@.push(0u32));
                lemma_digits_push_zero(d@);
            }
        }
        Nat { digits: d }
    }

    /// The base-2^32 digits, least significant first.
    pub fn to_u32_digits(&self) -> (r: Vec<u32>)
        ensures
            digits_value(r@) == self@,
    {
        let mut r: Vec<u32> = Vec::new();
        let mut i: usize = 0;
        while i < self.digits.len()
            invariant
                i <= self.digits.len(),
                r@ == self.digits@.subrange(0, i as int),
            decreases self.digits.len() - i,
        {
            r.push(self.digits[i]);
            i = i + 1;
        }
        assert(r@ =~= self.digits@);
        r
    }

    /// Zero.
    pub fn zero() -> (r: Nat)
        ensures
            r@ == 0,
    {
        Nat { digits: Vec::new() }
    }

    /// One.
    pub fn one() -> (r: Nat)
        ensures
            r@ == 1,
    {
        let mut d: Vec<u32> = Vec::new();
        d.push(1u32);
        proof {
            assert(d@.drop_first() =~= Seq::<u32>::empty());
            assert(digits_value(d@.drop_first()) == 0);
            assert(digits_value(d@) == 1);
        }
        Nat { digits: d }
    }

    /// The number `v`.
    pub fn from_u64(v: u64) -> (r: Nat)
        ensures
            r@ == v,
    {
        let lo: u32 = (v & 0xffff_ffff) as u32;
        let hi: u32 = (v >> 32u64) as u32;
        assert(v == lo + 0x1_0000_0000 * hi) by (bit_vector)
            requires
                lo == (v & 0xffff_ffff) as u32,
                hi == (v >> 32u64) as u32,
        ;
        let mut d: Vec<u32> = Vec::new();
        if v == 0 {
            assert(digits_value(d@) == 0);
        } else if hi == 0 {
            d.push(lo);
            proof {
                assert(d@.drop_first() =~= Seq::<u32>::empty());
                assert(digits_value(d@.drop_first()) == 0);
                assert(digits_value(d@) == lo);
            }
        } else {
            d.push(lo);
            d.push(hi);
            proof {
                let t = d@.drop_first();
                assert(t =~= seq![hi]);
                assert(t.drop_first() =~= Seq::<u32>::empty());
                assert(digits_value(t.drop_first()) == 0);
                assert(digits_value(t) == hi);
                assert(digits_value(d@) == lo + 0x1_0000_0000 * hi);
            }
        }
        Nat { digits: d }
    }

    /// A copy of this number.
    pub fn copy(&self) -> (r: Nat)
        ensures
            r@ == self@,
    {
        Nat { digits: self.to_u32_digits() }
    }
}

// ---------------------------------------------------------------------------
// Calls into num-bigint. Each wrapper rebuilds `BigUint` values from the
// digits, makes one call, and reads the digits of the result back.
// ---------------------------------------------------------------------------

/// `BigUint` addition: the contract claims the sum of the two values.
#[verifier::external_body]
pub(crate) fn big_add(a: &Nat, b: &Nat) -> (r: Nat)
    ensures
        r@ == a@ + b@,
{
    let x = BigUint::new(a.digits.clone()) + BigUint::new(b.digits.clone());
    Nat { digits: x.to_u32_digits() }
}

/// `BigUint` subtraction (panics on underflow, hence the precondition).
#[verifier::external_body]
pub(crate) fn big_sub(a: &Nat, b: &Nat) -> (r: Nat)
    requires
        a@ >= b@,
    ensures
        r@ == a@ - b@,
{
    let x = BigUint::new(a.digits.clone()) - BigUint::new(b.digits.clone());
    Nat { digits: x.to_u32_digits() }
}

/// `BigUint` multiplication.
#[verifier::external_body]
pub(crate) fn big_mul(a: &Nat, b: &Nat) -> (r: Nat)
    ensures
        r@ == a@ * b@,
{
    let x = BigUint::new(a.digits.clone()) * BigUint::new(b.digits.clone());
    Nat { digits: x.to_u32_digits() }
}

/// `BigUint` division, rounding down (panics on a zero divisor).
#[verifier::external_body]
pub(crate) fn big_div(a: &Nat, b: &Nat) -> (r: Nat)
    requires
        b@ > 0,
    ensures
        r@ == a@ / b@,
{
    let x = BigUint::new(a.digits.clone()) / BigUint::new(b.digits.clone());
    Nat { digits: x.to_u32_digits() }
}

/// `BigUint` remainder (panics on a zero divisor).
#[verifier::external_body]
pub(crate) fn big_rem(a: &Nat, b: &Nat) -> (r: Nat)
    requires
        b@ > 0,
    ensures
        r@ == a@ % b@,
{
    let x = BigUint::new(a.digits.clone()) % BigUint::new(b.digits.clone());
    Nat { digits: x.to_u32_digits() }
}

/// `BigUint::modpow`: `(b^e) mod m`; it panics on a zero modulus.
#[verifier::external_body]
pub(crate) fn big_modpow(b: &Nat, e: &Nat, m: &Nat) -> (r: Nat)
    requires
        m@ > 0,
    ensures
        r@ == pow_mod(b@, e@, m@),
{
    let x = BigUint::new(b.digits.clone()).modpow(&BigUint::new(e.digits.clone()), &BigUint::new(m.digits.clone()));
    Nat { digits: x.to_u32_digits() }
}

/// `BigUint` right shift: division by `2^k` rounding down.
#[verifier::external_body]
pub(crate) fn big_shr(a: &Nat, k: usize) -> (r: Nat)
    ensures
        r@ == a@ / pow2(k as nat),
{
    let x = BigUint::new(a.digits.clone()) >> k;
    Nat { digits: x.to_u32_digits() }
}

/// `BigUint` left shift: multiplication by `2^k`.
#[verifier::external_body]
pub(crate) fn big_shl(a: &Nat, k: usize) -> (r: Nat)
    ensures
        r@ == a@ * pow2(k as nat),
{
    let x = BigUint::new(a.digits.clone()) << k;
    Nat { digits: x.to_u32_digits() }
}

/// `BigUint::set_bit(k, true)`: bit `k` is set, the others kept.
#[verifier::external_body]
pub(crate) fn big_set_bit(a: &Nat, k: u64) -> (r: Nat)
    ensures
        r@ == (if bit_at(a@, k as nat) { a@ } else { a@ + pow2(k as nat) }),
{
    let mut x = BigUint::new(a.digits.clone());
    x.set_bit(k, true);
    Nat { digits: x.to_u32_digits() }
}

/// `BigUint::bits`: the bit length of the value.
#[verifier::external_body]
pub(crate) fn big_bits(a: &Nat) -> (r: u64)
    ensures
        r == bit_len(a@),
{
    BigUint::new(a.digits.clone()).bits()
}

/// `BigUint::is_zero`.
#[verifier::external_body]
pub(crate) fn big_is_zero(a: &Nat) -> (r: bool)
    ensures
        r == (a@ == 0),
{
    BigUint::new(a.digits.clone()).is_zero()
}

/// `BigUint` equality of values.
#[verifier::external_body]
pub(crate) fn big_eq(a: &Nat, b: &Nat) -> (r: bool)
    ensures
        r == (a@ == b@),
{
    BigUint::new(a.digits.clone()) == BigUint::new(b.digits.clone())
}

/// `BigUint` strict order of values.
#[verifier::external_body]
pub(crate) fn big_lt(a: &Nat, b: &Nat) -> (r: bool)
    ensures
        r == (a@ < b@),
{
    BigUint::new(a.digits.clone()) < BigUint::new(b.digits.clone())
}

/// `BigUint::to_bytes_be`: minimal big-endian bytes (a single zero byte for zero).
#[verifier::external_body]
pub(crate) fn big_to_bytes_be(a: &Nat) -> (r: Vec<u8>)
    ensures
        r@ == nat_to_be_bytes(a@),
{
    BigUint::new(a.digits.clone()).to_bytes_be()
}

/// `BigUint::from_bytes_be`: the value of big-endian bytes.
#[verifier::external_body]
pub(crate) fn big_from_bytes_be(s: &[u8]) -> (r: Nat)
    ensures
        r@ == be_bytes_value(s@),
{
    Nat { digits: BigUint::from_bytes_be(s).to_u32_digits() }
}

/// The value as a `u64`, read with `BigUint::to_u64_digits` (first digit, or zero).
#[verifier::external_body]
pub(crate) fn big_to_u64(a: &Nat) -> (r: u64)
    requires
        a@ <= u64::MAX,
    ensures
        r == a@,
{
    BigUint::new(a.digits.clone()).to_u64_digits().first().copied().unwrap_or(0)
}

/// `RandBigInt::gen_biguint` on the operating system's generator: a random
/// number below `2^bits`. Which number comes out is left open.
#[verifier::external_body]
pub(crate) fn random_bits(bits: usize) -> (r: Nat)
    ensures
        r@ < pow2(bits as nat),
{
    Nat { digits: OsRng.gen_biguint(bits as u64).to_u32_digits() }
}

/// `RandBigInt::gen_biguint_below` on the operating system's generator: a
/// random number below `bound` (it panics on a zero bound).
#[verifier::external_body]
pub(crate) fn random_below(bound: &Nat) -> (r: Nat)
    requires
        bound@ > 0,
    ensures
        r@ < bound@,
{
    Nat { digits: OsRng.gen_biguint_below(&BigUint::new(bound.digits.clone())).to_u32_digits() }
}

/// `RandBigInt::gen_biguint_range` on the operating system's generator: a
/// random number in `[lo, hi)` (it panics unless `lo < hi`).
#[verifier::external_body]
pub(crate) fn random_range(lo: &Nat, hi: &Nat) -> (r: Nat)
    requires
        lo@ < hi@,
    ensures
        lo@ <= r@ < hi@,
{
    let x = OsRng.gen_biguint_range(&BigUint::new(lo.digits.clone()), &BigUint::new(hi.digits.clone()));
    Nat { digits: x.to_u32_digits() }
}

/// `RngCore::next_u32` on the operating system's generator; nothing is
/// claimed of the value.
#[verifier::external_body]
pub(crate) fn random_u32() -> (r: u32) {
    OsRng.next_u32()
}


/// An integer of arbitrary size: a sign and a magnitude. Zero is never negative.
#[derive(Debug, Clone, PartialEq, Eq)]
pub struct Int {
    neg: bool,
    mag: Nat,
}

impl View for Int {
    type V = int;

    closed spec fn view(&self) -> int {
        if self.neg {
            -(self.mag@ as int)
        } else {
            self.mag@ as int
        }
    }
}

impl Int {
    /// Builds `-m` when `neg` holds, `m` otherwise.
    fn signed(neg: bool, m: Nat) -> (r: Int)
        ensures
            r@ == (if neg { -(m@ as int) } else { m@ as int }),
    {
        if big_is_zero(&m) {
            Int { neg: false, mag: m }
        } else {
            Int { neg, mag: m }
        }
    }

    /// The integer `v`.
    pub fn from_nat(v: &Nat) -> (r: Int)
        ensures
            r@ == v@ as int,
    {
        Int { neg: false, mag: v.copy() }
    }

    /// The integer `v`.
    pub fn from_i64(v: i64) -> (r: Int)
        ensures
            r@ == v as int,
    {
        if v >= 0 {
            Int { neg: false, mag: Nat::from_u64(v as u64) }
        } else {
            let m: u64 = if v == i64::MIN { 0x8000_0000_0000_0000u64 } else { (-v) as u64 };
            Int::signed(true, Nat::from_u64(m))
        }
    }

    /// Zero.
    pub fn zero() -> (r: Int)
        ensures
            r@ == 0,
    {
        Int { neg: false, mag: Nat::zero() }
    }

    /// A copy of this integer.
    pub fn copy(&self) -> (r: Int)
        ensures
            r@ == self@,
    {
        Int { neg: self.neg, mag: self.mag.copy() }
    }

    /// Whether the integer is at least zero.
    pub fn is_nonneg(&self) -> (r: bool)
        ensures
            r == (self@ >= 0),
    {
        !self.neg || big_is_zero(&self.mag)
    }

    /// The absolute value.
    pub fn magnitude(&self) -> (r: Nat)
        ensures
            r@ as int == (if self@ >= 0 { self@ } else { -self@ }),
    {
        self.mag.copy()
    }

    /// Whether the integer is even.
    pub fn is_even(&self) -> (r: bool)
        ensures
            r == (self@ % 2 == 0),
    {
        let two = Nat::from_u64(2);
        let rem = big_rem(&self.mag, &two);
        let r = big_is_zero(&rem);
        proof {
            let m = self.mag@ as int;
            if self.neg {
                assert((-m) % 2 == 0 <==> m % 2 == 0) by {
                    vstd::arithmetic::div_mod::lemma_fundamental_div_mod(m, 2);
                    vstd::arithmetic::div_mod::lemma_fundamental_div_mod(-m, 2);
                }
            }
        }
        r
    }

    /// The negation.
    pub fn negate(&self) -> (r: Int)
        ensures
            r@ == -self@,
    {
        Int::signed(!self.neg, self.mag.copy())
    }

    /// The sum.
    pub fn add(&self, other: &Int) -> (r: Int)
        ensures
            r@ == self@ + other@,
    {
        if self.neg == other.neg {
            Int::signed(self.neg, big_add(&self.mag, &other.mag))
        } else if big_lt(&self.mag, &other.mag) {
            Int::signed(other.neg, big_sub(&other.mag, &self.mag))
        } else {
            Int::signed(self.neg, big_sub(&self.mag, &other.mag))
        }
    }

    /// The difference.
    pub fn sub(&self, other: &Int) -> (r: Int)
        ensures
            r@ == self@ - other@,
    {
        self.add(&other.negate())
    }

    /// The product.
    pub fn mul(&self, other: &Int) -> (r: Int)
        ensures
            r@ == self@ * other@,
    {
        let m = big_mul(&self.mag, &other.mag);
        let r = Int::signed(self.neg != other.neg, m);
        proof {
            let a = self.mag@ as int;
            let b = other.mag@ as int;
            assert((-a) * (-b) == a * b) by (nonlinear_arith);
            assert((-a) * b == -(a * b)) by (nonlinear_arith);
            assert(a * (-b) == -(a * b)) by (nonlinear_arith);
        }
        r
    }

    /// The value as a natural number, when it is not negative.
    pub fn to_nat(&self) -> (r: Option<Nat>)
        ensures
            r is Some <==> self@ >= 0,
            r matches Some(v) ==> v@ as int == self@,
    {
        if self.is_nonneg() {
            Some(self.mag.copy())
        } else {
            None
        }
    }
}

} // verus!
