//! Arbitrary-precision signed integers.
//!
//! An `Int` stores its value as little-endian two's-complement bytes, so the
//! mathematical value of every `Int` is a plain function of data that the
//! verifier can see. The arithmetic itself is done by `num_bigint::BigInt`;
//! each call into it is a small function whose contract is assumed, not
//! proved.

use num_bigint::BigInt;
use num_bigint::RandBigInt;
use num_traits::Zero;
use rand::rngs::StdRng;
use vstd::prelude::*;

verus! {

/// The random number generator that the dealer draws from.
#[verifier::external_type_specification]
#[verifier::external_body]
pub struct ExStdRng(rand::rngs::StdRng);

/// `256^n`.
pub open spec fn pow256(n: nat) -> nat
    decreases n,
{
    if n == 0 {
        1
    } else {
        256 * pow256((n - 1) as nat)
    }
}

/// The number that `bytes` spells in base 256, least significant byte first.
pub open spec fn unsigned_le(bytes: Seq<u8>) -> nat
    decreases bytes.len(),
{
    if bytes.len() == 0 {
        0
    } else {
        bytes[0] as nat + 256 * unsigned_le(bytes.drop_first())
    }
}

/// The number that `bytes` spells in two's complement, least significant
/// byte first. The empty string spells zero.
pub open spec fn signed_le(bytes: Seq<u8>) -> int {
    if bytes.len() > 0 && bytes.last() >= 128 {
        unsigned_le(bytes) - pow256(bytes.len())
    } else {
        unsigned_le(bytes) as int
    }
}

/// `|x|`.
pub open spec fn abs(x: int) -> int {
    if x < 0 {
        -x
    } else {
        x
    }
}

/// Quotient of the division that rounds toward zero.
pub open spec fn trunc_div(a: int, b: int) -> int
    recommends
        b != 0,
{
    if (a < 0) == (b < 0) {
        abs(a) / abs(b)
    } else {
        -(abs(a) / abs(b))
    }
}

/// Remainder of the division that rounds toward zero: it has the sign of
/// the dividend.
pub open spec fn trunc_rem(a: int, b: int) -> int
    recommends
        b != 0,
{
    a - b * trunc_div(a, b)
}

/// Quotient of the division that rounds down.
pub open spec fn floor_div(a: int, b: int) -> int
    recommends
        b != 0,
{
    if b > 0 {
        a / b
    } else {
        (-a) / (-b)
    }
}

/// An integer of any size.
#[derive(Debug)]
pub struct Int {
    bytes: Vec<u8>,
}

impl View for Int {
    type V = int;

    closed spec fn view(&self) -> int {
        signed_le(self.bytes@)
    }
}

impl Clone for Int {
    fn clone(&self) -> (r: Self)
        ensures
            r@ == self@,
    {
        let bytes = self.bytes.clone();
        assert(bytes@ =~= self.bytes@);
        Int { bytes }
    }
}

impl PartialEq for Int {
    fn eq(&self, other: &Self) -> (r: bool) {
        big_eq(self, other)
    }
}

impl vstd::std_specs::cmp::PartialEqSpecImpl for Int {
    open spec fn obeys_eq_spec() -> bool {
        true
    }

    open spec fn eq_spec(&self, other: &Self) -> bool {
        self@ == other@
    }
}

impl Int {
    /// The integer zero.
    pub fn zero() -> (r: Int)
        ensures
            r@ == 0,
    {
        Int { bytes: Vec::new() }
    }

    /// The integer `v`.
    pub fn from_i64(v: i64) -> (r: Int)
        ensures
            r@ == v,
    {
        big_from_i64(v)
    }

    /// The integer `v`.
    pub fn from_u64(v: u64) -> (r: Int)
        ensures
            r@ == v,
    {
        big_from_u64(v)
    }

    /// The integer that `bytes` spells in little-endian two's complement.
    pub fn from_signed_bytes_le(bytes: Vec<u8>) -> (r: Int)
        ensures
            r@ == signed_le(bytes@),
    {
        Int { bytes }
    }

    /// Little-endian two's-complement bytes that spell this integer.
    pub fn to_signed_bytes_le(&self) -> (r: Vec<u8>)
        ensures
            signed_le(r@) == self@,
    {
        let bytes = self.bytes.clone();
        assert(bytes@ =~= self.bytes@);
        bytes
    }

    /// Whether this integer is zero.
    pub fn is_zero(&self) -> (r: bool)
        ensures
            r == (self@ == 0),
    {
        big_is_zero(self)
    }

    /// Whether this integer is below zero.
    pub fn is_negative(&self) -> (r: bool)
        ensures
            r == (self@ < 0),
    {
        let z = Int::zero();
        big_lt(self, &z)
    }

    /// Whether this integer is below `other`.
    pub fn lt(&self, other: &Int) -> (r: bool)
        ensures
            r == (self@ < other@),
    {
        big_lt(self, other)
    }

    /// Sum.
    pub fn plus(&self, other: &Int) -> (r: Int)
        ensures
            r@ == self@ + other@,
    {
        big_add(self, other)
    }

    /// Difference.
    pub fn minus(&self, other: &Int) -> (r: Int)
        ensures
            r@ == self@ - other@,
    {
        big_sub(self, other)
    }

    /// Product.
    pub fn times(&self, other: &Int) -> (r: Int)
        ensures
            r@ == self@ * other@,
    {
        big_mul(self, other)
    }

    /// The quotient rounded down, by a divisor above zero.
    fn floor_by_positive(&self, other: &Int) -> (r: Int)
        requires
            other@ > 0,
        ensures
            r@ == self@ / other@,
    {
        let q = big_div(self, other);
        let t = big_rem(self, other);
        proof {
            lemma_trunc_rem_range(self@, other@);
        }
        if t.is_negative() {
            let one = Int::from_i64(1);
            big_sub(&q, &one)
        } else {
            q
        }
    }

    /// The quotient rounded down, for any dividend and any divisor but
    /// zero.
    pub fn div_floor(&self, other: &Int) -> (r: Int)
        requires
            other@ != 0,
        ensures
            r@ == floor_div(self@, other@),
    {
        if other.is_negative() {
            let zero = Int::zero();
            let a = big_sub(&zero, self);
            let b = big_sub(&zero, other);
            a.floor_by_positive(&b)
        } else {
            self.floor_by_positive(other)
        }
    }

    /// The representative in `[0, m)` of this integer's class modulo `m`.
    pub fn modulo(&self, m: &Int) -> (r: Int)
        requires
            m@ > 0,
        ensures
            r@ == self@ % m@,
            0 <= r@ < m@,
    {
        let t = big_rem(self, m);
        proof {
            lemma_trunc_rem_range(self@, m@);
        }
        if t.is_negative() {
            big_add(&t, m)
        } else {
            t
        }
    }
}

/// Where the truncating remainder by a positive `m` lies, and how it and
/// the truncating quotient give the remainder in `[0, m)` and the quotient
/// rounded down.
pub proof fn lemma_trunc_rem_range(a: int, m: int)
    requires
        m > 0,
    ensures
        -m < trunc_rem(a, m) < m,
        trunc_rem(a, m) >= 0 ==> trunc_rem(a, m) == a % m && trunc_div(a, m) == a / m,
        trunc_rem(a, m) < 0 ==> trunc_rem(a, m) + m == a % m && trunc_div(a, m) - 1 == a / m,
{
    if a >= 0 {
        assert(trunc_div(a, m) == a / m);
        vstd::arithmetic::div_mod::lemma_fundamental_div_mod(a, m);
    } else {
        let n = -a;
        assert(trunc_div(a, m) == -(n / m));
        vstd::arithmetic::div_mod::lemma_fundamental_div_mod(n, m);
        // n == m * (n / m) + n % m
        assert(m * (-(n / m)) == -(m * (n / m))) by (nonlinear_arith);
        assert(trunc_rem(a, m) == -(n % m));
        let k = n % m;
        if k == 0 {
            assert(a == m * (-(n / m)) + 0);
            vstd::arithmetic::div_mod::lemma_fundamental_div_mod_converse(a, m, -(n / m), 0);
        } else {
            assert(m * (-(n / m) - 1) == m * (-(n / m)) - m) by (nonlinear_arith);
            assert(a == m * (-(n / m) - 1) + (m - k));
            vstd::arithmetic::div_mod::lemma_fundamental_div_mod_converse(
                a,
                m,
                -(n / m) - 1,
                m - k,
            );
        }
    }
}

/// `BigInt::from` on an `i64`: the result has the value of the argument.
#[verifier::external_body]
fn big_from_i64(v: i64) -> (r: Int)
    ensures
        r@ == v,
{
    Int { bytes: BigInt::from(v).to_signed_bytes_le() }
}

/// `BigInt::from` on a `u64`: the result has the value of the argument.
#[verifier::external_body]
fn big_from_u64(v: u64) -> (r: Int)
    ensures
        r@ == v,
{
    Int { bytes: BigInt::from(v).to_signed_bytes_le() }
}

/// `BigInt`'s `+`: the sum of the two values.
#[verifier::external_body]
fn big_add(a: &Int, b: &Int) -> (r: Int)
    ensures
        r@ == a@ + b@,
{
    let x = BigInt::from_signed_bytes_le(&a.bytes);
    let y = BigInt::from_signed_bytes_le(&b.bytes);
    Int { bytes: (x + y).to_signed_bytes_le() }
}

/// `BigInt`'s `-`: the difference of the two values.
#[verifier::external_body]
fn big_sub(a: &Int, b: &Int) -> (r: Int)
    ensures
        r@ == a@ - b@,
{
    let x = BigInt::from_signed_bytes_le(&a.bytes);
    let y = BigInt::from_signed_bytes_le(&b.bytes);
    Int { bytes: (x - y).to_signed_bytes_le() }
}

/// `BigInt`'s `*`: the product of the two values.
#[verifier::external_body]
fn big_mul(a: &Int, b: &Int) -> (r: Int)
    ensures
        r@ == a@ * b@,
{
    let x = BigInt::from_signed_bytes_le(&a.bytes);
    let y = BigInt::from_signed_bytes_le(&b.bytes);
    Int { bytes: (x * y).to_signed_bytes_le() }
}

/// `BigInt`'s `/`, which panics on a zero divisor and otherwise rounds the
/// quotient toward zero.
#[verifier::external_body]
fn big_div(a: &Int, b: &Int) -> (r: Int)
    requires
        b@ != 0,
    ensures
        r@ == trunc_div(a@, b@),
{
    let x = BigInt::from_signed_bytes_le(&a.bytes);
    let y = BigInt::from_signed_bytes_le(&b.bytes);
    Int { bytes: (x / y).to_signed_bytes_le() }
}

/// `BigInt`'s `%`, which panics on a zero divisor and otherwise gives the
/// remainder of the division that rounds toward zero.
#[verifier::external_body]
fn big_rem(a: &Int, b: &Int) -> (r: Int)
    requires
        b@ != 0,
    ensures
        r@ == trunc_rem(a@, b@),
{
    let x = BigInt::from_signed_bytes_le(&a.bytes);
    let y = BigInt::from_signed_bytes_le(&b.bytes);
    Int { bytes: (x % y).to_signed_bytes_le() }
}

/// `Zero::is_zero` on a `BigInt`: whether the value is zero.
#[verifier::external_body]
fn big_is_zero(a: &Int) -> (r: bool)
    ensures
        r == (a@ == 0),
{
    BigInt::from_signed_bytes_le(&a.bytes).is_zero()
}

/// `BigInt`'s `<`: whether the first value is below the second.
#[verifier::external_body]
fn big_lt(a: &Int, b: &Int) -> (r: bool)
    ensures
        r == (a@ < b@),
{
    BigInt::from_signed_bytes_le(&a.bytes) < BigInt::from_signed_bytes_le(&b.bytes)
}

/// `BigInt`'s `==`: whether the two values are the same.
#[verifier::external_body]
fn big_eq(a: &Int, b: &Int) -> (r: bool)
    ensures
        r == (a@ == b@),
{
    BigInt::from_signed_bytes_le(&a.bytes) == BigInt::from_signed_bytes_le(&b.bytes)
}

/// `RandBigInt::gen_bigint_range` from zero to `bound`, which panics unless
/// `bound` is above zero: whatever is drawn lies in `[0, bound)`.
#[verifier::external_body]
fn big_random_below(rng: &mut StdRng, bound: &Int) -> (r: Int)
    requires
        bound@ > 0,
    ensures
        0 <= r@ < bound@,
{
    let top = BigInt::from_signed_bytes_le(&bound.bytes);
    Int { bytes: rng.gen_bigint_range(&BigInt::zero(), &top).to_signed_bytes_le() }
}

impl Int {
    /// A random integer in `[0, bound)`.
    pub fn random_below(rng: &mut StdRng, bound: &Int) -> (r: Int)
        requires
            bound@ > 0,
        ensures
            0 <= r@ < bound@,
    {
        big_random_below(rng, bound)
    }
}

} // verus!
