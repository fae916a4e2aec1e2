//! Unbounded integers backed by `num-bigint`.

use vstd::prelude::*;
use vstd::arithmetic::power::pow;
use num_bigint::BigInt;
use num_integer::Integer;
use num_traits::{Euclid, Signed, ToPrimitive, Zero};

use crate::num::arith::{abs, gcd, lcm};

verus! {

/// Little-endian unsigned value of a byte string.
pub open spec fn unsigned_le(s: Seq<u8>) -> nat
    decreases s.len(),
{
    if s.len() == 0 {
        0
    } else {
        s[0] as nat + 256 * unsigned_le(s.subrange(1, s.len() as int))
    }
}

/// Little-endian two's-complement value of a byte string (the empty string is zero).
pub open spec fn twos_le(s: Seq<u8>) -> int {
    if s.len() > 0 && s.last() >= 128 {
        unsigned_le(s) - pow(256, s.len())
    } else {
        unsigned_le(s) as int
    }
}

/// The decimal digit character for `d < 10`.
pub open spec fn digit_char(d: nat) -> char {
    (48 + d) as char
}

/// Decimal representation of a natural number, without leading zeros.
pub open spec fn nat_to_decimal(n: nat) -> Seq<char>
    decreases n,
{
    if n < 10 {
        seq![digit_char(n)]
    } else {
        nat_to_decimal(n / 10).push(digit_char(n % 10))
    }
}

/// Decimal representation of an integer: a `-` sign, then the digits of its magnitude.
pub open spec fn int_to_decimal(x: int) -> Seq<char> {
    if x < 0 {
        seq!['-'] + nat_to_decimal(abs(x))
    } else {
        nat_to_decimal(x as nat)
    }
}

/// A run of decimal digits with `_` separators, starting with a digit.
pub open spec fn digits_ok(s: Seq<char>) -> bool {
    &&& s.len() > 0
    &&& s[0] != '_'
    &&& forall|i: int| 0 <= i < s.len() ==> ('0' <= #[trigger] s[i] <= '9') || s[i] == '_'
}

/// The value of a run of decimal digits, the separators `_` skipped.
pub open spec fn digits_value(s: Seq<char>) -> int
    decreases s.len(),
{
    if s.len() == 0 {
        0
    } else if s.last() == '_' {
        digits_value(s.drop_last())
    } else {
        10 * digits_value(s.drop_last()) + (s.last() as int - '0' as int)
    }
}

/// `s` leads with a minus sign that `num-bigint` takes (one not followed by
/// a plus sign).
pub open spec fn minus_sign(s: Seq<char>) -> bool {
    s.len() > 0 && s[0] == '-' && !(s.len() > 1 && s[1] == '+')
}

/// `s` without a leading plus sign that `num-bigint` takes (one not
/// followed by a second plus sign).
pub open spec fn without_plus(s: Seq<char>) -> Seq<char> {
    if s.len() > 0 && s[0] == '+' && !(s.len() > 1 && s[1] == '+') {
        s.skip(1)
    } else {
        s
    }
}

/// The integer that `num-bigint` reads from a decimal string, if it accepts
/// it: an optional sign (`-`, or `+`), then decimal digits with `_`
/// separators, the first one a digit.
pub open spec fn parsed_int(s: Seq<char>) -> Option<int> {
    let body = if minus_sign(s) {
        s.skip(1)
    } else {
        s
    };
    let u = without_plus(body);
    if digits_ok(u) {
        Some(
            if minus_sign(s) {
                -digits_value(u)
            } else {
                digits_value(u)
            },
        )
    } else {
        None
    }
}

/// `s` is the shortest little-endian two's-complement encoding of its value:
/// it is not empty, and its last byte is no mere sign extension of the byte
/// before it.
pub open spec fn minimal_twos(s: Seq<u8>) -> bool {
    &&& s.len() >= 1
    &&& s.len() >= 2 ==> !(s.last() == 0 && s[s.len() - 2] < 128)
    &&& s.len() >= 2 ==> !(s.last() == 255 && s[s.len() - 2] >= 128)
}

/// Unbounded integers, held as the minimal little-endian two's-complement
/// byte string that `num-bigint` produces.
#[derive(Debug, PartialEq, Eq, Hash)]
pub struct ZZ {
    pub(crate) bytes: Vec<u8>,
}

impl ZZ {
    /// Each value holds the shortest encoding of its integer, the one that
    /// `to_signed_bytes_le` gives.
    #[verifier::type_invariant]
    pub closed spec fn minimal(self) -> bool {
        minimal_twos(self.bytes@)
    }
}

impl Clone for ZZ {
    fn clone(&self) -> (r: Self)
        ensures
            r@ == self@,
    {
        proof {
            use_type_invariant(self);
        }
        ZZ { bytes: self.bytes.clone() }
    }
}

impl View for ZZ {
    type V = int;

    closed spec fn view(&self) -> int {
        twos_le(self.bytes@)
    }
}

// ---------------------------------------------------------------------------
// Calls into num-bigint
// ---------------------------------------------------------------------------

/// `BigInt::from(i64)`: the integer `n`.
#[verifier::external_body]
fn big_of_i64(n: i64) -> (r: ZZ)
    ensures
        minimal_twos(r.bytes@),
        r@ == n as int,
{
    ZZ { bytes: BigInt::from(n).to_signed_bytes_le() }
}

/// `ToPrimitive::to_i64`: `Some` exactly when the value fits in an `i64`.
#[verifier::external_body]
fn big_to_i64(a: &ZZ) -> (r: Option<i64>)
    ensures
        r is Some <==> (i64::MIN <= a@ && a@ <= i64::MAX),
        r matches Some(v) ==> v as int == a@,
{
    BigInt::from_signed_bytes_le(&a.bytes).to_i64()
}

/// `&BigInt + &BigInt`.
#[verifier::external_body]
fn big_add(a: &ZZ, b: &ZZ) -> (r: ZZ)
    ensures
        minimal_twos(r.bytes@),
        r@ == a@ + b@,
{
    let x = BigInt::from_signed_bytes_le(&a.bytes);
    let y = BigInt::from_signed_bytes_le(&b.bytes);
    ZZ { bytes: (&x + &y).to_signed_bytes_le() }
}

/// `&BigInt - &BigInt`.
#[verifier::external_body]
fn big_sub(a: &ZZ, b: &ZZ) -> (r: ZZ)
    ensures
        minimal_twos(r.bytes@),
        r@ == a@ - b@,
{
    let x = BigInt::from_signed_bytes_le(&a.bytes);
    let y = BigInt::from_signed_bytes_le(&b.bytes);
    ZZ { bytes: (&x - &y).to_signed_bytes_le() }
}

/// `&BigInt * &BigInt`.
#[verifier::external_body]
fn big_mul(a: &ZZ, b: &ZZ) -> (r: ZZ)
    ensures
        minimal_twos(r.bytes@),
        r@ == a@ * b@,
{
    let x = BigInt::from_signed_bytes_le(&a.bytes);
    let y = BigInt::from_signed_bytes_le(&b.bytes);
    ZZ { bytes: (&x * &y).to_signed_bytes_le() }
}

/// `-&BigInt`.
#[verifier::external_body]
fn big_neg(a: &ZZ) -> (r: ZZ)
    ensures
        minimal_twos(r.bytes@),
        r@ == -a@,
{
    let x = BigInt::from_signed_bytes_le(&a.bytes);
    ZZ { bytes: (-&x).to_signed_bytes_le() }
}

/// `Signed::abs`.
#[verifier::external_body]
fn big_abs(a: &ZZ) -> (r: ZZ)
    ensures
        minimal_twos(r.bytes@),
        r@ == abs(a@),
{
    let x = BigInt::from_signed_bytes_le(&a.bytes);
    ZZ { bytes: x.abs().to_signed_bytes_le() }
}

/// `Euclid::div_euclid`: the quotient `q` with `a == q*b + r` and `0 <= r < |b|`.
/// It panics when `b` is zero.
#[verifier::external_body]
fn big_div_euclid(a: &ZZ, b: &ZZ) -> (r: ZZ)
    requires
        b@ != 0,
    ensures
        minimal_twos(r.bytes@),
        r@ == a@ / b@,
{
    let x = BigInt::from_signed_bytes_le(&a.bytes);
    let y = BigInt::from_signed_bytes_le(&b.bytes);
    ZZ { bytes: x.div_euclid(&y).to_signed_bytes_le() }
}

/// `Euclid::rem_euclid`: the remainder `r` with `a == q*b + r` and `0 <= r < |b|`.
/// It panics when `b` is zero.
#[verifier::external_body]
fn big_rem_euclid(a: &ZZ, b: &ZZ) -> (r: ZZ)
    requires
        b@ != 0,
    ensures
        minimal_twos(r.bytes@),
        r@ == a@ % b@,
{
    let x = BigInt::from_signed_bytes_le(&a.bytes);
    let y = BigInt::from_signed_bytes_le(&b.bytes);
    ZZ { bytes: x.rem_euclid(&y).to_signed_bytes_le() }
}

/// `Integer::gcd`: the non-negative greatest common divisor.
#[verifier::external_body]
fn big_gcd(a: &ZZ, b: &ZZ) -> (r: ZZ)
    ensures
        minimal_twos(r.bytes@),
        r@ == gcd(abs(a@), abs(b@)) as int,
{
    let x = BigInt::from_signed_bytes_le(&a.bytes);
    let y = BigInt::from_signed_bytes_le(&b.bytes);
    ZZ { bytes: x.gcd(&y).to_signed_bytes_le() }
}

/// `Integer::lcm`: the non-negative least common multiple (zero if either is zero).
#[verifier::external_body]
fn big_lcm(a: &ZZ, b: &ZZ) -> (r: ZZ)
    ensures
        minimal_twos(r.bytes@),
        r@ == lcm(abs(a@), abs(b@)) as int,
{
    let x = BigInt::from_signed_bytes_le(&a.bytes);
    let y = BigInt::from_signed_bytes_le(&b.bytes);
    ZZ { bytes: x.lcm(&y).to_signed_bytes_le() }
}

/// `BigInt == BigInt`.
#[verifier::external_body]
fn big_eq(a: &ZZ, b: &ZZ) -> (r: bool)
    ensures
        r == (a@ == b@),
{
    BigInt::from_signed_bytes_le(&a.bytes) == BigInt::from_signed_bytes_le(&b.bytes)
}

/// `BigInt <= BigInt`.
#[verifier::external_body]
fn big_le(a: &ZZ, b: &ZZ) -> (r: bool)
    ensures
        r == (a@ <= b@),
{
    BigInt::from_signed_bytes_le(&a.bytes) <= BigInt::from_signed_bytes_le(&b.bytes)
}

/// `Zero::is_zero`.
#[verifier::external_body]
fn big_is_zero(a: &ZZ) -> (r: bool)
    ensures
        r == (a@ == 0),
{
    BigInt::from_signed_bytes_le(&a.bytes).is_zero()
}

/// `Signed::is_positive`.
#[verifier::external_body]
fn big_is_positive(a: &ZZ) -> (r: bool)
    ensures
        r == (a@ > 0),
{
    BigInt::from_signed_bytes_le(&a.bytes).is_positive()
}

/// `Signed::is_negative`.
#[verifier::external_body]
fn big_is_negative(a: &ZZ) -> (r: bool)
    ensures
        r == (a@ < 0),
{
    BigInt::from_signed_bytes_le(&a.bytes).is_negative()
}

/// `Display` of `BigInt`: an optional `-` followed by the decimal digits.
#[verifier::external_body]
fn big_to_string(a: &ZZ) -> (r: String)
    ensures
        r@ == int_to_decimal(a@),
{
    BigInt::from_signed_bytes_le(&a.bytes).to_string()
}

/// `str::parse::<BigInt>`: the value read from `s`, or `None` where
/// `num-bigint` rejects it.
#[verifier::external_body]
fn big_parse(s: &str) -> (r: Option<ZZ>)
    ensures
        r matches Some(z) ==> minimal_twos(z.bytes@),
        match r {
            Some(z) => parsed_int(s@) == Some(z@),
            None => parsed_int(s@) is None,
        },
{
    s.parse::<BigInt>().ok().map(|x| ZZ { bytes: x.to_signed_bytes_le() })
}

// ---------------------------------------------------------------------------
// Public API
// ---------------------------------------------------------------------------

impl ZZ {
    /// Zero.
    pub fn zero() -> (r: ZZ)
        ensures
            r@ == 0,
    {
        big_of_i64(0)
    }

    /// One.
    pub fn one() -> (r: ZZ)
        ensures
            r@ == 1,
    {
        big_of_i64(1)
    }

    /// The integer `n`.
    pub fn of_i64(n: i64) -> (r: ZZ)
        ensures
            r@ == n as int,
    {
        big_of_i64(n)
    }

    /// Parse a decimal integer; `None` if the string is not one.
    pub fn of_string(s: &str) -> (r: Option<ZZ>)
        ensures
            r is Some <==> parsed_int(s@) is Some,
            r matches Some(z) ==> parsed_int(s@) == Some(z@),
    {
        big_parse(s)
    }

    /// The value as an `i64`, if it fits.
    pub fn to_i64(&self) -> (r: Option<i64>)
        ensures
            r is Some <==> (i64::MIN <= self@ && self@ <= i64::MAX),
            r matches Some(v) ==> v as int == self@,
    {
        big_to_i64(self)
    }

    /// Decimal rendering, with a leading `-` for negative values.
    pub fn to_string(&self) -> (r: String)
        ensures
            r@ == int_to_decimal(self@),
    {
        big_to_string(self)
    }

    /// A copy of `self`.
    pub fn copy(&self) -> (r: ZZ)
        ensures
            r@ == self@,
    {
        proof {
            use_type_invariant(self);
        }
        ZZ { bytes: self.bytes.clone() }
    }

    pub fn add(&self, other: &Self) -> (r: ZZ)
        ensures
            r@ == self@ + other@,
    {
        big_add(self, other)
    }

    pub fn sub(&self, other: &Self) -> (r: ZZ)
        ensures
            r@ == self@ - other@,
    {
        big_sub(self, other)
    }

    pub fn mul(&self, other: &Self) -> (r: ZZ)
        ensures
            r@ == self@ * other@,
    {
        big_mul(self, other)
    }

    pub fn negate(&self) -> (r: ZZ)
        ensures
            r@ == -self@,
    {
        big_neg(self)
    }

    pub fn abs(&self) -> (r: ZZ)
        ensures
            r@ == abs(self@),
    {
        big_abs(self)
    }

    /// Integer division conforming to SMTLIB2:
    /// `a == (a/b)*b + a%b` and `0 <= a%b < |b|`.
    pub fn div(&self, other: &Self) -> (r: ZZ)
        requires
            other@ != 0,
        ensures
            r@ == self@ / other@,
            self@ == r@ * other@ + self@ % other@,
    {
        proof {
            vstd::arithmetic::div_mod::lemma_fundamental_div_mod(self@, other@);
            vstd::arithmetic::mul::lemma_mul_is_commutative(other@, self@ / other@);
        }
        big_div_euclid(self, other)
    }

    /// Modulo conforming to SMTLIB2:
    /// `a == (a/b)*b + a%b` and `0 <= a%b < |b|`.
    pub fn modulo(&self, other: &Self) -> (r: ZZ)
        requires
            other@ != 0,
        ensures
            r@ == self@ % other@,
            0 <= r@ < abs(other@),
    {
        proof {
            let (a, b) = (self@, other@);
            assert(0 <= a % b < abs(b)) by (nonlinear_arith)
                requires b != 0;
        }
        big_rem_euclid(self, other)
    }

    /// Non-negative greatest common divisor.
    pub fn gcd(&self, other: &Self) -> (r: ZZ)
        ensures
            r@ == gcd(abs(self@), abs(other@)) as int,
    {
        big_gcd(self, other)
    }

    /// Non-negative least common multiple (zero if either argument is zero).
    pub fn lcm(&self, other: &Self) -> (r: ZZ)
        ensures
            r@ == lcm(abs(self@), abs(other@)) as int,
    {
        big_lcm(self, other)
    }

    pub fn min(&self, other: &Self) -> (r: ZZ)
        ensures
            r@ == if self@ <= other@ { self@ } else { other@ },
    {
        if big_le(self, other) {
            self.copy()
        } else {
            other.copy()
        }
    }

    pub fn max(&self, other: &Self) -> (r: ZZ)
        ensures
            r@ == if self@ >= other@ { self@ } else { other@ },
    {
        if big_le(other, self) {
            self.copy()
        } else {
            other.copy()
        }
    }

    pub fn is_zero(&self) -> (r: bool)
        ensures
            r == (self@ == 0),
    {
        big_is_zero(self)
    }

    pub fn is_positive(&self) -> (r: bool)
        ensures
            r == (self@ > 0),
    {
        big_is_positive(self)
    }

    pub fn is_negative(&self) -> (r: bool)
        ensures
            r == (self@ < 0),
    {
        big_is_negative(self)
    }

    /// Value equality.
    pub fn equal(&self, other: &Self) -> (r: bool)
        ensures
            r == (self@ == other@),
    {
        big_eq(self, other)
    }

    /// `self <= other`.
    pub fn leq(&self, other: &Self) -> (r: bool)
        ensures
            r == (self@ <= other@),
    {
        big_le(self, other)
    }
}

} // verus!
