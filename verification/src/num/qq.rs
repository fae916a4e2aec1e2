//! Unbounded rationals backed by `num-rational`.

use vstd::prelude::*;
use vstd::arithmetic::power::pow;
use num_bigint::BigInt;
use num_rational::BigRational;
use num_traits::Signed;
use num_traits::pow::Pow;

use crate::num::arith::{
    abs, canon, is_canonical, rat_abs, rat_add, rat_ceiling, rat_div, rat_floor, rat_inv, rat_le,
    rat_lt, rat_mul, rat_neg, rat_sub, gcd, lemma_canon, lemma_gcd_one, lemma_gcd_zero_left,
    lemma_rat_closed, lemma_pos_mul, lemma_gcd_divides,
};
use crate::num::zz::{int_to_decimal, minimal_twos, parsed_int, ZZ};
use vstd::string::StrSliceExecFns;

verus! {

/// Unbounded rationals, held as a fraction in lowest terms with a positive
/// denominator.
#[derive(Debug, PartialEq, Eq, Hash)]
pub struct QQ {
    num: ZZ,
    den: ZZ,
}

impl Clone for QQ {
    fn clone(&self) -> (r: Self)
        ensures
            r@ == self@,
    {
        proof { use_type_invariant(self); }
        QQ { num: self.num.copy(), den: self.den.copy() }
    }
}

impl View for QQ {
    type V = (int, int);

    closed spec fn view(&self) -> (int, int) {
        (self.num@, self.den@)
    }
}

impl QQ {
    #[verifier::type_invariant]
    spec fn lowest_terms(self) -> bool {
        is_canonical((self.num@, self.den@))
    }

    /// Build from a fraction already known to be in lowest terms.
    fn of_parts(num: ZZ, den: ZZ) -> (r: QQ)
        requires
            is_canonical((num@, den@)),
        ensures
            r@ == (num@, den@),
    {
        QQ { num, den }
    }

    /// Every rational is a fraction in lowest terms.
    pub fn lemma_lowest_terms(&self)
        ensures
            is_canonical(self@),
    {
        proof {
            use_type_invariant(self);
        }
    }
}

// ---------------------------------------------------------------------------
// Calls into num-rational
// ---------------------------------------------------------------------------

/// The characters that `str::trim` keeps of `s`: `s` without its leading and
/// trailing whitespace.
pub uninterp spec fn trimmed(s: Seq<char>) -> Seq<char>;

/// `piece` is a contiguous run of `whole`.
pub open spec fn is_piece_of(piece: Seq<char>, whole: Seq<char>) -> bool {
    exists|i: int, j: int| 0 <= i <= j <= whole.len() && piece == #[trigger] whole.subrange(i, j)
}

/// `str::trim`: `s` without leading and trailing whitespace (characters with
/// the Unicode `White_Space` property). The contract names the result, a
/// contiguous piece of `s`, and states nothing more of which characters are
/// removed.
#[verifier::external_body]
fn str_trim(s: &str) -> (r: &str)
    ensures
        r@ == trimmed(s@),
        is_piece_of(r@, s@),
{
    s.trim()
}

/// The position of the first `/` in `s`, if there is one.
pub open spec fn first_slash(s: Seq<char>) -> Option<int> {
    if exists|i: int| 0 <= i < s.len() && s[i] == '/' {
        Some(choose|i: int| 0 <= i < s.len() && s[i] == '/' && forall|k: int| 0 <= k < i ==> s[k] != '/')
    } else {
        None
    }
}

/// The numerator and denominator that [`QQ::of_string`] reads from `s`:
/// around the first `/`, both halves trimmed and read as integers; without
/// a `/`, the whole string read as an integer over one.
pub open spec fn parsed_fraction(s: Seq<char>) -> Option<(int, int)> {
    match first_slash(s) {
        Some(i) => match (parsed_int(trimmed(s.subrange(0, i))), parsed_int(trimmed(s.subrange(i + 1, s.len() as int)))) {
            (Some(n), Some(d)) => Some((n, d)),
            _ => None,
        },
        None => match parsed_int(s) {
            Some(n) => Some((n, 1int)),
            None => None,
        },
    }
}

/// Read the numerator and denominator of a fraction written `n/d` or `n`.
fn parse_fraction_parts(s: &str) -> (r: Option<(ZZ, ZZ)>)
    ensures
        match parsed_fraction(s@) {
            Some(f) => r matches Some(p) && p.0@ == f.0 && p.1@ == f.1,
            None => r is None,
        },
{
    let len = s.unicode_len();
    let mut i: usize = 0;
    while i < len
        invariant
            i <= len,
            len == s@.len(),
            forall|k: int| 0 <= k < i ==> s@[k] != '/',
        decreases len - i,
    {
        if s.get_char(i) == '/' {
            proof {
                let j = choose|j: int| 0 <= j < s@.len() && s@[j] == '/' && forall|k: int| 0 <= k < j ==> s@[k] != '/';
                if j < i {
                    assert(s@[j] != '/');
                }
                if j > i {
                    assert(s@[i as int] == '/');
                }
                assert(first_slash(s@) == Some(i as int));
            }
            let n = str_trim(s.substring_char(0, i));
            let d = str_trim(s.substring_char(i + 1, len));
            let num = match ZZ::of_string(n) {
                Some(z) => z,
                None => {
                    return None;
                },
            };
            let den = match ZZ::of_string(d) {
                Some(z) => z,
                None => {
                    return None;
                },
            };
            return Some((num, den));
        }
        i = i + 1;
    }
    proof {
        assert(first_slash(s@) is None);
    }
    match ZZ::of_string(s) {
        Some(z) => Some((z, ZZ::one())),
        None => None,
    }
}

/// `BigRational::new(n, d)`: the fraction `n / d` reduced to lowest terms with a
/// positive denominator. It panics when `d` is zero.
#[verifier::external_body]
fn rat_new(n: &ZZ, d: &ZZ) -> (r: (ZZ, ZZ))
    requires
        d@ != 0,
    ensures
        minimal_twos(r.0.bytes@),
        minimal_twos(r.1.bytes@),
        (r.0@, r.1@) == canon(n@, d@),
{
    let q = BigRational::new(BigInt::from_signed_bytes_le(&n.bytes), BigInt::from_signed_bytes_le(&d.bytes));
    (ZZ { bytes: q.numer().to_signed_bytes_le() }, ZZ { bytes: q.denom().to_signed_bytes_le() })
}

/// `&BigRational + &BigRational`, in lowest terms.
#[verifier::external_body]
fn rat_add_call(a: &QQ, b: &QQ) -> (r: (ZZ, ZZ))
    ensures
        minimal_twos(r.0.bytes@),
        minimal_twos(r.1.bytes@),
        (r.0@, r.1@) == rat_add(a@, b@),
{
    let x = BigRational::new_raw(BigInt::from_signed_bytes_le(&a.num.bytes), BigInt::from_signed_bytes_le(&a.den.bytes));
    let y = BigRational::new_raw(BigInt::from_signed_bytes_le(&b.num.bytes), BigInt::from_signed_bytes_le(&b.den.bytes));
    let q = &x + &y;
    (ZZ { bytes: q.numer().to_signed_bytes_le() }, ZZ { bytes: q.denom().to_signed_bytes_le() })
}

/// `&BigRational - &BigRational`, in lowest terms.
#[verifier::external_body]
fn rat_sub_call(a: &QQ, b: &QQ) -> (r: (ZZ, ZZ))
    ensures
        minimal_twos(r.0.bytes@),
        minimal_twos(r.1.bytes@),
        (r.0@, r.1@) == rat_sub(a@, b@),
{
    let x = BigRational::new_raw(BigInt::from_signed_bytes_le(&a.num.bytes), BigInt::from_signed_bytes_le(&a.den.bytes));
    let y = BigRational::new_raw(BigInt::from_signed_bytes_le(&b.num.bytes), BigInt::from_signed_bytes_le(&b.den.bytes));
    let q = &x - &y;
    (ZZ { bytes: q.numer().to_signed_bytes_le() }, ZZ { bytes: q.denom().to_signed_bytes_le() })
}

/// `&BigRational * &BigRational`, in lowest terms.
#[verifier::external_body]
fn rat_mul_call(a: &QQ, b: &QQ) -> (r: (ZZ, ZZ))
    ensures
        minimal_twos(r.0.bytes@),
        minimal_twos(r.1.bytes@),
        (r.0@, r.1@) == rat_mul(a@, b@),
{
    let x = BigRational::new_raw(BigInt::from_signed_bytes_le(&a.num.bytes), BigInt::from_signed_bytes_le(&a.den.bytes));
    let y = BigRational::new_raw(BigInt::from_signed_bytes_le(&b.num.bytes), BigInt::from_signed_bytes_le(&b.den.bytes));
    let q = &x * &y;
    (ZZ { bytes: q.numer().to_signed_bytes_le() }, ZZ { bytes: q.denom().to_signed_bytes_le() })
}

/// `&BigRational / &BigRational`, in lowest terms. It panics when `b` is zero.
#[verifier::external_body]
fn rat_div_call(a: &QQ, b: &QQ) -> (r: (ZZ, ZZ))
    requires
        b@.0 != 0,
    ensures
        minimal_twos(r.0.bytes@),
        minimal_twos(r.1.bytes@),
        (r.0@, r.1@) == rat_div(a@, b@),
{
    let x = BigRational::new_raw(BigInt::from_signed_bytes_le(&a.num.bytes), BigInt::from_signed_bytes_le(&a.den.bytes));
    let y = BigRational::new_raw(BigInt::from_signed_bytes_le(&b.num.bytes), BigInt::from_signed_bytes_le(&b.den.bytes));
    let q = &x / &y;
    (ZZ { bytes: q.numer().to_signed_bytes_le() }, ZZ { bytes: q.denom().to_signed_bytes_le() })
}

/// `Ratio::recip`, in lowest terms. It panics when `a` is zero.
#[verifier::external_body]
fn rat_recip_call(a: &QQ) -> (r: (ZZ, ZZ))
    requires
        a@.0 != 0,
    ensures
        minimal_twos(r.0.bytes@),
        minimal_twos(r.1.bytes@),
        (r.0@, r.1@) == rat_inv(a@),
{
    let x = BigRational::new_raw(BigInt::from_signed_bytes_le(&a.num.bytes), BigInt::from_signed_bytes_le(&a.den.bytes));
    let q = x.recip();
    (ZZ { bytes: q.numer().to_signed_bytes_le() }, ZZ { bytes: q.denom().to_signed_bytes_le() })
}

/// `Ratio::floor`: the largest integer not above `a`.
#[verifier::external_body]
fn rat_floor_call(a: &QQ) -> (r: ZZ)
    ensures
        minimal_twos(r.bytes@),
        r@ == rat_floor(a@),
{
    let x = BigRational::new_raw(BigInt::from_signed_bytes_le(&a.num.bytes), BigInt::from_signed_bytes_le(&a.den.bytes));
    ZZ { bytes: x.floor().numer().to_signed_bytes_le() }
}

/// `Ratio::ceil`: the smallest integer not below `a`.
#[verifier::external_body]
fn rat_ceil_call(a: &QQ) -> (r: ZZ)
    ensures
        minimal_twos(r.bytes@),
        r@ == rat_ceiling(a@),
{
    let x = BigRational::new_raw(BigInt::from_signed_bytes_le(&a.num.bytes), BigInt::from_signed_bytes_le(&a.den.bytes));
    ZZ { bytes: x.ceil().numer().to_signed_bytes_le() }
}

/// `Pow<usize>` for `&BigRational`: numerator and denominator raised to `n`,
/// which stays in lowest terms.
#[verifier::external_body]
fn rat_pow_call(a: &QQ, n: u32) -> (r: (ZZ, ZZ))
    ensures
        minimal_twos(r.0.bytes@),
        minimal_twos(r.1.bytes@),
        (r.0@, r.1@) == (pow(a@.0, n as nat), pow(a@.1, n as nat)),
        is_canonical((r.0@, r.1@)),
{
    let x = BigRational::new_raw(BigInt::from_signed_bytes_le(&a.num.bytes), BigInt::from_signed_bytes_le(&a.den.bytes));
    let q: BigRational = Pow::pow(&x, n as usize);
    (ZZ { bytes: q.numer().to_signed_bytes_le() }, ZZ { bytes: q.denom().to_signed_bytes_le() })
}

/// `Signed::abs` on `BigRational`.
#[verifier::external_body]
fn rat_abs_call(a: &QQ) -> (r: (ZZ, ZZ))
    ensures
        minimal_twos(r.0.bytes@),
        minimal_twos(r.1.bytes@),
        (r.0@, r.1@) == rat_abs(a@),
{
    let x = BigRational::new_raw(BigInt::from_signed_bytes_le(&a.num.bytes), BigInt::from_signed_bytes_le(&a.den.bytes));
    let q = x.abs();
    (ZZ { bytes: q.numer().to_signed_bytes_le() }, ZZ { bytes: q.denom().to_signed_bytes_le() })
}

/// `-&BigRational`.
#[verifier::external_body]
fn rat_neg_call(a: &QQ) -> (r: (ZZ, ZZ))
    ensures
        minimal_twos(r.0.bytes@),
        minimal_twos(r.1.bytes@),
        (r.0@, r.1@) == rat_neg(a@),
{
    let x = BigRational::new_raw(BigInt::from_signed_bytes_le(&a.num.bytes), BigInt::from_signed_bytes_le(&a.den.bytes));
    let q = -&x;
    (ZZ { bytes: q.numer().to_signed_bytes_le() }, ZZ { bytes: q.denom().to_signed_bytes_le() })
}

/// `BigRational <= BigRational`.
#[verifier::external_body]
fn rat_le_call(a: &QQ, b: &QQ) -> (r: bool)
    ensures
        r == rat_le(a@, b@),
{
    let x = BigRational::new_raw(BigInt::from_signed_bytes_le(&a.num.bytes), BigInt::from_signed_bytes_le(&a.den.bytes));
    let y = BigRational::new_raw(BigInt::from_signed_bytes_le(&b.num.bytes), BigInt::from_signed_bytes_le(&b.den.bytes));
    x <= y
}

/// `BigRational < BigRational`.
#[verifier::external_body]
fn rat_lt_call(a: &QQ, b: &QQ) -> (r: bool)
    ensures
        r == rat_lt(a@, b@),
{
    let x = BigRational::new_raw(BigInt::from_signed_bytes_le(&a.num.bytes), BigInt::from_signed_bytes_le(&a.den.bytes));
    let y = BigRational::new_raw(BigInt::from_signed_bytes_le(&b.num.bytes), BigInt::from_signed_bytes_le(&b.den.bytes));
    x < y
}


// ---------------------------------------------------------------------------
// Public API
// ---------------------------------------------------------------------------

impl QQ {
    /// Zero.
    pub fn zero() -> (r: QQ)
        ensures
            r@ == (0int, 1int),
    {
        proof {
            lemma_gcd_one(0);
        }
        QQ::of_parts(ZZ::zero(), ZZ::one())
    }

    /// One.
    pub fn one() -> (r: QQ)
        ensures
            r@ == (1int, 1int),
    {
        proof {
            lemma_gcd_one(1);
        }
        QQ::of_parts(ZZ::one(), ZZ::one())
    }

    /// The integer `n`.
    pub fn of_i64(n: i64) -> (r: QQ)
        ensures
            r@ == (n as int, 1int),
    {
        proof {
            lemma_gcd_one(abs(n as int));
        }
        QQ::of_parts(ZZ::of_i64(n), ZZ::one())
    }

    /// The integer `z`.
    pub fn of_zz(z: &ZZ) -> (r: QQ)
        ensures
            r@ == (z@, 1int),
    {
        proof {
            lemma_gcd_one(abs(z@));
        }
        QQ::of_parts(z.copy(), ZZ::one())
    }

    /// Parse a fraction written `n/d` (each half trimmed) or an integer `n`;
    /// `None` if the string is neither. The denominator must not be zero.
    pub fn of_string(s: &str) -> (r: Option<QQ>)
        requires
            parsed_fraction(s@) matches Some(f) ==> f.1 != 0,
        ensures
            match parsed_fraction(s@) {
                Some(f) => r matches Some(q) && q@ == canon(f.0, f.1),
                None => r is None,
            },
    {
        match parse_fraction_parts(s) {
            Some((n, d)) => Some(QQ::of_zz_frac(&n, &d)),
            None => None,
        }
    }

    /// Like [`QQ::of_string`], and also `None` when the denominator is zero.
    pub fn of_string_checked(s: &str) -> (r: Option<QQ>)
        ensures
            match parsed_fraction(s@) {
                Some(f) => if f.1 != 0 {
                    r matches Some(q) && q@ == canon(f.0, f.1)
                } else {
                    r is None
                },
                None => r is None,
            },
    {
        match parse_fraction_parts(s) {
            Some((_n, d)) => {
                if d.is_zero() {
                    None
                } else {
                    QQ::of_string(s)
                }
            },
            None => None,
        }
    }

    /// The fraction `num / den`; the denominator must not be zero.
    pub fn of_frac(num: i64, den: i64) -> (r: QQ)
        requires
            den != 0,
        ensures
            r@ == canon(num as int, den as int),
    {
        let n = ZZ::of_i64(num);
        let d = ZZ::of_i64(den);
        QQ::of_zz_frac(&n, &d)
    }

    /// The fraction `num / den`; the denominator must not be zero.
    pub fn of_zz_frac(num: &ZZ, den: &ZZ) -> (r: QQ)
        requires
            den@ != 0,
        ensures
            r@ == canon(num@, den@),
    {
        proof {
            lemma_canon(num@, den@);
        }
        let (n, d) = rat_new(num, den);
        QQ::of_parts(n, d)
    }

    /// The numerator of the fraction in lowest terms.
    pub fn numerator(&self) -> (r: ZZ)
        ensures
            r@ == self@.0,
    {
        self.num.copy()
    }

    /// The (positive) denominator of the fraction in lowest terms.
    pub fn denominator(&self) -> (r: ZZ)
        ensures
            r@ == self@.1,
            r@ > 0,
    {
        proof {
            use_type_invariant(self);
        }
        self.den.copy()
    }

    /// Is the value an integer (denominator one)?
    pub fn is_integer(&self) -> (r: bool)
        ensures
            r == (self@.1 == 1),
    {
        let one = ZZ::one();
        self.den.equal(&one)
    }

    /// The value as an integer, if it is one.
    pub fn to_zz(&self) -> (r: Option<ZZ>)
        ensures
            r is Some <==> self@.1 == 1,
            r matches Some(z) ==> z@ == self@.0,
    {
        if self.is_integer() {
            Some(self.num.copy())
        } else {
            None
        }
    }

    /// The value as an `i64`, if it is an integer that fits.
    pub fn to_i64(&self) -> (r: Option<i64>)
        ensures
            r is Some <==> (self@.1 == 1 && i64::MIN <= self@.0 && self@.0 <= i64::MAX),
            r matches Some(v) ==> v as int == self@.0,
    {
        match self.to_zz() {
            Some(z) => z.to_i64(),
            None => None,
        }
    }

    pub fn add(&self, other: &Self) -> (r: QQ)
        ensures
            r@ == rat_add(self@, other@),
    {
        proof {
            use_type_invariant(self);
            use_type_invariant(other);
            lemma_rat_closed(self@, other@);
        }
        let (n, d) = rat_add_call(self, other);
        QQ::of_parts(n, d)
    }

    pub fn sub(&self, other: &Self) -> (r: QQ)
        ensures
            r@ == rat_sub(self@, other@),
    {
        proof {
            use_type_invariant(self);
            use_type_invariant(other);
            lemma_rat_closed(other@, other@);
            lemma_rat_closed(self@, rat_neg(other@));
        }
        let (n, d) = rat_sub_call(self, other);
        QQ::of_parts(n, d)
    }

    pub fn mul(&self, other: &Self) -> (r: QQ)
        ensures
            r@ == rat_mul(self@, other@),
    {
        proof {
            use_type_invariant(self);
            use_type_invariant(other);
            lemma_rat_closed(self@, other@);
        }
        let (n, d) = rat_mul_call(self, other);
        QQ::of_parts(n, d)
    }

    /// Division; the divisor must not be zero.
    pub fn div(&self, other: &Self) -> (r: QQ)
        requires
            other@.0 != 0,
        ensures
            r@ == rat_div(self@, other@),
    {
        proof {
            use_type_invariant(self);
            use_type_invariant(other);
            assert(self@.1 * other@.0 != 0) by (nonlinear_arith)
                requires self@.1 > 0, other@.0 != 0;
            lemma_canon(self@.0 * other@.1, self@.1 * other@.0);
        }
        let (n, d) = rat_div_call(self, other);
        QQ::of_parts(n, d)
    }

    /// Integer division: `floor(a/b)`; the divisor must not be zero.
    pub fn idiv(&self, other: &Self) -> (r: ZZ)
        requires
            other@.0 != 0,
        ensures
            r@ == rat_floor(rat_div(self@, other@)),
    {
        let q = self.div(other);
        q.floor()
    }

    /// Modulo: `a - b * idiv(a, b)`; the divisor must not be zero.
    pub fn modulo(&self, other: &Self) -> (r: QQ)
        requires
            other@.0 != 0,
        ensures
            r@ == rat_sub(self@, rat_mul(other@, (rat_floor(rat_div(self@, other@)), 1int))),
    {
        let q = self.idiv(other);
        let qq = QQ::of_zz(&q);
        let prod = other.mul(&qq);
        self.sub(&prod)
    }

    pub fn negate(&self) -> (r: QQ)
        ensures
            r@ == rat_neg(self@),
    {
        proof {
            use_type_invariant(self);
            lemma_rat_closed(self@, self@);
        }
        let (n, d) = rat_neg_call(self);
        QQ::of_parts(n, d)
    }

    pub fn abs(&self) -> (r: QQ)
        ensures
            r@ == rat_abs(self@),
    {
        proof {
            use_type_invariant(self);
            assert(abs(abs(self@.0) as int) == abs(self@.0));
        }
        let (n, d) = rat_abs_call(self);
        QQ::of_parts(n, d)
    }

    /// Reciprocal; the argument must not be zero.
    pub fn inverse(&self) -> (r: QQ)
        requires
            self@.0 != 0,
        ensures
            r@ == rat_inv(self@),
    {
        proof {
            lemma_canon(self@.1, self@.0);
        }
        let (n, d) = rat_recip_call(self);
        QQ::of_parts(n, d)
    }

    /// Largest integer not above the value.
    pub fn floor(&self) -> (r: ZZ)
        ensures
            r@ == rat_floor(self@),
    {
        rat_floor_call(self)
    }

    /// Smallest integer not below the value.
    pub fn ceiling(&self) -> (r: ZZ)
        ensures
            r@ == rat_ceiling(self@),
    {
        rat_ceil_call(self)
    }

    /// `self` raised to the power `n`.
    pub fn exp(&self, n: u32) -> (r: QQ)
        ensures
            r@ == (pow(self@.0, n as nat), pow(self@.1, n as nat)),
    {
        let (a, b) = rat_pow_call(self, n);
        QQ::of_parts(a, b)
    }

    /// Greatest common divisor of two rationals: the largest rational `g`
    /// such that both arguments are integer multiples of `g`.
    pub fn gcd(&self, other: &Self) -> (r: QQ)
        ensures
            self@.0 == 0 ==> r@ == rat_abs(other@),
            self@.0 != 0 && other@.0 == 0 ==> r@ == rat_abs(self@),
            self@.0 != 0 && other@.0 != 0 ==> r@ == canon(
                gcd(abs(self@.0 * other@.1), abs(other@.0 * self@.1)) as int,
                self@.1 * other@.1,
            ),
    {
        proof {
            use_type_invariant(self);
            use_type_invariant(other);
        }
        if self.is_zero() {
            return other.abs();
        }
        if other.is_zero() {
            return self.abs();
        }
        // gcd(a/b, c/d) = gcd(a*d, c*b) / (b*d)
        let ad = self.num.mul(&other.den);
        let cb = other.num.mul(&self.den);
        let n = ad.gcd(&cb);
        let d = self.den.mul(&other.den);
        proof {
            lemma_pos_mul(self@.1, other@.1);
        }
        QQ::of_zz_frac(&n, &d)
    }

    /// Least common multiple of two rationals: `|a*b| / gcd(a, b)`, or zero if
    /// either argument is zero.
    pub fn lcm(&self, other: &Self) -> (r: QQ)
        ensures
            (self@.0 == 0 || other@.0 == 0) ==> r@ == (0int, 1int),
            (self@.0 != 0 && other@.0 != 0) ==> r@ == rat_div(
                rat_abs(rat_mul(self@, other@)),
                canon(gcd(abs(self@.0 * other@.1), abs(other@.0 * self@.1)) as int, self@.1 * other@.1),
            ),
    {
        proof {
            use_type_invariant(self);
            use_type_invariant(other);
        }
        if self.is_zero() || other.is_zero() {
            return QQ::zero();
        }
        let product = self.mul(other).abs();
        let g = self.gcd(other);
        proof {
            lemma_rat_gcd_nonzero(self@, other@);
        }
        product.div(&g)
    }

    pub fn min(&self, other: &Self) -> (r: QQ)
        ensures
            r@ == if rat_le(self@, other@) { self@ } else { other@ },
    {
        if self.leq(other) {
            self.clone()
        } else {
            other.clone()
        }
    }

    pub fn max(&self, other: &Self) -> (r: QQ)
        ensures
            r@ == if rat_le(other@, self@) { self@ } else { other@ },
    {
        if other.leq(self) {
            self.clone()
        } else {
            other.clone()
        }
    }

    pub fn is_zero(&self) -> (r: bool)
        ensures
            r == (self@.0 == 0),
            r == (self@ == (0int, 1int)),
    {
        proof {
            use_type_invariant(self);
            if self@.0 == 0 {
                lemma_gcd_zero_left(self@.1 as nat);
            }
        }
        self.num.is_zero()
    }

    pub fn is_positive(&self) -> (r: bool)
        ensures
            r == (self@.0 > 0),
    {
        self.num.is_positive()
    }

    pub fn is_negative(&self) -> (r: bool)
        ensures
            r == (self@.0 < 0),
    {
        self.num.is_negative()
    }

    pub fn leq(&self, other: &Self) -> (r: bool)
        ensures
            r == rat_le(self@, other@),
    {
        rat_le_call(self, other)
    }

    pub fn lt(&self, other: &Self) -> (r: bool)
        ensures
            r == rat_lt(self@, other@),
    {
        rat_lt_call(self, other)
    }

    /// Value equality.
    pub fn equal(&self, other: &Self) -> (r: bool)
        ensures
            r == (self@ == other@),
    {
        self.num.equal(&other.num) && self.den.equal(&other.den)
    }

    /// Decimal rendering: `n` for an integer, `n/d` otherwise.
    pub fn to_string(&self) -> (r: String)
        ensures
            r@ == if self@.1 == 1 {
                int_to_decimal(self@.0)
            } else {
                int_to_decimal(self@.0) + seq!['/'] + int_to_decimal(self@.1)
            },
    {
        let n = self.num.to_string();
        if self.is_integer() {
            n
        } else {
            let mut s = n;
            proof {
                reveal_strlit("/");
            }
            s.append("/");
            let d = self.den.to_string();
            s.append(d.as_str());
            s
        }
    }
}

/// The rational gcd of two nonzero rationals is nonzero.
proof fn lemma_rat_gcd_nonzero(p: (int, int), q: (int, int))
    requires
        is_canonical(p),
        is_canonical(q),
        p.0 != 0,
        q.0 != 0,
    ensures
        canon(gcd(abs(p.0 * q.1), abs(q.0 * p.1)) as int, p.1 * q.1).0 != 0,
{
    let a = abs(p.0 * q.1);
    let b = abs(q.0 * p.1);
    assert(a > 0) by (nonlinear_arith)
        requires p.0 != 0, q.1 > 0, a == abs(p.0 * q.1);
    lemma_gcd_divides(a, b);
    let g = gcd(a, b) as int;
    lemma_pos_mul(p.1, q.1);
    let c = canon(g, p.1 * q.1);
    lemma_canon(g, p.1 * q.1);
    assert(c.0 != 0) by (nonlinear_arith)
        requires c.0 * (p.1 * q.1) == g * c.1, g > 0, c.1 > 0, p.1 * q.1 > 0;
}

} // verus!
