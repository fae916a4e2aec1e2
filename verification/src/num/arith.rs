//! Number theory on mathematical integers: greatest common divisors and
//! canonical fractions.

use vstd::prelude::*;
use vstd::arithmetic::div_mod::*;
use vstd::arithmetic::mul::*;

verus! {

/// Absolute value of a mathematical integer.
pub open spec fn abs(x: int) -> nat {
    if x < 0 { (-x) as nat } else { x as nat }
}

/// Greatest common divisor by Euclid's algorithm; `gcd(0, 0) == 0`.
pub open spec fn gcd(a: nat, b: nat) -> nat
    decreases b,
{
    if b == 0 { a } else { gcd(b, a % b) }
}

/// Least common multiple; zero when either argument is zero.
pub open spec fn lcm(a: nat, b: nat) -> nat {
    if a == 0 || b == 0 { 0 } else { (a * b) / gcd(a, b) }
}

/// `(a*k) % (b*k) == (a % b) * k` for positive `b` and `k`.
pub proof fn lemma_mod_scale(a: nat, b: nat, k: nat)
    requires
        b > 0,
        k > 0,
    ensures
        (a * k) % (b * k) == (a % b) * k,
        (a * k) / (b * k) == a / b,
{
    let q = (a / b) as int;
    let r = (a % b) as int;
    lemma_fundamental_div_mod(a as int, b as int);
    lemma_mod_bound(a as int, b as int);
    assert(r * k < b * k) by (nonlinear_arith)
        requires 0 <= r < b, k > 0;
    assert(0 <= r * k) by (nonlinear_arith)
        requires 0 <= r, k > 0;
    assert(a * k == q * (b * k) + r * k) by (nonlinear_arith)
        requires a == b * q + r;
    assert(b * k > 0) by (nonlinear_arith)
        requires b > 0, k > 0;
    lemma_fundamental_div_mod_converse((a * k) as int, (b * k) as int, q, r * k);
}

/// Euclid's algorithm commutes with scaling: `gcd(a*k, b*k) == k * gcd(a, b)`.
pub proof fn lemma_gcd_scale(a: nat, b: nat, k: nat)
    requires
        k > 0,
    ensures
        gcd(a * k, b * k) == k * gcd(a, b),
    decreases b,
{
    if b == 0 {
        assert(b * k == 0);
        lemma_mul_is_commutative(a as int, k as int);
    } else {
        assert(b * k > 0) by (nonlinear_arith)
            requires b > 0, k > 0;
        lemma_mod_scale(a, b, k);
        lemma_gcd_scale(b, a % b, k);
    }
}

/// The gcd divides both arguments, and is positive when one of them is.
pub proof fn lemma_gcd_divides(a: nat, b: nat)
    ensures
        (a > 0 || b > 0) ==> gcd(a, b) > 0,
        gcd(a, b) > 0 ==> a % gcd(a, b) == 0 && b % gcd(a, b) == 0,
        gcd(a, b) == 0 ==> a == 0 && b == 0,
    decreases b,
{
    if b == 0 {
        if a > 0 {
            lemma_mod_self_0(a as int);
        }
    } else {
        let r = a % b;
        lemma_gcd_divides(b, r);
        let g = gcd(a, b);
        lemma_mod_bound(a as int, b as int);
        assert(g > 0);
        // a == b * q + r, with g dividing both b and r
        lemma_fundamental_div_mod(a as int, b as int);
        let q = a / b;
        lemma_fundamental_div_mod(b as int, g as int);
        lemma_fundamental_div_mod(r as int, g as int);
        let bq = b / g;
        let rq = r / g;
        assert(a == g * (bq * q + rq)) by (nonlinear_arith)
            requires a == b * q + r, b == g * bq, r == g * rq;
        lemma_mod_multiples_basic((bq * q + rq) as int, g as int);
        lemma_mul_is_commutative(g as int, (bq * q + rq) as int);
    }
}

/// `gcd(0, b) == b`.
pub proof fn lemma_gcd_zero_left(b: nat)
    ensures
        gcd(0, b) == b,
{
    if b > 0 {
        lemma_small_mod(0, b);
        assert(gcd(0, b) == gcd(b, 0));
    }
}

/// `gcd(a, b) == gcd(b, a)`.
pub proof fn lemma_gcd_commutes(a: nat, b: nat)
    ensures
        gcd(a, b) == gcd(b, a),
{
    if a == 0 {
        lemma_gcd_zero_left(b);
    } else if b == 0 {
        lemma_gcd_zero_left(a);
    } else if a < b {
        lemma_small_mod(a, b);
        assert(gcd(a, b) == gcd(b, a % b));
    } else if b < a {
        lemma_small_mod(b, a);
        assert(gcd(b, a) == gcd(a, b % a));
    }
}

/// `gcd(a, 1) == 1`.
pub proof fn lemma_gcd_one(a: nat)
    ensures
        gcd(a, 1) == 1,
        gcd(1, a) == 1,
{
    lemma_mod_self_0(1);
    lemma_fundamental_div_mod(a as int, 1);
    lemma_mod_bound(a as int, 1);
    assert(gcd(a, 1) == gcd(1, a % 1));
    assert(gcd(1, 0) == 1);
    lemma_gcd_commutes(a, 1);
}

// ---------------------------------------------------------------------------
// Canonical fractions
// ---------------------------------------------------------------------------

/// `(n, d)` is a fraction in lowest terms with a positive denominator.
pub open spec fn is_canonical(p: (int, int)) -> bool {
    p.1 > 0 && gcd(abs(p.0), p.1 as nat) == 1
}

/// Two fractions with nonzero denominators denote the same rational.
pub open spec fn same_rat(p: (int, int), q: (int, int)) -> bool {
    p.0 * q.1 == q.0 * p.1
}

/// The lowest-terms form of `n / d` (for `d > 0`).
pub open spec fn reduce_pos(n: int, d: int) -> (int, int) {
    let g = gcd(abs(n), d as nat) as int;
    (n / g, d / g)
}

/// The lowest-terms form of `n / d` with a positive denominator (for `d != 0`).
pub open spec fn canon(n: int, d: int) -> (int, int) {
    if d < 0 { reduce_pos(-n, -d) } else { reduce_pos(n, d) }
}

proof fn lemma_exact_div(x: int, g: int)
    requires
        g > 0,
        abs(x) % (g as nat) == 0,
    ensures
        x == g * (x / g),
        abs(x / g) * g == abs(x),
{
    if x >= 0 {
        lemma_fundamental_div_mod(x, g);
    } else {
        lemma_fundamental_div_mod(-x, g);
        let q = (-x) / g;
        assert(x == g * (-q)) by (nonlinear_arith)
            requires -x == g * q;
        lemma_fundamental_div_mod_converse(x, g, -q, 0);
        assert(x / g == -q);
    }
    lemma_fundamental_div_mod(abs(x) as int, g);
    assert(abs(x / g) * g == abs(x)) by (nonlinear_arith)
        requires x == g * (x / g), g > 0;
}

/// `reduce_pos(n, d)` is in lowest terms and denotes `n / d`.
pub proof fn lemma_reduce_pos(n: int, d: int)
    requires
        d > 0,
    ensures
        is_canonical(reduce_pos(n, d)),
        same_rat(reduce_pos(n, d), (n, d)),
{
    let a = abs(n);
    let b = d as nat;
    let g = gcd(a, b);
    lemma_gcd_divides(a, b);
    assert(g > 0);
    lemma_exact_div(n, g as int);
    lemma_exact_div(d, g as int);
    let r = reduce_pos(n, d);
    assert(r.1 > 0) by (nonlinear_arith)
        requires d == g * r.1, d > 0, g > 0;
    // gcd(|n/g| * g, (d/g) * g) == g * gcd(|n/g|, d/g)
    lemma_gcd_scale(abs(r.0), r.1 as nat, g);
    assert(abs(r.0) * g == a);
    assert((r.1 as nat) * g == b) by (nonlinear_arith)
        requires d == g * r.1, b == d;
    assert(g * gcd(abs(r.0), r.1 as nat) == g * 1);
    lemma_mul_equality_converse(g as int, gcd(abs(r.0), r.1 as nat) as int, 1);
    assert(r.0 * d == n * r.1) by (nonlinear_arith)
        requires n == g * r.0, d == g * r.1;
}

/// `canon(n, d)` is in lowest terms and denotes `n / d`.
pub proof fn lemma_canon(n: int, d: int)
    requires
        d != 0,
    ensures
        is_canonical(canon(n, d)),
        same_rat(canon(n, d), (n, d)),
{
    if d < 0 {
        lemma_reduce_pos(-n, -d);
        let r = canon(n, d);
        assert(r.0 * d == n * r.1) by (nonlinear_arith)
            requires r.0 * (-d) == (-n) * r.1;
    } else {
        lemma_reduce_pos(n, d);
    }
}

/// Two fractions in lowest terms that denote the same rational are identical.
pub proof fn lemma_canonical_unique(p: (int, int), q: (int, int))
    requires
        is_canonical(p),
        is_canonical(q),
        same_rat(p, q),
    ensures
        p == q,
{
    let (n1, d1) = p;
    let (n2, d2) = q;
    lemma_gcd_scale(abs(n1), d1 as nat, d2 as nat);
    lemma_gcd_scale(abs(n2), d2 as nat, d1 as nat);
    assert(abs(n1) * (d2 as nat) == abs(n2) * (d1 as nat)) by (nonlinear_arith)
        requires n1 * d2 == n2 * d1, d1 > 0, d2 > 0;
    assert((d1 as nat) * (d2 as nat) == (d2 as nat) * (d1 as nat)) by (nonlinear_arith);
    assert(d2 == d1);
    assert(n1 == n2) by (nonlinear_arith)
        requires n1 * d2 == n2 * d1, d1 == d2, d1 > 0;
}

/// A fraction already in lowest terms is its own canonical form.
pub proof fn lemma_canon_of_canonical(p: (int, int))
    requires
        is_canonical(p),
    ensures
        canon(p.0, p.1) == p,
{
    lemma_canon(p.0, p.1);
    lemma_canonical_unique(canon(p.0, p.1), p);
}

/// Equal rationals have equal canonical forms.
pub proof fn lemma_canon_same(p: (int, int), q: (int, int))
    requires
        p.1 != 0,
        q.1 != 0,
        same_rat(p, q),
    ensures
        canon(p.0, p.1) == canon(q.0, q.1),
{
    let cp = canon(p.0, p.1);
    let cq = canon(q.0, q.1);
    lemma_canon(p.0, p.1);
    lemma_canon(q.0, q.1);
    assert(same_rat(cp, cq)) by (nonlinear_arith)
        requires
            cp.0 * p.1 == p.0 * cp.1,
            cq.0 * q.1 == q.0 * cq.1,
            p.0 * q.1 == q.0 * p.1,
            p.1 != 0, q.1 != 0, cp.1 > 0, cq.1 > 0,
    {
        assert(cp.0 * cq.1 * (p.1 * q.1) == cq.0 * cp.1 * (p.1 * q.1));
        assert(p.1 * q.1 != 0);
    }
    lemma_canonical_unique(cp, cq);
}


// ---------------------------------------------------------------------------
// Rational arithmetic on fractions
// ---------------------------------------------------------------------------

/// Sum of two fractions, not reduced.
pub open spec fn raw_add(p: (int, int), q: (int, int)) -> (int, int) {
    (p.0 * q.1 + q.0 * p.1, p.1 * q.1)
}

/// Product of two fractions, not reduced.
pub open spec fn raw_mul(p: (int, int), q: (int, int)) -> (int, int) {
    (p.0 * q.0, p.1 * q.1)
}

/// Sum of two fractions, in lowest terms.
pub open spec fn rat_add(p: (int, int), q: (int, int)) -> (int, int) {
    let s = raw_add(p, q);
    canon(s.0, s.1)
}

/// Difference of two fractions, in lowest terms.
pub open spec fn rat_sub(p: (int, int), q: (int, int)) -> (int, int) {
    rat_add(p, rat_neg(q))
}

/// Product of two fractions, in lowest terms.
pub open spec fn rat_mul(p: (int, int), q: (int, int)) -> (int, int) {
    let s = raw_mul(p, q);
    canon(s.0, s.1)
}

/// Quotient of two fractions, in lowest terms.
pub open spec fn rat_div(p: (int, int), q: (int, int)) -> (int, int) {
    canon(p.0 * q.1, p.1 * q.0)
}

/// Negation of a fraction.
pub open spec fn rat_neg(p: (int, int)) -> (int, int) {
    (-p.0, p.1)
}

/// Reciprocal of a nonzero fraction, in lowest terms.
pub open spec fn rat_inv(p: (int, int)) -> (int, int) {
    canon(p.1, p.0)
}

/// Absolute value of a fraction.
pub open spec fn rat_abs(p: (int, int)) -> (int, int) {
    (abs(p.0) as int, p.1)
}

/// Largest integer below a fraction with a positive denominator.
pub open spec fn rat_floor(p: (int, int)) -> int {
    p.0 / p.1
}

/// Smallest integer above a fraction with a positive denominator.
pub open spec fn rat_ceiling(p: (int, int)) -> int {
    -((-p.0) / p.1)
}

/// Order of fractions with positive denominators.
pub open spec fn rat_le(p: (int, int), q: (int, int)) -> bool {
    p.0 * q.1 <= q.0 * p.1
}

/// Strict order of fractions with positive denominators.
pub open spec fn rat_lt(p: (int, int), q: (int, int)) -> bool {
    p.0 * q.1 < q.0 * p.1
}

proof fn lemma_same_rat_trans(a: (int, int), b: (int, int), c: (int, int))
    requires
        b.1 != 0,
        same_rat(a, b),
        same_rat(b, c),
    ensures
        same_rat(a, c),
{
    assert(a.0 * c.1 * b.1 == c.0 * a.1 * b.1) by (nonlinear_arith)
        requires a.0 * b.1 == b.0 * a.1, b.0 * c.1 == c.0 * b.1;
    assert(a.0 * c.1 == c.0 * a.1) by (nonlinear_arith)
        requires a.0 * c.1 * b.1 == c.0 * a.1 * b.1, b.1 != 0;
}

proof fn lemma_mul4(a: int, b: int, c: int, d: int)
    ensures
        (a * b) * (c * d) == (a * c) * (b * d),
{
    assert((a * b) * (c * d) == (a * c) * (b * d)) by (nonlinear_arith);
}

proof fn lemma_raw_add_respects(a: (int, int), a2: (int, int), b: (int, int))
    requires
        same_rat(a, a2),
    ensures
        same_rat(raw_add(a, b), raw_add(a2, b)),
        same_rat(raw_add(b, a), raw_add(b, a2)),
{
    let (x0, x1, y0, y1, b0, b1) = (a.0, a.1, a2.0, a2.1, b.0, b.1);
    let t = x0 * y1;
    assert(t * (b1 * b1) == (y0 * x1) * (b1 * b1));
    lemma_mul_is_distributive_add_other_way(y1 * b1, x0 * b1, b0 * x1);
    lemma_mul_is_distributive_add_other_way(x1 * b1, y0 * b1, b0 * y1);
    lemma_mul4(x0, b1, y1, b1);
    lemma_mul4(b0, x1, y1, b1);
    lemma_mul4(y0, b1, x1, b1);
    lemma_raw_comm(a, b);
    lemma_raw_comm(a2, b);
}

proof fn lemma_raw_mul_respects(a: (int, int), a2: (int, int), b: (int, int))
    requires
        same_rat(a, a2),
    ensures
        same_rat(raw_mul(a, b), raw_mul(a2, b)),
        same_rat(raw_mul(b, a), raw_mul(b, a2)),
{
    let (x0, x1, y0, y1, b0, b1) = (a.0, a.1, a2.0, a2.1, b.0, b.1);
    let t = x0 * y1;
    assert(t * (b0 * b1) == (y0 * x1) * (b0 * b1));
    lemma_mul4(x0, b0, y1, b1);
    lemma_mul4(y0, b0, x1, b1);
    lemma_raw_comm(a, b);
    lemma_raw_comm(a2, b);
}

proof fn lemma_raw_add_assoc(p: (int, int), q: (int, int), r: (int, int))
    ensures
        raw_add(raw_add(p, q), r) == raw_add(p, raw_add(q, r)),
{
    let (p0, p1, q0, q1, r0, r1) = (p.0, p.1, q.0, q.1, r.0, r.1);
    lemma_mul_is_distributive_add_other_way(r1, p0 * q1, q0 * p1);
    lemma_mul_is_distributive_add_other_way(p1, q0 * r1, r0 * q1);
    lemma_mul_is_associative(p0, q1, r1);
    assert((q0 * p1) * r1 == (q0 * r1) * p1) by (nonlinear_arith);
    assert(r0 * (p1 * q1) == (r0 * q1) * p1) by (nonlinear_arith);
    assert((p1 * q1) * r1 == p1 * (q1 * r1)) by (nonlinear_arith);
}

proof fn lemma_raw_mul_assoc(p: (int, int), q: (int, int), r: (int, int))
    ensures
        raw_mul(raw_mul(p, q), r) == raw_mul(p, raw_mul(q, r)),
{
    let (p0, p1, q0, q1, r0, r1) = (p.0, p.1, q.0, q.1, r.0, r.1);
    assert((p0 * q0) * r0 == p0 * (q0 * r0)) by (nonlinear_arith);
    assert((p1 * q1) * r1 == p1 * (q1 * r1)) by (nonlinear_arith);
}

proof fn lemma_mul5(a: int, b: int, s: int, u: int)
    ensures
        (a * s) * ((b * b) * u) == ((a * b) * s) * (b * u),
{
    assert((a * s) * ((b * b) * u) == ((a * b) * s) * (b * u)) by (nonlinear_arith);
}

proof fn lemma_raw_distrib(p: (int, int), q: (int, int), r: (int, int))
    ensures
        same_rat(raw_mul(p, raw_add(q, r)), raw_add(raw_mul(p, q), raw_mul(p, r))),
{
    let (p0, p1, q0, q1, r0, r1) = (p.0, p.1, q.0, q.1, r.0, r.1);
    let s = q0 * r1 + r0 * q1;
    let u = q1 * r1;
    lemma_mul4(p0, q0, p1, r1);
    lemma_mul4(p0, r0, p1, q1);
    lemma_mul_is_distributive_add(p0 * p1, q0 * r1, r0 * q1);
    lemma_mul4(p1, q1, p1, r1);
    lemma_mul_is_associative(p1, q1, r1);
    lemma_mul_is_associative(p1 * p1, q1, r1);
    lemma_mul4(p1, q1, p1, r1);
    lemma_mul5(p0, p1, s, u);
    assert((p1 * q1) * (p1 * r1) == (p1 * p1) * u);
    assert((p1 * q1) * r1 == p1 * u);
}

proof fn lemma_raw_comm(p: (int, int), q: (int, int))
    ensures
        raw_add(p, q) == raw_add(q, p),
        raw_mul(p, q) == raw_mul(q, p),
{
    let (p0, p1, q0, q1) = (p.0, p.1, q.0, q.1);
    assert(p1 * q1 == q1 * p1) by (nonlinear_arith);
    assert(p0 * q0 == q0 * p0) by (nonlinear_arith);
    assert(p0 * q1 + q0 * p1 == q0 * p1 + p0 * q1);
}

proof fn lemma_raw_units(p: (int, int))
    ensures
        raw_add(p, (0int, 1int)) == p,
        raw_mul(p, (1int, 1int)) == p,
        raw_add(p, rat_neg(p)).0 == 0,
        raw_mul(p, (0int, 1int)).0 == 0,
{
    let (p0, p1) = (p.0, p.1);
    assert(p0 * 1 + 0 * p1 == p0) by (nonlinear_arith);
    assert(p1 * 1 == p1) by (nonlinear_arith);
    assert(p0 * p1 + (-p0) * p1 == 0) by (nonlinear_arith);
    assert(p0 * 0 == 0) by (nonlinear_arith);
}

proof fn lemma_zero_num_same(s: (int, int))
    requires
        s.0 == 0,
    ensures
        same_rat(s, (0int, 1int)),
{
    assert(s.0 * 1 == 0 * s.1) by (nonlinear_arith) requires s.0 == 0;
}

pub proof fn lemma_pos_mul(x: int, y: int)
    requires
        x > 0,
        y > 0,
    ensures
        x * y > 0,
{
    assert(x * y > 0) by (nonlinear_arith) requires x > 0, y > 0;
}

/// A nonzero fraction in lowest terms times its reciprocal is one.
pub proof fn lemma_rat_inv(p: (int, int))
    requires
        is_canonical(p),
        p.0 != 0,
    ensures
        is_canonical(rat_inv(p)),
        rat_mul(p, rat_inv(p)) == (1int, 1int),
{
    let i = rat_inv(p);
    lemma_canon(p.1, p.0);
    lemma_pos_mul(p.1, i.1);
    assert(p.0 * i.0 * 1 == 1 * (p.1 * i.1)) by (nonlinear_arith)
        requires i.0 * p.0 == p.1 * i.1;
    lemma_canon_same(raw_mul(p, i), (1int, 1int));
    lemma_gcd_one(1);
    lemma_canon_of_canonical((1int, 1int));
}

/// The rationals in lowest terms are closed under the ring operations.
pub proof fn lemma_rat_closed(p: (int, int), q: (int, int))
    requires
        is_canonical(p),
        is_canonical(q),
    ensures
        is_canonical(rat_add(p, q)),
        same_rat(rat_add(p, q), raw_add(p, q)),
        is_canonical(rat_mul(p, q)),
        same_rat(rat_mul(p, q), raw_mul(p, q)),
        is_canonical(rat_neg(p)),
        is_canonical((0int, 1int)),
        is_canonical((1int, 1int)),
{
    lemma_pos_mul(p.1, q.1);
    lemma_canon(raw_add(p, q).0, raw_add(p, q).1);
    lemma_canon(raw_mul(p, q).0, raw_mul(p, q).1);
    assert(abs(-p.0) == abs(p.0));
    lemma_gcd_one(0);
    lemma_gcd_one(1);
}

/// The rationals in lowest terms form a commutative ring.
pub proof fn lemma_rat_ring(p: (int, int), q: (int, int), r: (int, int))
    requires
        is_canonical(p),
        is_canonical(q),
        is_canonical(r),
    ensures
        rat_add(rat_add(p, q), r) == rat_add(p, rat_add(q, r)),
        rat_add(p, q) == rat_add(q, p),
        rat_add(p, (0int, 1int)) == p,
        rat_add(p, rat_neg(p)) == (0int, 1int),
        rat_mul(rat_mul(p, q), r) == rat_mul(p, rat_mul(q, r)),
        rat_mul(p, q) == rat_mul(q, p),
        rat_mul(p, (1int, 1int)) == p,
        rat_mul(p, rat_add(q, r)) == rat_add(rat_mul(p, q), rat_mul(p, r)),
        rat_mul(p, (0int, 1int)) == (0int, 1int),
{
    lemma_rat_closed(p, q);
    lemma_rat_closed(q, r);
    lemma_rat_closed(p, r);
    lemma_rat_closed(rat_add(p, q), r);
    lemma_rat_closed(p, rat_add(q, r));
    lemma_rat_closed(rat_mul(p, q), r);
    lemma_rat_closed(p, rat_mul(q, r));
    lemma_rat_closed(p, rat_add(q, r));
    lemma_rat_closed(rat_mul(p, q), rat_mul(p, r));
    lemma_pos_mul(p.1, q.1);
    lemma_pos_mul(q.1, r.1);
    lemma_pos_mul(p.1, r.1);
    lemma_pos_mul(p.1 * q.1, r.1);
    // associativity of addition
    {
        let x = rat_add(p, q);
        let y = rat_add(q, r);
        lemma_raw_add_respects(x, raw_add(p, q), r);
        lemma_raw_add_respects(y, raw_add(q, r), p);
        lemma_raw_add_assoc(p, q, r);
        lemma_pos_mul(x.1, r.1);
        lemma_pos_mul(p.1, y.1);
        lemma_same_rat_trans(raw_add(x, r), raw_add(raw_add(p, q), r), raw_add(p, y));
        lemma_canon_same(raw_add(x, r), raw_add(p, y));
    }
    // commutativity
    lemma_raw_comm(p, q);
    // identities
    lemma_raw_units(p);
    lemma_canon_of_canonical(p);
    lemma_canon_of_canonical((0int, 1int));
    // inverse
    lemma_pos_mul(p.1, p.1);
    lemma_pos_mul(p.1, 1);
    lemma_zero_num_same(raw_add(p, rat_neg(p)));
    lemma_canon_same(raw_add(p, rat_neg(p)), (0int, 1int));
    // multiplication by zero
    lemma_zero_num_same(raw_mul(p, (0int, 1int)));
    lemma_canon_same(raw_mul(p, (0int, 1int)), (0int, 1int));
    // associativity of multiplication
    {
        let x = rat_mul(p, q);
        let y = rat_mul(q, r);
        lemma_raw_mul_respects(x, raw_mul(p, q), r);
        lemma_raw_mul_respects(y, raw_mul(q, r), p);
        lemma_raw_mul_assoc(p, q, r);
        lemma_pos_mul(x.1, r.1);
        lemma_pos_mul(p.1, y.1);
        lemma_same_rat_trans(raw_mul(x, r), raw_mul(raw_mul(p, q), r), raw_mul(p, y));
        lemma_canon_same(raw_mul(x, r), raw_mul(p, y));
    }
    // distributivity
    {
        let y = rat_add(q, r);
        let m1 = rat_mul(p, q);
        let m2 = rat_mul(p, r);
        lemma_raw_mul_respects(y, raw_add(q, r), p);
        let lhs_raw = raw_mul(p, raw_add(q, r));
        let rhs_raw = raw_add(raw_mul(p, q), raw_mul(p, r));
        lemma_raw_distrib(p, q, r);
        lemma_raw_add_respects(m1, raw_mul(p, q), m2);
        lemma_raw_add_respects(m2, raw_mul(p, r), raw_mul(p, q));
        lemma_pos_mul(q.1, r.1);
        lemma_pos_mul(p.1, q.1 * r.1);
        lemma_pos_mul(p.1 * q.1, p.1 * r.1);
        lemma_pos_mul(m1.1, m2.1);
        lemma_pos_mul(m1.1, p.1 * r.1);
        lemma_pos_mul(p.1 * q.1, m2.1);
        lemma_pos_mul(p.1, y.1);
        lemma_same_rat_trans(raw_mul(p, y), lhs_raw, rhs_raw);
        lemma_same_rat_trans(raw_add(m1, m2), raw_add(raw_mul(p, q), m2), rhs_raw);
        lemma_same_rat_trans(raw_mul(p, y), rhs_raw, raw_add(m1, m2));
        lemma_canon_same(raw_mul(p, y), raw_add(m1, m2));
    }
}

} // verus!
