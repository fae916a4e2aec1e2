//! Signatures for algebraic structures.
//!
//! Each structure is described by a mathematical model (the `View` of its
//! elements) together with the operations on that model; the executable
//! operations are specified against the model, and the algebraic laws are
//! proof obligations of every implementation.

use vstd::prelude::*;

use crate::num::arith::{
    is_canonical, lemma_gcd_one, lemma_rat_closed, lemma_rat_ring, rat_add, rat_mul, rat_neg,
};
use crate::num::{QQ, ZZ};

verus! {

/// A set with an associative binary operation `mul`.
pub trait Semigroup: Sized + View {
    /// Models that denote elements.
    spec fn sg_valid(v: Self::V) -> bool;

    /// The operation on models.
    spec fn sg_mul(a: Self::V, b: Self::V) -> Self::V;

    /// The operation is closed and associative.
    proof fn lemma_semigroup(a: Self::V, b: Self::V, c: Self::V)
        requires
            Self::sg_valid(a),
            Self::sg_valid(b),
            Self::sg_valid(c),
        ensures
            Self::sg_valid(Self::sg_mul(a, b)),
            Self::sg_mul(Self::sg_mul(a, b), c) == Self::sg_mul(a, Self::sg_mul(b, c)),
    ;

    fn mul(a: &Self, b: &Self) -> (r: Self)
        requires
            Self::sg_valid(a@),
            Self::sg_valid(b@),
        ensures
            r@ == Self::sg_mul(a@, b@),
    ;
}

/// A commutative group: associative, commutative `add` with identity `zero`
/// and inverse `negate`.
pub trait AbelianGroup: Sized + View {
    spec fn ag_valid(v: Self::V) -> bool;

    spec fn ag_zero() -> Self::V;

    spec fn ag_add(a: Self::V, b: Self::V) -> Self::V;

    spec fn ag_neg(a: Self::V) -> Self::V;

    fn zero() -> (r: Self)
        ensures
            r@ == Self::ag_zero(),
            Self::ag_valid(r@),
    ;

    fn add(a: &Self, b: &Self) -> (r: Self)
        requires
            Self::ag_valid(a@),
            Self::ag_valid(b@),
        ensures
            r@ == Self::ag_add(a@, b@),
            Self::ag_valid(r@),
    ;

    fn negate(a: &Self) -> (r: Self)
        requires
            Self::ag_valid(a@),
        ensures
            r@ == Self::ag_neg(a@),
            Self::ag_valid(r@),
    ;

    fn sub(a: &Self, b: &Self) -> (r: Self)
        requires
            Self::ag_valid(a@),
            Self::ag_valid(b@),
        ensures
            r@ == Self::ag_add(a@, Self::ag_neg(b@)),
            Self::ag_valid(r@),
    {
        let nb = Self::negate(b);
        Self::add(a, &nb)
    }

    fn is_zero(a: &Self) -> (r: bool)
        requires
            Self::ag_valid(a@),
        ensures
            r == (a@ == Self::ag_zero()),
    ;
}

/// A (unital) ring. Every ring is also a [`Semigroup`] under `mul`.
pub trait Ring: Sized + View {
    /// Models that denote ring elements (for instance, fractions in lowest terms).
    spec fn valid(v: Self::V) -> bool;

    spec fn rzero() -> Self::V;

    spec fn rone() -> Self::V;

    spec fn radd(a: Self::V, b: Self::V) -> Self::V;

    spec fn rmul(a: Self::V, b: Self::V) -> Self::V;

    spec fn rneg(a: Self::V) -> Self::V;

    /// The ring operations stay within the valid models.
    proof fn lemma_valid_closed(a: Self::V, b: Self::V)
        requires
            Self::valid(a),
            Self::valid(b),
        ensures
            Self::valid(Self::radd(a, b)),
            Self::valid(Self::rmul(a, b)),
            Self::valid(Self::rneg(a)),
    ;

    /// Zero and one are valid.
    proof fn lemma_valid_units()
        ensures
            Self::valid(Self::rzero()),
            Self::valid(Self::rone()),
    ;

    /// The ring axioms.
    proof fn lemma_ring_axioms(a: Self::V, b: Self::V, c: Self::V)
        requires
            Self::valid(a),
            Self::valid(b),
            Self::valid(c),
        ensures
            Self::radd(Self::radd(a, b), c) == Self::radd(a, Self::radd(b, c)),
            Self::radd(a, b) == Self::radd(b, a),
            Self::radd(a, Self::rzero()) == a,
            Self::radd(a, Self::rneg(a)) == Self::rzero(),
            Self::rmul(Self::rmul(a, b), c) == Self::rmul(a, Self::rmul(b, c)),
            Self::rmul(a, Self::rone()) == a,
            Self::rmul(Self::rone(), a) == a,
            Self::rmul(a, Self::radd(b, c)) == Self::radd(Self::rmul(a, b), Self::rmul(a, c)),
            Self::rmul(Self::radd(a, b), c) == Self::radd(Self::rmul(a, c), Self::rmul(b, c)),
            Self::rmul(a, Self::rzero()) == Self::rzero(),
            Self::rmul(Self::rzero(), a) == Self::rzero(),
    ;

    fn zero() -> (r: Self)
        ensures
            r@ == Self::rzero(),
    ;

    fn one() -> (r: Self)
        ensures
            r@ == Self::rone(),
    ;

    fn add(a: &Self, b: &Self) -> (r: Self)
        requires
            Self::valid(a@),
            Self::valid(b@),
        ensures
            r@ == Self::radd(a@, b@),
    ;

    fn mul(a: &Self, b: &Self) -> (r: Self)
        requires
            Self::valid(a@),
            Self::valid(b@),
        ensures
            r@ == Self::rmul(a@, b@),
    ;

    fn negate(a: &Self) -> (r: Self)
        requires
            Self::valid(a@),
        ensures
            r@ == Self::rneg(a@),
    ;

    fn sub(a: &Self, b: &Self) -> (r: Self)
        requires
            Self::valid(a@),
            Self::valid(b@),
        ensures
            r@ == Self::radd(a@, Self::rneg(b@)),
    {
        proof {
            Self::lemma_valid_closed(b@, b@);
        }
        let nb = Self::negate(b);
        Self::add(a, &nb)
    }

    /// Equality of the denoted elements.
    fn equal(a: &Self, b: &Self) -> (r: bool)
        requires
            Self::valid(a@),
            Self::valid(b@),
        ensures
            r == (a@ == b@),
    ;

    fn is_zero(a: &Self) -> (r: bool)
        requires
            Self::valid(a@),
        ensures
            r == (a@ == Self::rzero()),
    {
        proof {
            Self::lemma_valid_units();
        }
        let z = Self::zero();
        Self::equal(a, &z)
    }

    /// A copy of an element.
    fn copy(a: &Self) -> (r: Self)
        ensures
            r@ == a@,
    ;

    /// Every element of the type denotes a valid model.
    fn lemma_valid(a: &Self)
        ensures
            Self::valid(a@),
    ;

    /// The decimal rendering of a model.
    spec fn text(v: Self::V) -> Seq<char>;

    /// The decimal rendering of an element.
    fn render(a: &Self) -> (r: String)
        ensures
            r@ == Self::text(a@),
    ;
}

impl<R: Ring> Semigroup for R {
    open spec fn sg_valid(v: R::V) -> bool {
        R::valid(v)
    }

    open spec fn sg_mul(a: R::V, b: R::V) -> R::V {
        R::rmul(a, b)
    }

    proof fn lemma_semigroup(a: R::V, b: R::V, c: R::V) {
        R::lemma_valid_closed(a, b);
        R::lemma_ring_axioms(a, b, c);
    }

    fn mul(a: &Self, b: &Self) -> (r: Self) {
        <R as Ring>::mul(a, b)
    }
}

impl<R: Ring> AbelianGroup for R {
    open spec fn ag_valid(v: R::V) -> bool {
        R::valid(v)
    }

    open spec fn ag_zero() -> R::V {
        R::rzero()
    }

    open spec fn ag_add(a: R::V, b: R::V) -> R::V {
        R::radd(a, b)
    }

    open spec fn ag_neg(a: R::V) -> R::V {
        R::rneg(a)
    }

    fn zero() -> (r: Self) {
        let r = <R as Ring>::zero();
        proof {
            R::lemma_valid_units();
        }
        r
    }

    fn add(a: &Self, b: &Self) -> (r: Self) {
        proof {
            R::lemma_valid_closed(a@, b@);
        }
        <R as Ring>::add(a, b)
    }

    fn negate(a: &Self) -> (r: Self) {
        proof {
            R::lemma_valid_closed(a@, a@);
        }
        <R as Ring>::negate(a)
    }

    fn sub(a: &Self, b: &Self) -> (r: Self) {
        proof {
            R::lemma_valid_closed(b@, b@);
            R::lemma_valid_closed(a@, R::rneg(b@));
        }
        <R as Ring>::sub(a, b)
    }

    fn is_zero(a: &Self) -> (r: bool) {
        <R as Ring>::is_zero(a)
    }
}

/// A semilattice: an associative, commutative, idempotent `join`.
pub trait Semilattice: Sized + View {
    spec fn sl_join(a: Self::V, b: Self::V) -> Self::V;

    proof fn lemma_semilattice(a: Self::V, b: Self::V, c: Self::V)
        ensures
            Self::sl_join(Self::sl_join(a, b), c) == Self::sl_join(a, Self::sl_join(b, c)),
            Self::sl_join(a, b) == Self::sl_join(b, a),
            Self::sl_join(a, a) == a,
    ;

    fn join(a: &Self, b: &Self) -> (r: Self)
        ensures
            r@ == Self::sl_join(a@, b@),
    ;

    fn equal(a: &Self, b: &Self) -> (r: bool)
        ensures
            r == (a@ == b@),
    ;
}

/// A lattice: a semilattice with a dual `meet` operation.
pub trait Lattice: Semilattice {
    spec fn l_meet(a: Self::V, b: Self::V) -> Self::V;

    proof fn lemma_lattice(a: Self::V, b: Self::V, c: Self::V)
        ensures
            Self::l_meet(Self::l_meet(a, b), c) == Self::l_meet(a, Self::l_meet(b, c)),
            Self::l_meet(a, b) == Self::l_meet(b, a),
            Self::l_meet(a, a) == a,
            Self::sl_join(a, Self::l_meet(a, b)) == a,
            Self::l_meet(a, Self::sl_join(a, b)) == a,
    ;

    fn meet(a: &Self, b: &Self) -> (r: Self)
        ensures
            r@ == Self::l_meet(a@, b@),
    ;
}

// ---------------------------------------------------------------------------
// Ring impls for the project's bignum types
// ---------------------------------------------------------------------------

impl Ring for ZZ {
    open spec fn valid(v: int) -> bool {
        true
    }

    open spec fn rzero() -> int {
        0
    }

    open spec fn rone() -> int {
        1
    }

    open spec fn radd(a: int, b: int) -> int {
        a + b
    }

    open spec fn rmul(a: int, b: int) -> int {
        a * b
    }

    open spec fn rneg(a: int) -> int {
        -a
    }

    proof fn lemma_valid_closed(a: int, b: int) {
    }

    proof fn lemma_valid_units() {
    }

    proof fn lemma_ring_axioms(a: int, b: int, c: int) {
        assert((a * b) * c == a * (b * c)) by (nonlinear_arith);
        assert(a * (b + c) == a * b + a * c) by (nonlinear_arith);
        assert((a + b) * c == a * c + b * c) by (nonlinear_arith);
    }

    fn zero() -> (r: Self) {
        ZZ::zero()
    }

    fn one() -> (r: Self) {
        ZZ::one()
    }

    fn add(a: &Self, b: &Self) -> (r: Self) {
        a.add(b)
    }

    fn mul(a: &Self, b: &Self) -> (r: Self) {
        a.mul(b)
    }

    fn negate(a: &Self) -> (r: Self) {
        a.negate()
    }

    fn sub(a: &Self, b: &Self) -> (r: Self) {
        a.sub(b)
    }

    fn equal(a: &Self, b: &Self) -> (r: bool) {
        a.equal(b)
    }

    fn copy(a: &Self) -> (r: Self) {
        a.copy()
    }

    fn lemma_valid(a: &Self) {
    }

    open spec fn text(v: Self::V) -> Seq<char> {
        crate::num::zz::int_to_decimal(v)
    }

    fn render(a: &Self) -> (r: String) {
        a.to_string()
    }
}

impl Ring for QQ {
    open spec fn valid(v: (int, int)) -> bool {
        is_canonical(v)
    }

    open spec fn rzero() -> (int, int) {
        (0, 1)
    }

    open spec fn rone() -> (int, int) {
        (1, 1)
    }

    open spec fn radd(a: (int, int), b: (int, int)) -> (int, int) {
        rat_add(a, b)
    }

    open spec fn rmul(a: (int, int), b: (int, int)) -> (int, int) {
        rat_mul(a, b)
    }

    open spec fn rneg(a: (int, int)) -> (int, int) {
        rat_neg(a)
    }

    proof fn lemma_valid_closed(a: (int, int), b: (int, int)) {
        lemma_rat_closed(a, b);
        assert(is_canonical(rat_add(a, b)));
        assert(is_canonical(rat_mul(a, b)));
        assert(is_canonical(rat_neg(a)));
    }

    proof fn lemma_valid_units() {
        lemma_gcd_one(0);
        lemma_gcd_one(1);
        assert(is_canonical((0int, 1int)));
        assert(is_canonical((1int, 1int)));
        assert(Self::rone() == (1int, 1int));
        assert(Self::valid(Self::rone()));
    }

    proof fn lemma_ring_axioms(a: (int, int), b: (int, int), c: (int, int)) {
        let (z, o) = ((0int, 1int), (1int, 1int));
        lemma_gcd_one(0);
        lemma_gcd_one(1);
        assert(is_canonical(z) && is_canonical(o));
        lemma_rat_closed(a, b);
        lemma_rat_closed(a, c);
        lemma_rat_closed(b, c);
        lemma_rat_ring(a, b, c);
        lemma_rat_ring(c, a, b);
        lemma_rat_ring(o, a, b);
        lemma_rat_ring(z, a, b);
        lemma_rat_ring(b, c, a);
        lemma_rat_ring(rat_add(a, b), c, a);
    }

    fn zero() -> (r: Self) {
        QQ::zero()
    }

    fn one() -> (r: Self) {
        QQ::one()
    }

    fn add(a: &Self, b: &Self) -> (r: Self) {
        a.add(b)
    }

    fn mul(a: &Self, b: &Self) -> (r: Self) {
        a.mul(b)
    }

    fn negate(a: &Self) -> (r: Self) {
        a.negate()
    }

    fn sub(a: &Self, b: &Self) -> (r: Self) {
        a.sub(b)
    }

    fn equal(a: &Self, b: &Self) -> (r: bool) {
        a.equal(b)
    }

    fn copy(a: &Self) -> (r: Self) {
        a.clone()
    }

    fn lemma_valid(a: &Self) {
        a.lemma_lowest_terms();
    }

    open spec fn text(v: Self::V) -> Seq<char> {
        if v.1 == 1 {
            crate::num::zz::int_to_decimal(v.0)
        } else {
            crate::num::zz::int_to_decimal(v.0) + seq!['/'] + crate::num::zz::int_to_decimal(v.1)
        }
    }

    fn render(a: &Self) -> (r: String) {
        a.to_string()
    }
}

} // verus!
