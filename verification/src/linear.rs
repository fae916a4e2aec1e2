//! Linear algebra over the rationals: rational vectors and matrices as
//! specialisations of the generic ring types, solvers over rational
//! matrices, operations on vector spaces, and a bridge between rational
//! vectors and arithmetic terms (affine terms).

use vstd::prelude::*;

use crate::algebra::Ring;
use crate::num::arith::{gcd, is_canonical, lemma_gcd_zero_left, rat_div, rat_floor, rat_inv, rat_mul, rat_sub};
use crate::num::{QQ, ZZ};
use crate::ring::{
    coeff_of, is_sparse, map_add, map_dot, map_evens, map_neg, map_odds, map_scale, seq_view, sorted_keys, Dim, Vector,
};
use crate::matrix::{column_support, mat_transpose, mat_vec, row_of, rows_matrix, vec_mat, Matrix};
use crate::syntax::context::{children_of, operand_bound, Context};
use crate::syntax::destructure::arith_view_of;
use crate::syntax::expr::{ArithTerm, ArithTermView, Expr, NodeKey};
use crate::syntax::symbol::Symbol;

pub mod vector_space;
pub mod elimination;
pub mod universal;
pub mod intersection;

use intersection::{
    a_half, candidate_rows, in_meet, interleaved_coeff, lemma_done_all, lemma_none_vanish, lemma_place_step,
    lemma_some_solution, meet_pinned, pivoted_rows, placed, placed_value, search_setting, vanishes_at,
};
use elimination::{
    echelon_ok, elim_row, free_coeffs, is_pivot_of, lemma_aug_backward, lemma_aug_forward, lemma_elim_step, lemma_lone_row,
    lemma_null_span, lemma_zero_add, lin_comb, occurs_before, pivots_hold, rows_vanish,
};

verus! {

// ===========================================================================
// Type aliases
// ===========================================================================

/// A sparse vector with integer entries.
pub type ZZVector = Vector<ZZ>;

/// A sparse vector with rational entries.
pub type QQVector = Vector<QQ>;

/// A sparse matrix with rational entries.
pub type QQMatrix = Matrix<QQ>;

/// The model of a rational vector: nonzero coordinates as fractions.
pub type QVec = Map<Dim, (int, int)>;

// ===========================================================================
// Errors
// ===========================================================================

/// A system of linear equations has no solution.
#[derive(Debug, Clone, Copy, PartialEq, Eq, Structural)]
pub struct NoSolution;

/// An arithmetic term contains a sub-expression that is not affine-linear.
#[derive(Debug, Clone, Copy, PartialEq, Eq, Structural)]
pub struct Nonlinear;

// ===========================================================================
// Affine-term bridge
// ===========================================================================

/// Distinguished dimension reserved for the constant `1` coordinate of an
/// affine vector.
pub const CONST_DIM: Dim = -1;

/// Map a symbol to its dimension index: the symbol's index, read as a `Dim`.
/// It is non-negative, and so distinct from [`CONST_DIM`], for every index
/// up to `i32::MAX`.
pub fn dim_of_sym(sym: Symbol) -> (r: Dim)
    ensures
        r == sym@ as i32,
        sym@ <= i32::MAX ==> r == sym@,
{
    let d = sym.as_u32() as Dim;
    d
}

/// Inverse of [`dim_of_sym`]. Returns `None` for the constant dimension.
pub fn sym_of_dim(dim: Dim) -> (r: Option<Symbol>)
    ensures
        dim < 0 ==> r is None,
        dim >= 0 ==> r is Some && r->0@ == dim,
{
    if dim < 0 {
        None
    } else {
        let raw = dim as u32;
        Some(Symbol::from_raw(raw))
    }
}

/// `sym_of_dim` undoes `dim_of_sym` on every symbol whose index is a `Dim`.
pub proof fn lemma_dim_sym_round_trip(s: Symbol)
    requires
        s@ <= i32::MAX,
    ensures
        s@ as i32 >= 0,
        (s@ as i32) as u32 == s@,
{
}

/// The affine vector of the constant `q`.
pub open spec fn const_vec(q: (int, int)) -> QVec {
    if q == (0int, 1int) {
        Map::empty()
    } else {
        Map::<Dim, (int, int)>::empty().insert(CONST_DIM, q)
    }
}

/// The constant of an affine vector with no other coordinate.
pub open spec fn const_part(v: QVec) -> Option<(int, int)> {
    if v.remove(CONST_DIM) == Map::<Dim, (int, int)>::empty() {
        Some(coeff_of::<QQ>(v, CONST_DIM))
    } else {
        None
    }
}

/// The product of two affine vectors, one of which must be a constant.
pub open spec fn mul_lin_spec(x: QVec, y: QVec) -> Option<QVec> {
    match const_part(x) {
        Some(kx) => Some(map_scale::<QQ>(kx, y)),
        None => match const_part(y) {
            Some(ky) => Some(map_scale::<QQ>(ky, x)),
            None => None,
        },
    }
}

/// The affine vector of node `i`, if it is affine: literals are constants,
/// constant symbols are unit coordinates, sums and negations are computed
/// coordinate-wise, products need all but one factor constant, divisions a
/// nonzero constant divisor, and modulo and floor constant operands.
pub open spec fn lin_of(keys: Seq<NodeKey>, i: int) -> Option<QVec>
    decreases i, operand_bound(keys, i),
{
    if 0 <= i < keys.len() {
        match keys[i] {
            NodeKey::Real(n, d) => Some(const_vec((n, d))),
            NodeKey::App(s, cs) => if cs.len() == 0 {
                Some(Map::<Dim, (int, int)>::empty().insert(s as i32, (1int, 1int)))
            } else {
                None
            },
            NodeKey::Add(cs) => lin_sum(keys, cs, cs.len() as int, i),
            NodeKey::Mul(cs) => lin_prod(keys, cs, cs.len() as int, i),
            NodeKey::Div(a, b) => if a < i && b < i {
                match (lin_of(keys, a as int), lin_of(keys, b as int)) {
                    (Some(va), Some(vb)) => match const_part(vb) {
                        Some(k) => if k.0 == 0 {
                            None
                        } else {
                            Some(map_scale::<QQ>(rat_inv(k), va))
                        },
                        None => None,
                    },
                    _ => None,
                }
            } else {
                None
            },
            NodeKey::Mod(a, b) => if a < i && b < i {
                match (lin_of(keys, a as int), lin_of(keys, b as int)) {
                    (Some(va), Some(vb)) => match (const_part(va), const_part(vb)) {
                        (Some(ka), Some(kb)) => if kb.0 == 0 {
                            None
                        } else {
                            Some(const_vec(rat_sub(ka, rat_mul(kb, (rat_floor(rat_div(ka, kb)), 1int)))))
                        },
                        _ => None,
                    },
                    _ => None,
                }
            } else {
                None
            },
            NodeKey::Floor(a) => if a < i {
                match lin_of(keys, a as int) {
                    Some(va) => match const_part(va) {
                        Some(k) => Some(const_vec((rat_floor(k), 1int))),
                        None => None,
                    },
                    None => None,
                }
            } else {
                None
            },
            NodeKey::Neg(a) => if a < i {
                match lin_of(keys, a as int) {
                    Some(va) => Some(map_neg::<QQ>(va)),
                    None => None,
                }
            } else {
                None
            },
            _ => None,
        }
    } else {
        None
    }
}

/// The sum of the affine vectors of the first `n` operands `cs` of node `i`.
pub open spec fn lin_sum(keys: Seq<NodeKey>, cs: Seq<u32>, n: int, i: int) -> Option<QVec>
    decreases i, n,
{
    if n <= 0 || n > cs.len() {
        Some(Map::empty())
    } else if cs[n - 1] < i {
        match (lin_sum(keys, cs, n - 1, i), lin_of(keys, cs[n - 1] as int)) {
            (Some(s), Some(v)) => Some(map_add::<QQ>(s, v)),
            _ => None,
        }
    } else {
        None
    }
}

/// The product of the affine vectors of the first `n` operands `cs` of node `i`.
pub open spec fn lin_prod(keys: Seq<NodeKey>, cs: Seq<u32>, n: int, i: int) -> Option<QVec>
    decreases i, n,
{
    if n <= 0 || n > cs.len() {
        Some(const_vec((1int, 1int)))
    } else if cs[n - 1] < i {
        match (lin_prod(keys, cs, n - 1, i), lin_of(keys, cs[n - 1] as int)) {
            (Some(p), Some(v)) => mul_lin_spec(p, v),
            _ => None,
        }
    } else {
        None
    }
}

/// `floor` of an affine term: when `t` comes to the constant `k` (a valid
/// sparse vector, as every vector `linterm_of` gives), the vector of
/// `floor(t)` is the constant `m`, an integer with `m <= k < m + 1`.
pub proof fn lemma_lin_floor(keys: Seq<NodeKey>, i: int)
    requires
        0 <= i < keys.len(),
        keys[i] is Floor,
        lin_of(keys, i) is Some,
        lin_of(keys, keys[i]->Floor_0 as int) is Some,
        is_sparse::<QQ>(lin_of(keys, keys[i]->Floor_0 as int)->0),
    ensures
        ({
            let va = lin_of(keys, keys[i]->Floor_0 as int)->0;
            let v = lin_of(keys, i)->0;
            &&& const_part(va) is Some
            &&& const_part(v) is Some
            &&& ({
                let k = const_part(va)->0;
                let m = const_part(v)->0;
                &&& m.1 == 1
                &&& k.1 > 0
                &&& m.0 * k.1 <= k.0 < (m.0 + 1) * k.1
            })
        }),
{
    let a = keys[i]->Floor_0 as int;
    let va = lin_of(keys, a)->0;
    let k = const_part(va)->0;
    if va.contains_key(CONST_DIM) {
        assert(is_canonical(va[CONST_DIM]));
    }
    assert(k.1 > 0);
    let f = rat_floor(k);
    let q = (f, 1int);
    if q == (0int, 1int) {
        assert(const_vec(q).remove(CONST_DIM) =~= Map::<Dim, (int, int)>::empty());
    } else {
        assert(const_vec(q).remove(CONST_DIM) =~= Map::<Dim, (int, int)>::empty());
    }
    assert(const_part(const_vec(q)) == Some(q));
    assert(f * k.1 <= k.0 < (f + 1) * k.1) by (nonlinear_arith)
        requires
            k.1 > 0,
            f == k.0 / k.1,
    {
        vstd::arithmetic::div_mod::lemma_fundamental_div_mod(k.0, k.1);
    }
}

/// Negation of an affine term: the vector of `-t`, added to the vector of
/// `t` (a valid sparse vector, as every vector `linterm_of` gives), is zero.
pub proof fn lemma_lin_neg(keys: Seq<NodeKey>, i: int)
    requires
        0 <= i < keys.len(),
        keys[i] is Neg,
        lin_of(keys, i) is Some,
        lin_of(keys, keys[i]->Neg_0 as int) is Some,
        is_sparse::<QQ>(lin_of(keys, keys[i]->Neg_0 as int)->0),
    ensures
        map_add::<QQ>(lin_of(keys, i)->0, lin_of(keys, keys[i]->Neg_0 as int)->0) == Map::<Dim, (int, int)>::empty(),
{
    let va = lin_of(keys, keys[i]->Neg_0 as int)->0;
    let v = lin_of(keys, i)->0;
    assert(v == map_neg::<QQ>(va));
    assert forall|d: Dim| #[trigger] va.contains_key(d) implies crate::num::arith::rat_add(
        crate::num::arith::rat_neg(va[d]),
        va[d],
    ) == (0int, 1int) by {
        <QQ as Ring>::lemma_valid_closed(va[d], va[d]);
        <QQ as Ring>::lemma_ring_axioms(va[d], va[d], va[d]);
        <QQ as Ring>::lemma_ring_axioms(crate::num::arith::rat_neg(va[d]), va[d], va[d]);
    }
    assert(map_add::<QQ>(v, va) =~= Map::<Dim, (int, int)>::empty());
}

/// Division of an affine term by a constant: the divisor's constant `k` is
/// nonzero, and the vector of `t / u` scaled by `k` is the vector of `t`
/// (both operands' vectors valid sparse vectors, as every vector
/// `linterm_of` gives).
pub proof fn lemma_lin_div(keys: Seq<NodeKey>, i: int)
    requires
        0 <= i < keys.len(),
        keys[i] is Div,
        lin_of(keys, i) is Some,
        lin_of(keys, keys[i]->Div_0 as int) is Some,
        lin_of(keys, keys[i]->Div_1 as int) is Some,
        is_sparse::<QQ>(lin_of(keys, keys[i]->Div_0 as int)->0),
        is_sparse::<QQ>(lin_of(keys, keys[i]->Div_1 as int)->0),
    ensures
        const_part(lin_of(keys, keys[i]->Div_1 as int)->0) is Some,
        const_part(lin_of(keys, keys[i]->Div_1 as int)->0)->0 != (0int, 1int),
        map_scale::<QQ>(const_part(lin_of(keys, keys[i]->Div_1 as int)->0)->0, lin_of(keys, i)->0) == lin_of(
            keys,
            keys[i]->Div_0 as int,
        )->0,
{
    let va = lin_of(keys, keys[i]->Div_0 as int)->0;
    let vb = lin_of(keys, keys[i]->Div_1 as int)->0;
    let v = lin_of(keys, i)->0;
    let k = const_part(vb)->0;
    <QQ as Ring>::lemma_valid_units();
    if vb.contains_key(CONST_DIM) {
        assert(is_canonical(vb[CONST_DIM]));
    }
    assert(is_canonical(k));
    assert(k.0 != 0);
    let ik = rat_inv(k);
    crate::num::arith::lemma_rat_inv(k);
    assert(v == map_scale::<QQ>(ik, va));
    assert forall|d: Dim| #[trigger] va.contains_key(d) implies rat_mul(k, rat_mul(ik, va[d])) == va[d] && rat_mul(ik, va[d])
        != (0int, 1int) by {
        <QQ as Ring>::lemma_ring_axioms(k, ik, va[d]);
        <QQ as Ring>::lemma_ring_axioms(va[d], va[d], va[d]);
        <QQ as Ring>::lemma_ring_axioms(k, (0int, 1int), (0int, 1int));
    }
    assert(map_scale::<QQ>(k, v) =~= va);
}

/// The value of a closed arithmetic term (one built from literals alone),
/// as a fraction in lowest terms, if it has one: sums, products and
/// negations have their usual value; `a / b` is `a` times the reciprocal of
/// a nonzero `b`; `a mod b` is `a - b * floor(a / b)` for a nonzero `b`;
/// `floor(a)` is the largest integer not above `a`. Terms with a symbol or a
/// variable have none.
pub open spec fn closed_value(keys: Seq<NodeKey>, i: int) -> Option<(int, int)>
    decreases i, operand_bound(keys, i),
{
    if 0 <= i < keys.len() {
        match keys[i] {
            NodeKey::Real(n, d) => Some((n, d)),
            NodeKey::Add(cs) => closed_sum(keys, cs, cs.len() as int, i),
            NodeKey::Mul(cs) => closed_prod(keys, cs, cs.len() as int, i),
            NodeKey::Div(a, b) => if a < i && b < i {
                match (closed_value(keys, a as int), closed_value(keys, b as int)) {
                    (Some(x), Some(y)) => if y.0 == 0 {
                        None
                    } else {
                        Some(rat_mul(x, rat_inv(y)))
                    },
                    _ => None,
                }
            } else {
                None
            },
            NodeKey::Mod(a, b) => if a < i && b < i {
                match (closed_value(keys, a as int), closed_value(keys, b as int)) {
                    (Some(x), Some(y)) => if y.0 == 0 {
                        None
                    } else {
                        Some(rat_sub(x, rat_mul(y, (rat_floor(rat_mul(x, rat_inv(y))), 1int))))
                    },
                    _ => None,
                }
            } else {
                None
            },
            NodeKey::Floor(a) => if a < i {
                match closed_value(keys, a as int) {
                    Some(x) => Some((rat_floor(x), 1int)),
                    None => None,
                }
            } else {
                None
            },
            NodeKey::Neg(a) => if a < i {
                match closed_value(keys, a as int) {
                    Some(x) => Some(crate::num::arith::rat_neg(x)),
                    None => None,
                }
            } else {
                None
            },
            _ => None,
        }
    } else {
        None
    }
}

/// The sum of the values of the first `n` operands `cs` of node `i`.
pub open spec fn closed_sum(keys: Seq<NodeKey>, cs: Seq<u32>, n: int, i: int) -> Option<(int, int)>
    decreases i, n,
{
    if n <= 0 || n > cs.len() {
        Some((0int, 1int))
    } else if cs[n - 1] < i {
        match (closed_sum(keys, cs, n - 1, i), closed_value(keys, cs[n - 1] as int)) {
            (Some(s), Some(x)) => Some(crate::num::arith::rat_add(s, x)),
            _ => None,
        }
    } else {
        None
    }
}

/// The product of the values of the first `n` operands `cs` of node `i`.
pub open spec fn closed_prod(keys: Seq<NodeKey>, cs: Seq<u32>, n: int, i: int) -> Option<(int, int)>
    decreases i, n,
{
    if n <= 0 || n > cs.len() {
        Some((1int, 1int))
    } else if cs[n - 1] < i {
        match (closed_prod(keys, cs, n - 1, i), closed_value(keys, cs[n - 1] as int)) {
            (Some(p), Some(x)) => Some(rat_mul(p, x)),
            _ => None,
        }
    } else {
        None
    }
}

/// Every literal of `keys` is a fraction in lowest terms, as every literal
/// a context makes is.
pub open spec fn literals_canonical(keys: Seq<NodeKey>) -> bool {
    forall|j: int| 0 <= j < keys.len() && #[trigger] keys[j] is Real ==> is_canonical((keys[j]->Real_0, keys[j]->Real_1))
}

proof fn lemma_const_vec_part(c: (int, int))
    ensures
        const_part(const_vec(c)) == Some(c),
{
    assert(const_vec(c).remove(CONST_DIM) =~= Map::<Dim, (int, int)>::empty());
}

proof fn lemma_const_vec_ops(a: (int, int), b: (int, int))
    requires
        is_canonical(a),
        is_canonical(b),
    ensures
        map_add::<QQ>(const_vec(a), const_vec(b)) == const_vec(crate::num::arith::rat_add(a, b)),
        map_scale::<QQ>(a, const_vec(b)) == const_vec(rat_mul(a, b)),
        map_neg::<QQ>(const_vec(a)) == const_vec(crate::num::arith::rat_neg(a)),
        mul_lin_spec(const_vec(a), const_vec(b)) == Some(const_vec(rat_mul(a, b))),
        is_canonical(crate::num::arith::rat_add(a, b)),
        is_canonical(rat_mul(a, b)),
        is_canonical(crate::num::arith::rat_neg(a)),
{
    <QQ as Ring>::lemma_valid_units();
    <QQ as Ring>::lemma_valid_closed(a, b);
    <QQ as Ring>::lemma_ring_axioms(a, b, (0int, 1int));
    <QQ as Ring>::lemma_ring_axioms(b, a, (0int, 1int));
    <QQ as Ring>::lemma_ring_axioms((0int, 1int), (0int, 1int), (0int, 1int));
    <QQ as Ring>::lemma_ring_axioms(a, (0int, 1int), (0int, 1int));
    lemma_const_vec_part(a);
    assert(map_add::<QQ>(const_vec(a), const_vec(b)) =~= const_vec(crate::num::arith::rat_add(a, b)));
    assert(map_scale::<QQ>(a, const_vec(b)) =~= const_vec(rat_mul(a, b)));
    assert(map_neg::<QQ>(const_vec(a)) =~= const_vec(crate::num::arith::rat_neg(a)));
}

/// `linterm_of` is sound on closed terms: when every literal is in lowest
/// terms, a closed term that has a value has an affine vector, and that
/// vector is the constant of its value.
pub proof fn lemma_lin_closed(keys: Seq<NodeKey>, i: int)
    requires
        literals_canonical(keys),
        closed_value(keys, i) is Some,
    ensures
        is_canonical(closed_value(keys, i)->0),
        lin_of(keys, i) == Some(const_vec(closed_value(keys, i)->0)),
    decreases i, 1int, 0int,
{
    match keys[i] {
        NodeKey::Real(n, d) => {},
        NodeKey::Add(cs) => {
            lemma_lin_closed_sum(keys, cs, cs.len() as int, i);
        },
        NodeKey::Mul(cs) => {
            lemma_lin_closed_prod(keys, cs, cs.len() as int, i);
        },
        NodeKey::Div(a, b) => {
            lemma_lin_closed(keys, a as int);
            lemma_lin_closed(keys, b as int);
            let x = closed_value(keys, a as int)->0;
            let y = closed_value(keys, b as int)->0;
            lemma_const_vec_part(y);
            crate::num::arith::lemma_rat_inv(y);
            lemma_const_vec_ops(rat_inv(y), x);
            lemma_rat_mul_comm(x, rat_inv(y));
        },
        NodeKey::Mod(a, b) => {
            lemma_lin_closed(keys, a as int);
            lemma_lin_closed(keys, b as int);
            let x = closed_value(keys, a as int)->0;
            let y = closed_value(keys, b as int)->0;
            lemma_const_vec_part(x);
            lemma_const_vec_part(y);
            crate::num::arith::lemma_rat_inv(y);
            lemma_const_vec_ops(x, rat_inv(y));
            lemma_rat_div_mul(x, y);
            let f = (rat_floor(rat_mul(x, rat_inv(y))), 1int);
            crate::num::arith::lemma_gcd_one(crate::num::arith::abs(f.0));
            lemma_const_vec_ops(y, f);
            lemma_const_vec_ops(rat_mul(y, f), x);
            lemma_const_vec_ops(x, crate::num::arith::rat_neg(rat_mul(y, f)));
        },
        NodeKey::Floor(a) => {
            lemma_lin_closed(keys, a as int);
            let x = closed_value(keys, a as int)->0;
            lemma_const_vec_part(x);
            crate::num::arith::lemma_gcd_one(crate::num::arith::abs(rat_floor(x)));
        },
        NodeKey::Neg(a) => {
            lemma_lin_closed(keys, a as int);
            let x = closed_value(keys, a as int)->0;
            lemma_const_vec_ops(x, x);
        },
        _ => {},
    }
}

proof fn lemma_lin_closed_sum(keys: Seq<NodeKey>, cs: Seq<u32>, n: int, i: int)
    requires
        literals_canonical(keys),
        closed_sum(keys, cs, n, i) is Some,
    ensures
        is_canonical(closed_sum(keys, cs, n, i)->0),
        lin_sum(keys, cs, n, i) == Some(const_vec(closed_sum(keys, cs, n, i)->0)),
    decreases i, 0int, n,
{
    if n <= 0 || n > cs.len() {
        <QQ as Ring>::lemma_valid_units();
        assert(const_vec((0int, 1int)) =~= Map::<Dim, (int, int)>::empty());
    } else {
        lemma_lin_closed_sum(keys, cs, n - 1, i);
        lemma_lin_closed(keys, cs[n - 1] as int);
        lemma_const_vec_ops(closed_sum(keys, cs, n - 1, i)->0, closed_value(keys, cs[n - 1] as int)->0);
    }
}

proof fn lemma_lin_closed_prod(keys: Seq<NodeKey>, cs: Seq<u32>, n: int, i: int)
    requires
        literals_canonical(keys),
        closed_prod(keys, cs, n, i) is Some,
    ensures
        is_canonical(closed_prod(keys, cs, n, i)->0),
        lin_prod(keys, cs, n, i) == Some(const_vec(closed_prod(keys, cs, n, i)->0)),
    decreases i, 0int, n,
{
    if n <= 0 || n > cs.len() {
        <QQ as Ring>::lemma_valid_units();
    } else {
        lemma_lin_closed_prod(keys, cs, n - 1, i);
        lemma_lin_closed(keys, cs[n - 1] as int);
        lemma_const_vec_ops(closed_prod(keys, cs, n - 1, i)->0, closed_value(keys, cs[n - 1] as int)->0);
    }
}

proof fn lemma_rat_mul_comm(p: (int, int), q: (int, int))
    ensures
        rat_mul(p, q) == rat_mul(q, p),
{
    assert(p.0 * q.0 == q.0 * p.0 && p.1 * q.1 == q.1 * p.1) by (nonlinear_arith);
}

proof fn lemma_rat_div_mul(p: (int, int), q: (int, int))
    requires
        is_canonical(p),
        is_canonical(q),
        q.0 != 0,
    ensures
        rat_div(p, q) == rat_mul(p, rat_inv(q)),
{
    let iq = rat_inv(q);
    crate::num::arith::lemma_canon(q.1, q.0);
    let raw = (p.0 * iq.0, p.1 * iq.1);
    let d = (p.0 * q.1, p.1 * q.0);
    assert(raw.1 != 0 && d.1 != 0 && crate::num::arith::same_rat(d, raw)) by (nonlinear_arith)
        requires
            iq.0 * q.0 == q.1 * iq.1,
            iq.1 > 0,
            p.1 > 0,
            q.0 != 0,
            raw == (p.0 * iq.0, p.1 * iq.1),
            d == (p.0 * q.1, p.1 * q.0),
    ;
    crate::num::arith::lemma_canon_same(d, raw);
}

/// Represent the rational `k` as an affine vector: a single entry of
/// magnitude `k` at the constant dimension.
pub fn const_linterm(k: QQ) -> (r: QQVector)
    ensures
        r@ == const_vec(k@),
{
    QQVector::of_term(k, CONST_DIM)
}

/// Number of nonzero coordinates of an affine vector.
pub fn linterm_size(v: &QQVector) -> (r: usize)
    ensures
        r == v@.dom().len(),
{
    v.len()
}

/// If `v` represents a constant rational (every coordinate other than
/// [`CONST_DIM`] is zero), return that rational.
pub fn const_of_linterm(v: &QQVector) -> (r: Option<QQ>)
    ensures
        match r {
            Some(k) => const_part(v@) == Some(k@),
            None => const_part(v@) is None,
        },
{
    let (k, rest) = v.clone().pivot(CONST_DIM);
    if rest.is_zero() {
        Some(k)
    } else {
        None
    }
}

/// Extract the single constant coefficient of `v`, or [`Nonlinear`] if `v`
/// has any non-constant coordinate.
fn constant_part(v: &QQVector) -> (r: Result<QQ, Nonlinear>)
    ensures
        match r {
            Ok(k) => const_part(v@) == Some(k@),
            Err(_) => const_part(v@) is None,
        },
{
    let (k, rest) = v.clone().pivot(CONST_DIM);
    if rest.is_zero() {
        Ok(k)
    } else {
        Err(Nonlinear)
    }
}

/// Multiply two affine vectors, succeeding only when at least one of them is
/// a constant.
fn mul_lin(x: &QQVector, y: &QQVector) -> (r: Result<QQVector, Nonlinear>)
    ensures
        match r {
            Ok(v) => mul_lin_spec(x@, y@) == Some(v@),
            Err(_) => mul_lin_spec(x@, y@) is None,
        },
{
    if let Ok(kx) = constant_part(x) {
        Ok(y.scalar_mul(&kx))
    } else if let Ok(ky) = constant_part(y) {
        Ok(x.scalar_mul(&ky))
    } else {
        Err(Nonlinear)
    }
}

/// Convert an arithmetic term to its affine-vector representation.
///
/// Returns [`Nonlinear`] if `term` contains a sub-expression that cannot be
/// expressed as an affine combination of symbol values (uninterpreted
/// applications, bound variables, divisions by a non-constant, modulo /
/// floor over non-constants, array selects, and conditionals are all
/// rejected).
pub fn linterm_of<C>(ctx: &Context<C>, term: ArithTerm<C>) -> (r: Result<QQVector, Nonlinear>)
    requires
        ctx.wf(),
        ctx.arith_ok(term),
    ensures
        match r {
            Ok(v) => lin_of(ctx.keys(), term@ as int) == Some(v@),
            Err(_) => lin_of(ctx.keys(), term@ as int) is None,
        },
    decreases term@,
{
    let ghost keys = ctx.keys();
    let ghost i = term@ as int;
    proof {
        ctx.lemma_wf_node(i);
    }
    let view = ctx.view_arith_term(term);
    let ghost ch = children_of(keys[i]);
    match view {
        ArithTermView::Real(q) => Ok(const_linterm(q)),
        ArithTermView::App(sym, args) => {
            if args.len() == 0 {
                Ok(QQVector::of_term(QQ::one(), dim_of_sym(sym)))
            } else {
                Err(Nonlinear)
            }
        },
        ArithTermView::Var(_, _) => Err(Nonlinear),
        ArithTermView::Add(terms) => {
            let mut sum = QQVector::zero();
            let mut k: usize = 0;
            while k < terms.len()
                invariant
                    ctx.wf(),
                    keys == ctx.keys(),
                    0 <= i < keys.len(),
                    i == term@,
                    keys[i] == NodeKey::Add(super::syntax::expr::arith_ids(terms@)),
                    ch == children_of(keys[i]),
                    forall|j: int| 0 <= j < ch.len() ==> #[trigger] ch[j] < i,
                    super::syntax::destructure::all_arith_ok(ctx, terms@),
                    k <= terms@.len(),
                    lin_sum(keys, super::syntax::expr::arith_ids(terms@), k as int, i) == Some(sum@),
                decreases terms@.len() - k,
            {
                proof {
                    assert(ch[k as int] == terms@[k as int]@);
                    assert(ctx.arith_ok(terms@[k as int]));
                }
                let v = match linterm_of(ctx, terms[k]) {
                    Ok(v) => v,
                    Err(e) => {
                        proof {
                            lemma_lin_sum_fails(keys, super::syntax::expr::arith_ids(terms@), k as int + 1, terms@.len() as int, i);
                        }
                        return Err(e);
                    },
                };
                sum = sum.add(&v);
                k = k + 1;
            }
            Ok(sum)
        },
        ArithTermView::Mul(terms) => {
            let mut prod = const_linterm(QQ::one());
            let mut k: usize = 0;
            while k < terms.len()
                invariant
                    ctx.wf(),
                    keys == ctx.keys(),
                    0 <= i < keys.len(),
                    i == term@,
                    keys[i] == NodeKey::Mul(super::syntax::expr::arith_ids(terms@)),
                    ch == children_of(keys[i]),
                    forall|j: int| 0 <= j < ch.len() ==> #[trigger] ch[j] < i,
                    super::syntax::destructure::all_arith_ok(ctx, terms@),
                    k <= terms@.len(),
                    lin_prod(keys, super::syntax::expr::arith_ids(terms@), k as int, i) == Some(prod@),
                decreases terms@.len() - k,
            {
                proof {
                    assert(ch[k as int] == terms@[k as int]@);
                    assert(ctx.arith_ok(terms@[k as int]));
                }
                let v = match linterm_of(ctx, terms[k]) {
                    Ok(v) => v,
                    Err(e) => {
                        proof {
                            lemma_lin_prod_fails(keys, super::syntax::expr::arith_ids(terms@), k as int + 1, terms@.len() as int, i);
                        }
                        return Err(e);
                    },
                };
                prod = match mul_lin(&prod, &v) {
                    Ok(p) => p,
                    Err(e) => {
                        proof {
                            lemma_lin_prod_fails(keys, super::syntax::expr::arith_ids(terms@), k as int + 1, terms@.len() as int, i);
                        }
                        return Err(e);
                    },
                };
                k = k + 1;
            }
            Ok(prod)
        },
        ArithTermView::Div(a, b) => {
            proof {
                assert(ch[0] < i && ch[1] < i);
            }
            let va = linterm_of(ctx, a)?;
            let vb = linterm_of(ctx, b)?;
            let k = constant_part(&vb)?;
            if k.is_zero() {
                Err(Nonlinear)
            } else {
                Ok(va.scalar_mul(&k.inverse()))
            }
        },
        ArithTermView::Mod(a, b) => {
            proof {
                assert(ch[0] < i && ch[1] < i);
            }
            let va = linterm_of(ctx, a)?;
            let vb = linterm_of(ctx, b)?;
            let ka = constant_part(&va)?;
            let kb = constant_part(&vb)?;
            if kb.is_zero() {
                Err(Nonlinear)
            } else {
                Ok(const_linterm(ka.modulo(&kb)))
            }
        },
        ArithTermView::Floor(a) => {
            proof {
                assert(ch[0] < i);
            }
            let va = linterm_of(ctx, a)?;
            let k = constant_part(&va)?;
            Ok(const_linterm(QQ::of_zz(&k.floor())))
        },
        ArithTermView::Neg(a) => {
            proof {
                assert(ch[0] < i);
            }
            let v = linterm_of(ctx, a)?;
            Ok(v.negate())
        },
        ArithTermView::Select(_, _) | ArithTermView::Ite(_, _, _) => Err(Nonlinear),
    }
}

proof fn lemma_lin_sum_fails(keys: Seq<NodeKey>, cs: Seq<u32>, n: int, m: int, i: int)
    requires
        0 < n <= m <= cs.len(),
        cs[n - 1] < i,
        lin_of(keys, cs[n - 1] as int) is None,
    ensures
        lin_sum(keys, cs, m, i) is None,
    decreases m - n,
{
    if n < m {
        lemma_lin_sum_fails(keys, cs, n, m - 1, i);
    }
}

proof fn lemma_lin_prod_fails(keys: Seq<NodeKey>, cs: Seq<u32>, n: int, m: int, i: int)
    requires
        0 < n <= m <= cs.len(),
        lin_prod(keys, cs, n, i) is None,
    ensures
        lin_prod(keys, cs, m, i) is None,
    decreases m - n,
{
    if n < m {
        lemma_lin_prod_fails(keys, cs, n, m - 1, i);
    }
}


/// The affine vectors of existing nodes are unchanged as the context grows.
proof fn lemma_lin_stable(keys: Seq<NodeKey>, ext: Seq<NodeKey>, i: int)
    requires
        crate::syntax::context::extends(keys, ext),
        0 <= i < keys.len(),
    ensures
        lin_of(ext, i) == lin_of(keys, i),
    decreases i, 1int, 0int,
{
    assert(ext.subrange(0, keys.len() as int)[i] == ext[i]);
    match keys[i] {
        NodeKey::Add(cs) => {
            lemma_lin_sum_stable(keys, ext, cs, cs.len() as int, i);
        },
        NodeKey::Mul(cs) => {
            lemma_lin_prod_stable(keys, ext, cs, cs.len() as int, i);
        },
        NodeKey::Div(a, b) => {
            if a < i && b < i {
                lemma_lin_stable(keys, ext, a as int);
                lemma_lin_stable(keys, ext, b as int);
            }
        },
        NodeKey::Mod(a, b) => {
            if a < i && b < i {
                lemma_lin_stable(keys, ext, a as int);
                lemma_lin_stable(keys, ext, b as int);
            }
        },
        NodeKey::Floor(a) => {
            if a < i {
                lemma_lin_stable(keys, ext, a as int);
            }
        },
        NodeKey::Neg(a) => {
            if a < i {
                lemma_lin_stable(keys, ext, a as int);
            }
        },
        _ => {},
    }
}

proof fn lemma_lin_sum_stable(keys: Seq<NodeKey>, ext: Seq<NodeKey>, cs: Seq<u32>, n: int, i: int)
    requires
        crate::syntax::context::extends(keys, ext),
        0 <= i < keys.len(),
    ensures
        lin_sum(ext, cs, n, i) == lin_sum(keys, cs, n, i),
    decreases i, 0int, n,
{
    if 0 < n <= cs.len() && cs[n - 1] < i {
        lemma_lin_stable(keys, ext, cs[n - 1] as int);
        lemma_lin_sum_stable(keys, ext, cs, n - 1, i);
    }
}

proof fn lemma_lin_prod_stable(keys: Seq<NodeKey>, ext: Seq<NodeKey>, cs: Seq<u32>, n: int, i: int)
    requires
        crate::syntax::context::extends(keys, ext),
        0 <= i < keys.len(),
    ensures
        lin_prod(ext, cs, n, i) == lin_prod(keys, cs, n, i),
    decreases i, 0int, n,
{
    if 0 < n <= cs.len() && cs[n - 1] < i {
        lemma_lin_stable(keys, ext, cs[n - 1] as int);
        lemma_lin_prod_stable(keys, ext, cs, n - 1, i);
    }
}

/// The affine vector with the single coordinate of an entry.
pub open spec fn single(e: (Dim, QQ)) -> QVec {
    Map::<Dim, (int, int)>::empty().insert(e.0, e.1@)
}

/// Adding a single nonzero coordinate at a dimension a sparse vector lacks
/// inserts it.
proof fn lemma_add_single(m: QVec, d: Dim, c: (int, int))
    requires
        is_sparse::<QQ>(m),
        !m.contains_key(d),
        <QQ as Ring>::valid(c),
        c != (0int, 1int),
    ensures
        map_add::<QQ>(m, Map::<Dim, (int, int)>::empty().insert(d, c)) == m.insert(d, c),
{
    let s = Map::<Dim, (int, int)>::empty().insert(d, c);
    <QQ as Ring>::lemma_valid_units();
    <QQ as Ring>::lemma_ring_axioms(c, (0int, 1int), (0int, 1int));
    <QQ as Ring>::lemma_ring_axioms((0int, 1int), c, (0int, 1int));
    assert forall|k: Dim| #[trigger] m.contains_key(k) implies crate::num::arith::rat_add(m[k], (0int, 1int)) == m[k] by {
        <QQ as Ring>::lemma_ring_axioms(m[k], (0int, 1int), (0int, 1int));
    }
    assert(map_add::<QQ>(m, s) =~= m.insert(d, c));
}

/// The sum of the single-coordinate vectors of the first `n` entries of a
/// sorted sparse list is the vector the entries list.
proof fn lemma_lin_sum_singles(keys: Seq<NodeKey>, ids: Seq<u32>, es: Seq<(Dim, QQ)>, n: int, i: int)
    requires
        0 <= n <= ids.len(),
        n <= es.len(),
        sorted_keys(es),
        is_sparse::<QQ>(seq_view(es)),
        forall|t: int| 0 <= t < n ==> #[trigger] ids[t] < i && lin_of(keys, ids[t] as int) == Some(single(es[t])),
    ensures
        lin_sum(keys, ids, n, i) == Some(seq_view(es.subrange(0, n))),
    decreases n,
{
    if n == 0 {
        crate::ring::lemma_view_empty(es.subrange(0, 0));
    } else {
        lemma_lin_sum_singles(keys, ids, es, n - 1, i);
        assert(ids[n - 1] < i);
        crate::ring::lemma_prefix_push(es, n - 1);
        crate::ring::lemma_view_index(es, n - 1);
        let pre = seq_view(es.subrange(0, n - 1));
        assert forall|d: Dim| #[trigger] pre.contains_key(d) implies <QQ as Ring>::valid(pre[d]) && pre[d] != (0int, 1int) by {
            let t = choose|t: int| 0 <= t < es.subrange(0, n - 1).len() && #[trigger] es.subrange(0, n - 1)[t].0 == d;
            crate::ring::lemma_view_index(es.subrange(0, n - 1), t);
            crate::ring::lemma_view_index(es, t);
        }
        crate::ring::lemma_view_finite(es.subrange(0, n - 1));
        lemma_add_single(pre, es[n - 1].0, es[n - 1].1@);
    }
}

/// The product `c * x` of a literal and a constant symbol, with `c` nonzero,
/// is the single coordinate `c` at the symbol's dimension.
proof fn lemma_lin_scaled_symbol(c: (int, int), d: Dim)
    requires
        <QQ as Ring>::valid(c),
        c != (0int, 1int),
    ensures
        mul_lin_spec(const_vec((1int, 1int)), const_vec(c)) == Some(const_vec(c)),
        mul_lin_spec(const_vec(c), Map::<Dim, (int, int)>::empty().insert(d, (1int, 1int))) == Some(
            Map::<Dim, (int, int)>::empty().insert(d, c),
        ),
{
    <QQ as Ring>::lemma_valid_units();
    <QQ as Ring>::lemma_ring_axioms(c, (1int, 1int), (1int, 1int));
    assert(const_vec((1int, 1int)).remove(CONST_DIM) =~= Map::<Dim, (int, int)>::empty());
    assert(const_vec(c).remove(CONST_DIM) =~= Map::<Dim, (int, int)>::empty());
    assert(map_scale::<QQ>((1int, 1int), const_vec(c)) =~= const_vec(c));
    assert(map_scale::<QQ>(c, Map::<Dim, (int, int)>::empty().insert(d, (1int, 1int))) =~= Map::<Dim, (int, int)>::empty().insert(d, c));
}

/// Every coordinate of `v` can be turned into an arithmetic term: a
/// non-negative dimension is an arithmetic symbol, and the only negative one
/// is the constant dimension.
pub open spec fn linterm_terms_ok(v: QVec, syms: Seq<(Seq<char>, crate::syntax::types::Typ)>) -> bool {
    forall|d: Dim|
        #[trigger] v.contains_key(d) ==> (d >= 0 ==> crate::syntax::context::is_arith(
            crate::syntax::context::codomain(syms[d as int].1),
        )) && (d < 0 ==> d == CONST_DIM)
}

/// Inverse of [`linterm_of`]. Each non-constant coordinate `(d, c)` becomes
/// `c * sym_of_dim(d)` (just the symbol when `c` is one); the constant
/// coordinate becomes a real literal; the summands are added in dimension
/// order. Coordinates whose symbol is not arithmetic are skipped. Every
/// non-negative dimension of `v` must be a symbol of the context, and the
/// context needs room for three nodes per coordinate and one more. When
/// every coordinate can be turned into a term, [`linterm_of`] gives `v`
/// back.
pub fn of_linterm<C>(ctx: &mut Context<C>, v: &QQVector) -> (r: ArithTerm<C>)
    requires
        old(ctx).wf(),
        old(ctx).room(3 * v@.dom().len() + 1),
        forall|d: Dim| #[trigger] v@.contains_key(d) && d >= 0 ==> d < old(ctx).syms().len(),
    ensures
        final(ctx).wf(),
        final(ctx).grows_from(old(ctx)),
        final(ctx).arith_ok(r),
        linterm_terms_ok(v@, old(ctx).syms()) ==> lin_of(final(ctx).keys(), r@ as int) == Some(v@),
{
    let ghost c0 = *ctx;
    let ghost ok = linterm_terms_ok(v@, c0.syms());
    let es = v.iter();
    v.lemma_sparse();
    proof {
        crate::ring::lemma_view_len(es@);
        lemma_grows_refl(ctx);
    }
    let mut summands: Vec<ArithTerm<C>> = Vec::new();
    let mut k: usize = 0;
    while k < es.len()
        invariant
            k <= es@.len(),
            es@.len() == v@.dom().len(),
            seq_view(es@) == v@,
            sorted_keys(es@),
            is_sparse::<QQ>(v@),
            ok == linterm_terms_ok(v@, c0.syms()),
            c0.wf(),
            c0.room(3 * v@.dom().len() + 1),
            forall|d: Dim| #[trigger] v@.contains_key(d) && d >= 0 ==> d < c0.syms().len(),
            ctx.wf(),
            ctx.grows_from(&c0),
            ctx.keys().len() <= c0.keys().len() + 3 * k,
            forall|t: int| 0 <= t < summands@.len() ==> ctx.arith_ok(#[trigger] summands@[t]),
            ok ==> summands@.len() == k,
            ok ==> forall|t: int|
                0 <= t < summands@.len() ==> lin_of(ctx.keys(), (#[trigger] summands@[t])@ as int) == Some(single(es@[t])),
        decreases es@.len() - k,
    {
        let dim = es[k].0;
        let ghost before = *ctx;
        let ghost e = es@[k as int];
        proof {
            crate::ring::lemma_view_index(es@, k as int);
            <QQ as Ring>::lemma_valid_units();
        }
        match sym_of_dim(dim) {
            Some(sym) => {
                let made = ctx.mk_const(sym);
                let ghost a1 = *ctx;
                proof {
                    let idx = crate::syntax::expr::expr_id(made) as int;
                    assert(a1.keys()[idx] == NodeKey::App(sym@, Seq::empty()));
                    assert(lin_of(a1.keys(), idx) == Some(Map::<Dim, (int, int)>::empty().insert(dim, (1int, 1int))));
                    if ok {
                        assert(v@.contains_key(dim));
                        assert(a1.typ_of(idx) == crate::syntax::context::codomain(a1.syms()[sym@ as int].1));
                    }
                }
                if let Expr::ArithTerm(t) = made {
                    proof {
                        lemma_grows_refl(ctx);
                    }
                    let term = if es[k].1.equal(&QQ::one()) {
                        t
                    } else {
                        let ghost mid = *ctx;
                        let c = ctx.mk_real(es[k].1.clone());
                        proof {
                            ctx.lemma_grows(&mid, t@ as int);
                        }
                        let ghost mid2 = *ctx;
                        let pair = vec![c, t];
                        let prod = ctx.mk_mul(pair.as_slice());
                        proof {
                            crate::syntax::context::lemma_grows_trans(&mid, &mid2, ctx);
                            if ok {
                                lemma_lin_stable(mid.keys(), mid2.keys(), t@ as int);
                                ctx.lemma_wf_node(prod@ as int);
                                let ids = crate::syntax::expr::arith_ids(pair@);
                                assert(ids[0] == c@ && ids[1] == t@);
                                assert(ctx.keys()[prod@ as int] == NodeKey::Mul(ids));
                                assert(children_of(ctx.keys()[prod@ as int])[0] == c@);
                                assert(children_of(ctx.keys()[prod@ as int])[1] == t@);
                                lemma_lin_stable(mid2.keys(), ctx.keys(), t@ as int);
                                lemma_lin_stable(mid2.keys(), ctx.keys(), c@ as int);
                                assert(lin_of(ctx.keys(), c@ as int) == Some(const_vec(e.1@)));
                                lemma_lin_scaled_symbol(e.1@, dim);
                                assert(lin_prod(ctx.keys(), ids, 0, prod@ as int) == Some(const_vec((1int, 1int))));
                                assert(lin_prod(ctx.keys(), ids, 1, prod@ as int) == Some(const_vec(e.1@)));
                                assert(lin_prod(ctx.keys(), ids, 2, prod@ as int) == Some(single(e)));
                            }
                        }
                        prod
                    };
                    proof {
                        crate::syntax::context::lemma_grows_trans(&before, &a1, ctx);
                        ctx.lemma_grows_arith_list(&before, summands@);
                        if ok {
                            assert(lin_of(ctx.keys(), term@ as int) == Some(single(e)));
                            assert forall|t: int| 0 <= t < summands@.len() implies lin_of(ctx.keys(), (#[trigger] summands@[t])@ as int)
                                == Some(single(es@[t])) by {
                                lemma_lin_stable(before.keys(), ctx.keys(), summands@[t]@ as int);
                            }
                        }
                    }
                    summands.push(term);
                } else {
                    proof {
                        ctx.lemma_grows_arith_list(&before, summands@);
                    }
                }
            },
            None => {
                let c = ctx.mk_real(es[k].1.clone());
                proof {
                    ctx.lemma_grows_arith_list(&before, summands@);
                    if ok {
                        assert(v@.contains_key(dim));
                        assert(lin_of(ctx.keys(), c@ as int) == Some(const_vec(e.1@)));
                        assert(const_vec(e.1@) =~= single(e));
                        assert forall|t: int| 0 <= t < summands@.len() implies lin_of(ctx.keys(), (#[trigger] summands@[t])@ as int)
                            == Some(single(es@[t])) by {
                            lemma_lin_stable(before.keys(), ctx.keys(), summands@[t]@ as int);
                        }
                    }
                }
                summands.push(c);
            },
        }
        proof {
            crate::syntax::context::lemma_grows_trans(&c0, &before, ctx);
        }
        k = k + 1;
    }
    let ghost before_add = *ctx;
    let r = ctx.mk_add(summands.as_slice());
    proof {
        crate::syntax::context::lemma_grows_trans(&c0, &before_add, ctx);
        if ok {
            let n = summands@.len();
            assert(es@.subrange(0, n as int) =~= es@);
            if n == 0 {
                crate::ring::lemma_view_empty(es@);
                assert(lin_of(ctx.keys(), r@ as int) == Some(const_vec((0int, 1int))));
                assert(v@ =~= Map::<Dim, (int, int)>::empty());
            } else if n == 1 {
                crate::ring::lemma_prefix_push(es@, 0);
                crate::ring::lemma_view_empty(es@.subrange(0, 0));
                assert(seq_view(es@) =~= single(es@[0]));
            } else {
                ctx.lemma_wf_node(r@ as int);
                let ids = crate::syntax::expr::arith_ids(summands@);
                assert(ctx.keys()[r@ as int] == NodeKey::Add(ids));
                assert forall|t: int| 0 <= t < n implies #[trigger] ids[t] < r@ && lin_of(ctx.keys(), ids[t] as int) == Some(
                    single(es@[t]),
                ) by {
                    assert(ids[t] == summands@[t]@);
                    assert(children_of(ctx.keys()[r@ as int])[t] == ids[t]);
                    lemma_lin_stable(before_add.keys(), ctx.keys(), summands@[t]@ as int);
                }
                lemma_lin_sum_singles(ctx.keys(), ids, es@, n as int, r@ as int);
            }
        }
    }
    r
}

/// Build an arithmetic term from a rational vector, interpreting each
/// coordinate `(d, c)` as `c * term_of_dim(d)`, and adding the products in
/// dimension order. Each call of `term_of_dim` must keep the context well
/// formed, only add nodes to it, at most `g` of them, and give an
/// arithmetic term of it; the context needs room for `g + 2` nodes per
/// coordinate and one more.
pub fn term_of_vec<C, F: Fn(&mut Context<C>, Dim) -> ArithTerm<C>>(ctx: &mut Context<C>, term_of_dim: F, v: &QQVector) -> (r:
    ArithTerm<C>)
    requires
        old(ctx).wf(),
        forall|c: &mut Context<C>, d: Dim| #[trigger] term_of_dim.requires((c, d)) <== c.wf(),
        exists|g: nat|
            #[trigger] old(ctx).room((g + 2) * v@.dom().len() + 1) && forall|c: &mut Context<C>, d: Dim, t: ArithTerm<C>|
                #[trigger] call_ensures(term_of_dim, (c, d), t) ==> final(c).wf() && final(c).grows_from(&*c) && final(c).arith_ok(t)
                    && final(c).keys().len() <= c.keys().len() + g,
    ensures
        final(ctx).wf(),
        final(ctx).grows_from(old(ctx)),
        final(ctx).arith_ok(r),
        exists|es: Seq<(Dim, QQ)>|
            #![trigger seq_view(es)]
            sorted_keys(es) && seq_view(es) == v@ && built_sum(final(ctx).keys(), r@ as int, es),
{
    let ghost c0 = *ctx;
    let ghost g = choose|g: nat|
        #[trigger] old(ctx).room((g + 2) * v@.dom().len() + 1) && forall|c: &mut Context<C>, d: Dim, t: ArithTerm<C>|
            #[trigger] call_ensures(term_of_dim, (c, d), t) ==> final(c).wf() && final(c).grows_from(&*c) && final(c).arith_ok(t)
                && final(c).keys().len() <= c.keys().len() + g;
    let es = v.iter();
    proof {
        crate::ring::lemma_view_len(es@);
        lemma_grows_refl(ctx);
    }
    let mut summands: Vec<ArithTerm<C>> = Vec::new();
    let mut k: usize = 0;
    while k < es.len()
        invariant
            k <= es@.len(),
            es@.len() == v@.dom().len(),
            c0.wf(),
            c0.room((g + 2) * v@.dom().len() + 1),
            forall|c: &mut Context<C>, d: Dim| #[trigger] term_of_dim.requires((c, d)) <== c.wf(),
            forall|c: &mut Context<C>, d: Dim, t: ArithTerm<C>|
                #[trigger] call_ensures(term_of_dim, (c, d), t) ==> final(c).wf() && final(c).grows_from(&*c) && final(c).arith_ok(t)
                    && final(c).keys().len() <= c.keys().len() + g,
            ctx.wf(),
            ctx.grows_from(&c0),
            ctx.keys().len() <= c0.keys().len() + (g + 2) * k,
            forall|t: int| 0 <= t < summands@.len() ==> ctx.arith_ok(#[trigger] summands@[t]),
            summands@.len() == k,
            forall|t: int|
                0 <= t < k ==> coeff_summand(ctx.keys(), (#[trigger] summands@[t])@ as int, es@[t].1@),
        decreases es@.len() - k,
    {
        let ghost before = *ctx;
        proof {
            assert((g + 2) * (k + 1) <= (g + 2) * es@.len()) by (nonlinear_arith)
                requires
                    k + 1 <= es@.len(),
            ;
            assert((g + 2) * (k + 1) == (g + 2) * k + g + 2) by (nonlinear_arith);
        }
        let dim_term = term_of_dim(ctx, es[k].0);
        let ghost a1 = *ctx;
        let coeff_term = ctx.mk_real(es[k].1.clone());
        let ghost a2 = *ctx;
        proof {
            ctx.lemma_grows(&a1, dim_term@ as int);
        }
        let pair = vec![coeff_term, dim_term];
        let prod = ctx.mk_mul(pair.as_slice());
        proof {
            crate::syntax::context::lemma_grows_trans(&before, &a1, &a2);
            crate::syntax::context::lemma_grows_trans(&before, &a2, ctx);
            crate::syntax::context::lemma_grows_trans(&c0, &before, ctx);
            ctx.lemma_grows_arith_list(&before, summands@);
            let ids = crate::syntax::expr::arith_ids(pair@);
            assert(ids[0] == coeff_term@);
            assert(ids.len() == 2);
            assert(a2.keys()[coeff_term@ as int] == NodeKey::Real(es@[k as int].1@.0, es@[k as int].1@.1));
            ctx.lemma_grows(&a2, coeff_term@ as int);
            assert(coeff_summand(ctx.keys(), prod@ as int, es@[k as int].1@));
            assert forall|t: int| 0 <= t < k implies coeff_summand(ctx.keys(), (#[trigger] summands@[t])@ as int, es@[t].1@) by {
                lemma_coeff_summand_stable(before.keys(), ctx.keys(), summands@[t]@ as int, es@[t].1@);
            }
        }
        summands.push(prod);
        k = k + 1;
    }
    let ghost before_add = *ctx;
    let r = ctx.mk_add(summands.as_slice());
    proof {
        crate::syntax::context::lemma_grows_trans(&c0, &before_add, ctx);
        let n = summands@.len();
        assert forall|t: int| 0 <= t < n implies coeff_summand(ctx.keys(), (#[trigger] summands@[t])@ as int, es@[t].1@) by {
            lemma_coeff_summand_stable(before_add.keys(), ctx.keys(), summands@[t]@ as int, es@[t].1@);
        }
        let ss = summands_of(ctx.keys(), r@ as int, n as int);
        if n >= 2 {
            assert(ss =~= crate::syntax::expr::arith_ids(summands@));
        } else if n == 1 {
            assert(ss =~= seq![summands@[0]@]);
        }
        assert forall|t: int| 0 <= t < n implies coeff_summand(ctx.keys(), #[trigger] ss[t] as int, es@[t].1@) by {
            if n >= 2 {
                assert(ss[t] == summands@[t]@);
            }
        }
        assert(built_sum(ctx.keys(), r@ as int, es@));
    }
    r
}

/// The summands of node `r`, a sum of `n` terms: none for zero terms, `r`
/// itself for one, the operands of the sum otherwise.
pub open spec fn summands_of(keys: Seq<NodeKey>, r: int, n: int) -> Seq<u32> {
    if n == 1 {
        seq![r as u32]
    } else if n >= 2 {
        match keys[r] {
            NodeKey::Add(ids) => ids,
            _ => Seq::empty(),
        }
    } else {
        Seq::empty()
    }
}

/// Node `s` is a product of two terms whose first is the literal `c`.
pub open spec fn coeff_summand(keys: Seq<NodeKey>, s: int, c: (int, int)) -> bool {
    0 <= s < keys.len() && match keys[s] {
        NodeKey::Mul(ms) => ms.len() == 2 && ms[0] < keys.len() && keys[ms[0] as int] == NodeKey::Real(c.0, c.1),
        _ => false,
    }
}

/// Node `r` is the sum, in the order of `es`, of one product per entry
/// `(d, c)` of `es` whose first factor is the literal `c` (zero for no entry).
pub open spec fn built_sum(keys: Seq<NodeKey>, r: int, es: Seq<(Dim, QQ)>) -> bool {
    let ss = summands_of(keys, r, es.len() as int);
    &&& 0 <= r < keys.len()
    &&& es.len() == 0 ==> keys[r] == NodeKey::Real(0, 1)
    &&& ss.len() == es.len()
    &&& forall|t: int| 0 <= t < es.len() ==> coeff_summand(keys, #[trigger] ss[t] as int, es[t].1@)
}

/// Reading back a term that `term_of_vec` built: when each dimension `d`
/// was turned into a term whose affine vector is the unit vector at `d`
/// (a constant symbol for a symbol's dimension, the literal one for the
/// constant dimension), the affine vector of the built term is the vector
/// it was built from.
pub proof fn lemma_term_of_vec_lin<C>(ctx: &Context<C>, r: int, es: Seq<(Dim, QQ)>)
    requires
        ctx.wf(),
        sorted_keys(es),
        is_sparse::<QQ>(seq_view(es)),
        built_sum(ctx.keys(), r, es),
        forall|t: int|
            0 <= t < es.len() ==> lin_of(
                ctx.keys(),
                (ctx.keys()[#[trigger] summands_of(ctx.keys(), r, es.len() as int)[t] as int]->Mul_0)[1] as int,
            ) == Some(Map::<Dim, (int, int)>::empty().insert(es[t].0, (1int, 1int))),
    ensures
        lin_of(ctx.keys(), r) == Some(seq_view(es)),
{
    let keys = ctx.keys();
    let n = es.len() as int;
    let ss = summands_of(keys, r, n);
    assert forall|t: int| 0 <= t < n implies lin_of(keys, #[trigger] ss[t] as int) == Some(single(es[t])) by {
        let s = ss[t] as int;
        assert(coeff_summand(keys, s, es[t].1@));
        ctx.lemma_wf_node(s);
        let ms = keys[s]->Mul_0;
        assert(children_of(keys[s])[0] == ms[0]);
        assert(children_of(keys[s])[1] == ms[1]);
        let c = es[t].1@;
        crate::ring::lemma_view_index(es, t);
        assert(seq_view(es).contains_key(es[t].0));
        assert(lin_of(keys, ms[0] as int) == Some(const_vec(c)));
        lemma_lin_scaled_symbol(c, es[t].0);
        assert(lin_prod(keys, ms, 0, s) == Some(const_vec((1int, 1int))));
        assert(lin_prod(keys, ms, 1, s) == Some(const_vec(c)));
        assert(lin_prod(keys, ms, 2, s) == Some(single(es[t])));
    }
    assert(es.subrange(0, n) =~= es);
    if n == 0 {
        crate::ring::lemma_view_empty(es);
        assert(const_vec((0int, 1int)) =~= Map::<Dim, (int, int)>::empty());
        assert(lin_of(keys, r) == Some(const_vec((0int, 1int))));
    } else if n == 1 {
        crate::ring::lemma_prefix_push(es, 0);
        crate::ring::lemma_view_empty(es.subrange(0, 0));
        assert(seq_view(es) =~= single(es[0]));
        ctx.lemma_wf_node(r);
        assert(ss[0] as int == r);
        assert(lin_of(keys, r) == Some(single(es[0])));
    } else {
        ctx.lemma_wf_node(r);
        assert forall|t: int| 0 <= t < n implies #[trigger] ss[t] < r && lin_of(keys, ss[t] as int) == Some(single(es[t])) by {
            assert(children_of(keys[r])[t] == ss[t]);
        }
        lemma_lin_sum_singles(keys, ss, es, n, r);
        assert(keys[r] == NodeKey::Add(ss));
        assert(lin_of(keys, r) == lin_sum(keys, ss, n, r));
    }
}

proof fn lemma_coeff_summand_stable(keys: Seq<NodeKey>, ext: Seq<NodeKey>, s: int, c: (int, int))
    requires
        crate::syntax::context::extends(keys, ext),
        coeff_summand(keys, s, c),
    ensures
        coeff_summand(ext, s, c),
{
    assert(ext.subrange(0, keys.len() as int)[s] == ext[s]);
    let ms = keys[s]->Mul_0;
    assert(ext.subrange(0, keys.len() as int)[ms[0] as int] == ext[ms[0] as int]);
}

/// A context grows from itself.
proof fn lemma_grows_refl<C>(c: &Context<C>)
    ensures
        c.grows_from(c),
{
    assert(c.keys().subrange(0, c.keys().len() as int) =~= c.keys());
}

/// The value of the first `n` coordinates listed in `es` of an affine term,
/// where a coordinate at a negative dimension stands for itself and one at
/// dimension `d >= 0` is scaled by `g(d)`, the value of symbol `d`.
pub open spec fn linterm_value(es: Seq<(Dim, QQ)>, n: int, g: spec_fn(Dim) -> (int, int)) -> (int, int)
    decreases n,
{
    if n <= 0 || n > es.len() {
        (0, 1)
    } else {
        crate::num::arith::rat_add(
            linterm_value(es, n - 1, g),
            if es[n - 1].0 < 0 {
                es[n - 1].1@
            } else {
                rat_mul(g(es[n - 1].0), es[n - 1].1@)
            },
        )
    }
}

/// The value of the first `n` coordinates listed in `es` of an affine
/// vector, where the constant coordinate stands for itself and one at any
/// other dimension `d` is scaled by `g(d)`.
pub open spec fn affine_value(es: Seq<(Dim, QQ)>, n: int, g: spec_fn(Dim) -> (int, int)) -> (int, int)
    decreases n,
{
    if n <= 0 || n > es.len() {
        (0, 1)
    } else {
        crate::num::arith::rat_add(
            affine_value(es, n - 1, g),
            if es[n - 1].0 == CONST_DIM {
                es[n - 1].1@
            } else {
                rat_mul(g(es[n - 1].0), es[n - 1].1@)
            },
        )
    }
}

/// The interpretation `f` gives symbol `s` the value `g` gives its dimension.
pub open spec fn interprets_symbols<F: Fn(Symbol) -> QQ>(f: F, g: spec_fn(Dim) -> (int, int)) -> bool {
    forall|s: Symbol, q: QQ| #[trigger] call_ensures(f, (s,), q) ==> q@ == g(s@ as Dim)
}

/// The interpretation `f` gives dimension `d` the value `g(d)`.
pub open spec fn interprets_dims<F: Fn(Dim) -> QQ>(f: F, g: spec_fn(Dim) -> (int, int)) -> bool {
    forall|d: Dim, q: QQ| #[trigger] call_ensures(f, (d,), q) ==> q@ == g(d)
}

/// Evaluate an affine term under an interpretation that assigns each symbol
/// a rational value. The constant coordinate is evaluated to itself. Whenever
/// the interpretation agrees with a function `g` of the dimensions, the
/// result is the sum, in dimension order, of each coefficient scaled by the
/// value of its symbol.
pub fn evaluate_linterm<F: Fn(Symbol) -> QQ>(interp: F, v: &QQVector) -> (r: QQ)
    requires
        forall|s: Symbol| #[trigger] interp.requires((s,)),
    ensures
        exists|es: Seq<(Dim, QQ)>|
            sorted_keys(es) && seq_view(es) == v@ && forall|g: spec_fn(Dim) -> (int, int)|
                interprets_symbols(interp, g) ==> r@ == #[trigger] linterm_value(es, es.len() as int, g),
{
    let es = v.iter();
    let mut sum = QQ::zero();
    let mut k: usize = 0;
    while k < es.len()
        invariant
            k <= es@.len(),
            forall|s: Symbol| #[trigger] interp.requires((s,)),
            forall|g: spec_fn(Dim) -> (int, int)|
                interprets_symbols(interp, g) ==> sum@ == #[trigger] linterm_value(es@, k as int, g),
        decreases es@.len() - k,
    {
        let dim = es[k].0;
        let val = match sym_of_dim(dim) {
            Some(sym) => interp(sym).mul(&es[k].1),
            None => es[k].1.clone(),
        };
        let ghost prev = sum@;
        sum = sum.add(&val);
        proof {
            assert forall|g: spec_fn(Dim) -> (int, int)| interprets_symbols(interp, g) implies sum@ == #[trigger] linterm_value(
                es@,
                k + 1,
                g,
            ) by {
                assert(prev == linterm_value(es@, k as int, g));
            }
        }
        k = k + 1;
    }
    sum
}

/// Like [`evaluate_linterm`] but parameterised over raw dimensions; the
/// constant coordinate evaluates to its coefficient.
pub fn evaluate_affine<F: Fn(Dim) -> QQ>(interp: F, v: &QQVector) -> (r: QQ)
    requires
        forall|d: Dim| #[trigger] interp.requires((d,)),
    ensures
        exists|es: Seq<(Dim, QQ)>|
            sorted_keys(es) && seq_view(es) == v@ && forall|g: spec_fn(Dim) -> (int, int)|
                interprets_dims(interp, g) ==> r@ == #[trigger] affine_value(es, es.len() as int, g),
{
    let es = v.iter();
    let mut sum = QQ::zero();
    let mut k: usize = 0;
    while k < es.len()
        invariant
            k <= es@.len(),
            forall|d: Dim| #[trigger] interp.requires((d,)),
            forall|g: spec_fn(Dim) -> (int, int)|
                interprets_dims(interp, g) ==> sum@ == #[trigger] affine_value(es@, k as int, g),
        decreases es@.len() - k,
    {
        let dim = es[k].0;
        let val = if dim == CONST_DIM {
            es[k].1.clone()
        } else {
            interp(dim).mul(&es[k].1)
        };
        let ghost prev = sum@;
        sum = sum.add(&val);
        proof {
            assert forall|g: spec_fn(Dim) -> (int, int)| interprets_dims(interp, g) implies sum@ == #[trigger] affine_value(
                es@,
                k + 1,
                g,
            ) by {
                assert(prev == affine_value(es@, k as int, g));
            }
        }
        k = k + 1;
    }
    sum
}

// ===========================================================================
// Solvers
// ===========================================================================

/// A canonical fraction other than zero has a nonzero numerator.
pub(crate) proof fn lemma_nonzero_numerator(q: (int, int))
    requires
        is_canonical(q),
        q != (0int, 1int),
    ensures
        q.0 != 0,
{
    if q.0 == 0 {
        lemma_gcd_zero_left(q.1 as nat);
    }
}

/// The first dimension of `v` other than `skip`, if any.
fn first_dim_except(v: &QQVector, skip: Dim) -> (r: Option<Dim>)
    ensures
        match r {
            Some(d) => d != skip && v@.contains_key(d),
            None => forall|d: Dim| #[trigger] v@.contains_key(d) ==> d == skip,
        },
{
    let es = v.iter();
    let mut k: usize = 0;
    while k < es.len()
        invariant
            k <= es@.len(),
            sorted_keys(es@),
            seq_view(es@) == v@,
            forall|t: int| 0 <= t < k ==> #[trigger] es@[t].0 == skip,
        decreases es@.len() - k,
    {
        if es[k].0 != skip {
            proof {
                crate::ring::lemma_view_index(es@, k as int);
            }
            return Some(es[k].0);
        }
        k = k + 1;
    }
    proof {
        assert forall|d: Dim| #[trigger] v@.contains_key(d) implies d == skip by {
            let t = choose|t: int| 0 <= t < es@.len() && #[trigger] es@[t].0 == d;
        }
    }
    None
}

/// Reduce `mat` to row-echelon form by Gaussian elimination, leaving
/// `b_column` untouched as a pivot. Returns the list of `(pivot_column,
/// reduced_row)` pairs produced, in the order they were eliminated: a vector
/// solves `mat` exactly when it satisfies every pivot equation. Fails with
/// [`NoSolution`] if a row's only nonzero entry is in `b_column`, in which
/// case every solution of `mat` is zero at `b_column`.
fn row_echelon_form(mat: QQMatrix, b_column: Dim) -> (r: Result<Vec<(Dim, QQVector)>, NoSolution>)
    ensures
        match r {
            Ok(rows) => echelon_ok(rows@, b_column) && forall|x: QVec| #[trigger] is_sparse::<QQ>(x) ==> (
                rows_vanish(mat@, x) == pivots_hold(rows@, x)),
            Err(_) => forall|x: QVec| #[trigger] is_sparse::<QQ>(x) && rows_vanish(mat@, x) ==> coeff_of::<QQ>(x, b_column)
                == QQ::rzero(),
        },
{
    let ghost mat0 = mat@;
    let mut finished: Vec<(Dim, QQVector)> = Vec::new();
    let mut current = mat;
    current.lemma_sparse();
    while !current.is_zero()
        invariant
            mat0 == mat@,
            crate::matrix::mat_sparse::<QQ>(current@),
            echelon_ok(finished@, b_column),
            forall|i: Dim, t: int|
                #![trigger current@[i].contains_key(finished@[t].0)]
                current@.contains_key(i) && 0 <= t < finished@.len() ==> !current@[i].contains_key(finished@[t].0),
            forall|x: QVec| #[trigger] is_sparse::<QQ>(x) ==> (rows_vanish(mat0, x) == (rows_vanish(current@, x)
                && pivots_hold(finished@, x))),
        decreases current@.dom().len(),
    {
        let row_num = match current.min_row() {
            Some((r, _)) => r,
            None => {
                return Ok(finished);
            },
        };
        let ghost before = current@;
        let (pivot_row, rest) = current.pivot(row_num);
        current = rest;
        let column = match first_dim_except(&pivot_row, b_column) {
            Some(c) => c,
            None => {
                proof {
                    assert forall|x: QVec| #[trigger] is_sparse::<QQ>(x) && rows_vanish(mat0, x) implies coeff_of::<QQ>(
                        x,
                        b_column,
                    ) == QQ::rzero() by {
                        assert(before.contains_key(row_num));
                        lemma_lone_row(before[row_num], b_column, x);
                    }
                }
                return Err(NoSolution);
            },
        };
        pivot_row.lemma_sparse();
        let (cell, pivot_rest) = pivot_row.pivot(column);
        proof {
            lemma_nonzero_numerator(cell@);
        }
        let scaled = pivot_rest.scalar_mul(&cell.inverse().negate());
        proof {
            assert(!scaled@.contains_key(column));
        }
        let ghost removed = current@;
        let f = |row: QQVector| -> (w: QQVector)
            ensures
                w@ == elim_row(row@, column, scaled@),
            {
                let (coeff, row_rest) = row.pivot(column);
                row_rest.add(&scaled.scalar_mul(&coeff))
            };
        current = current.map_rows(f);
        current.lemma_sparse();
        scaled.lemma_sparse();
        proof {
            assert(removed.dom() =~= before.dom().remove(row_num));
            assert(current@.dom().subset_of(removed.dom()));
            vstd::set_lib::lemma_len_subset(current@.dom(), removed.dom());
            assert forall|i: Dim| #[trigger] current@.contains_key(i) implies before.contains_key(i) && i != row_num
                && current@[i] == elim_row(before[i], column, scaled@) by {
                let (v, w) = choose|v: QQVector, w: QQVector| v@ == removed[i] && f.ensures((v,), w) && w@ == current@[i];
            }
            assert forall|i: Dim| #[trigger] before.contains_key(i) && i != row_num && !current@.contains_key(i) implies elim_row(
                before[i],
                column,
                scaled@,
            ) == Map::<Dim, (int, int)>::empty() by {
                assert(removed.contains_key(i));
                let (v, w) = choose|v: QQVector, w: QQVector|
                    v@ == removed[i] && f.ensures((v,), w) && w@ == Map::<Dim, (int, int)>::empty();
            }
        }
        let ghost old_finished = finished@;
        finished.push((column, scaled));
        proof {
            assert(finished@[old_finished.len() as int] == (column, scaled));
            assert forall|t: int| 0 <= t < finished@.len() implies (#[trigger] finished@[t]).0 != b_column && is_sparse::<QQ>(
                finished@[t].1@,
            ) by {
                if t < old_finished.len() {
                    assert(finished@[t] == old_finished[t]);
                }
            }
            assert forall|a: int, t: int| 0 <= a <= t < finished@.len() implies !(#[trigger] finished@[t]).1@.contains_key(
                (#[trigger] finished@[a]).0,
            ) by {
                if t < old_finished.len() {
                    assert(finished@[t] == old_finished[t]);
                    assert(finished@[a] == old_finished[a]);
                } else if a < old_finished.len() {
                    assert(finished@[a] == old_finished[a]);
                    assert(!before[row_num].contains_key(old_finished[a].0));
                }
            }
            assert forall|a: int, t: int| 0 <= a < t < finished@.len() implies (#[trigger] finished@[a]).0 != (
            #[trigger] finished@[t]).0 by {
                assert(finished@[a] == old_finished[a]);
                if t < old_finished.len() {
                    assert(finished@[t] == old_finished[t]);
                } else {
                    assert(!before[row_num].contains_key(old_finished[a].0));
                }
            }
            assert forall|i: Dim, t: int|
                #![trigger current@[i].contains_key(finished@[t].0)]
                current@.contains_key(i) && 0 <= t < finished@.len() implies !current@[i].contains_key(finished@[t].0) by {
                assert(before.contains_key(i));
                if t < old_finished.len() {
                    assert(finished@[t] == old_finished[t]);
                    assert(!before[i].contains_key(old_finished[t].0));
                    assert(!before[row_num].contains_key(old_finished[t].0));
                }
            }
            assert forall|x: QVec| #[trigger] is_sparse::<QQ>(x) implies (rows_vanish(mat0, x) == (rows_vanish(current@, x)
                && pivots_hold(finished@, x))) by {
                lemma_elim_step(before, row_num, column, scaled@, current@, x);
                if pivots_hold(finished@, x) {
                    assert forall|t: int| 0 <= t < old_finished.len() implies coeff_of::<QQ>(x, (#[trigger] old_finished[t]).0)
                        == map_dot::<QQ>(old_finished[t].1@, x) by {
                        assert(finished@[t] == old_finished[t]);
                    }
                }
                if pivots_hold(old_finished, x) && coeff_of::<QQ>(x, column) == map_dot::<QQ>(scaled@, x) {
                    assert forall|t: int| 0 <= t < finished@.len() implies coeff_of::<QQ>(x, (#[trigger] finished@[t]).0)
                        == map_dot::<QQ>(finished@[t].1@, x) by {
                        if t < old_finished.len() {
                            assert(finished@[t] == old_finished[t]);
                        }
                    }
                }
            }
        }
    }
    proof {
        assert forall|x: QVec| #[trigger] is_sparse::<QQ>(x) implies rows_vanish(mat0, x) == pivots_hold(finished@, x) by {
            assert(rows_vanish(current@, x));
        }
    }
    Ok(finished)
}

/// Solve the eliminated rows for their pivots, starting from `start`: the
/// rows are taken from the last to the first, each setting its pivot
/// coordinate to `row . soln`. The result satisfies every pivot equation, and
/// keeps the coordinates of `start` that are no pivot.
fn back_substitute(rr: &Vec<(Dim, QQVector)>, start: QQVector, b_column: Dim) -> (r: QQVector)
    requires
        echelon_ok(rr@, b_column),
        forall|t: int| 0 <= t < rr@.len() ==> !start@.contains_key((#[trigger] rr@[t]).0),
    ensures
        pivots_hold(rr@, r@),
        forall|d: Dim| !is_pivot_of(rr@, d) ==> #[trigger] coeff_of::<QQ>(r@, d) == coeff_of::<QQ>(start@, d),
{
    let ghost start_v = start@;
    let mut soln = start;
    let mut k: usize = rr.len();
    while k > 0
        invariant
            k <= rr@.len(),
            echelon_ok(rr@, b_column),
            forall|t: int| k <= t < rr@.len() ==> coeff_of::<QQ>(soln@, (#[trigger] rr@[t]).0) == map_dot::<QQ>(rr@[t].1@, soln@),
            forall|t: int| 0 <= t < k ==> !soln@.contains_key((#[trigger] rr@[t]).0),
            forall|d: Dim| !is_pivot_of(rr@, d) ==> #[trigger] coeff_of::<QQ>(soln@, d) == coeff_of::<QQ>(start_v, d),
        decreases k,
    {
        k = k - 1;
        let ghost old_soln = soln@;
        let ghost c = rr@[k as int].0;
        soln.lemma_sparse();
        let prod = rr[k].1.dot(&soln);
        soln = soln.add_term(prod, rr[k].0);
        proof {
            lemma_zero_add(prod@);
            assert(!old_soln.contains_key(c));
            assert forall|d: Dim| #[trigger] coeff_of::<QQ>(soln@, d) == (if d == c {
                prod@
            } else {
                coeff_of::<QQ>(old_soln, d)
            }) by {}
            assert(soln@.dom().subset_of(old_soln.dom().insert(c)));
            assert forall|t: int| k <= t < rr@.len() implies coeff_of::<QQ>(soln@, (#[trigger] rr@[t]).0) == map_dot::<QQ>(
                rr@[t].1@,
                soln@,
            ) by {
                assert(!rr@[t].1@.contains_key(rr@[k as int].0));
                crate::inner::lemma_dot_congr::<QQ>(rr@[t].1@, soln@, old_soln);
                if t > k {
                    assert(rr@[k as int].0 != rr@[t].0);
                }
            }
            assert forall|t: int| 0 <= t < k implies !soln@.contains_key((#[trigger] rr@[t]).0) by {
                assert(rr@[t].0 != rr@[k as int].0);
            }
            assert forall|d: Dim| !is_pivot_of(rr@, d) implies #[trigger] coeff_of::<QQ>(soln@, d) == coeff_of::<QQ>(start_v, d) by {
                if d == c {
                    assert(is_pivot_of(rr@, d));
                }
            }
        }
    }
    soln
}

/// The largest column holding a nonzero entry of `m`, or zero when there is none.
fn max_column(m: &QQMatrix) -> (r: Dim)
    ensures
        column_support(m@) == Set::<Dim>::empty() ==> r == 0,
        column_support(m@) != Set::<Dim>::empty() ==> column_support(m@).contains(r),
        forall|j: Dim| #[trigger] column_support(m@).contains(j) ==> j <= r,
{
    let es = m.entries();
    let mut best: Option<Dim> = None;
    let mut k: usize = 0;
    while k < es.len()
        invariant
            k <= es@.len(),
            crate::matrix::lists_entries::<QQ>(es@, m@),
            match best {
                Some(b) => column_support(m@).contains(b) && forall|t: int| 0 <= t < k ==> #[trigger] es@[t].1 <= b,
                None => k == 0,
            },
        decreases es@.len() - k,
    {
        proof {
            assert(m@.contains_key(es@[k as int].0) && m@[es@[k as int].0].contains_key(es@[k as int].1));
        }
        let j = es[k].1;
        best = match best {
            Some(b) => if j > b {
                Some(j)
            } else {
                Some(b)
            },
            None => Some(j),
        };
        k = k + 1;
    }
    match best {
        Some(b) => {
            proof {
                assert forall|j: Dim| #[trigger] column_support(m@).contains(j) implies j <= b by {
                    let i = choose|i: Dim| m@.contains_key(i) && #[trigger] m@[i].contains_key(j);
                    let t = choose|t: int| 0 <= t < es@.len() && #[trigger] es@[t].0 == i && es@[t].1 == j;
                }
            }
            b
        },
        None => {
            proof {
                if column_support(m@) != Set::<Dim>::empty() {
                    assert(!(column_support(m@) =~= Set::<Dim>::empty()));
                    let j = choose|j: Dim| column_support(m@).contains(j);
                    let i = choose|i: Dim| m@.contains_key(i) && #[trigger] m@[i].contains_key(j);
                    let t = choose|t: int| 0 <= t < es@.len() && #[trigger] es@[t].0 == i && es@[t].1 == j;
                }
            }
            0
        },
    }
}

/// The largest dimension of `dims`, or zero when there is none.
fn max_dim(dims: &[Dim]) -> (r: Dim)
    ensures
        dims@.len() == 0 ==> r == 0,
        dims@.len() > 0 ==> dims@.contains(r),
        forall|k: int| 0 <= k < dims@.len() ==> #[trigger] dims@[k] <= r,
{
    if dims.len() == 0 {
        return 0;
    }
    let mut best = dims[0];
    let mut k: usize = 1;
    while k < dims.len()
        invariant
            1 <= k <= dims@.len(),
            dims@.contains(best),
            forall|t: int| 0 <= t < k ==> #[trigger] dims@[t] <= best,
        decreases dims@.len() - k,
    {
        if dims[k] > best {
            best = dims[k];
        }
        k = k + 1;
    }
    best
}

/// Does the dimension `d` occur among the pivots?
fn is_pivot(rr: &Vec<(Dim, QQVector)>, d: Dim) -> (r: bool)
    ensures
        r == exists|t: int| 0 <= t < rr@.len() && #[trigger] rr@[t].0 == d,
{
    let mut k: usize = 0;
    while k < rr.len()
        invariant
            k <= rr@.len(),
            forall|t: int| 0 <= t < k ==> #[trigger] rr@[t].0 != d,
        decreases rr@.len() - k,
    {
        if rr[k].0 == d {
            return true;
        }
        k = k + 1;
    }
    false
}

/// Compute a basis for the null space of `mat` projected onto `dimensions`:
/// the set of vectors `x` over `dimensions` such that `mat * x = 0`. Every
/// returned vector is in the null space, every vector of the null space
/// whose coordinates lie in `dimensions` is a combination of them, and when
/// `dimensions` has no repeated entry they are linearly independent.
pub fn nullspace(mat: QQMatrix, dimensions: &[Dim]) -> (r: Vec<QQVector>)
    requires
        forall|j: Dim| #[trigger] column_support(mat@).contains(j) ==> j < i32::MAX,
        forall|k: int| 0 <= k < dimensions@.len() ==> #[trigger] dimensions@[k] < i32::MAX,
    ensures
        forall|t: int| 0 <= t < r@.len() ==> mat_vec::<QQ>(mat@, (#[trigger] r@[t])@) == Map::<Dim, (int, int)>::empty(),
        r@.len() <= dimensions@.len(),
        forall|t: int, d: Dim|
            0 <= t < r@.len() && #[trigger] r@[t]@.contains_key(d) ==> dimensions@.contains(d) || column_support(mat@).contains(d),
        forall|x: QVec|
            #![trigger is_sparse::<QQ>(x), mat_vec::<QQ>(mat@, x)]
            is_sparse::<QQ>(x) && mat_vec::<QQ>(mat@, x) == Map::<Dim, (int, int)>::empty() && (forall|d: Dim|
                #[trigger] x.contains_key(d) ==> dimensions@.contains(d)) ==> exists|c: Seq<(int, int)>|
                c.len() == r@.len() && (forall|t: int| 0 <= t < c.len() ==> is_canonical(#[trigger] c[t])) && #[trigger] lin_comb(
                    r@,
                    c,
                    r@.len() as int,
                ) == x,
        (forall|a: int, b: int| 0 <= a < b < dimensions@.len() ==> dimensions@[a] != dimensions@[b]) ==> forall|c: Seq<(int, int)>|
            c.len() == r@.len() && (forall|t: int| 0 <= t < c.len() ==> is_canonical(#[trigger] c[t])) && #[trigger] lin_comb(
                r@,
                c,
                r@.len() as int,
            ) == Map::<Dim, (int, int)>::empty() ==> forall|t: int| 0 <= t < c.len() ==> #[trigger] c[t] == QQ::rzero(),
{
    let ghost m0 = mat@;
    mat.lemma_sparse();
    let max_col = max_column(&mat);
    let max_d = max_dim(dimensions);
    let b_column = if max_col > max_d {
        max_col + 1
    } else {
        max_d + 1
    };
    proof {
        assert forall|k: Dim| #[trigger] m0.contains_key(k) implies !m0[k].contains_key(b_column) by {
            if m0[k].contains_key(b_column) {
                assert(column_support(m0).contains(b_column));
            }
        }
    }
    let rr = match row_echelon_form(mat, b_column) {
        Ok(r) => r,
        Err(_) => {
            proof {
                let e = Map::<Dim, (int, int)>::empty().insert(b_column, QQ::rone());
                QQ::lemma_valid_units();
                assert(e.dom() =~= Set::<Dim>::empty().insert(b_column));
                assert forall|i: Dim| #[trigger] m0.contains_key(i) implies map_dot::<QQ>(m0[i], e) == QQ::rzero() by {
                    crate::inner::lemma_dot_congr::<QQ>(m0[i], e, Map::<Dim, (int, int)>::empty());
                    crate::matrix::lemma_dot_empty_right::<QQ>(m0[i]);
                }
                assert(is_sparse::<QQ>(e) && rows_vanish(m0, e));
                assert(false);
            }
            return Vec::new();
        },
    };
    let mut out: Vec<QQVector> = Vec::new();
    let ghost mut ds: Seq<Dim> = Seq::empty();
    let mut k: usize = 0;
    while k < dimensions.len()
        invariant
            k <= dimensions@.len(),
            out@.len() <= k,
            m0 == mat@,
            echelon_ok(rr@, b_column),
            forall|x: QVec| #[trigger] is_sparse::<QQ>(x) ==> (rows_vanish(mat@, x) == pivots_hold(rr@, x)),
            forall|t: int| 0 <= t < out@.len() ==> mat_vec::<QQ>(mat@, (#[trigger] out@[t])@) == Map::<Dim, (int, int)>::empty(),
            out@.len() == ds.len(),
            forall|t: int| 0 <= t < out@.len() ==> is_sparse::<QQ>((#[trigger] out@[t])@) && pivots_hold(rr@, out@[t]@),
            forall|t: int, d: Dim|
                0 <= t < out@.len() && !is_pivot_of(rr@, d) ==> #[trigger] coeff_of::<QQ>(out@[t]@, d) == (if ds[t] == d {
                    QQ::rone()
                } else {
                    QQ::rzero()
                }),
            forall|t: int| 0 <= t < ds.len() ==> dimensions@.contains(#[trigger] ds[t]),
            forall|j: int| 0 <= j < k && !is_pivot_of(rr@, dimensions@[j]) ==> occurs_before(ds, #[trigger] dimensions@[j], ds.len() as int),
            forall|t: int| 0 <= t < ds.len() ==> !is_pivot_of(rr@, #[trigger] ds[t]),
            forall|t: int| 0 <= t < ds.len() ==> exists|j: int| 0 <= j < k && #[trigger] dimensions@[j] == #[trigger] ds[t],
            (forall|a: int, b: int| 0 <= a < b < dimensions@.len() ==> dimensions@[a] != dimensions@[b]) ==> forall|t1: int, t2: int|
                0 <= t1 < t2 < ds.len() ==> #[trigger] ds[t1] != #[trigger] ds[t2],
        decreases dimensions@.len() - k,
    {
        let d = dimensions[k];
        if !is_pivot(&rr, d) {
            let start = QQVector::of_term(QQ::one(), d);
            let soln = back_substitute(&rr, start, b_column);
            soln.lemma_sparse();
            proof {
                assert(rows_vanish(mat@, soln@));
                assert(mat_vec::<QQ>(mat@, soln@) =~= Map::<Dim, (int, int)>::empty());
            }
            let ghost old_out = out@;
            let ghost old_ds = ds;
            out.push(soln);
            proof {
                ds = ds.push(d);
                assert(out@[old_out.len() as int] == soln);
                assert forall|t: int| 0 <= t < out@.len() implies mat_vec::<QQ>(mat@, (#[trigger] out@[t])@)
                    == Map::<Dim, (int, int)>::empty() by {
                    if t < old_out.len() {
                        assert(out@[t] == old_out[t]);
                    }
                }
                assert forall|t: int| 0 <= t < out@.len() implies is_sparse::<QQ>((#[trigger] out@[t])@) && pivots_hold(
                    rr@,
                    out@[t]@,
                ) by {
                    if t < old_out.len() {
                        assert(out@[t] == old_out[t]);
                    }
                }
                assert forall|t: int, e: Dim|
                    0 <= t < out@.len() && !is_pivot_of(rr@, e) implies #[trigger] coeff_of::<QQ>(out@[t]@, e) == (if ds[t] == e {
                    QQ::rone()
                } else {
                    QQ::rzero()
                }) by {
                    if t < old_out.len() {
                        assert(out@[t] == old_out[t]);
                        assert(ds[t] == old_ds[t]);
                    }
                }
                assert forall|t: int| 0 <= t < ds.len() implies dimensions@.contains(#[trigger] ds[t]) by {
                    if t < old_ds.len() {
                        assert(ds[t] == old_ds[t]);
                    } else {
                        assert(dimensions@[k as int] == d);
                    }
                }
                assert forall|t: int| 0 <= t < ds.len() implies !is_pivot_of(rr@, #[trigger] ds[t]) by {
                    if t < old_ds.len() {
                        assert(ds[t] == old_ds[t]);
                    }
                }
                assert forall|t: int| 0 <= t < ds.len() implies exists|j: int| 0 <= j < k + 1 && #[trigger] dimensions@[j] == #[trigger] ds[t] by {
                    if t < old_ds.len() {
                        assert(ds[t] == old_ds[t]);
                        let j = choose|j: int| 0 <= j < k && #[trigger] dimensions@[j] == old_ds[t];
                        assert(dimensions@[j] == ds[t]);
                    } else {
                        assert(dimensions@[k as int] == ds[t]);
                    }
                }
                if forall|a: int, b: int| 0 <= a < b < dimensions@.len() ==> dimensions@[a] != dimensions@[b] {
                    assert forall|t1: int, t2: int| 0 <= t1 < t2 < ds.len() implies #[trigger] ds[t1] != #[trigger] ds[t2] by {
                        assert(ds[t1] == old_ds[t1]);
                        if t2 < old_ds.len() {
                            assert(ds[t2] == old_ds[t2]);
                        } else {
                            let j = choose|j: int| 0 <= j < k && #[trigger] dimensions@[j] == old_ds[t1];
                            assert(dimensions@[j] != dimensions@[k as int]);
                        }
                    }
                }
                assert forall|j: int| 0 <= j < k + 1 && !is_pivot_of(rr@, dimensions@[j]) implies occurs_before(
                    ds,
                    #[trigger] dimensions@[j],
                    ds.len() as int,
                ) by {
                    if j < k {
                        let t = choose|t: int| 0 <= t < old_ds.len() && #[trigger] old_ds[t] == dimensions@[j];
                        assert(ds[t] == old_ds[t]);
                    } else {
                        assert(ds[old_ds.len() as int] == d);
                    }
                }
            }
        } else {
            proof {
                assert(is_pivot_of(rr@, dimensions@[k as int]));
            }
        }
        k = k + 1;
    }
    proof {
        assert forall|x: QVec|
            #![trigger is_sparse::<QQ>(x), mat_vec::<QQ>(mat@, x)]
            is_sparse::<QQ>(x) && mat_vec::<QQ>(mat@, x) == Map::<Dim, (int, int)>::empty() && (forall|d: Dim|
                #[trigger] x.contains_key(d) ==> dimensions@.contains(d)) implies exists|c: Seq<(int, int)>|
                c.len() == out@.len() && (forall|t: int| 0 <= t < c.len() ==> is_canonical(#[trigger] c[t])) && #[trigger] lin_comb(
                    out@,
                    c,
                    out@.len() as int,
                ) == x by {
            assert forall|i: Dim| #[trigger] mat@.contains_key(i) implies map_dot::<QQ>(mat@[i], x) == QQ::rzero() by {
                assert(!mat_vec::<QQ>(mat@, x).contains_key(i));
            }
            lemma_null_span(rr@, b_column, mat@, out@, ds, dimensions@, x);
            let c = free_coeffs(ds, x);
            assert(c.len() == out@.len());
            assert forall|t: int| 0 <= t < c.len() implies is_canonical(#[trigger] c[t]) by {
                <QQ as Ring>::lemma_valid_units();
                crate::inner::lemma_coeff_valid::<QQ>(x, ds[t]);
            }
        }
        if forall|a: int, b: int| 0 <= a < b < dimensions@.len() ==> dimensions@[a] != dimensions@[b] {
            assert forall|c: Seq<(int, int)>|
                c.len() == out@.len() && (forall|t: int| 0 <= t < c.len() ==> is_canonical(#[trigger] c[t])) && #[trigger] lin_comb(
                    out@,
                    c,
                    out@.len() as int,
                ) == Map::<Dim, (int, int)>::empty() implies forall|t: int| 0 <= t < c.len() ==> #[trigger] c[t] == QQ::rzero() by {
                assert forall|t: int| 0 <= t < c.len() implies #[trigger] c[t] == QQ::rzero() by {
                    assert forall|s: int| 0 <= s < out@.len() implies coeff_of::<QQ>((#[trigger] out@[s])@, ds[t]) == (if s == t {
                        QQ::rone()
                    } else {
                        QQ::rzero()
                    }) by {
                        assert(!is_pivot_of(rr@, ds[t]));
                        if s < t {
                            assert(ds[s] != ds[t]);
                        } else if s > t {
                            assert(ds[t] != ds[s]);
                        }
                    }
                    elimination::lemma_lin_comb_at(out@, c, out@.len() as int, ds, t);
                }
            }
        }
        assert forall|d: Dim| is_pivot_of(rr@, d) implies #[trigger] column_support(mat@).contains(d) by {
            lemma_pivot_is_column(mat@, rr@, b_column, d);
        }
        assert forall|t: int, d: Dim|
            0 <= t < out@.len() && #[trigger] out@[t]@.contains_key(d) implies dimensions@.contains(d) || column_support(
            mat@,
        ).contains(d) by {
            if !is_pivot_of(rr@, d) {
                assert(coeff_of::<QQ>(out@[t]@, d) == out@[t]@[d]);
                assert(ds[t] == d);
            }
        }
    }
    out
}

/// A pivot of an elimination of `m` is a column of `m`: otherwise the unit
/// vector there would make every row vanish yet break its own pivot
/// equation.
proof fn lemma_pivot_is_column(m: Map<Dim, QVec>, rr: Seq<(Dim, QQVector)>, b_column: Dim, d: Dim)
    requires
        crate::matrix::mat_sparse::<QQ>(m),
        echelon_ok(rr, b_column),
        forall|x: QVec| #[trigger] is_sparse::<QQ>(x) ==> (rows_vanish(m, x) == pivots_hold(rr, x)),
        is_pivot_of(rr, d),
    ensures
        column_support(m).contains(d),
{
    if !column_support(m).contains(d) {
        QQ::lemma_valid_units();
        let e = Map::<Dim, (int, int)>::empty().insert(d, QQ::rone());
        assert(e.dom() =~= Set::<Dim>::empty().insert(d));
        assert forall|i: Dim| #[trigger] m.contains_key(i) implies map_dot::<QQ>(m[i], e) == QQ::rzero() by {
            universal::lemma_dot_symm_unit(m[i], d);
            assert(!m[i].contains_key(d));
        }
        assert(is_sparse::<QQ>(e));
        assert(rows_vanish(m, e));
        let t = choose|t: int| 0 <= t < rr.len() && #[trigger] rr[t].0 == d;
        universal::lemma_dot_symm_unit(rr[t].1@, d);
        assert(!rr[t].1@.contains_key(rr[t].0));
        assert(coeff_of::<QQ>(e, rr[t].0) == map_dot::<QQ>(rr[t].1@, e));
    }
}

/// Solve `mat * x = b` for `x`. Returns `None` exactly when no solution
/// exists.
pub fn solve(mat: &QQMatrix, b: &QQVector) -> (r: Option<QQVector>)
    requires
        forall|j: Dim| #[trigger] column_support(mat@).contains(j) ==> j < i32::MAX,
    ensures
        r matches Some(x) ==> mat_vec::<QQ>(mat@, x@) == b@,
        r matches Some(x) ==> forall|d: Dim| #[trigger] x@.contains_key(d) ==> column_support(mat@).contains(d),
        r is None ==> forall|x: QVec| #[trigger] is_sparse::<QQ>(x) ==> mat_vec::<QQ>(mat@, x) != b@,
{
    match solve_inner(mat.clone(), b.clone()) {
        Ok(x) => Some(x),
        Err(_) => None,
    }
}

fn solve_inner(mat: QQMatrix, b: QQVector) -> (r: Result<QQVector, NoSolution>)
    requires
        forall|j: Dim| #[trigger] column_support(mat@).contains(j) ==> j < i32::MAX,
    ensures
        match r {
            Ok(x) => mat_vec::<QQ>(mat@, x@) == b@ && forall|d: Dim| #[trigger] x@.contains_key(d) ==> column_support(mat@).contains(d),
            Err(_) => forall|x: QVec| #[trigger] is_sparse::<QQ>(x) ==> mat_vec::<QQ>(mat@, x) != b@,
        },
{
    let ghost m0 = mat@;
    let ghost b0 = b@;
    mat.lemma_sparse();
    b.lemma_sparse();
    let max_col = max_column(&mat);
    let b_column = max_col + 1;
    proof {
        assert forall|k: Dim| #[trigger] m0.contains_key(k) implies !m0[k].contains_key(b_column) by {
            if m0[k].contains_key(b_column) {
                assert(column_support(m0).contains(b_column));
            }
        }
    }
    let augmented = mat.add_column(b_column, b);
    let ghost aug = augmented@;
    augmented.lemma_sparse();
    let rr = match row_echelon_form(augmented, b_column) {
        Ok(rr) => rr,
        Err(e) => {
            proof {
                assert forall|x: QVec| #[trigger] is_sparse::<QQ>(x) implies mat_vec::<QQ>(m0, x) != b0 by {
                    if mat_vec::<QQ>(m0, x) == b0 {
                        lemma_aug_backward(m0, b0, b_column, x);
                        crate::linear::elimination::lemma_aug_point_one(x, b_column);
                    }
                }
            }
            return Err(e);
        },
    };
    let start = QQVector::of_term(QQ::one(), b_column);
    let soln = back_substitute(&rr, start, b_column);
    soln.lemma_sparse();
    let (_, rest) = soln.pivot(b_column);
    proof {
        if is_pivot_of(rr@, b_column) {
            let t = choose|t: int| 0 <= t < rr@.len() && #[trigger] rr@[t].0 == b_column;
        }
        lemma_aug_forward(m0, b0, b_column, soln@);
        assert forall|d: Dim| #[trigger] rest@.contains_key(d) implies column_support(m0).contains(d) by {
            assert(d != b_column && soln@.contains_key(d));
            if !is_pivot_of(rr@, d) {
                assert(coeff_of::<QQ>(soln@, d) == coeff_of::<QQ>(start@, d));
                assert(coeff_of::<QQ>(soln@, d) == soln@[d]);
            } else {
                lemma_pivot_is_column(aug, rr@, b_column, d);
                let i = choose|i: Dim| aug.contains_key(i) && #[trigger] aug[i].contains_key(d);
                if !(m0.contains_key(i) && m0[i].contains_key(d)) {
                    assert(!row_of::<QQ>(m0, i).contains_key(d));
                }
            }
        }
    }
    let r = rest.negate();
    proof {
        assert forall|d: Dim| #[trigger] r@.contains_key(d) implies column_support(m0).contains(d) by {
            assert(rest@.contains_key(d));
        }
    }
    Ok(r)
}

/// `v` is a combination of the rows of `basis`: some `x` has `basis^T * x = v`.
pub open spec fn in_span(basis: Seq<QQVector>, v: QVec) -> bool {
    exists|x: QVec| #[trigger] is_sparse::<QQ>(x) && mat_vec::<QQ>(mat_transpose::<QQ>(rows_matrix::<QQ>(basis)), x) == v
}

/// Test whether `v` lies in the linear span of `basis`. A `true` answer is
/// backed by a combination that was checked.
pub fn mem_vector_space(basis: &[QQVector], v: &QQVector) -> (r: bool)
    requires
        basis@.len() < i32::MAX,
    ensures
        r == in_span(basis@, v@),
{
    let mut rows: Vec<QQVector> = Vec::new();
    let mut k: usize = 0;
    while k < basis.len()
        invariant
            k <= basis@.len(),
            rows@.len() == k,
            forall|t: int| 0 <= t < k ==> (#[trigger] rows@[t])@ == basis@[t]@,
        decreases basis@.len() - k,
    {
        rows.push(basis[k].clone());
        k = k + 1;
    }
    let ghost rv = rows@;
    let m = QQMatrix::of_rows(rows);
    let mt = m.transpose();
    proof {
        assert(rows_matrix::<QQ>(rv) =~= rows_matrix::<QQ>(basis@));
        assert forall|j: Dim| #[trigger] column_support(mt@).contains(j) implies j < i32::MAX by {
            let i = choose|i: Dim| mt@.contains_key(i) && #[trigger] mt@[i].contains_key(j);
            assert(m@.contains_key(j));
        }
    }
    match solve(&mt, v) {
        Some(x) => {
            x.lemma_sparse();
            proof {
                assert(mat_vec::<QQ>(mat_transpose::<QQ>(rows_matrix::<QQ>(basis@)), x@) == v@);
            }
            true
        },
        None => {
            proof {
                assert(mt@ == mat_transpose::<QQ>(rows_matrix::<QQ>(basis@)));
            }
            false
        },
    }
}

/// Given `A` and `B`, find `C` such that `C*B = A` if one exists: each row
/// of `C` solves `B^T * c = a` for the matching row `a` of `A`.
pub fn divide_right(a: &QQMatrix, b: &QQMatrix) -> (r: Option<QQMatrix>)
    requires
        forall|i: Dim| #[trigger] b@.contains_key(i) ==> i < i32::MAX,
    ensures
        r matches Some(c) ==> c@.dom().subset_of(a@.dom()) && forall|i: Dim| #[trigger] a@.contains_key(i) ==> mat_vec::<QQ>(
            mat_transpose::<QQ>(b@),
            crate::matrix::row_of::<QQ>(c@, i),
        ) == a@[i],
        r is None ==> exists|i: Dim| #[trigger] a@.contains_key(i) && forall|x: QVec| #[trigger] is_sparse::<QQ>(x) ==> mat_vec::<QQ>(
            mat_transpose::<QQ>(b@),
            x,
        ) != a@[i],
{
    let b_t = b.transpose();
    b_t.lemma_sparse();
    proof {
        assert forall|j: Dim| #[trigger] column_support(b_t@).contains(j) implies j < i32::MAX by {
            let i = choose|i: Dim| b_t@.contains_key(i) && #[trigger] b_t@[i].contains_key(j);
        }
    }
    let rows = a.rows_iter();
    let mut div = QQMatrix::zero();
    let mut k: usize = 0;
    while k < rows.len()
        invariant
            k <= rows@.len(),
            sorted_keys(rows@),
            seq_view(rows@) == a@,
            b_t@ == mat_transpose::<QQ>(b@),
            crate::matrix::mat_sparse::<QQ>(b_t@),
            forall|j: Dim| #[trigger] column_support(b_t@).contains(j) ==> j < i32::MAX,
            div@.dom() == seq_view(rows@.subrange(0, k as int)).dom().filter(|i: Dim| div@.contains_key(i)),
            forall|i: Dim| #[trigger] div@.contains_key(i) ==> seq_view(rows@.subrange(0, k as int)).contains_key(i),
            forall|t: int| 0 <= t < k ==> mat_vec::<QQ>(b_t@, crate::matrix::row_of::<QQ>(div@, (#[trigger] rows@[t]).0)) == rows@[t].1@,
        decreases rows@.len() - k,
    {
        let solved = match solve(&b_t, &rows[k].1) {
            Some(x) => x,
            None => {
                proof {
                    crate::ring::lemma_view_index(rows@, k as int);
                    assert(a@.contains_key(rows@[k as int].0));
                }
                return None;
            },
        };
        let ghost prev = div@;
        proof {
            crate::ring::lemma_prefix_push(rows@, k as int);
        }
        let d = rows[k].0;
        solved.lemma_sparse();
        div = div.add_row(d, solved);
        proof {
            assert(!prev.contains_key(d));
            lemma_mat_vec_empty(b_t@);
            assert forall|t: int| 0 <= t < k + 1 implies mat_vec::<QQ>(b_t@, crate::matrix::row_of::<QQ>(div@, (#[trigger] rows@[t]).0))
                == rows@[t].1@ by {
                if t < k {
                    assert(rows@[t].0 < rows@[k as int].0);
                    assert(crate::matrix::row_of::<QQ>(div@, rows@[t].0) == crate::matrix::row_of::<QQ>(prev, rows@[t].0));
                } else {
                    crate::matrix::lemma_add_to_empty_pub::<QQ>(solved@);
                }
            }
            assert(div@.dom() =~= seq_view(rows@.subrange(0, k + 1)).dom().filter(|i: Dim| div@.contains_key(i)));
        }
        k = k + 1;
    }
    proof {
        assert(rows@.subrange(0, rows@.len() as int) =~= rows@);
        assert forall|i: Dim| #[trigger] a@.contains_key(i) implies mat_vec::<QQ>(mat_transpose::<QQ>(b@), crate::matrix::row_of::<QQ>(div@, i))
            == a@[i] by {
            let t = choose|t: int| 0 <= t < rows@.len() && #[trigger] rows@[t].0 == i;
            crate::ring::lemma_view_index(rows@, t);
        }
    }
    Some(div)
}

proof fn lemma_mat_vec_empty(m: Map<Dim, Map<Dim, (int, int)>>)
    requires
        crate::matrix::mat_sparse::<QQ>(m),
    ensures
        mat_vec::<QQ>(m, Map::<Dim, (int, int)>::empty()) == Map::<Dim, (int, int)>::empty(),
{
    assert forall|i: Dim| m.contains_key(i) implies crate::ring::map_dot::<QQ>(m[i], Map::<Dim, (int, int)>::empty()) == <QQ as Ring>::rzero() by {
        crate::matrix::lemma_dot_empty_right::<QQ>(m[i]);
    }
    assert(mat_vec::<QQ>(m, Map::<Dim, (int, int)>::empty()) =~= Map::<Dim, (int, int)>::empty());
}

/// Given `A` and `B`, find `C` such that `B*C = A` if one exists: the
/// transpose of the solution of `C^T * B^T = A^T`.
pub fn divide_left(a: &QQMatrix, b: &QQMatrix) -> (r: Option<QQMatrix>)
    requires
        forall|j: Dim| #[trigger] column_support(b@).contains(j) ==> j < i32::MAX,
    ensures
        r matches Some(c) ==> exists|d: Map<Dim, Map<Dim, (int, int)>>| c@ == mat_transpose::<QQ>(d) && forall|i: Dim| #[trigger] mat_transpose::<QQ>(a@).contains_key(i)
            ==> mat_vec::<QQ>(mat_transpose::<QQ>(mat_transpose::<QQ>(b@)), crate::matrix::row_of::<QQ>(d, i)) == mat_transpose::<QQ>(a@)[i],
        r is None ==> exists|i: Dim| #[trigger] mat_transpose::<QQ>(a@).contains_key(i) && forall|x: QVec| #[trigger] is_sparse::<QQ>(x)
            ==> mat_vec::<QQ>(mat_transpose::<QQ>(mat_transpose::<QQ>(b@)), x) != mat_transpose::<QQ>(a@)[i],
{
    let a_t = a.transpose();
    let b_t = b.transpose();
    proof {
        assert forall|i: Dim| #[trigger] b_t@.contains_key(i) implies i < i32::MAX by {
            assert(column_support(b@).contains(i)) by {
                assert(!(crate::matrix::column_of::<QQ>(b@, i) =~= Map::<Dim, (int, int)>::empty()));
                let r = choose|r: Dim| crate::matrix::column_of::<QQ>(b@, i).contains_key(r);
                assert(b@.contains_key(r) && b@[r].contains_key(i));
            }
        }
    }
    match divide_right(&a_t, &b_t) {
        Some(m) => Some(m.transpose()),
        None => None,
    }
}

/// Every row index of `m` lies in `[rlo, rhi)` and every column index in
/// `[clo, chi)`.
pub open spec fn keys_within(m: Map<Dim, QVec>, rlo: int, rhi: int, clo: int, chi: int) -> bool {
    forall|i: Dim|
        #[trigger] m.contains_key(i) ==> rlo <= i < rhi && forall|j: Dim| #[trigger] m[i].contains_key(j) ==> clo <= j < chi
}

/// The row and column indices that the pushout accepts:
/// rows in `[-2^28, 2^28)`, columns in `[-2^29, 2^29)`, so that the
/// interleaved indices `2i` and `2i + 1` and the added rows fit in a `Dim`.
pub open spec fn rowspace_ok(m: Map<Dim, QVec>) -> bool {
    keys_within(m, -0x1000_0000, 0x1000_0000, -0x2000_0000, 0x2000_0000)
}

/// The column indices that `a` or `b` use.
pub open spec fn used_columns(a: Map<Dim, QVec>, b: Map<Dim, QVec>) -> Set<Dim> {
    column_support(a).union(column_support(b))
}

/// The indices that the intersection of rowspaces accepts: row indices
/// whose interleaved positions `2i` and `2i + 1` stay below `i32::MAX`, and
/// column indices that, plus the number of columns in use, stay below
/// `i32::MAX` (the rows it adds are numbered after the largest column),
/// with fewer than `2^31` columns in use.
pub open spec fn meet_ok(a: Map<Dim, QVec>, b: Map<Dim, QVec>) -> bool {
    &&& keys_within(a, -0x4000_0000, 0x3fff_ffff, i32::MIN as int, i32::MAX + 1)
    &&& keys_within(b, -0x4000_0000, 0x3fff_ffff, i32::MIN as int, i32::MAX + 1)
    &&& used_columns(a, b).len() <= i32::MAX
    &&& forall|j: Dim| #[trigger] used_columns(a, b).contains(j) ==> j + used_columns(a, b).len() < i32::MAX
}

/// The columns of a sparse matrix are finitely many.
proof fn lemma_columns_finite(m: Map<Dim, QVec>)
    requires
        crate::matrix::mat_sparse::<QQ>(m),
    ensures
        column_support(m).finite(),
    decreases m.dom().len(),
{
    if m.dom().len() == 0 {
        assert(column_support(m) =~= Set::<Dim>::empty()) by {
            assert forall|j: Dim| !column_support(m).contains(j) by {
                if column_support(m).contains(j) {
                    let i = choose|i: Dim| m.contains_key(i) && #[trigger] m[i].contains_key(j);
                    assert(m.dom().contains(i));
                }
            }
        }
    } else {
        let k = m.dom().choose();
        let r = m.remove(k);
        assert(r.dom() =~= m.dom().remove(k));
        lemma_columns_finite(r);
        assert(column_support(m) =~= column_support(r).union(m[k].dom())) by {
            assert forall|j: Dim| column_support(m).contains(j) implies column_support(r).union(m[k].dom()).contains(j) by {
                let i = choose|i: Dim| m.contains_key(i) && #[trigger] m[i].contains_key(j);
                if i != k {
                    assert(r.contains_key(i) && r[i].contains_key(j));
                }
            }
            assert forall|j: Dim| column_support(r).union(m[k].dom()).contains(j) implies column_support(m).contains(j) by {
                if column_support(r).contains(j) {
                    let i = choose|i: Dim| r.contains_key(i) && #[trigger] r[i].contains_key(j);
                    assert(m.contains_key(i) && m[i].contains_key(j));
                } else {
                    assert(m.contains_key(k) && m[k].contains_key(j));
                }
            }
        }
    }
}

/// Rows in `[-2^30, 2^30 - 1)` can be interleaved, and so can those of a
/// multiple.
proof fn lemma_rows_interlace(a: Map<Dim, QVec>, k: (int, int))
    requires
        keys_within(a, -0x4000_0000, 0x3fff_ffff, i32::MIN as int, i32::MAX + 1),
    ensures
        crate::matrix::mat_interlace_ok(mat_transpose::<QQ>(a)),
        crate::matrix::mat_interlace_ok(mat_transpose::<QQ>(crate::matrix::mat_scale::<QQ>(k, a))),
{
    lemma_scale_within(k, a, -0x4000_0000, 0x3fff_ffff, i32::MIN as int, i32::MAX + 1);
    lemma_transpose_within(a, -0x4000_0000, 0x3fff_ffff, i32::MIN as int, i32::MAX + 1);
    lemma_transpose_within(crate::matrix::mat_scale::<QQ>(k, a), -0x4000_0000, 0x3fff_ffff, i32::MIN as int, i32::MAX + 1);
    let t1 = mat_transpose::<QQ>(a);
    let t2 = mat_transpose::<QQ>(crate::matrix::mat_scale::<QQ>(k, a));
    assert forall|j: Dim| #[trigger] t1.contains_key(j) implies crate::ring::interlace_ok(t1[j]) by {
        assert forall|d: Dim| #[trigger] t1[j].contains_key(d) implies i32::MIN <= 2 * d && 2 * d + 1 <= i32::MAX by {}
    }
    assert forall|j: Dim| #[trigger] t2.contains_key(j) implies crate::ring::interlace_ok(t2[j]) by {
        assert forall|d: Dim| #[trigger] t2[j].contains_key(d) implies i32::MIN <= 2 * d && 2 * d + 1 <= i32::MAX by {}
    }
}

/// A sorted list of keys spreads at least one step per entry.
proof fn lemma_sorted_spread<T>(s: Seq<(Dim, T)>, t: int)
    requires
        sorted_keys(s),
        0 <= t < s.len(),
    ensures
        s[t].0 >= s[0].0 + t,
    decreases t,
{
    if t > 0 {
        lemma_sorted_spread(s, t - 1);
        assert(s[t - 1].0 < s[t].0);
    }
}

/// Adding a row whose indices stay within the bounds keeps them.
proof fn lemma_add_row_within(m: Map<Dim, QVec>, i: Dim, v: QVec, rlo: int, rhi: int, clo: int, chi: int)
    requires
        keys_within(m, rlo, rhi, clo, chi),
        rlo <= i < rhi,
        forall|j: Dim| #[trigger] v.contains_key(j) ==> clo <= j < chi,
    ensures
        keys_within(crate::matrix::mat_add_row::<QQ>(m, i, v), rlo, rhi, clo, chi),
{
    let r = crate::matrix::mat_add_row::<QQ>(m, i, v);
    let s = map_add::<QQ>(row_of::<QQ>(m, i), v);
    assert forall|k: Dim| #[trigger] r.contains_key(k) implies rlo <= k < rhi && forall|j: Dim|
        #[trigger] r[k].contains_key(j) ==> clo <= j < chi by {
        if k == i {
            assert forall|j: Dim| #[trigger] r[k].contains_key(j) implies clo <= j < chi by {
                assert(s.contains_key(j));
                if m.contains_key(i) {
                    assert(m[i].contains_key(j) || v.contains_key(j));
                }
            }
        } else {
            assert(m.contains_key(k));
            assert(r[k] == m[k]);
        }
    }
}

/// Adding a sparse row at an index the matrix does not use sets that row.
proof fn lemma_add_fresh_row(m: Map<Dim, QVec>, i: Dim, v: QVec)
    requires
        !m.contains_key(i),
        is_sparse::<QQ>(v),
    ensures
        row_of::<QQ>(crate::matrix::mat_add_row::<QQ>(m, i, v), i) == v,
        forall|k: Dim| k != i ==> #[trigger] row_of::<QQ>(crate::matrix::mat_add_row::<QQ>(m, i, v), k) == row_of::<QQ>(m, k),
{
    crate::matrix::lemma_add_to_empty_pub::<QQ>(v);
    assert(row_of::<QQ>(m, i) == Map::<Dim, (int, int)>::empty());
}

/// The columns of a matrix whose indices stay below `chi` are below `i32::MAX`.
proof fn lemma_columns_below(m: Map<Dim, QVec>, rlo: int, rhi: int, clo: int, chi: int)
    requires
        keys_within(m, rlo, rhi, clo, chi),
        chi <= i32::MAX,
    ensures
        forall|j: Dim| #[trigger] column_support(m).contains(j) ==> j < i32::MAX,
{
    assert forall|j: Dim| #[trigger] column_support(m).contains(j) implies j < i32::MAX by {
        let i = choose|i: Dim| m.contains_key(i) && #[trigger] m[i].contains_key(j);
        assert(m[i].contains_key(j));
    }
}

/// Given two matrices `A` and `B`, compute matrices `C` and `D` such that
/// `C*A = D*B` is a basis for the intersection of the rowspaces of `A` and
/// `B`. The rows of `C` and `D` are numbered from zero.
pub fn intersect_rowspace(a: &QQMatrix, b: &QQMatrix) -> (r: (QQMatrix, QQMatrix))
    requires
        meet_ok(a@, b@),
    ensures
        forall|i: Dim| #[trigger] vec_mat::<QQ>(row_of::<QQ>(r.0@, i), a@) == vec_mat::<QQ>(row_of::<QQ>(r.1@, i), b@),
        forall|i: Dim| r.0@.contains_key(i) || r.1@.contains_key(i) ==> 0 <= i,
        exists|ps: Seq<Dim>| pivoted_rows(r.0@, a@, ps) && meet_pinned(a@, b@, ps),
{
    let lo: Dim = i32::MIN;
    let hi: Dim = i32::MAX;
    let ea = a.entries();
    a.lemma_sparse();
    b.lemma_sparse();
    let mut mat_a = QQMatrix::zero();
    let mut k: usize = 0;
    while k < ea.len()
        invariant
            k <= ea@.len(),
            crate::matrix::lists_entries::<QQ>(ea@, a@),
            meet_ok(a@, b@),
            lo == i32::MIN,
            hi == i32::MAX,
            keys_within(mat_a@, lo as int, hi as int, lo as int, hi as int),
            crate::matrix::mat_sparse::<QQ>(a@),
            forall|j: Dim, q: Dim| #[trigger] coeff_of::<QQ>(row_of::<QQ>(mat_a@, j), q) == (if placed(ea@, k as int, j, q, false) {
                placed_value(a@, j, q, false)
            } else {
                QQ::rzero()
            }),
        decreases ea@.len() - k,
    {
        mat_a.lemma_sparse();
        proof {
            assert(a@.contains_key(ea@[k as int].0) && a@[ea@[k as int].0].contains_key(ea@[k as int].1));
        }
        let i = ea[k].0;
        let j = ea[k].1;
        proof {
            assert(a@.contains_key(i));
            assert(a@[i].contains_key(j));
        }
        let c = ea[k].2.clone();
        let col: Dim = 2 * i;
        proof {
            assert(column_support(a@).contains(j) || column_support(b@).contains(j));
            assert(used_columns(a@, b@).contains(j));
            if c@ != (0int, 1int) {
                lemma_add_row_within(mat_a@, j, Map::<Dim, (int, int)>::empty().insert(col, c@), lo as int, hi as int, lo as int, hi as int);
            } else {
                lemma_add_row_within(mat_a@, j, Map::<Dim, (int, int)>::empty(), lo as int, hi as int, lo as int, hi as int);
            }
        }
        proof {
            assert(a@[i][j] == c@);
            assert(c@ != QQ::rzero());
            lemma_place_step(mat_a@, ea@, a@, k as int, false, false, |j: Dim, q: Dim| QQ::rzero(), col, c@);
        }
        mat_a = mat_a.add_entry(j, col, c);
        k = k + 1;
    }
    mat_a.lemma_sparse();
    proof {
        assert forall|j: Dim, q: Dim| #[trigger] coeff_of::<QQ>(row_of::<QQ>(mat_a@, j), q) == (if q % 2 == 0 {
            coeff_of::<QQ>(row_of::<QQ>(a@, (q / 2) as Dim), j)
        } else {
            QQ::rzero()
        }) by {
            lemma_done_all(ea@, a@, (q / 2) as Dim, j);
        }
    }
    let mut mat = mat_a.clone();
    let eb = b.entries();
    let mut k: usize = 0;
    while k < eb.len()
        invariant
            k <= eb@.len(),
            crate::matrix::lists_entries::<QQ>(eb@, b@),
            meet_ok(a@, b@),
            lo == i32::MIN,
            hi == i32::MAX,
            keys_within(mat@, lo as int, hi as int, lo as int, hi as int),
            crate::matrix::mat_sparse::<QQ>(b@),
            forall|j: Dim, q: Dim| #[trigger] coeff_of::<QQ>(row_of::<QQ>(mat@, j), q) == (if placed(eb@, k as int, j, q, true) {
                placed_value(b@, j, q, true)
            } else {
                a_half(a@, j, q)
            }),
        decreases eb@.len() - k,
    {
        mat.lemma_sparse();
        proof {
            assert(b@.contains_key(eb@[k as int].0) && b@[eb@[k as int].0].contains_key(eb@[k as int].1));
        }
        let i = eb[k].0;
        let j = eb[k].1;
        proof {
            assert(b@.contains_key(i));
            assert(b@[i].contains_key(j));
        }
        let c = eb[k].2.negate();
        let col: Dim = 2 * i + 1;
        proof {
            assert(column_support(a@).contains(j) || column_support(b@).contains(j));
            assert(used_columns(a@, b@).contains(j));
            if c@ != (0int, 1int) {
                lemma_add_row_within(mat@, j, Map::<Dim, (int, int)>::empty().insert(col, c@), lo as int, hi as int, lo as int, hi as int);
            } else {
                lemma_add_row_within(mat@, j, Map::<Dim, (int, int)>::empty(), lo as int, hi as int, lo as int, hi as int);
            }
        }
        proof {
            assert(b@[i][j] == eb@[k as int].2@);
            elimination::lemma_neg_one(eb@[k as int].2@);
            QQ::lemma_valid_units();
            crate::inner::lemma_neg_facts::<QQ>(QQ::rzero(), QQ::rzero());
            assert(c@ != QQ::rzero());
            lemma_place_step(mat@, eb@, b@, k as int, true, true, |j: Dim, q: Dim| a_half(a@, j, q), col, c@);
        }
        mat = mat.add_entry(j, col, c);
        k = k + 1;
    }
    mat.lemma_sparse();
    proof {
        QQ::lemma_valid_units();
        crate::inner::lemma_neg_facts::<QQ>(QQ::rzero(), QQ::rzero());
        assert forall|j: Dim, q: Dim| #[trigger] coeff_of::<QQ>(row_of::<QQ>(mat@, j), q) == interleaved_coeff(a@, b@, j, q) by {
            lemma_done_all(eb@, b@, (q / 2) as Dim, j);
        }
    }
    proof {
        lemma_rows_interlace(a@, QQ::rneg(QQ::rone()));
        lemma_rows_interlace(b@, QQ::rneg(QQ::rone()));
    }
    // The rows present before any row is added, walked in order.
    let snapshot = mat.rows_iter();
    let n = snapshot.len();
    proof {
        // Each row of the interleaved matrix is a column in use.
        let used = used_columns(a@, b@);
        assert forall|j: Dim| mat@.contains_key(j) implies #[trigger] used.contains(j) by {
            let r = mat@[j];
            assert(r.dom().len() > 0) by {
                if r.dom().len() == 0 {
                    assert(r.dom() =~= Set::<Dim>::empty());
                    assert(r =~= Map::<Dim, (int, int)>::empty());
                }
            }
            let q = r.dom().choose();
            assert(coeff_of::<QQ>(row_of::<QQ>(mat@, j), q) == r[q]);
            let h = (q / 2) as Dim;
            if q % 2 == 0 {
                if !(a@.contains_key(h) && a@[h].contains_key(j)) {
                    assert(coeff_of::<QQ>(row_of::<QQ>(a@, h), j) == QQ::rzero());
                }
                assert(column_support(a@).contains(j));
            } else {
                if !(b@.contains_key(h) && b@[h].contains_key(j)) {
                    assert(coeff_of::<QQ>(row_of::<QQ>(b@, h), j) == QQ::rzero());
                    QQ::lemma_valid_units();
                    crate::inner::lemma_neg_facts::<QQ>(QQ::rzero(), QQ::rzero());
                }
                assert(column_support(b@).contains(j));
            }
        }
        lemma_columns_finite(a@);
        lemma_columns_finite(b@);
        crate::ring::lemma_view_len(snapshot@);
        assert(mat@.dom().subset_of(used));
        vstd::set_lib::lemma_len_subset(mat@.dom(), used);
        if n > 0 {
            crate::ring::lemma_view_index(snapshot@, 0);
            crate::ring::lemma_view_index(snapshot@, n - 1);
            assert(used.contains(snapshot@[n - 1].0));
        }
    }
    let mut mat_rows: Dim = if n == 0 {
        0
    } else {
        snapshot[n - 1].0 + 1
    };
    let ghost mat0 = mat@;
    let ghost mr0: int = mat_rows as int;
    let ghost mut succ: Seq<Dim> = Seq::empty();
    proof {
        assert forall|i: Dim| #[trigger] mat0.contains_key(i) implies i < mr0 by {
            assert(seq_view(snapshot@).contains_key(i));
            let t = choose|t: int| 0 <= t < snapshot@.len() && #[trigger] snapshot@[t].0 == i;
            if t < n - 1 {
                crate::ring::lemma_sorted_sub(snapshot@, t);
            }
            assert(snapshot@[t].0 <= snapshot@[n - 1].0) by {
                if t < n - 1 {
                    assert(crate::ring::sorted_keys(snapshot@));
                }
            }
        }
        assert forall|j: Dim| #[trigger] row_of::<QQ>(mat@, j) == (if j < mr0 {
            row_of::<QQ>(mat0, j)
        } else if j < mat_rows {
            row_of::<QQ>(mat_a@, succ[j - mr0])
        } else {
            Map::<Dim, (int, int)>::empty()
        }) by {
            if j >= mr0 {
                assert(!mat0.contains_key(j));
            }
        }
    }
    let mut c = QQMatrix::zero();
    let mut d = QQMatrix::zero();
    let mut count: Dim = 0;
    let mut t: usize = 0;
    while t < n
        invariant
            search_setting(a@, b@, mat0, mat_a@, mr0),
            seq_view(snapshot@) == mat0,
            crate::ring::sorted_keys(snapshot@),
            lo <= mr0,
            mr0 + n <= i32::MAX,
            n <= i32::MAX,
            count == succ.len(),
            mat_rows == mr0 + count,
            forall|j: Dim| #[trigger] row_of::<QQ>(mat@, j) == (if j < mr0 {
                row_of::<QQ>(mat0, j)
            } else if j < mat_rows {
                row_of::<QQ>(mat_a@, succ[j - mr0])
            } else {
                Map::<Dim, (int, int)>::empty()
            }),
            forall|s: int, k: int|
                0 <= s <= k < count ==> #[trigger] coeff_of::<QQ>(vec_mat::<QQ>(row_of::<QQ>(c@, k as Dim), a@), succ[s]) == (if s
                    == k {
                    QQ::rone()
                } else {
                    QQ::rzero()
                }),
            forall|p: QVec, t2: int|
                0 <= t2 < t && in_meet(a@, b@, p) && vanishes_at(vec_mat::<QQ>(map_evens(p), a@), succ) ==> #[trigger] coeff_of::<QQ>(
                    vec_mat::<QQ>(map_evens(p), a@),
                    snapshot@[t2].0,
                ) == QQ::rzero(),
            n == snapshot@.len(),
            lo == i32::MIN,
            hi == i32::MAX,
            t <= n,
            0 <= count <= t,
            keys_within(mat@, lo as int, mat_rows as int, lo as int, hi as int),
            keys_within(mat_a@, lo as int, hi as int, lo as int, hi as int),
            forall|i: Dim| #[trigger] c@.contains_key(i) ==> 0 <= i < count,
            forall|i: Dim| #[trigger] d@.contains_key(i) ==> 0 <= i < count,
            forall|i: Dim| #[trigger] vec_mat::<QQ>(row_of::<QQ>(c@, i), a@) == vec_mat::<QQ>(row_of::<QQ>(d@, i), b@),
        decreases n - t,
    {
        mat.lemma_sparse();
        proof {
            crate::ring::lemma_view_index(snapshot@, t as int);
        }
        let col = snapshot[t].0;
        let row_a = mat_a.row(col);
        proof {
            assert forall|j: Dim| #[trigger] row_a@.contains_key(j) implies lo <= j < hi by {
                assert(mat_a@.contains_key(col));
            }
            lemma_add_row_within(mat@, mat_rows, row_a@, lo as int, mat_rows + 1, lo as int, hi as int);
            assert forall|i: Dim| #[trigger] mat@.contains_key(i) implies lo <= i < mat_rows + 1 && forall|j: Dim|
                #[trigger] mat@[i].contains_key(j) ==> lo <= j < hi by {}
            assert(is_sparse::<QQ>(row_a@)) by {
                if !mat_a@.contains_key(col) {
                    assert(row_a@.dom() =~= Set::<Dim>::empty());
                }
            }
            lemma_add_fresh_row(mat@, mat_rows, row_a@);
        }
        let candidate = mat.clone().add_row(mat_rows, row_a);
        candidate.lemma_sparse();
        proof {
            lemma_columns_below(candidate@, lo as int, mat_rows + 1, lo as int, hi as int);
            assert forall|j: Dim| #[trigger] row_of::<QQ>(candidate@, j) == (if j < mr0 {
                row_of::<QQ>(mat0, j)
            } else if j < mr0 + succ.len() {
                row_of::<QQ>(mat_a@, succ[j - mr0])
            } else if j == mr0 + succ.len() {
                row_of::<QQ>(mat_a@, col)
            } else {
                Map::<Dim, (int, int)>::empty()
            }) by {
                if j != mat_rows {
                    assert(row_of::<QQ>(candidate@, j) == row_of::<QQ>(mat@, j));
                }
            }
            assert(candidate_rows(candidate@, mat0, mat_a@, mr0, succ, col));
        }
        let target = QQVector::of_term(QQ::one(), mat_rows);
        proof {
            QQ::lemma_valid_units();
            assert(QQ::rone() == (1int, 1int));
            assert(target@ == Map::<Dim, (int, int)>::empty().insert((mr0 + succ.len()) as Dim, QQ::rone()));
        }
        match solve(&candidate, &target) {
            Some(solution) => {
                solution.lemma_sparse();
                proof {
                    lemma_some_solution(a@, b@, mat0, mat_a@, mr0, candidate@, succ, col, solution@);
                }
                let (c_row, d_row) = solution.deinterlace();
                {
                    c_row.lemma_sparse();
                    d_row.lemma_sparse();
                    proof {
                        lemma_add_fresh_row(c@, count, c_row@);
                        lemma_add_fresh_row(d@, count, d_row@);
                    }
                    let ghost c_old = c@;
                    let ghost d_old = d@;
                    let ghost succ_old = succ;
                    c = c.add_row(count, c_row);
                    d = d.add_row(count, d_row);
                    proof {
                        assert forall|i: Dim| #[trigger] vec_mat::<QQ>(row_of::<QQ>(c@, i), a@) == vec_mat::<QQ>(
                            row_of::<QQ>(d@, i),
                            b@,
                        ) by {
                            if i != count {
                                assert(row_of::<QQ>(c@, i) == row_of::<QQ>(c_old, i));
                                assert(row_of::<QQ>(d@, i) == row_of::<QQ>(d_old, i));
                            }
                        }
                        succ = succ.push(col);
                        assert forall|s: int, k: int|
                            0 <= s <= k < count + 1 implies #[trigger] coeff_of::<QQ>(
                            vec_mat::<QQ>(row_of::<QQ>(c@, k as Dim), a@),
                            succ[s],
                        ) == (if s == k {
                            QQ::rone()
                        } else {
                            QQ::rzero()
                        }) by {
                            if k < count {
                                assert(row_of::<QQ>(c@, k as Dim) == row_of::<QQ>(c_old, k as Dim));
                                assert(succ[s] == succ_old[s]);
                            } else if s < count {
                                assert(succ[s] == succ_old[s]);
                            }
                        }
                        assert forall|p: QVec, t2: int|
                            0 <= t2 < t + 1 && in_meet(a@, b@, p) && vanishes_at(vec_mat::<QQ>(map_evens(p), a@), succ) implies #[trigger] coeff_of::<QQ>(
                            vec_mat::<QQ>(map_evens(p), a@),
                            snapshot@[t2].0,
                        ) == QQ::rzero() by {
                            let w = vec_mat::<QQ>(map_evens(p), a@);
                            assert(coeff_of::<QQ>(w, succ[count as int]) == QQ::rzero());
                            assert forall|k: int| 0 <= k < succ_old.len() implies #[trigger] coeff_of::<QQ>(w, succ_old[k]) == QQ::rzero() by {
                                assert(succ[k] == succ_old[k]);
                            }
                            assert(vanishes_at(w, succ_old));
                        }
                        assert forall|j: Dim| #[trigger] row_of::<QQ>(candidate@, j) == (if j < mr0 {
                            row_of::<QQ>(mat0, j)
                        } else if j < mat_rows + 1 {
                            row_of::<QQ>(mat_a@, succ[j - mr0])
                        } else {
                            Map::<Dim, (int, int)>::empty()
                        }) by {
                            if mr0 <= j < mat_rows {
                                assert(succ[j - mr0] == succ_old[j - mr0]);
                            }
                        }
                    }
                    mat = candidate;
                    count = count + 1;
                    mat_rows = mat_rows + 1;
                }
            },
            None => {
                proof {
                    assert forall|p: QVec, t2: int|
                        0 <= t2 < t + 1 && in_meet(a@, b@, p) && vanishes_at(vec_mat::<QQ>(map_evens(p), a@), succ) implies #[trigger] coeff_of::<QQ>(
                        vec_mat::<QQ>(map_evens(p), a@),
                        snapshot@[t2].0,
                    ) == QQ::rzero() by {
                        if t2 == t {
                            lemma_none_vanish(a@, b@, mat0, mat_a@, mr0, candidate@, succ, col, p);
                        }
                    }
                }
            },
        }
        t = t + 1;
    }
    proof {
        QQ::lemma_valid_units();
        let e = Map::<Dim, (int, int)>::empty();
        assert(is_sparse::<QQ>(e)) by {
            assert(e.dom() =~= Set::<Dim>::empty());
        }
        assert forall|p: QVec| #[trigger] in_meet(a@, b@, p) && vanishes_at(vec_mat::<QQ>(map_evens(p), a@), succ) implies vec_mat::<QQ>(
            map_evens(p),
            a@,
        ) == e by {
            let w = vec_mat::<QQ>(map_evens(p), a@);
            universal::lemma_evens_sparse(p);
            universal::lemma_vec_mat_coeff(map_evens(p), a@);
            assert forall|j: Dim| #[trigger] coeff_of::<QQ>(w, j) == coeff_of::<QQ>(e, j) by {
                if mat0.contains_key(j) {
                    assert(seq_view(snapshot@).contains_key(j));
                    let t2 = choose|t2: int| 0 <= t2 < snapshot@.len() && #[trigger] snapshot@[t2].0 == j;
                    assert(coeff_of::<QQ>(w, snapshot@[t2].0) == QQ::rzero());
                } else {
                    intersection::lemma_base_rows(a@, b@, mat0, p, j);
                }
            }
            vector_space::lemma_sparse_ext(w, e);
        }
        assert(pivoted_rows(c@, a@, succ));
        assert(meet_pinned(a@, b@, succ));
    }
    (c, d)
}

/// The transpose swaps the bounds on row and column indices.
proof fn lemma_transpose_within(m: Map<Dim, QVec>, rlo: int, rhi: int, clo: int, chi: int)
    requires
        keys_within(m, rlo, rhi, clo, chi),
    ensures
        keys_within(mat_transpose::<QQ>(m), clo, chi, rlo, rhi),
{
    let t = mat_transpose::<QQ>(m);
    assert forall|j: Dim| #[trigger] t.contains_key(j) implies clo <= j < chi && forall|i: Dim|
        #[trigger] t[j].contains_key(i) ==> rlo <= i < rhi by {
        let col = crate::matrix::column_of::<QQ>(m, j);
        assert(col != Map::<Dim, (int, int)>::empty());
        if !(exists|i: Dim| #[trigger] col.contains_key(i)) {
            assert(col =~= Map::<Dim, (int, int)>::empty());
        }
        let i0 = choose|i: Dim| #[trigger] col.contains_key(i);
        assert(m.contains_key(i0) && m[i0].contains_key(j));
        assert forall|i: Dim| #[trigger] t[j].contains_key(i) implies rlo <= i < rhi by {
            assert(m.contains_key(i));
        }
    }
}

/// Scaling keeps the bounds on indices.
proof fn lemma_scale_within(k: (int, int), m: Map<Dim, QVec>, rlo: int, rhi: int, clo: int, chi: int)
    requires
        keys_within(m, rlo, rhi, clo, chi),
    ensures
        keys_within(crate::matrix::mat_scale::<QQ>(k, m), rlo, rhi, clo, chi),
{
    let s = crate::matrix::mat_scale::<QQ>(k, m);
    assert forall|i: Dim| #[trigger] s.contains_key(i) implies rlo <= i < rhi && forall|j: Dim|
        #[trigger] s[i].contains_key(j) ==> clo <= j < chi by {
        assert(m.contains_key(i));
        assert forall|j: Dim| #[trigger] s[i].contains_key(j) implies clo <= j < chi by {
            assert(m[i].contains_key(j));
        }
    }
}

/// Interleaving the columns of two matrices whose columns lie in
/// `[-2^28, 2^28)` gives columns in `[-2^29, 2^29)`.
proof fn lemma_interlace_within(x: Map<Dim, QVec>, y: Map<Dim, QVec>)
    requires
        keys_within(x, -0x2000_0000, 0x2000_0000, -0x1000_0000, 0x1000_0000),
        keys_within(y, -0x2000_0000, 0x2000_0000, -0x1000_0000, 0x1000_0000),
    ensures
        crate::matrix::mat_interlace_ok(x),
        crate::matrix::mat_interlace_ok(y),
        keys_within(
            crate::matrix::mat_interlace_columns::<QQ>(x, y),
            -0x2000_0000,
            0x2000_0000,
            -0x2000_0000,
            0x2000_0000,
        ),
{
    let m = crate::matrix::mat_interlace_columns::<QQ>(x, y);
    assert forall|i: Dim| #[trigger] x.contains_key(i) implies crate::ring::interlace_ok(x[i]) by {
        assert forall|d: Dim| #[trigger] x[i].contains_key(d) implies i32::MIN <= 2 * d && 2 * d + 1 <= i32::MAX by {}
    }
    assert forall|i: Dim| #[trigger] y.contains_key(i) implies crate::ring::interlace_ok(y[i]) by {
        assert forall|d: Dim| #[trigger] y[i].contains_key(d) implies i32::MIN <= 2 * d && 2 * d + 1 <= i32::MAX by {}
    }
    assert forall|i: Dim| #[trigger] m.contains_key(i) implies -0x2000_0000 <= i < 0x2000_0000 && forall|k: Dim|
        #[trigger] m[i].contains_key(k) ==> -0x2000_0000 <= k < 0x2000_0000 by {
        assert forall|k: Dim| #[trigger] m[i].contains_key(k) implies -0x2000_0000 <= k < 0x2000_0000 by {
            let d = (k / 2) as Dim;
            if k % 2 == 0 {
                assert(row_of::<QQ>(x, i).contains_key(d));
                assert(x.contains_key(i));
            } else {
                assert(row_of::<QQ>(y, i).contains_key(d));
                assert(y.contains_key(i));
            }
        }
    }
}

/// Compute the pushout of two matrices in the category of rational vector
/// spaces: a pair `(C, D)` such that `C*A = D*B` and that is universal among
/// all such pairs: every pair of row vectors `c`, `d` (on rows of `A` and of
/// `B`) with `c*A = d*B` is `(u*C, u*D)` for some `u`. Row `i` of `C` and of
/// `D` are the halves of the `i`-th vector of a basis of the null space of
/// `[A^T | -B^T]`, interleaved column by column.
pub fn pushout(a: &QQMatrix, b: &QQMatrix) -> (r: (QQMatrix, QQMatrix))
    requires
        rowspace_ok(a@),
        rowspace_ok(b@),
    ensures
        forall|i: Dim| #[trigger] vec_mat::<QQ>(row_of::<QQ>(r.0@, i), a@) == vec_mat::<QQ>(row_of::<QQ>(r.1@, i), b@),
        forall|i: Dim| r.0@.contains_key(i) || r.1@.contains_key(i) ==> 0 <= i,
        forall|cc: QVec, dd: QVec|
            #![trigger vec_mat::<QQ>(cc, a@), vec_mat::<QQ>(dd, b@)]
            is_sparse::<QQ>(cc) && is_sparse::<QQ>(dd) && (forall|i: Dim| #[trigger] cc.contains_key(i) ==> a@.contains_key(i)) && (
            forall|i: Dim| #[trigger] dd.contains_key(i) ==> b@.contains_key(i)) && vec_mat::<QQ>(cc, a@) == vec_mat::<QQ>(dd, b@)
                ==> exists|u: QVec| #[trigger] is_sparse::<QQ>(u) && vec_mat::<QQ>(u, r.0@) == cc && vec_mat::<QQ>(u, r.1@) == dd,
{
    let a_t = a.transpose();
    let neg_b = b.scalar_mul(&QQ::of_i64(-1));
    let neg_b_t = neg_b.transpose();
    proof {
        lemma_transpose_within(a@, -0x1000_0000, 0x1000_0000, -0x2000_0000, 0x2000_0000);
        lemma_scale_within((-1int, 1int), b@, -0x1000_0000, 0x1000_0000, -0x2000_0000, 0x2000_0000);
        lemma_transpose_within(neg_b@, -0x1000_0000, 0x1000_0000, -0x2000_0000, 0x2000_0000);
        lemma_interlace_within(a_t@, neg_b_t@);
    }
    let interleaved = a_t.interlace_columns(&neg_b_t);
    let ghost il = interleaved@;
    a.lemma_sparse();
    b.lemma_sparse();
    proof {
        assert(il == universal::interleaved(a@, b@));
    }
    let columns = interleaved.transpose().rows_iter();
    proof {
        lemma_transpose_within(interleaved@, -0x2000_0000, 0x2000_0000, -0x2000_0000, 0x2000_0000);
    }
    let mut dims: Vec<Dim> = Vec::new();
    let mut k: usize = 0;
    while k < columns.len()
        invariant
            k <= columns@.len(),
            dims@.len() == k,
            sorted_keys(columns@),
            seq_view(columns@) == mat_transpose::<QQ>(interleaved@),
            keys_within(mat_transpose::<QQ>(interleaved@), -0x2000_0000, 0x2000_0000, -0x2000_0000, 0x2000_0000),
            forall|t: int| 0 <= t < k ==> #[trigger] dims@[t] == columns@[t].0 && -0x2000_0000 <= dims@[t] < 0x2000_0000,
        decreases columns@.len() - k,
    {
        proof {
            crate::ring::lemma_view_index(columns@, k as int);
        }
        dims.push(columns[k].0);
        k = k + 1;
    }
    let n = columns.len();
    proof {
        if n > 0 {
            crate::ring::lemma_view_index(columns@, 0);
            crate::ring::lemma_view_index(columns@, n - 1);
            lemma_sorted_spread(columns@, n - 1);
        }
        lemma_columns_below(interleaved@, -0x2000_0000, 0x2000_0000, -0x2000_0000, 0x2000_0000);
    }
    proof {
        assert forall|k: Dim| #[trigger] mat_transpose::<QQ>(il).contains_key(k) implies dims@.contains(k) by {
            assert(seq_view(columns@).contains_key(k));
            let t = choose|t: int| 0 <= t < columns@.len() && #[trigger] columns@[t].0 == k;
            assert(dims@[t] == k);
        }
    }
    let pairs = nullspace(interleaved, &dims);
    let mut c = QQMatrix::zero();
    let mut d = QQMatrix::zero();
    let mut i: usize = 0;
    while i < pairs.len()
        invariant
            pairs@.len() <= n,
            n <= 0x4000_0000,
            i <= pairs@.len(),
            forall|t: Dim| #[trigger] c@.contains_key(t) ==> 0 <= t < i,
            forall|t: Dim| #[trigger] d@.contains_key(t) ==> 0 <= t < i,
            forall|t: Dim| #[trigger] vec_mat::<QQ>(row_of::<QQ>(c@, t), a@) == vec_mat::<QQ>(row_of::<QQ>(d@, t), b@),
            forall|t: int| 0 <= t < i ==> is_sparse::<QQ>((#[trigger] pairs@[t])@) && row_of::<QQ>(c@, t as Dim) == map_evens(
                pairs@[t]@,
            ) && row_of::<QQ>(d@, t as Dim) == map_odds(pairs@[t]@),
            crate::matrix::mat_sparse::<QQ>(a@),
            crate::matrix::mat_sparse::<QQ>(b@),
            crate::matrix::mat_interlace_ok(mat_transpose::<QQ>(a@)),
            crate::matrix::mat_interlace_ok(mat_transpose::<QQ>(crate::matrix::mat_scale::<QQ>(QQ::rneg(QQ::rone()), b@))),
            forall|t: int| 0 <= t < pairs@.len() ==> mat_vec::<QQ>(il, (#[trigger] pairs@[t])@) == Map::<Dim, (int, int)>::empty(),
            il == universal::interleaved(a@, b@),
        decreases pairs@.len() - i,
    {
        pairs[i].lemma_sparse();
        let (sc, sd) = pairs[i].deinterlace();
        let id = i as Dim;
        sc.lemma_sparse();
        sd.lemma_sparse();
        proof {
            universal::lemma_interleaved_null(a@, b@, pairs@[i as int]@);
            lemma_add_fresh_row(c@, id, sc@);
            lemma_add_fresh_row(d@, id, sd@);
        }
        let ghost c_old = c@;
        let ghost d_old = d@;
        c = c.add_row(id, sc);
        d = d.add_row(id, sd);
        proof {
            assert forall|t: Dim| #[trigger] vec_mat::<QQ>(row_of::<QQ>(c@, t), a@) == vec_mat::<QQ>(row_of::<QQ>(d@, t), b@) by {
                if t != id {
                    assert(row_of::<QQ>(c@, t) == row_of::<QQ>(c_old, t));
                    assert(row_of::<QQ>(d@, t) == row_of::<QQ>(d_old, t));
                }
            }
            assert forall|t: int| 0 <= t < i + 1 implies is_sparse::<QQ>((#[trigger] pairs@[t])@) && row_of::<QQ>(c@, t as Dim)
                == map_evens(pairs@[t]@) && row_of::<QQ>(d@, t as Dim) == map_odds(pairs@[t]@) by {
                if t < i {
                    assert(t as Dim != id);
                }
            }
        }
        i = i + 1;
    }
    c.lemma_sparse();
    d.lemma_sparse();
    proof {
        assert forall|cc: QVec, dd: QVec|
            #![trigger vec_mat::<QQ>(cc, a@), vec_mat::<QQ>(dd, b@)]
            is_sparse::<QQ>(cc) && is_sparse::<QQ>(dd) && (forall|i: Dim| #[trigger] cc.contains_key(i) ==> a@.contains_key(i)) && (
            forall|i: Dim| #[trigger] dd.contains_key(i) ==> b@.contains_key(i)) && vec_mat::<QQ>(cc, a@) == vec_mat::<QQ>(dd, b@)
            implies exists|u: QVec| #[trigger] is_sparse::<QQ>(u) && vec_mat::<QQ>(u, c@) == cc && vec_mat::<QQ>(u, d@) == dd by {
            universal::lemma_pushout_universal(a@, b@, il, dims@, pairs@, c@, d@, cc, dd);
        }
    }
    (c, d)
}

/// `v * A - lambda * v`: one step of a Jordan chain.
pub open spec fn jordan_step(a: Map<Dim, Map<Dim, (int, int)>>, lambda: (int, int), v: QVec) -> QVec {
    map_add::<QQ>(crate::matrix::vec_mat::<QQ>(v, a), map_neg::<QQ>(map_scale::<QQ>(lambda, v)))
}

/// `n` steps of a Jordan chain from `v`.
pub open spec fn jordan_iter(a: Map<Dim, Map<Dim, (int, int)>>, lambda: (int, int), v: QVec, n: nat) -> QVec
    decreases n,
{
    if n == 0 {
        v
    } else {
        jordan_step(a, lambda, jordan_iter(a, lambda, v, (n - 1) as nat))
    }
}

/// The (left) Jordan chain generated by `v` with eigenvalue `lambda` of `a`:
/// the sequence `v_0, v_1, ..., v_n` where `v_0 = v`, `v_{i+1} = v_i*A -
/// lambda*v_i`, and `v_n*A - lambda*v_n = 0`. The chain must end, that is
/// some iterate must be zero.
pub fn jordan_chain(a: &QQMatrix, lambda: &QQ, v: QQVector) -> (r: Vec<QQVector>)
    requires
        exists|n: nat| jordan_iter(a@, lambda@, v@, n) == Map::<Dim, (int, int)>::empty(),
    ensures
        r@.len() >= 1,
        forall|k: int| 0 <= k < r@.len() ==> (#[trigger] r@[k])@ == jordan_iter(a@, lambda@, v@, k as nat),
        jordan_iter(a@, lambda@, v@, r@.len()) == Map::<Dim, (int, int)>::empty(),
        forall|k: int| 1 <= k < r@.len() ==> #[trigger] jordan_iter(a@, lambda@, v@, k as nat) != Map::<Dim, (int, int)>::empty(),
{
    let ghost n0 = choose|n: nat| jordan_iter(a@, lambda@, v@, n) == Map::<Dim, (int, int)>::empty();
    let mut chain: Vec<QQVector> = Vec::new();
    let mut current = v;
    let ghost mut k: nat = 0;
    loop
        invariant
            chain@.len() == k,
            current@ == jordan_iter(a@, lambda@, v@, k),
            forall|t: int| 0 <= t < k ==> (#[trigger] chain@[t])@ == jordan_iter(a@, lambda@, v@, t as nat),
            forall|t: int| 1 <= t <= k ==> #[trigger] jordan_iter(a@, lambda@, v@, t as nat) != Map::<Dim, (int, int)>::empty(),
            jordan_iter(a@, lambda@, v@, n0) == Map::<Dim, (int, int)>::empty(),
            k <= n0,
        decreases n0 - k,
    {
        let residual = a.vector_left_mul(&current).sub(&current.scalar_mul(lambda));
        proof {
            assert(residual@ == jordan_iter(a@, lambda@, v@, k + 1));
        }
        chain.push(current);
        if residual.is_zero() {
            return chain;
        }
        proof {
            if k + 1 > n0 {
                assert(k == n0);
                lemma_jordan_zero(a@, lambda@, jordan_iter(a@, lambda@, v@, k));
            }
            k = k + 1;
        }
        current = residual;
    }
}

/// The step from zero gives zero.
proof fn lemma_jordan_zero(a: Map<Dim, Map<Dim, (int, int)>>, lambda: (int, int), v: QVec)
    requires
        v == Map::<Dim, (int, int)>::empty(),
    ensures
        jordan_step(a, lambda, v) == Map::<Dim, (int, int)>::empty(),
{
    assert(v.dom().len() == 0);
    assert(crate::matrix::vec_mat::<QQ>(v, a) == Map::<Dim, (int, int)>::empty());
    assert(map_scale::<QQ>(lambda, v) =~= Map::<Dim, (int, int)>::empty());
    assert(map_neg::<QQ>(map_scale::<QQ>(lambda, v)) =~= Map::<Dim, (int, int)>::empty());
    assert(map_add::<QQ>(Map::<Dim, (int, int)>::empty(), Map::<Dim, (int, int)>::empty()) =~= Map::<Dim, (int, int)>::empty());
}

} // verus!
