//! Gaussian elimination described through the solutions it preserves.
//!
//! A homogeneous system is a map of rows; `x` solves it when every row has
//! inner product zero with `x`. Eliminating a pivot replaces the pivot row by
//! an equation that fixes the pivot coordinate, and removes the pivot column
//! from the other rows, without changing the set of solutions.

use vstd::prelude::*;

use crate::algebra::Ring;
use crate::inner::{
    lemma_add_sparse, lemma_coeff_valid, lemma_dot_add, lemma_dot_congr, lemma_dot_empty, lemma_dot_insert,
    lemma_dot_neg_right, lemma_dot_scale, lemma_dot_valid, lemma_neg_facts, lemma_neg_unique, lemma_scale_sparse,
};
use crate::matrix::{column_added_row, mat_add_column, mat_sparse, mat_vec, row_of};
use crate::num::arith::{is_canonical, lemma_rat_inv, lemma_rat_ring, rat_inv};
use crate::num::QQ;
use crate::ring::{coeff_of, is_sparse, map_add, map_dot, map_neg, map_scale, Dim};

use super::{lemma_nonzero_numerator, QQVector, QVec};

verus! {

/// Every row of `m` has inner product zero with `x`.
pub open spec fn rows_vanish(m: Map<Dim, QVec>, x: QVec) -> bool {
    forall|i: Dim| #[trigger] m.contains_key(i) ==> map_dot::<QQ>(m[i], x) == QQ::rzero()
}

/// `x` satisfies each eliminated row `(c, s)`: its coordinate `c` is `s . x`.
pub open spec fn pivots_hold(rows: Seq<(Dim, QQVector)>, x: QVec) -> bool {
    forall|t: int| 0 <= t < rows.len() ==> coeff_of::<QQ>(x, (#[trigger] rows[t]).0) == map_dot::<QQ>(rows[t].1@, x)
}

/// `d` is the pivot of one of the eliminated rows.
pub open spec fn is_pivot_of(rows: Seq<(Dim, QQVector)>, d: Dim) -> bool {
    exists|t: int| 0 <= t < rows.len() && #[trigger] rows[t].0 == d
}

/// The eliminated rows are triangular: pivots are distinct and differ from
/// `b_column`, and no row mentions its own pivot or an earlier one.
pub open spec fn echelon_ok(rows: Seq<(Dim, QQVector)>, b_column: Dim) -> bool {
    &&& forall|t: int| 0 <= t < rows.len() ==> (#[trigger] rows[t]).0 != b_column && is_sparse::<QQ>(rows[t].1@)
    &&& forall|s: int, t: int|
        0 <= s <= t < rows.len() ==> !(#[trigger] rows[t]).1@.contains_key((#[trigger] rows[s]).0)
    &&& forall|s: int, t: int| 0 <= s < t < rows.len() ==> (#[trigger] rows[s]).0 != (#[trigger] rows[t]).0
}

/// Row `r` with the pivot column `c` eliminated using the pivot equation
/// `x[c] = scaled . x`.
pub open spec fn elim_row(r: QVec, c: Dim, scaled: QVec) -> QVec {
    map_add::<QQ>(r.remove(c), map_scale::<QQ>(coeff_of::<QQ>(r, c), scaled))
}

/// The point of the augmented system that corresponds to a solution `x` of
/// `m * x = b`: `-x` off the augmented column, and one on it.
pub open spec fn aug_point(x: QVec, b_column: Dim) -> QVec {
    map_neg::<QQ>(x).remove(b_column).insert(b_column, QQ::rone())
}

/// Removing a key keeps a map sparse.
pub proof fn lemma_remove_sparse(r: QVec, c: Dim)
    requires
        is_sparse::<QQ>(r),
    ensures
        is_sparse::<QQ>(r.remove(c)),
{
    assert(r.remove(c).dom().subset_of(r.dom()));
    vstd::set_lib::lemma_len_subset(r.remove(c).dom(), r.dom());
}

/// Multiplication of rationals commutes.
pub proof fn lemma_mul_comm(a: (int, int), b: (int, int))
    requires
        is_canonical(a),
        is_canonical(b),
    ensures
        QQ::rmul(a, b) == QQ::rmul(b, a),
{
    lemma_rat_ring(a, b, b);
}

/// `(-1) * y == -y` and `-(-y) == y`.
pub proof fn lemma_neg_one(y: (int, int))
    requires
        is_canonical(y),
    ensures
        QQ::rmul(QQ::rneg(QQ::rone()), y) == QQ::rneg(y),
        QQ::rneg(QQ::rneg(y)) == y,
{
    QQ::lemma_valid_units();
    QQ::lemma_valid_closed(y, y);
    lemma_neg_facts::<QQ>(y, QQ::rone());
    QQ::lemma_ring_axioms(y, y, y);
    lemma_mul_comm(y, QQ::rneg(QQ::rone()));
    QQ::lemma_ring_axioms(QQ::rneg(y), y, y);
    lemma_neg_unique::<QQ>(QQ::rneg(y), y);
}

/// For a nonzero pivot `a`: `p + a * x == 0` exactly when `x == (-1/a) * p`.
pub proof fn lemma_pivot_eq(p: (int, int), a: (int, int), x: (int, int))
    requires
        is_canonical(p),
        is_canonical(a),
        is_canonical(x),
        a != QQ::rzero(),
    ensures
        (QQ::radd(p, QQ::rmul(a, x)) == QQ::rzero()) == (x == QQ::rmul(QQ::rneg(rat_inv(a)), p)),
{
    lemma_nonzero_numerator(a);
    lemma_rat_inv(a);
    let i = rat_inv(a);
    let n = QQ::rneg(i);
    let ax = QQ::rmul(a, x);
    QQ::lemma_valid_units();
    QQ::lemma_valid_closed(a, x);
    QQ::lemma_valid_closed(i, i);
    QQ::lemma_valid_closed(n, p);
    QQ::lemma_valid_closed(a, n);
    lemma_neg_facts::<QQ>(a, i);
    lemma_mul_comm(n, a);
    lemma_neg_one(x);
    lemma_neg_one(p);
    if QQ::radd(p, ax) == QQ::rzero() {
        QQ::lemma_ring_axioms(p, ax, ax);
        lemma_neg_unique::<QQ>(ax, p);
        lemma_neg_facts::<QQ>(n, ax);
        QQ::lemma_ring_axioms(n, a, x);
    }
    if x == QQ::rmul(n, p) {
        QQ::lemma_ring_axioms(a, n, p);
        QQ::lemma_ring_axioms(p, p, p);
    }
}

/// A product with a nonzero factor is zero only when the other factor is.
pub proof fn lemma_mul_cancel(v: (int, int), x: (int, int))
    requires
        is_canonical(v),
        is_canonical(x),
        v != QQ::rzero(),
        QQ::rmul(v, x) == QQ::rzero(),
    ensures
        x == QQ::rzero(),
{
    lemma_nonzero_numerator(v);
    lemma_rat_inv(v);
    let i = rat_inv(v);
    QQ::lemma_valid_units();
    QQ::lemma_ring_axioms(i, v, x);
    lemma_mul_comm(i, v);
    QQ::lemma_ring_axioms(i, x, x);
    QQ::lemma_ring_axioms(x, x, x);
}

/// `0 + y == y`.
pub proof fn lemma_zero_add(y: (int, int))
    requires
        is_canonical(y),
    ensures
        QQ::radd(QQ::rzero(), y) == y,
{
    QQ::lemma_valid_units();
    QQ::lemma_ring_axioms(y, QQ::rzero(), QQ::rzero());
}

/// Splitting the inner product of a row at the pivot column, before and after
/// elimination.
pub proof fn lemma_elim_row(r: QVec, c: Dim, scaled: QVec, x: QVec)
    requires
        is_sparse::<QQ>(r),
        is_sparse::<QQ>(scaled),
        is_sparse::<QQ>(x),
    ensures
        map_dot::<QQ>(r, x) == QQ::radd(map_dot::<QQ>(r.remove(c), x), QQ::rmul(coeff_of::<QQ>(r, c), coeff_of::<QQ>(x, c))),
        map_dot::<QQ>(elim_row(r, c, scaled), x) == QQ::radd(
            map_dot::<QQ>(r.remove(c), x),
            QQ::rmul(coeff_of::<QQ>(r, c), map_dot::<QQ>(scaled, x)),
        ),
{
    QQ::lemma_valid_units();
    lemma_remove_sparse(r, c);
    let k = coeff_of::<QQ>(r, c);
    lemma_coeff_valid::<QQ>(r, c);
    lemma_coeff_valid::<QQ>(x, c);
    lemma_dot_valid::<QQ>(r.remove(c), x);
    if r.contains_key(c) {
        assert(r =~= r.remove(c).insert(c, r[c]));
        lemma_dot_insert::<QQ>(r.remove(c), c, r[c], x);
    } else {
        assert(r.remove(c) =~= r);
        QQ::lemma_ring_axioms(coeff_of::<QQ>(x, c), coeff_of::<QQ>(x, c), coeff_of::<QQ>(x, c));
        QQ::lemma_ring_axioms(map_dot::<QQ>(r, x), QQ::rzero(), QQ::rzero());
    }
    lemma_scale_sparse::<QQ>(k, scaled);
    lemma_dot_add::<QQ>(r.remove(c), map_scale::<QQ>(k, scaled), x);
    lemma_dot_scale::<QQ>(k, scaled, x);
}

/// One elimination step keeps the solutions: `x` solves `before` exactly when
/// it solves `after` and the pivot equation `x[c] == scaled . x`.
pub proof fn lemma_elim_step(before: Map<Dim, QVec>, p: Dim, c: Dim, scaled: QVec, after: Map<Dim, QVec>, x: QVec)
    requires
        mat_sparse::<QQ>(before),
        before.contains_key(p),
        before[p].contains_key(c),
        scaled == map_scale::<QQ>(QQ::rneg(rat_inv(before[p][c])), before[p].remove(c)),
        forall|i: Dim| #[trigger] after.contains_key(i) ==> before.contains_key(i) && i != p && after[i] == elim_row(before[i], c, scaled),
        forall|i: Dim| #[trigger] before.contains_key(i) && i != p && !after.contains_key(i) ==> elim_row(before[i], c, scaled) == Map::<Dim, (int, int)>::empty(),
        is_sparse::<QQ>(x),
    ensures
        rows_vanish(before, x) == (rows_vanish(after, x) && coeff_of::<QQ>(x, c) == map_dot::<QQ>(scaled, x)),
{
    QQ::lemma_valid_units();
    let row = before[p];
    let a = row[c];
    let rest = row.remove(c);
    let xc = coeff_of::<QQ>(x, c);
    lemma_nonzero_numerator(a);
    lemma_rat_inv(a);
    QQ::lemma_valid_closed(rat_inv(a), rat_inv(a));
    lemma_remove_sparse(row, c);
    lemma_scale_sparse::<QQ>(QQ::rneg(rat_inv(a)), rest);
    lemma_elim_row(row, c, scaled, x);
    lemma_dot_scale::<QQ>(QQ::rneg(rat_inv(a)), rest, x);
    lemma_dot_valid::<QQ>(rest, x);
    lemma_coeff_valid::<QQ>(x, c);
    lemma_pivot_eq(map_dot::<QQ>(rest, x), a, xc);
    let pivot_ok = xc == map_dot::<QQ>(scaled, x);
    assert(map_dot::<QQ>(row, x) == QQ::rzero() <==> pivot_ok);
    if pivot_ok {
        assert forall|i: Dim| #[trigger] before.contains_key(i) && i != p implies map_dot::<QQ>(before[i], x) == map_dot::<QQ>(
            elim_row(before[i], c, scaled),
            x,
        ) by {
            lemma_elim_row(before[i], c, scaled, x);
        }
        if rows_vanish(before, x) {
            assert forall|i: Dim| #[trigger] after.contains_key(i) implies map_dot::<QQ>(after[i], x) == QQ::rzero() by {
                assert(before.contains_key(i) && i != p);
            }
        }
        if rows_vanish(after, x) {
            assert forall|i: Dim| #[trigger] before.contains_key(i) implies map_dot::<QQ>(before[i], x) == QQ::rzero() by {
                if i != p {
                    if !after.contains_key(i) {
                        lemma_dot_empty::<QQ>(x);
                    }
                }
            }
        }
    } else {
        assert(before.contains_key(p));
    }
}

/// A nonzero row whose only key is `b` forces `x[b]` to zero.
pub proof fn lemma_lone_row(row: QVec, b: Dim, x: QVec)
    requires
        is_sparse::<QQ>(row),
        row != Map::<Dim, (int, int)>::empty(),
        forall|k: Dim| #[trigger] row.contains_key(k) ==> k == b,
        is_sparse::<QQ>(x),
        map_dot::<QQ>(row, x) == QQ::rzero(),
    ensures
        coeff_of::<QQ>(x, b) == QQ::rzero(),
{
    if !row.contains_key(b) {
        assert(row =~= Map::<Dim, (int, int)>::empty());
    }
    let e = Map::<Dim, (int, int)>::empty();
    assert(row =~= e.insert(b, row[b]));
    lemma_dot_insert::<QQ>(e, b, row[b], x);
    lemma_dot_empty::<QQ>(x);
    lemma_coeff_valid::<QQ>(x, b);
    QQ::lemma_valid_closed(row[b], coeff_of::<QQ>(x, b));
    lemma_zero_add(QQ::rmul(row[b], coeff_of::<QQ>(x, b)));
    lemma_mul_cancel(row[b], coeff_of::<QQ>(x, b));
}

/// A row of the augmented matrix: the row of `m` with `b[i]` placed in the
/// augmented column.
proof fn lemma_aug_row(m: Map<Dim, QVec>, bcol: Dim, b: QVec, i: Dim)
    requires
        mat_sparse::<QQ>(m),
        is_sparse::<QQ>(b),
        forall|k: Dim| #[trigger] m.contains_key(k) ==> !m[k].contains_key(bcol),
    ensures
        b.contains_key(i) ==> column_added_row::<QQ>(m, bcol, b, i) == row_of::<QQ>(m, i).insert(bcol, b[i]),
        !b.contains_key(i) ==> column_added_row::<QQ>(m, bcol, b, i) == row_of::<QQ>(m, i),
        m.contains_key(i) || b.contains_key(i) ==> mat_add_column::<QQ>(m, bcol, b).contains_key(i),
        mat_add_column::<QQ>(m, bcol, b).contains_key(i) ==> mat_add_column::<QQ>(m, bcol, b)[i] == column_added_row::<QQ>(m, bcol, b, i),
{
    if b.contains_key(i) {
        lemma_zero_add(b[i]);
        assert(coeff_of::<QQ>(row_of::<QQ>(m, i), bcol) == QQ::rzero());
        assert(column_added_row::<QQ>(m, bcol, b, i).contains_key(bcol));
    }
    if m.contains_key(i) && !b.contains_key(i) {
        assert(m[i] != Map::<Dim, (int, int)>::empty());
    }
}

/// A solution of the augmented system with one in the augmented column gives
/// a solution of `m * x = b`.
pub proof fn lemma_aug_forward(m: Map<Dim, QVec>, b: QVec, bcol: Dim, y: QVec)
    requires
        mat_sparse::<QQ>(m),
        is_sparse::<QQ>(b),
        forall|k: Dim| #[trigger] m.contains_key(k) ==> !m[k].contains_key(bcol),
        is_sparse::<QQ>(y),
        coeff_of::<QQ>(y, bcol) == QQ::rone(),
        rows_vanish(mat_add_column::<QQ>(m, bcol, b), y),
    ensures
        mat_vec::<QQ>(m, map_neg::<QQ>(y.remove(bcol))) == b,
{
    QQ::lemma_valid_units();
    let aug = mat_add_column::<QQ>(m, bcol, b);
    let x = map_neg::<QQ>(y.remove(bcol));
    assert forall|i: Dim| #[trigger] m.contains_key(i) implies map_dot::<QQ>(m[i], x) == coeff_of::<QQ>(b, i) by {
        lemma_aug_row(m, bcol, b, i);
        let row = m[i];
        lemma_remove_sparse(y, bcol);
        lemma_dot_congr::<QQ>(row, x, map_neg::<QQ>(y));
        lemma_dot_neg_right::<QQ>(row, y);
        lemma_dot_valid::<QQ>(row, y);
        lemma_neg_one(map_dot::<QQ>(row, y));
        if b.contains_key(i) {
            lemma_dot_insert::<QQ>(row, bcol, b[i], y);
            QQ::lemma_ring_axioms(b[i], b[i], b[i]);
            QQ::lemma_ring_axioms(map_dot::<QQ>(row, y), b[i], b[i]);
            lemma_neg_unique::<QQ>(b[i], map_dot::<QQ>(row, y));
            lemma_neg_one(b[i]);
        } else {
            lemma_neg_facts::<QQ>(QQ::rzero(), QQ::rzero());
        }
    }
    assert forall|i: Dim| #[trigger] b.contains_key(i) implies m.contains_key(i) by {
        lemma_aug_row(m, bcol, b, i);
        if !m.contains_key(i) {
            let e = Map::<Dim, (int, int)>::empty();
            assert(row_of::<QQ>(m, i) == e);
            lemma_dot_insert::<QQ>(e, bcol, b[i], y);
            lemma_dot_empty::<QQ>(y);
            QQ::lemma_ring_axioms(b[i], b[i], b[i]);
            lemma_zero_add(b[i]);
        }
    }
    assert(mat_vec::<QQ>(m, x) =~= b);
}

/// A solution of `m * x = b` gives a solution of the augmented system with
/// one in the augmented column.
pub proof fn lemma_aug_backward(m: Map<Dim, QVec>, b: QVec, bcol: Dim, x: QVec)
    requires
        mat_sparse::<QQ>(m),
        is_sparse::<QQ>(b),
        forall|k: Dim| #[trigger] m.contains_key(k) ==> !m[k].contains_key(bcol),
        is_sparse::<QQ>(x),
        mat_vec::<QQ>(m, x) == b,
    ensures
        is_sparse::<QQ>(aug_point(x, bcol)),
        coeff_of::<QQ>(aug_point(x, bcol), bcol) == QQ::rone(),
        rows_vanish(mat_add_column::<QQ>(m, bcol, b), aug_point(x, bcol)),
{
    QQ::lemma_valid_units();
    let y = aug_point(x, bcol);
    let nx = map_neg::<QQ>(x);
    assert forall|d: Dim| #[trigger] nx.contains_key(d) implies QQ::valid(nx[d]) && nx[d] != QQ::rzero() by {
        QQ::lemma_valid_closed(x[d], x[d]);
        lemma_neg_one(x[d]);
        lemma_neg_facts::<QQ>(QQ::rzero(), QQ::rzero());
    }
    assert(nx.dom() =~= x.dom());
    lemma_remove_sparse(nx, bcol);
    assert(y.dom() =~= nx.remove(bcol).dom().insert(bcol));
    let aug = mat_add_column::<QQ>(m, bcol, b);
    assert forall|i: Dim| #[trigger] aug.contains_key(i) implies map_dot::<QQ>(aug[i], y) == QQ::rzero() by {
        lemma_aug_row(m, bcol, b, i);
        if m.contains_key(i) {
            let row = m[i];
            lemma_dot_congr::<QQ>(row, y, nx);
            lemma_dot_neg_right::<QQ>(row, x);
            lemma_dot_valid::<QQ>(row, x);
            lemma_dot_valid::<QQ>(row, y);
            assert(map_dot::<QQ>(row, x) == coeff_of::<QQ>(b, i));
            if b.contains_key(i) {
                lemma_dot_insert::<QQ>(row, bcol, b[i], y);
                QQ::lemma_ring_axioms(b[i], b[i], b[i]);
                QQ::lemma_ring_axioms(QQ::rneg(b[i]), b[i], b[i]);
            } else {
                lemma_neg_facts::<QQ>(QQ::rzero(), QQ::rzero());
            }
        } else {
            assert(!mat_vec::<QQ>(m, x).contains_key(i));
        }
    }
}

/// The augmented point is one, not zero, in the augmented column.
pub proof fn lemma_aug_point_one(x: QVec, b_column: Dim)
    ensures
        coeff_of::<QQ>(aug_point(x, b_column), b_column) != QQ::rzero(),
{
}

/// The linear combination `c[0] * vs[0] + ... + c[n-1] * vs[n-1]`.
pub open spec fn lin_comb(vs: Seq<QQVector>, c: Seq<(int, int)>, n: int) -> QVec
    decreases n,
{
    if n <= 0 {
        Map::empty()
    } else {
        map_add::<QQ>(lin_comb(vs, c, n - 1), map_scale::<QQ>(c[n - 1], vs[n - 1]@))
    }
}

/// The inner product is additive in its second argument.
pub proof fn lemma_dot_add_right(s: QVec, a: QVec, b: QVec)
    requires
        is_sparse::<QQ>(s),
        is_sparse::<QQ>(a),
        is_sparse::<QQ>(b),
    ensures
        map_dot::<QQ>(s, map_add::<QQ>(a, b)) == QQ::radd(map_dot::<QQ>(s, a), map_dot::<QQ>(s, b)),
    decreases s.dom().len(),
{
    QQ::lemma_valid_units();
    if s.dom().len() == 0 {
        assert(s =~= Map::<Dim, (int, int)>::empty());
        lemma_dot_empty::<QQ>(a);
        lemma_dot_empty::<QQ>(b);
        lemma_dot_empty::<QQ>(map_add::<QQ>(a, b));
        QQ::lemma_ring_axioms(QQ::rzero(), QQ::rzero(), QQ::rzero());
    } else {
        crate::inner::lemma_max_key_exists(s);
        let m = choose|m: Dim| crate::ring::is_max_key(s, m);
        let s1 = s.remove(m);
        lemma_remove_sparse(s, m);
        lemma_add_sparse::<QQ>(a, b);
        crate::inner::lemma_dot_max::<QQ>(s, m, a);
        crate::inner::lemma_dot_max::<QQ>(s, m, b);
        crate::inner::lemma_dot_max::<QQ>(s, m, map_add::<QQ>(a, b));
        lemma_dot_add_right(s1, a, b);
        crate::ring::lemma_coeff_add::<QQ>(a, b, m);
        lemma_coeff_valid::<QQ>(a, m);
        lemma_coeff_valid::<QQ>(b, m);
        QQ::lemma_ring_axioms(s[m], coeff_of::<QQ>(a, m), coeff_of::<QQ>(b, m));
        lemma_dot_valid::<QQ>(s1, a);
        lemma_dot_valid::<QQ>(s1, b);
        QQ::lemma_valid_closed(s[m], coeff_of::<QQ>(a, m));
        QQ::lemma_valid_closed(s[m], coeff_of::<QQ>(b, m));
        crate::inner::lemma_add_shuffle::<QQ>(
            map_dot::<QQ>(s1, a),
            map_dot::<QQ>(s1, b),
            QQ::rmul(s[m], coeff_of::<QQ>(a, m)),
            QQ::rmul(s[m], coeff_of::<QQ>(b, m)),
        );
    }
}

/// The inner product is homogeneous in its second argument.
pub proof fn lemma_dot_scale_right(s: QVec, k: (int, int), a: QVec)
    requires
        is_sparse::<QQ>(s),
        is_canonical(k),
        is_sparse::<QQ>(a),
    ensures
        map_dot::<QQ>(s, map_scale::<QQ>(k, a)) == QQ::rmul(k, map_dot::<QQ>(s, a)),
    decreases s.dom().len(),
{
    QQ::lemma_valid_units();
    if s.dom().len() == 0 {
        assert(s =~= Map::<Dim, (int, int)>::empty());
        lemma_dot_empty::<QQ>(a);
        lemma_dot_empty::<QQ>(map_scale::<QQ>(k, a));
        QQ::lemma_ring_axioms(k, k, k);
    } else {
        crate::inner::lemma_max_key_exists(s);
        let m = choose|m: Dim| crate::ring::is_max_key(s, m);
        let s1 = s.remove(m);
        lemma_remove_sparse(s, m);
        lemma_scale_sparse::<QQ>(k, a);
        crate::inner::lemma_dot_max::<QQ>(s, m, a);
        crate::inner::lemma_dot_max::<QQ>(s, m, map_scale::<QQ>(k, a));
        lemma_dot_scale_right(s1, k, a);
        crate::ring::lemma_coeff_scale::<QQ>(k, a, m);
        let am = coeff_of::<QQ>(a, m);
        lemma_coeff_valid::<QQ>(a, m);
        lemma_dot_valid::<QQ>(s1, a);
        QQ::lemma_valid_closed(s[m], am);
        lemma_rat_ring(s[m], k, am);
        lemma_rat_ring(k, s[m], am);
        QQ::lemma_ring_axioms(k, map_dot::<QQ>(s1, a), QQ::rmul(s[m], am));
    }
}

/// The pivot equations are closed under sums.
pub proof fn lemma_pivots_add(rows: Seq<(Dim, QQVector)>, b_column: Dim, a: QVec, b: QVec)
    requires
        echelon_ok(rows, b_column),
        is_sparse::<QQ>(a),
        is_sparse::<QQ>(b),
        pivots_hold(rows, a),
        pivots_hold(rows, b),
    ensures
        pivots_hold(rows, map_add::<QQ>(a, b)),
{
    assert forall|t: int| 0 <= t < rows.len() implies coeff_of::<QQ>(map_add::<QQ>(a, b), (#[trigger] rows[t]).0)
        == map_dot::<QQ>(rows[t].1@, map_add::<QQ>(a, b)) by {
        crate::ring::lemma_coeff_add::<QQ>(a, b, rows[t].0);
        lemma_dot_add_right(rows[t].1@, a, b);
    }
}

/// The pivot equations are closed under scaling.
pub proof fn lemma_pivots_scale(rows: Seq<(Dim, QQVector)>, b_column: Dim, k: (int, int), a: QVec)
    requires
        echelon_ok(rows, b_column),
        is_canonical(k),
        is_sparse::<QQ>(a),
        pivots_hold(rows, a),
    ensures
        pivots_hold(rows, map_scale::<QQ>(k, a)),
{
    assert forall|t: int| 0 <= t < rows.len() implies coeff_of::<QQ>(map_scale::<QQ>(k, a), (#[trigger] rows[t]).0)
        == map_dot::<QQ>(rows[t].1@, map_scale::<QQ>(k, a)) by {
        crate::ring::lemma_coeff_scale::<QQ>(k, a, rows[t].0);
        lemma_dot_scale_right(rows[t].1@, k, a);
    }
}

/// A solution of the pivot equations that vanishes off the pivots vanishes
/// at the pivots from `n` on.
proof fn lemma_pivots_zero_from(rows: Seq<(Dim, QQVector)>, b_column: Dim, z: QVec, n: int)
    requires
        echelon_ok(rows, b_column),
        is_sparse::<QQ>(z),
        pivots_hold(rows, z),
        forall|d: Dim| #[trigger] z.contains_key(d) ==> is_pivot_of(rows, d),
        0 <= n <= rows.len(),
    ensures
        forall|t: int| n <= t < rows.len() ==> !z.contains_key((#[trigger] rows[t]).0),
    decreases rows.len() - n,
{
    if n < rows.len() {
        lemma_pivots_zero_from(rows, b_column, z, n + 1);
        let s = rows[n].1@;
        assert forall|k: Dim| #[trigger] s.contains_key(k) implies coeff_of::<QQ>(z, k) == coeff_of::<QQ>(
            Map::<Dim, (int, int)>::empty(),
            k,
        ) by {
            if z.contains_key(k) {
                let t = choose|t: int| 0 <= t < rows.len() && #[trigger] rows[t].0 == k;
                if t <= n {
                    assert(!rows[n].1@.contains_key(rows[t].0));
                }
            }
        }
        lemma_dot_congr::<QQ>(s, z, Map::<Dim, (int, int)>::empty());
        crate::matrix::lemma_dot_empty_right::<QQ>(s);
        assert(!z.contains_key(rows[n].0));
    }
}

/// The pivot equations determine the pivot coordinates: a solution that
/// vanishes off the pivots is zero.
pub proof fn lemma_pivots_unique(rows: Seq<(Dim, QQVector)>, b_column: Dim, z: QVec)
    requires
        echelon_ok(rows, b_column),
        is_sparse::<QQ>(z),
        pivots_hold(rows, z),
        forall|d: Dim| #[trigger] z.contains_key(d) ==> is_pivot_of(rows, d),
    ensures
        z == Map::<Dim, (int, int)>::empty(),
{
    lemma_pivots_zero_from(rows, b_column, z, 0);
    assert forall|d: Dim| !z.contains_key(d) by {
        if z.contains_key(d) {
            let t = choose|t: int| 0 <= t < rows.len() && #[trigger] rows[t].0 == d;
        }
    }
    assert(z =~= Map::<Dim, (int, int)>::empty());
}

/// Linear combinations of sparse solutions of the pivot equations are
/// sparse solutions.
pub proof fn lemma_lin_comb_pivots(rows: Seq<(Dim, QQVector)>, b_column: Dim, vs: Seq<QQVector>, c: Seq<(int, int)>, n: int)
    requires
        echelon_ok(rows, b_column),
        0 <= n <= vs.len(),
        n <= c.len(),
        forall|t: int| 0 <= t < n ==> is_sparse::<QQ>((#[trigger] vs[t])@) && pivots_hold(rows, vs[t]@),
        forall|t: int| 0 <= t < n ==> is_canonical(#[trigger] c[t]),
    ensures
        is_sparse::<QQ>(lin_comb(vs, c, n)),
        pivots_hold(rows, lin_comb(vs, c, n)),
    decreases n,
{
    if n == 0 {
        assert(Map::<Dim, (int, int)>::empty().dom() =~= Set::<Dim>::empty());
        assert forall|t: int| 0 <= t < rows.len() implies coeff_of::<QQ>(Map::<Dim, (int, int)>::empty(), (#[trigger] rows[t]).0)
            == map_dot::<QQ>(rows[t].1@, Map::<Dim, (int, int)>::empty()) by {
            crate::matrix::lemma_dot_empty_right::<QQ>(rows[t].1@);
        }
    } else {
        lemma_lin_comb_pivots(rows, b_column, vs, c, n - 1);
        assert(is_canonical(c[n - 1]));
        assert(is_sparse::<QQ>(vs[n - 1]@));
        lemma_scale_sparse::<QQ>(c[n - 1], vs[n - 1]@);
        lemma_pivots_scale(rows, b_column, c[n - 1], vs[n - 1]@);
        lemma_add_sparse::<QQ>(lin_comb(vs, c, n - 1), map_scale::<QQ>(c[n - 1], vs[n - 1]@));
        lemma_pivots_add(rows, b_column, lin_comb(vs, c, n - 1), map_scale::<QQ>(c[n - 1], vs[n - 1]@));
    }
}

/// Whether `d` occurs among the first `n` entries of `ds`.
pub open spec fn occurs_before(ds: Seq<Dim>, d: Dim, n: int) -> bool {
    exists|t: int| 0 <= t < n && #[trigger] ds[t] == d
}

/// The coefficient of a free vector's first occurrence: `x[ds[t]]` the first
/// time `ds[t]` occurs, zero after.
pub open spec fn free_coeff(ds: Seq<Dim>, x: QVec, t: int) -> (int, int) {
    if occurs_before(ds, ds[t], t) {
        QQ::rzero()
    } else {
        coeff_of::<QQ>(x, ds[t])
    }
}

/// The coefficients `free_coeff(ds, x, t)` for every position `t` of `ds`.
pub open spec fn free_coeffs(ds: Seq<Dim>, x: QVec) -> Seq<(int, int)> {
    Seq::new(ds.len(), |t: int| free_coeff(ds, x, t))
}

/// In the combination of vectors that are one at their own free dimension
/// `ds[t]` and zero at the others, the coefficient at a free dimension `d` is
/// `x[d]` if `d` occurs, and zero if not.
pub proof fn lemma_lin_comb_free(vs: Seq<QQVector>, ds: Seq<Dim>, x: QVec, n: int, d: Dim)
    requires
        0 <= n <= vs.len(),
        n <= ds.len(),
        is_sparse::<QQ>(x),
        forall|t: int| 0 <= t < n ==> is_sparse::<QQ>((#[trigger] vs[t])@),
        forall|t: int| 0 <= t < n ==> coeff_of::<QQ>((#[trigger] vs[t])@, d) == (if ds[t] == d {
            QQ::rone()
        } else {
            QQ::rzero()
        }),
    ensures
        coeff_of::<QQ>(lin_comb(vs, free_coeffs(ds, x), n), d) == (if occurs_before(ds, d, n) {
            coeff_of::<QQ>(x, d)
        } else {
            QQ::rzero()
        }),
    decreases n,
{
    let c = free_coeffs(ds, x);
    QQ::lemma_valid_units();
    if n > 0 {
        lemma_lin_comb_free(vs, ds, x, n - 1, d);
        let prev = lin_comb(vs, c, n - 1);
        let v = vs[n - 1]@;
        assert(is_sparse::<QQ>(v));
        lemma_coeff_valid::<QQ>(x, ds[n - 1]);
        assert(is_canonical(c[n - 1]));
        assert forall|t: int| 0 <= t < n - 1 implies is_canonical(#[trigger] c[t]) by {
            lemma_coeff_valid::<QQ>(x, ds[t]);
        }
        lemma_lin_comb_sparse(vs, c, n - 1);
        lemma_scale_sparse::<QQ>(c[n - 1], v);
        crate::ring::lemma_coeff_add::<QQ>(prev, map_scale::<QQ>(c[n - 1], v), d);
        crate::ring::lemma_coeff_scale::<QQ>(c[n - 1], v, d);
        lemma_coeff_valid::<QQ>(prev, d);
        QQ::lemma_ring_axioms(c[n - 1], c[n - 1], c[n - 1]);
        QQ::lemma_ring_axioms(coeff_of::<QQ>(prev, d), QQ::rzero(), QQ::rzero());
        lemma_zero_add(coeff_of::<QQ>(x, d));
        if ds[n - 1] == d {
            assert(occurs_before(ds, d, n));
            if occurs_before(ds, d, n - 1) {
                assert(occurs_before(ds, ds[n - 1], n - 1));
            }
        } else {
            if occurs_before(ds, d, n) {
                let t = choose|t: int| 0 <= t < n && #[trigger] ds[t] == d;
                assert(occurs_before(ds, d, n - 1));
            }
        }
    }
}

/// A combination with valid coefficients of sparse vectors is sparse.
pub proof fn lemma_lin_comb_sparse(vs: Seq<QQVector>, c: Seq<(int, int)>, n: int)
    requires
        0 <= n <= vs.len(),
        n <= c.len(),
        forall|t: int| 0 <= t < n ==> is_sparse::<QQ>((#[trigger] vs[t])@),
        forall|t: int| 0 <= t < n ==> is_canonical(#[trigger] c[t]),
    ensures
        is_sparse::<QQ>(lin_comb(vs, c, n)),
    decreases n,
{
    if n == 0 {
        assert(Map::<Dim, (int, int)>::empty().dom() =~= Set::<Dim>::empty());
    } else {
        lemma_lin_comb_sparse(vs, c, n - 1);
        assert(is_sparse::<QQ>(vs[n - 1]@));
        assert(is_canonical(c[n - 1]));
        lemma_scale_sparse::<QQ>(c[n - 1], vs[n - 1]@);
        lemma_add_sparse::<QQ>(lin_comb(vs, c, n - 1), map_scale::<QQ>(c[n - 1], vs[n - 1]@));
    }
}

/// A solution `x` of the system, supported on `dims`, is the combination of
/// the free solutions `vs` (one per free dimension `ds[t]` of `dims`) with
/// coefficients read off `x` at the free dimensions.
pub proof fn lemma_null_span(
    rows: Seq<(Dim, QQVector)>,
    b_column: Dim,
    m: Map<Dim, QVec>,
    vs: Seq<QQVector>,
    ds: Seq<Dim>,
    dims: Seq<Dim>,
    x: QVec,
)
    requires
        echelon_ok(rows, b_column),
        forall|y: QVec| #[trigger] is_sparse::<QQ>(y) ==> (rows_vanish(m, y) == pivots_hold(rows, y)),
        vs.len() == ds.len(),
        forall|t: int| 0 <= t < vs.len() ==> is_sparse::<QQ>((#[trigger] vs[t])@) && pivots_hold(rows, vs[t]@),
        forall|t: int, d: Dim|
            0 <= t < vs.len() && !is_pivot_of(rows, d) ==> #[trigger] coeff_of::<QQ>(vs[t]@, d) == (if ds[t] == d {
                QQ::rone()
            } else {
                QQ::rzero()
            }),
        forall|t: int| 0 <= t < ds.len() ==> dims.contains(#[trigger] ds[t]),
        forall|j: int| 0 <= j < dims.len() && !is_pivot_of(rows, dims[j]) ==> occurs_before(ds, #[trigger] dims[j], ds.len() as int),
        is_sparse::<QQ>(x),
        rows_vanish(m, x),
        forall|d: Dim| #[trigger] x.contains_key(d) ==> dims.contains(d),
    ensures
        lin_comb(vs, free_coeffs(ds, x), vs.len() as int) == x,
{
    QQ::lemma_valid_units();
    let n = vs.len() as int;
    let c = free_coeffs(ds, x);
    assert forall|t: int| 0 <= t < n implies is_canonical(#[trigger] c[t]) by {
        lemma_coeff_valid::<QQ>(x, ds[t]);
    }
    lemma_lin_comb_pivots(rows, b_column, vs, c, n);
    let y = lin_comb(vs, c, n);
    let mone = QQ::rneg(QQ::rone());
    QQ::lemma_valid_closed(QQ::rone(), QQ::rone());
    lemma_scale_sparse::<QQ>(mone, y);
    lemma_pivots_scale(rows, b_column, mone, y);
    let ny = map_scale::<QQ>(mone, y);
    lemma_add_sparse::<QQ>(x, ny);
    lemma_pivots_add(rows, b_column, x, ny);
    let z = map_add::<QQ>(x, ny);
    assert forall|d: Dim| coeff_of::<QQ>(z, d) == QQ::radd(coeff_of::<QQ>(x, d), QQ::rneg(coeff_of::<QQ>(y, d))) by {
        crate::ring::lemma_coeff_add::<QQ>(x, ny, d);
        crate::ring::lemma_coeff_scale::<QQ>(mone, y, d);
        lemma_coeff_valid::<QQ>(y, d);
        lemma_neg_one(coeff_of::<QQ>(y, d));
    }
    assert forall|d: Dim| #[trigger] z.contains_key(d) implies is_pivot_of(rows, d) by {
        if !is_pivot_of(rows, d) {
            assert forall|t: int| 0 <= t < n implies coeff_of::<QQ>((#[trigger] vs[t])@, d) == (if ds[t] == d {
                QQ::rone()
            } else {
                QQ::rzero()
            }) by {}
            lemma_lin_comb_free(vs, ds, x, n, d);
            lemma_coeff_valid::<QQ>(x, d);
            QQ::lemma_ring_axioms(coeff_of::<QQ>(x, d), QQ::rzero(), QQ::rzero());
            lemma_neg_facts::<QQ>(QQ::rzero(), QQ::rzero());
            if !occurs_before(ds, d, n) {
                if x.contains_key(d) {
                    let j = choose|j: int| 0 <= j < dims.len() && dims[j] == d;
                    assert(occurs_before(ds, dims[j], n));
                }
            }
            assert(coeff_of::<QQ>(z, d) == QQ::radd(coeff_of::<QQ>(x, d), QQ::rneg(coeff_of::<QQ>(y, d))));
            assert(coeff_of::<QQ>(z, d) == QQ::rzero());
        }
    }
    lemma_pivots_unique(rows, b_column, z);
    assert forall|d: Dim| coeff_of::<QQ>(x, d) == coeff_of::<QQ>(y, d) by {
        assert(coeff_of::<QQ>(z, d) == QQ::radd(coeff_of::<QQ>(x, d), QQ::rneg(coeff_of::<QQ>(y, d))));
        assert(coeff_of::<QQ>(z, d) == QQ::rzero());
        lemma_coeff_valid::<QQ>(x, d);
        lemma_coeff_valid::<QQ>(y, d);
        QQ::lemma_valid_closed(coeff_of::<QQ>(y, d), coeff_of::<QQ>(y, d));
        lemma_neg_unique::<QQ>(coeff_of::<QQ>(x, d), QQ::rneg(coeff_of::<QQ>(y, d)));
        lemma_neg_one(coeff_of::<QQ>(y, d));
    }
    assert forall|d: Dim| #[trigger] y.contains_key(d) == x.contains_key(d) && (x.contains_key(d) ==> y[d] == x[d]) by {
        assert(coeff_of::<QQ>(x, d) == coeff_of::<QQ>(y, d));
    }
    assert(y.dom() =~= x.dom());
    assert(y =~= x);
}

/// At a free dimension `ds[t]` whose vector is the only one that is nonzero
/// there, a combination has the coefficient `c[t]`.
pub proof fn lemma_lin_comb_at(vs: Seq<QQVector>, c: Seq<(int, int)>, n: int, ds: Seq<Dim>, t: int)
    requires
        0 <= n <= vs.len(),
        n <= c.len(),
        n <= ds.len(),
        0 <= t < ds.len(),
        forall|s: int| 0 <= s < n ==> is_sparse::<QQ>((#[trigger] vs[s])@),
        forall|s: int| 0 <= s < n ==> is_canonical(#[trigger] c[s]),
        forall|s: int| 0 <= s < n ==> coeff_of::<QQ>((#[trigger] vs[s])@, ds[t]) == (if s == t {
            QQ::rone()
        } else {
            QQ::rzero()
        }),
    ensures
        coeff_of::<QQ>(lin_comb(vs, c, n), ds[t]) == (if t < n {
            c[t]
        } else {
            QQ::rzero()
        }),
    decreases n,
{
    QQ::lemma_valid_units();
    if n > 0 {
        lemma_lin_comb_at(vs, c, n - 1, ds, t);
        let prev = lin_comb(vs, c, n - 1);
        let v = vs[n - 1]@;
        assert(is_sparse::<QQ>(v));
        assert(is_canonical(c[n - 1]));
        lemma_lin_comb_sparse(vs, c, n - 1);
        lemma_scale_sparse::<QQ>(c[n - 1], v);
        crate::ring::lemma_coeff_add::<QQ>(prev, map_scale::<QQ>(c[n - 1], v), ds[t]);
        crate::ring::lemma_coeff_scale::<QQ>(c[n - 1], v, ds[t]);
        lemma_coeff_valid::<QQ>(prev, ds[t]);
        QQ::lemma_ring_axioms(c[n - 1], c[n - 1], c[n - 1]);
        QQ::lemma_ring_axioms(coeff_of::<QQ>(prev, ds[t]), QQ::rzero(), QQ::rzero());
        lemma_zero_add(c[n - 1]);
    }
}

/// Dividing `-(w * c)` by `-c` gives back `w`.
pub proof fn lemma_unscale(c: (int, int), w: (int, int))
    requires
        is_canonical(c),
        is_canonical(w),
        c != QQ::rzero(),
    ensures
        QQ::rmul(QQ::rneg(rat_inv(c)), QQ::rneg(QQ::rmul(w, c))) == w,
{
    QQ::lemma_valid_units();
    lemma_nonzero_numerator(c);
    lemma_rat_inv(c);
    let i = rat_inv(c);
    let k = QQ::rneg(i);
    let p = QQ::rmul(w, c);
    QQ::lemma_valid_closed(w, c);
    QQ::lemma_valid_closed(i, i);
    QQ::lemma_valid_closed(p, i);
    lemma_neg_facts::<QQ>(k, p);
    lemma_mul_comm(k, p);
    lemma_neg_facts::<QQ>(p, i);
    lemma_neg_one(QQ::rmul(p, i));
    lemma_rat_ring(w, c, i);
    lemma_rat_ring(w, w, w);
}

} // verus!
