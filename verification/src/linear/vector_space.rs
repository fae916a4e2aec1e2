//! Operations on rational vector spaces, each represented as a list of basis
//! vectors.

use vstd::prelude::*;

use crate::num::arith::{abs, lcm};
use crate::num::{QQ, ZZ};
use crate::algebra::Ring;
use crate::ring::{
    coeff_of, interlace_ok, is_sparse, lemma_coeff_add, lemma_coeff_add_term, lemma_coeff_scale, map_add, map_scale, seq_view, Dim,
};
use crate::matrix::{row_of, rows_matrix, vec_mat};

use super::{in_span, intersect_rowspace, keys_within, meet_ok, mem_vector_space, QQMatrix, QQVector, QVec};
use super::intersection::{in_meet, meet_pinned, pivoted_rows, vanishes_at};

verus! {

/// Does some vector of `u` have the coordinates `x`?
pub open spec fn occurs_in(u: Seq<QQVector>, x: QVec) -> bool {
    exists|k: int| 0 <= k < u.len() && #[trigger] u[k]@ == x
}

/// Is `x` a row of the matrix `m`?
pub open spec fn is_row_of(m: Map<Dim, QVec>, x: QVec) -> bool {
    exists|i: Dim| #[trigger] m.contains_key(i) && m[i] == x
}

/// Is `w` the vector `v` scaled by the least common multiple of the
/// denominators of its coordinates?
pub open spec fn integer_scaling(v: QVec, w: QVec) -> bool {
    exists|es: Seq<(Dim, QQ)>|
        #[trigger] seq_view(es) == v && crate::ring::sorted_keys(es) && w == map_scale::<QQ>(
            (denominators_lcm(es, es.len() as int), 1int),
            v,
        )
}

/// Every vector of `basis` has a sparse view.
pub open spec fn all_sparse(basis: Seq<QQVector>) -> bool {
    forall|t: int| 0 <= t < basis.len() ==> is_sparse::<QQ>(#[trigger] basis[t]@)
}

/// The rows of `rows_matrix(basis)` are finitely many.
proof fn lemma_rows_matrix_finite(basis: Seq<QQVector>)
    ensures
        rows_matrix::<QQ>(basis).dom().finite(),
        forall|i: Dim| #[trigger] rows_matrix::<QQ>(basis).contains_key(i) ==> 0 <= i < basis.len(),
    decreases basis.len(),
{
    if basis.len() == 0 {
        assert(rows_matrix::<QQ>(basis).dom() =~= Set::<Dim>::empty());
    } else {
        let p = basis.drop_last();
        lemma_rows_matrix_finite(p);
        let top = (basis.len() - 1) as Dim;
        assert forall|i: Dim| #[trigger] rows_matrix::<QQ>(basis).contains_key(i) implies rows_matrix::<QQ>(p).dom().insert(
            top,
        ).contains(i) by {
            if i < basis.len() - 1 {
                assert(p[i as int] == basis[i as int]);
            }
        }
        vstd::set_lib::lemma_len_subset(rows_matrix::<QQ>(basis).dom(), rows_matrix::<QQ>(p).dom().insert(top));
    }
}

/// Column `j` of `rows_matrix(basis)`: the `j`-th coordinates of the basis
/// vectors, indexed by position.
proof fn lemma_span_column(basis: Seq<QQVector>, j: Dim)
    requires
        all_sparse(basis),
    ensures
        is_sparse::<QQ>(crate::matrix::column_of::<QQ>(rows_matrix::<QQ>(basis), j)),
        forall|t: Dim| #[trigger] crate::matrix::column_of::<QQ>(rows_matrix::<QQ>(basis), j).contains_key(t) ==> 0 <= t < basis.len()
            && basis[t as int]@.contains_key(j),
        forall|t: Dim|
            0 <= t < basis.len() ==> #[trigger] coeff_of::<QQ>(crate::matrix::column_of::<QQ>(rows_matrix::<QQ>(basis), j), t)
                == coeff_of::<QQ>(basis[t as int]@, j),
{
    let rm = rows_matrix::<QQ>(basis);
    let col = crate::matrix::column_of::<QQ>(rm, j);
    lemma_rows_matrix_finite(basis);
    assert(col.dom().subset_of(rm.dom()));
    vstd::set_lib::lemma_len_subset(col.dom(), rm.dom());
    assert forall|t: Dim| #[trigger] col.contains_key(t) implies QQ::valid(col[t]) && col[t] != QQ::rzero() by {
        assert(is_sparse::<QQ>(basis[t as int]@));
    }
    assert forall|t: Dim| 0 <= t < basis.len() implies #[trigger] coeff_of::<QQ>(col, t) == coeff_of::<QQ>(basis[t as int]@, j) by {
        if basis[t as int]@.contains_key(j) {
            assert(basis[t as int]@ != Map::<Dim, (int, int)>::empty());
        }
    }
}

/// The inner product with a unit vector reads one coordinate.
proof fn lemma_dot_unit(s: QVec, d: Dim)
    requires
        is_sparse::<QQ>(s),
    ensures
        crate::ring::map_dot::<QQ>(s, Map::<Dim, (int, int)>::empty().insert(d, QQ::rone())) == coeff_of::<QQ>(s, d),
{
    let e = Map::<Dim, (int, int)>::empty().insert(d, QQ::rone());
    let z = Map::<Dim, (int, int)>::empty();
    QQ::lemma_valid_units();
    let s1 = s.remove(d);
    super::elimination::lemma_remove_sparse(s, d);
    crate::inner::lemma_dot_congr::<QQ>(s1, e, z);
    crate::matrix::lemma_dot_empty_right::<QQ>(s1);
    if s.contains_key(d) {
        assert(s =~= s1.insert(d, s[d]));
        crate::inner::lemma_dot_insert::<QQ>(s1, d, s[d], e);
        QQ::lemma_ring_axioms(s[d], s[d], s[d]);
        super::elimination::lemma_zero_add(s[d]);
    } else {
        assert(s1 =~= s);
    }
}

/// Every vector of `basis` lies in its span.
pub proof fn lemma_in_span_member(basis: Seq<QQVector>, t: int)
    requires
        all_sparse(basis),
        0 <= t < basis.len(),
        basis.len() <= i32::MAX,
    ensures
        in_span(basis, basis[t]@),
{
    QQ::lemma_valid_units();
    let d = t as Dim;
    let e = Map::<Dim, (int, int)>::empty().insert(d, QQ::rone());
    assert(e.dom() =~= Set::<Dim>::empty().insert(d));
    let mt = crate::matrix::mat_transpose::<QQ>(rows_matrix::<QQ>(basis));
    let v = basis[t]@;
    assert(is_sparse::<QQ>(v));
    assert forall|j: Dim| #[trigger] crate::matrix::mat_vec::<QQ>(mt, e).contains_key(j) == v.contains_key(j) && (v.contains_key(j)
        ==> crate::matrix::mat_vec::<QQ>(mt, e)[j] == v[j]) by {
        lemma_span_column(basis, j);
        let col = crate::matrix::column_of::<QQ>(rows_matrix::<QQ>(basis), j);
        lemma_dot_unit(col, d);
        assert(coeff_of::<QQ>(col, d) == coeff_of::<QQ>(v, j));
        if v.contains_key(j) {
            assert(col.contains_key(d));
            assert(col != Map::<Dim, (int, int)>::empty());
        }
    }
    assert(crate::matrix::mat_vec::<QQ>(mt, e) =~= v);
    assert(is_sparse::<QQ>(e));
}

/// Spans grow with the basis.
pub proof fn lemma_in_span_push(basis: Seq<QQVector>, w: QQVector, v: QVec)
    requires
        all_sparse(basis),
        is_sparse::<QQ>(w@),
        basis.len() < i32::MAX,
        in_span(basis, v),
    ensures
        in_span(basis.push(w), v),
{
    QQ::lemma_valid_units();
    let b2 = basis.push(w);
    let x = choose|x: QVec| #[trigger] is_sparse::<QQ>(x) && crate::matrix::mat_vec::<QQ>(
        crate::matrix::mat_transpose::<QQ>(rows_matrix::<QQ>(basis)),
        x,
    ) == v;
    let x2 = Map::new(|i: Dim| x.contains_key(i) && 0 <= i < basis.len(), |i: Dim| x[i]);
    assert(x2.dom().subset_of(x.dom()));
    vstd::set_lib::lemma_len_subset(x2.dom(), x.dom());
    assert(is_sparse::<QQ>(x2));
    assert(all_sparse(b2)) by {
        assert forall|t: int| 0 <= t < b2.len() implies is_sparse::<QQ>(#[trigger] b2[t]@) by {
            if t < basis.len() {
                assert(b2[t] == basis[t]);
            }
        }
    }
    let mt = crate::matrix::mat_transpose::<QQ>(rows_matrix::<QQ>(basis));
    let mt2 = crate::matrix::mat_transpose::<QQ>(rows_matrix::<QQ>(b2));
    let top = basis.len() as Dim;
    assert forall|j: Dim| crate::ring::map_dot::<QQ>(crate::matrix::column_of::<QQ>(rows_matrix::<QQ>(b2), j), x2)
        == crate::ring::map_dot::<QQ>(crate::matrix::column_of::<QQ>(rows_matrix::<QQ>(basis), j), x) by {
        lemma_span_column(basis, j);
        lemma_span_column(b2, j);
        let col = crate::matrix::column_of::<QQ>(rows_matrix::<QQ>(basis), j);
        let col2 = crate::matrix::column_of::<QQ>(rows_matrix::<QQ>(b2), j);
        assert forall|t: Dim| #[trigger] col.contains_key(t) implies coeff_of::<QQ>(x2, t) == coeff_of::<QQ>(x, t) by {}
        crate::inner::lemma_dot_congr::<QQ>(col, x2, x);
        assert forall|t: Dim| 0 <= t < basis.len() implies b2[t as int] == basis[t as int] by {}
        if w@.contains_key(j) {
            assert forall|t: Dim| #[trigger] col2.contains_key(t) == col.insert(top, w@[j]).contains_key(t) by {
                if col2.contains_key(t) && t != top {
                    assert(coeff_of::<QQ>(col2, t) == coeff_of::<QQ>(b2[t as int]@, j));
                }
                if col.contains_key(t) {
                    assert(coeff_of::<QQ>(col2, t) == coeff_of::<QQ>(b2[t as int]@, j));
                }
                if t == top {
                    assert(coeff_of::<QQ>(col2, t) == coeff_of::<QQ>(b2[t as int]@, j));
                }
            }
            assert(col2 =~= col.insert(top, w@[j]));
            crate::inner::lemma_dot_insert::<QQ>(col, top, w@[j], x2);
            QQ::lemma_ring_axioms(w@[j], w@[j], w@[j]);
            crate::inner::lemma_dot_valid::<QQ>(col, x2);
            QQ::lemma_ring_axioms(crate::ring::map_dot::<QQ>(col, x2), QQ::rzero(), QQ::rzero());
        } else {
            assert forall|t: Dim| #[trigger] col2.contains_key(t) == col.contains_key(t) by {
                if col2.contains_key(t) {
                    assert(coeff_of::<QQ>(col2, t) == coeff_of::<QQ>(b2[t as int]@, j));
                }
                if col.contains_key(t) {
                    assert(coeff_of::<QQ>(col2, t) == coeff_of::<QQ>(b2[t as int]@, j));
                }
            }
            assert(col2 =~= col);
        }
    }
    assert forall|j: Dim| #[trigger] crate::matrix::mat_vec::<QQ>(mt2, x2).contains_key(j) == crate::matrix::mat_vec::<QQ>(mt, x).contains_key(j)
        by {
        let col = crate::matrix::column_of::<QQ>(rows_matrix::<QQ>(basis), j);
        let col2 = crate::matrix::column_of::<QQ>(rows_matrix::<QQ>(b2), j);
        if col == Map::<Dim, (int, int)>::empty() {
            crate::inner::lemma_dot_empty::<QQ>(x);
        }
        if col2 == Map::<Dim, (int, int)>::empty() {
            crate::inner::lemma_dot_empty::<QQ>(x2);
        }
    }
    assert(crate::matrix::mat_vec::<QQ>(mt2, x2) =~= v);
}

/// `a + k * b` lies in a span that holds `a` and `b`.
pub proof fn lemma_in_span_add_scaled(basis: Seq<QQVector>, a: QVec, k: (int, int), b: QVec)
    requires
        all_sparse(basis),
        crate::num::arith::is_canonical(k),
        is_sparse::<QQ>(a),
        is_sparse::<QQ>(b),
        in_span(basis, a),
        in_span(basis, b),
    ensures
        in_span(basis, map_add::<QQ>(a, map_scale::<QQ>(k, b))),
{
    QQ::lemma_valid_units();
    let mt = crate::matrix::mat_transpose::<QQ>(rows_matrix::<QQ>(basis));
    let xa = choose|x: QVec| #[trigger] is_sparse::<QQ>(x) && crate::matrix::mat_vec::<QQ>(mt, x) == a;
    let xb = choose|x: QVec| #[trigger] is_sparse::<QQ>(x) && crate::matrix::mat_vec::<QQ>(mt, x) == b;
    crate::inner::lemma_scale_sparse::<QQ>(k, xb);
    crate::inner::lemma_add_sparse::<QQ>(xa, map_scale::<QQ>(k, xb));
    let x = map_add::<QQ>(xa, map_scale::<QQ>(k, xb));
    crate::inner::lemma_scale_sparse::<QQ>(k, b);
    crate::inner::lemma_add_sparse::<QQ>(a, map_scale::<QQ>(k, b));
    let target = map_add::<QQ>(a, map_scale::<QQ>(k, b));
    assert forall|j: Dim| #[trigger] coeff_of::<QQ>(target, j) == (if mt.contains_key(j) {
        crate::ring::map_dot::<QQ>(mt[j], x)
    } else {
        QQ::rzero()
    }) by {
        lemma_coeff_add::<QQ>(a, map_scale::<QQ>(k, b), j);
        lemma_coeff_scale::<QQ>(k, b, j);
        if mt.contains_key(j) {
            lemma_span_column(basis, j);
            super::elimination::lemma_dot_add_right(mt[j], xa, map_scale::<QQ>(k, xb));
            super::elimination::lemma_dot_scale_right(mt[j], k, xb);
        } else {
            QQ::lemma_ring_axioms(k, k, k);
            QQ::lemma_ring_axioms(QQ::rzero(), QQ::rzero(), QQ::rzero());
        }
    }
    assert forall|j: Dim| #[trigger] crate::matrix::mat_vec::<QQ>(mt, x).contains_key(j) == target.contains_key(j) && (target.contains_key(
        j,
    ) ==> crate::matrix::mat_vec::<QQ>(mt, x)[j] == target[j]) by {
        assert(coeff_of::<QQ>(target, j) == (if mt.contains_key(j) {
            crate::ring::map_dot::<QQ>(mt[j], x)
        } else {
            QQ::rzero()
        }));
    }
    assert(crate::matrix::mat_vec::<QQ>(mt, x) =~= target);
}

/// Sparse maps with the same coefficients are equal.
pub proof fn lemma_sparse_ext(a: QVec, b: QVec)
    requires
        is_sparse::<QQ>(a),
        is_sparse::<QQ>(b),
        forall|d: Dim| #[trigger] coeff_of::<QQ>(a, d) == coeff_of::<QQ>(b, d),
    ensures
        a == b,
{
    assert forall|d: Dim| #[trigger] a.contains_key(d) == b.contains_key(d) && (a.contains_key(d) ==> a[d] == b[d]) by {
        assert(coeff_of::<QQ>(a, d) == coeff_of::<QQ>(b, d));
    }
    assert(a.dom() =~= b.dom());
    assert(a =~= b);
}

/// `k * b` lies in a span that holds `b`.
pub proof fn lemma_in_span_scale(basis: Seq<QQVector>, k: (int, int), b: QVec)
    requires
        all_sparse(basis),
        crate::num::arith::is_canonical(k),
        is_sparse::<QQ>(b),
        in_span(basis, b),
    ensures
        in_span(basis, map_scale::<QQ>(k, b)),
{
    QQ::lemma_valid_units();
    let z = Map::<Dim, (int, int)>::empty();
    let mt = crate::matrix::mat_transpose::<QQ>(rows_matrix::<QQ>(basis));
    assert(z.dom() =~= Set::<Dim>::empty());
    assert forall|j: Dim| !(#[trigger] crate::matrix::mat_vec::<QQ>(mt, z).contains_key(j)) by {
        if mt.contains_key(j) {
            lemma_span_column(basis, j);
            crate::matrix::lemma_dot_empty_right::<QQ>(mt[j]);
        }
    }
    assert(crate::matrix::mat_vec::<QQ>(mt, z) =~= z);
    assert(is_sparse::<QQ>(z));
    lemma_in_span_add_scaled(basis, z, k, b);
    crate::inner::lemma_scale_sparse::<QQ>(k, b);
    crate::inner::lemma_add_sparse::<QQ>(z, map_scale::<QQ>(k, b));
    assert forall|d: Dim| #[trigger] coeff_of::<QQ>(map_add::<QQ>(z, map_scale::<QQ>(k, b)), d) == coeff_of::<QQ>(map_scale::<QQ>(k, b), d) by {
        lemma_coeff_add::<QQ>(z, map_scale::<QQ>(k, b), d);
        crate::inner::lemma_coeff_valid::<QQ>(map_scale::<QQ>(k, b), d);
        super::elimination::lemma_zero_add(coeff_of::<QQ>(map_scale::<QQ>(k, b), d));
    }
    lemma_sparse_ext(map_add::<QQ>(z, map_scale::<QQ>(k, b)), map_scale::<QQ>(k, b));
}

/// The zero vector lies in every span.
pub proof fn lemma_in_span_zero(basis: Seq<QQVector>)
    requires
        all_sparse(basis),
    ensures
        in_span(basis, Map::<Dim, (int, int)>::empty()),
{
    QQ::lemma_valid_units();
    let z = Map::<Dim, (int, int)>::empty();
    let mt = crate::matrix::mat_transpose::<QQ>(rows_matrix::<QQ>(basis));
    assert(z.dom() =~= Set::<Dim>::empty());
    assert forall|j: Dim| !(#[trigger] crate::matrix::mat_vec::<QQ>(mt, z).contains_key(j)) by {
        if mt.contains_key(j) {
            lemma_span_column(basis, j);
            crate::matrix::lemma_dot_empty_right::<QQ>(mt[j]);
        }
    }
    assert(crate::matrix::mat_vec::<QQ>(mt, z) =~= z);
    assert(is_sparse::<QQ>(z));
}

/// A vector in the span of `basis` extended by `w` is a vector of the span
/// of `basis` plus a multiple of `w`.
proof fn lemma_in_span_split(basis: Seq<QQVector>, w: QQVector, v: QVec)
    requires
        all_sparse(basis.push(w)),
        basis.len() < i32::MAX,
        is_sparse::<QQ>(v),
        in_span(basis.push(w), v),
    ensures
        exists|c: (int, int), v2: QVec|
            #[trigger] crate::num::arith::is_canonical(c) && #[trigger] is_sparse::<QQ>(v2) && in_span(basis, v2) && v == map_add::<QQ>(
                v2,
                map_scale::<QQ>(c, w@),
            ),
{
    QQ::lemma_valid_units();
    let b2 = basis.push(w);
    let top = basis.len() as Dim;
    assert(is_sparse::<QQ>(b2[basis.len() as int]@));
    assert(b2[basis.len() as int] == w);
    assert(all_sparse(basis)) by {
        assert forall|t: int| 0 <= t < basis.len() implies is_sparse::<QQ>(#[trigger] basis[t]@) by {
            assert(b2[t] == basis[t]);
        }
    }
    let mt2 = crate::matrix::mat_transpose::<QQ>(rows_matrix::<QQ>(b2));
    let mt = crate::matrix::mat_transpose::<QQ>(rows_matrix::<QQ>(basis));
    let x = choose|x: QVec| #[trigger] is_sparse::<QQ>(x) && crate::matrix::mat_vec::<QQ>(mt2, x) == v;
    let c = coeff_of::<QQ>(x, top);
    crate::inner::lemma_coeff_valid::<QQ>(x, top);
    let x1 = Map::new(|i: Dim| x.contains_key(i) && 0 <= i < basis.len(), |i: Dim| x[i]);
    assert(x1.dom().subset_of(x.dom()));
    vstd::set_lib::lemma_len_subset(x1.dom(), x.dom());
    assert(is_sparse::<QQ>(x1));
    let nc = QQ::rneg(c);
    QQ::lemma_valid_closed(c, c);
    crate::inner::lemma_scale_sparse::<QQ>(nc, w@);
    crate::inner::lemma_add_sparse::<QQ>(v, map_scale::<QQ>(nc, w@));
    let v2 = map_add::<QQ>(v, map_scale::<QQ>(nc, w@));
    assert forall|j: Dim| #[trigger] coeff_of::<QQ>(v2, j) == crate::ring::map_dot::<QQ>(
        crate::matrix::column_of::<QQ>(rows_matrix::<QQ>(basis), j),
        x1,
    ) by {
        lemma_span_column(basis, j);
        lemma_span_column(b2, j);
        let col = crate::matrix::column_of::<QQ>(rows_matrix::<QQ>(basis), j);
        let col2 = crate::matrix::column_of::<QQ>(rows_matrix::<QQ>(b2), j);
        assert forall|t: Dim| #[trigger] col.contains_key(t) implies coeff_of::<QQ>(x1, t) == coeff_of::<QQ>(x, t) by {}
        crate::inner::lemma_dot_congr::<QQ>(col, x1, x);
        crate::inner::lemma_dot_valid::<QQ>(col, x);
        crate::inner::lemma_dot_valid::<QQ>(col2, x);
        if col2 == Map::<Dim, (int, int)>::empty() {
            crate::inner::lemma_dot_empty::<QQ>(x);
        }
        assert(coeff_of::<QQ>(v, j) == crate::ring::map_dot::<QQ>(col2, x));
        assert forall|t: Dim| 0 <= t < basis.len() implies b2[t as int] == basis[t as int] by {}
        lemma_coeff_add::<QQ>(v, map_scale::<QQ>(nc, w@), j);
        lemma_coeff_scale::<QQ>(nc, w@, j);
        crate::inner::lemma_coeff_valid::<QQ>(w@, j);
        let wj = coeff_of::<QQ>(w@, j);
        crate::inner::lemma_neg_facts::<QQ>(wj, c);
        crate::num::arith::lemma_rat_ring(wj, c, c);
        crate::num::arith::lemma_rat_ring(wj, nc, nc);
        QQ::lemma_valid_closed(wj, c);
        QQ::lemma_ring_axioms(crate::ring::map_dot::<QQ>(col, x), QQ::rmul(wj, c), QQ::rneg(QQ::rmul(wj, c)));
        if w@.contains_key(j) {
            assert forall|t: Dim| #[trigger] col2.contains_key(t) == col.insert(top, wj).contains_key(t) by {
                if col2.contains_key(t) && t != top {
                    assert(coeff_of::<QQ>(col2, t) == coeff_of::<QQ>(b2[t as int]@, j));
                }
                if col.contains_key(t) {
                    assert(coeff_of::<QQ>(col2, t) == coeff_of::<QQ>(b2[t as int]@, j));
                }
                if t == top {
                    assert(coeff_of::<QQ>(col2, t) == coeff_of::<QQ>(b2[t as int]@, j));
                }
            }
            assert(col2 =~= col.insert(top, wj));
            crate::inner::lemma_dot_insert::<QQ>(col, top, wj, x);
            QQ::lemma_ring_axioms(QQ::rmul(wj, c), QQ::rmul(wj, c), QQ::rmul(wj, c));
            QQ::lemma_ring_axioms(crate::ring::map_dot::<QQ>(col, x), QQ::rzero(), QQ::rzero());
        } else {
            assert forall|t: Dim| #[trigger] col2.contains_key(t) == col.contains_key(t) by {
                if col2.contains_key(t) {
                    assert(coeff_of::<QQ>(col2, t) == coeff_of::<QQ>(b2[t as int]@, j));
                }
                if col.contains_key(t) {
                    assert(coeff_of::<QQ>(col2, t) == coeff_of::<QQ>(b2[t as int]@, j));
                }
            }
            assert(col2 =~= col);
            QQ::lemma_ring_axioms(c, c, c);
            QQ::lemma_ring_axioms(nc, nc, nc);
            QQ::lemma_ring_axioms(crate::ring::map_dot::<QQ>(col, x), QQ::rzero(), QQ::rzero());
        }
    }
    assert forall|j: Dim| #[trigger] crate::matrix::mat_vec::<QQ>(mt, x1).contains_key(j) == v2.contains_key(j) && (v2.contains_key(j)
        ==> crate::matrix::mat_vec::<QQ>(mt, x1)[j] == v2[j]) by {
        assert(coeff_of::<QQ>(v2, j) == crate::ring::map_dot::<QQ>(crate::matrix::column_of::<QQ>(rows_matrix::<QQ>(basis), j), x1));
        if !mt.contains_key(j) {
            crate::inner::lemma_dot_empty::<QQ>(x1);
            assert(crate::matrix::column_of::<QQ>(rows_matrix::<QQ>(basis), j) =~= Map::<Dim, (int, int)>::empty());
        }
    }
    assert(crate::matrix::mat_vec::<QQ>(mt, x1) =~= v2);
    assert(in_span(basis, v2));
    crate::inner::lemma_scale_sparse::<QQ>(c, w@);
    crate::inner::lemma_add_sparse::<QQ>(v2, map_scale::<QQ>(c, w@));
    assert forall|d: Dim| #[trigger] coeff_of::<QQ>(v, d) == coeff_of::<QQ>(map_add::<QQ>(v2, map_scale::<QQ>(c, w@)), d) by {
        lemma_coeff_add::<QQ>(v2, map_scale::<QQ>(c, w@), d);
        lemma_coeff_add::<QQ>(v, map_scale::<QQ>(nc, w@), d);
        lemma_coeff_scale::<QQ>(c, w@, d);
        lemma_coeff_scale::<QQ>(nc, w@, d);
        crate::inner::lemma_coeff_valid::<QQ>(v, d);
        crate::inner::lemma_coeff_valid::<QQ>(w@, d);
        let wd = coeff_of::<QQ>(w@, d);
        crate::num::arith::lemma_rat_ring(nc, wd, wd);
        crate::num::arith::lemma_rat_ring(c, wd, wd);
        crate::inner::lemma_neg_facts::<QQ>(wd, c);
        QQ::lemma_valid_closed(c, wd);
        QQ::lemma_valid_closed(wd, c);
        QQ::lemma_ring_axioms(coeff_of::<QQ>(v, d), QQ::rneg(QQ::rmul(c, wd)), QQ::rmul(c, wd));
        QQ::lemma_ring_axioms(QQ::rmul(c, wd), QQ::rneg(QQ::rmul(c, wd)), QQ::rzero());
    }
    lemma_sparse_ext(v, map_add::<QQ>(v2, map_scale::<QQ>(c, w@)));
}

/// Spans are transitive: if every vector of `t` lies in the span of `s`,
/// so does every vector of the span of `t`.
pub proof fn lemma_in_span_trans(s: Seq<QQVector>, t: Seq<QQVector>, v: QVec)
    requires
        all_sparse(s),
        all_sparse(t),
        t.len() <= i32::MAX,
        forall|k: int| 0 <= k < t.len() ==> in_span(s, (#[trigger] t[k])@),
        is_sparse::<QQ>(v),
        in_span(t, v),
    ensures
        in_span(s, v),
    decreases t.len(),
{
    QQ::lemma_valid_units();
    if t.len() == 0 {
        let mt = crate::matrix::mat_transpose::<QQ>(rows_matrix::<QQ>(t));
        assert(rows_matrix::<QQ>(t) =~= Map::<Dim, Map<Dim, (int, int)>>::empty());
        let x = choose|x: QVec| #[trigger] is_sparse::<QQ>(x) && crate::matrix::mat_vec::<QQ>(mt, x) == v;
        assert forall|j: Dim| !mt.contains_key(j) by {
            assert(crate::matrix::column_of::<QQ>(rows_matrix::<QQ>(t), j) =~= Map::<Dim, (int, int)>::empty());
        }
        assert(v =~= Map::<Dim, (int, int)>::empty());
        lemma_in_span_zero(s);
    } else {
        let t1 = t.drop_last();
        let w = t.last();
        assert(t1.push(w) =~= t);
        lemma_in_span_split(t1, w, v);
        let (c, v2) = choose|c: (int, int), v2: QVec|
            #[trigger] crate::num::arith::is_canonical(c) && #[trigger] is_sparse::<QQ>(v2) && in_span(t1, v2) && v == map_add::<QQ>(
                v2,
                map_scale::<QQ>(c, w@),
            );
        assert(all_sparse(t1)) by {
            assert forall|k: int| 0 <= k < t1.len() implies is_sparse::<QQ>(#[trigger] t1[k]@) by {
                assert(t1[k] == t[k]);
            }
        }
        assert forall|k: int| 0 <= k < t1.len() implies in_span(s, (#[trigger] t1[k])@) by {
            assert(t1[k] == t[k]);
        }
        lemma_in_span_trans(s, t1, v2);
        assert(in_span(s, t[t.len() - 1]@));
        assert(is_sparse::<QQ>(t[t.len() - 1]@));
        lemma_in_span_add_scaled(s, v2, c, w@);
    }
}

/// Undoing an elimination step: if `new = old - k * n` and the span holds
/// `new` and `n`, it holds `old`.
pub proof fn lemma_span_update(basis: Seq<QQVector>, old: QVec, new: QVec, n: QVec, k: (int, int))
    requires
        all_sparse(basis),
        crate::num::arith::is_canonical(k),
        is_sparse::<QQ>(old),
        is_sparse::<QQ>(n),
        new == map_add::<QQ>(old, map_scale::<QQ>(QQ::rneg(k), n)),
        in_span(basis, new),
        in_span(basis, n),
    ensures
        in_span(basis, old),
{
    QQ::lemma_valid_units();
    QQ::lemma_valid_closed(k, k);
    crate::inner::lemma_scale_sparse::<QQ>(QQ::rneg(k), n);
    crate::inner::lemma_add_sparse::<QQ>(old, map_scale::<QQ>(QQ::rneg(k), n));
    lemma_in_span_add_scaled(basis, new, k, n);
    crate::inner::lemma_scale_sparse::<QQ>(k, n);
    crate::inner::lemma_add_sparse::<QQ>(new, map_scale::<QQ>(k, n));
    assert forall|d: Dim| #[trigger] coeff_of::<QQ>(old, d) == coeff_of::<QQ>(map_add::<QQ>(new, map_scale::<QQ>(k, n)), d) by {
        lemma_coeff_add::<QQ>(new, map_scale::<QQ>(k, n), d);
        lemma_coeff_add::<QQ>(old, map_scale::<QQ>(QQ::rneg(k), n), d);
        lemma_coeff_scale::<QQ>(k, n, d);
        lemma_coeff_scale::<QQ>(QQ::rneg(k), n, d);
        crate::inner::lemma_coeff_valid::<QQ>(old, d);
        crate::inner::lemma_coeff_valid::<QQ>(n, d);
        let nd = coeff_of::<QQ>(n, d);
        crate::num::arith::lemma_rat_ring(QQ::rneg(k), nd, nd);
        crate::num::arith::lemma_rat_ring(k, nd, nd);
        crate::inner::lemma_neg_facts::<QQ>(nd, k);
        QQ::lemma_valid_closed(k, nd);
        QQ::lemma_valid_closed(nd, k);
        QQ::lemma_valid_closed(QQ::rmul(k, nd), QQ::rmul(k, nd));
        QQ::lemma_ring_axioms(coeff_of::<QQ>(old, d), QQ::rneg(QQ::rmul(k, nd)), QQ::rmul(k, nd));
        QQ::lemma_ring_axioms(QQ::rmul(k, nd), QQ::rneg(QQ::rmul(k, nd)), QQ::rzero());
        QQ::lemma_ring_axioms(QQ::rneg(QQ::rmul(k, nd)), QQ::rmul(k, nd), QQ::rzero());
    }
    lemma_sparse_ext(old, map_add::<QQ>(new, map_scale::<QQ>(k, n)));
}

/// One step of `simplify` keeps the input vectors in the span of the working
/// vectors, and the processed vectors in the span of the reduced ones.
proof fn lemma_simplify_spans(
    b0: Seq<QQVector>,
    xs: Seq<QQVector>,
    ys: Seq<QQVector>,
    xs2: Seq<QQVector>,
    ys2: Seq<QQVector>,
    n: QQVector,
    dim: Dim,
    yi: int,
    cy: (int, int),
)
    requires
        all_sparse(b0),
        all_sparse(xs),
        all_sparse(ys),
        all_sparse(xs2),
        all_sparse(ys2),
        2 * b0.len() <= i32::MAX,
        ys.len() == b0.len(),
        ys2.len() == ys.len(),
        xs2.len() == xs.len() + 1,
        xs.len() <= yi,
        0 <= yi < ys.len(),
        xs2[xs.len() as int] == n,
        crate::num::arith::is_canonical(cy),
        forall|s: int| 0 <= s < xs.len() ==> (#[trigger] xs2[s])@ == map_add::<QQ>(
            xs[s]@,
            map_scale::<QQ>(QQ::rneg(coeff_of::<QQ>(xs[s]@, dim)), n@),
        ),
        forall|u: int| 0 <= u <= yi ==> (#[trigger] ys2[u])@ == ys[u]@,
        forall|u: int| yi < u < ys.len() ==> (#[trigger] ys2[u])@ == map_add::<QQ>(
            ys[u]@,
            map_scale::<QQ>(QQ::rneg(coeff_of::<QQ>(ys[u]@, dim)), n@),
        ),
        ys[yi]@ == map_scale::<QQ>(cy, n@),
        forall|u: int| 0 <= u < b0.len() ==> in_span(ys + xs, (#[trigger] b0[u])@),
        forall|u: int| 0 <= u < yi ==> in_span(xs, (#[trigger] ys[u])@),
    ensures
        forall|u: int| 0 <= u < b0.len() ==> in_span(ys2 + xs2, (#[trigger] b0[u])@),
        forall|u: int| 0 <= u <= yi ==> in_span(xs2, (#[trigger] ys2[u])@),
{
    QQ::lemma_valid_units();
    let w = ys + xs;
    let w2 = ys2 + xs2;
    assert(all_sparse(w)) by {
        assert forall|i: int| 0 <= i < w.len() implies is_sparse::<QQ>(#[trigger] w[i]@) by {
            if i >= ys.len() {
                assert(w[i] == xs[i - ys.len()]);
            }
        }
    }
    assert(all_sparse(w2)) by {
        assert forall|i: int| 0 <= i < w2.len() implies is_sparse::<QQ>(#[trigger] w2[i]@) by {
            if i >= ys2.len() {
                assert(w2[i] == xs2[i - ys2.len()]);
            }
        }
    }
    let last = w2.len() - 1;
    assert(w2[last] == n);
    lemma_in_span_member(w2, last);
    assert forall|i: int| 0 <= i < w.len() implies in_span(w2, (#[trigger] w[i])@) by {
        if i < ys.len() {
            assert(w[i] == ys[i]);
            assert(w2[i] == ys2[i]);
            lemma_in_span_member(w2, i);
            if i > yi {
                crate::inner::lemma_coeff_valid::<QQ>(ys[i]@, dim);
                lemma_span_update(w2, ys[i]@, ys2[i]@, n@, coeff_of::<QQ>(ys[i]@, dim));
            }
        } else {
            let s = i - ys.len();
            assert(w[i] == xs[s]);
            assert(w2[i] == xs2[s]);
            lemma_in_span_member(w2, i);
            crate::inner::lemma_coeff_valid::<QQ>(xs[s]@, dim);
            lemma_span_update(w2, xs[s]@, xs2[s]@, n@, coeff_of::<QQ>(xs[s]@, dim));
        }
    }
    assert forall|u: int| 0 <= u < b0.len() implies in_span(w2, (#[trigger] b0[u])@) by {
        lemma_in_span_trans(w2, w, b0[u]@);
    }
    lemma_in_span_member(xs2, xs.len() as int);
    assert forall|s: int| 0 <= s < xs.len() implies in_span(xs2, (#[trigger] xs[s])@) by {
        lemma_in_span_member(xs2, s);
        crate::inner::lemma_coeff_valid::<QQ>(xs[s]@, dim);
        lemma_span_update(xs2, xs[s]@, xs2[s]@, n@, coeff_of::<QQ>(xs[s]@, dim));
    }
    assert forall|u: int| 0 <= u <= yi implies in_span(xs2, (#[trigger] ys2[u])@) by {
        if u < yi {
            lemma_in_span_trans(xs2, xs, ys[u]@);
        } else {
            lemma_in_span_scale(xs2, cy, n@);
        }
    }
}

/// The entries of `x` at the positions `0 .. n`.
pub open spec fn below(x: QVec, n: int) -> QVec {
    Map::new(|i: Dim| x.contains_key(i) && 0 <= i < n, |i: Dim| x[i])
}

/// The vectors of `basis` are linearly independent: a combination that
/// gives zero has no coefficient at any position of `basis`.
pub open spec fn independent(basis: Seq<QQVector>) -> bool {
    forall|x: QVec|
        #[trigger] is_sparse::<QQ>(x) && crate::matrix::mat_vec::<QQ>(
            crate::matrix::mat_transpose::<QQ>(rows_matrix::<QQ>(basis)),
            x,
        ) == Map::<Dim, (int, int)>::empty() ==> forall|i: Dim| 0 <= i < basis.len() ==> !#[trigger] x.contains_key(i)
}

/// Column `j` of a basis extended by `w`, against `x`: the part of the old
/// basis plus `w[j]` times the coefficient of `x` at the new position.
proof fn lemma_push_column(basis: Seq<QQVector>, w: QQVector, x: QVec, j: Dim)
    requires
        all_sparse(basis.push(w)),
        basis.len() < i32::MAX,
        is_sparse::<QQ>(x),
    ensures
        is_sparse::<QQ>(below(x, basis.len() as int)),
        crate::ring::map_dot::<QQ>(crate::matrix::column_of::<QQ>(rows_matrix::<QQ>(basis.push(w)), j), x) == QQ::radd(
            crate::ring::map_dot::<QQ>(crate::matrix::column_of::<QQ>(rows_matrix::<QQ>(basis), j), below(x, basis.len() as int)),
            QQ::rmul(coeff_of::<QQ>(w@, j), coeff_of::<QQ>(x, basis.len() as Dim)),
        ),
{
    QQ::lemma_valid_units();
    let b2 = basis.push(w);
    let top = basis.len() as Dim;
    let x1 = below(x, basis.len() as int);
    assert(x1.dom().subset_of(x.dom()));
    vstd::set_lib::lemma_len_subset(x1.dom(), x.dom());
    assert(b2[basis.len() as int] == w);
    assert(all_sparse(basis)) by {
        assert forall|t: int| 0 <= t < basis.len() implies is_sparse::<QQ>(#[trigger] basis[t]@) by {
            assert(b2[t] == basis[t]);
        }
    }
    lemma_span_column(basis, j);
    lemma_span_column(b2, j);
    let col = crate::matrix::column_of::<QQ>(rows_matrix::<QQ>(basis), j);
    let col2 = crate::matrix::column_of::<QQ>(rows_matrix::<QQ>(b2), j);
    assert forall|t: Dim| #[trigger] col.contains_key(t) implies coeff_of::<QQ>(x1, t) == coeff_of::<QQ>(x, t) by {}
    crate::inner::lemma_dot_congr::<QQ>(col, x1, x);
    crate::inner::lemma_dot_valid::<QQ>(col, x);
    assert forall|t: Dim| 0 <= t < basis.len() implies b2[t as int] == basis[t as int] by {}
    let wj = coeff_of::<QQ>(w@, j);
    let c = coeff_of::<QQ>(x, top);
    crate::inner::lemma_coeff_valid::<QQ>(x, top);
    if w@.contains_key(j) {
        assert forall|t: Dim| #[trigger] col2.contains_key(t) == col.insert(top, wj).contains_key(t) by {
            if col2.contains_key(t) && t != top {
                assert(coeff_of::<QQ>(col2, t) == coeff_of::<QQ>(b2[t as int]@, j));
            }
            if col.contains_key(t) {
                assert(coeff_of::<QQ>(col2, t) == coeff_of::<QQ>(b2[t as int]@, j));
            }
            if t == top {
                assert(coeff_of::<QQ>(col2, t) == coeff_of::<QQ>(b2[t as int]@, j));
            }
        }
        assert(col2 =~= col.insert(top, wj));
        crate::inner::lemma_dot_insert::<QQ>(col, top, wj, x);
    } else {
        assert forall|t: Dim| #[trigger] col2.contains_key(t) == col.contains_key(t) by {
            if col2.contains_key(t) {
                assert(coeff_of::<QQ>(col2, t) == coeff_of::<QQ>(b2[t as int]@, j));
            }
            if col.contains_key(t) {
                assert(coeff_of::<QQ>(col2, t) == coeff_of::<QQ>(b2[t as int]@, j));
            }
        }
        assert(col2 =~= col);
        QQ::lemma_ring_axioms(c, c, c);
        QQ::lemma_ring_axioms(crate::ring::map_dot::<QQ>(col, x), QQ::rzero(), QQ::rzero());
    }
}

/// Extending an independent basis by a vector outside its span keeps it
/// independent.
pub proof fn lemma_independent_push(basis: Seq<QQVector>, w: QQVector)
    requires
        all_sparse(basis.push(w)),
        basis.len() < i32::MAX,
        independent(basis),
        !in_span(basis, w@),
    ensures
        independent(basis.push(w)),
{
    QQ::lemma_valid_units();
    let b2 = basis.push(w);
    let n = basis.len() as int;
    let top = basis.len() as Dim;
    let mt = crate::matrix::mat_transpose::<QQ>(rows_matrix::<QQ>(basis));
    let mt2 = crate::matrix::mat_transpose::<QQ>(rows_matrix::<QQ>(b2));
    assert(b2[n] == w);
    assert(is_sparse::<QQ>(w@));
    assert(all_sparse(basis)) by {
        assert forall|t: int| 0 <= t < basis.len() implies is_sparse::<QQ>(#[trigger] basis[t]@) by {
            assert(b2[t] == basis[t]);
        }
    }
    assert forall|x: QVec|
        #[trigger] is_sparse::<QQ>(x) && crate::matrix::mat_vec::<QQ>(mt2, x) == Map::<Dim, (int, int)>::empty() implies forall|i: Dim|
        0 <= i < b2.len() ==> !#[trigger] x.contains_key(i) by {
        let x1 = below(x, n);
        lemma_push_column(basis, w, x, 0);
        let c = coeff_of::<QQ>(x, top);
        crate::inner::lemma_coeff_valid::<QQ>(x, top);
        assert forall|j: Dim| #[trigger] crate::ring::map_dot::<QQ>(crate::matrix::column_of::<QQ>(rows_matrix::<QQ>(basis), j), x1)
            == QQ::rneg(QQ::rmul(coeff_of::<QQ>(w@, j), c)) by {
            lemma_push_column(basis, w, x, j);
            lemma_span_column(basis, j);
            let col2 = crate::matrix::column_of::<QQ>(rows_matrix::<QQ>(b2), j);
            if col2 == Map::<Dim, (int, int)>::empty() {
                crate::inner::lemma_dot_empty::<QQ>(x);
            }
            assert(!crate::matrix::mat_vec::<QQ>(mt2, x).contains_key(j));
            let d1 = crate::ring::map_dot::<QQ>(crate::matrix::column_of::<QQ>(rows_matrix::<QQ>(basis), j), x1);
            crate::inner::lemma_dot_valid::<QQ>(crate::matrix::column_of::<QQ>(rows_matrix::<QQ>(basis), j), x1);
            crate::inner::lemma_coeff_valid::<QQ>(w@, j);
            QQ::lemma_valid_closed(coeff_of::<QQ>(w@, j), c);
            QQ::lemma_ring_axioms(d1, QQ::rmul(coeff_of::<QQ>(w@, j), c), QQ::rmul(coeff_of::<QQ>(w@, j), c));
            crate::inner::lemma_neg_unique::<QQ>(QQ::rmul(coeff_of::<QQ>(w@, j), c), d1);
        }
        if c != QQ::rzero() {
            // Then `w` is a combination of `basis`, with coefficients `-x1 / c`.
            super::lemma_nonzero_numerator(c);
            crate::num::arith::lemma_rat_inv(c);
            let k = QQ::rneg(crate::num::arith::rat_inv(c));
            QQ::lemma_valid_closed(crate::num::arith::rat_inv(c), crate::num::arith::rat_inv(c));
            crate::inner::lemma_scale_sparse::<QQ>(k, x1);
            let xw = map_scale::<QQ>(k, x1);
            assert forall|j: Dim| #[trigger] crate::matrix::mat_vec::<QQ>(mt, xw).contains_key(j) == w@.contains_key(j) && (w@.contains_key(
                j,
            ) ==> crate::matrix::mat_vec::<QQ>(mt, xw)[j] == w@[j]) by {
                lemma_span_column(basis, j);
                let col = crate::matrix::column_of::<QQ>(rows_matrix::<QQ>(basis), j);
                super::elimination::lemma_dot_scale_right(col, k, x1);
                let wj = coeff_of::<QQ>(w@, j);
                crate::inner::lemma_coeff_valid::<QQ>(w@, j);
                assert(crate::ring::map_dot::<QQ>(col, x1) == QQ::rneg(QQ::rmul(wj, c)));
                super::elimination::lemma_unscale(c, wj);
                assert(crate::ring::map_dot::<QQ>(col, xw) == wj);
                if !mt.contains_key(j) {
                    assert(col =~= Map::<Dim, (int, int)>::empty());
                    crate::inner::lemma_dot_empty::<QQ>(xw);
                }
            }
            assert(crate::matrix::mat_vec::<QQ>(mt, xw) =~= w@);
            assert(false);
        }
        assert forall|j: Dim| !(#[trigger] crate::matrix::mat_vec::<QQ>(mt, x1).contains_key(j)) by {
            lemma_push_column(basis, w, x, j);
            QQ::lemma_ring_axioms(coeff_of::<QQ>(w@, j), coeff_of::<QQ>(w@, j), coeff_of::<QQ>(w@, j));
            crate::inner::lemma_coeff_valid::<QQ>(w@, j);
            crate::inner::lemma_neg_facts::<QQ>(QQ::rzero(), QQ::rzero());
        }
        assert(crate::matrix::mat_vec::<QQ>(mt, x1) =~= Map::<Dim, (int, int)>::empty());
        lemma_push_column(basis, w, x, 0);
        assert forall|i: Dim| 0 <= i < b2.len() implies !#[trigger] x.contains_key(i) by {
            if i < n {
                assert(!x1.contains_key(i));
            }
        }
    }
}

/// Vectors in reduced echelon form are independent: the coefficient of a
/// combination at the pivot of a vector is the weight of that vector.
pub proof fn lemma_reduced_independent(xs: Seq<QQVector>, ps: Seq<Dim>)
    requires
        all_sparse(xs),
        xs.len() <= i32::MAX,
        reduced_at(xs, ps),
    ensures
        independent(xs),
{
    QQ::lemma_valid_units();
    let mt = crate::matrix::mat_transpose::<QQ>(rows_matrix::<QQ>(xs));
    assert forall|x: QVec|
        #[trigger] is_sparse::<QQ>(x) && crate::matrix::mat_vec::<QQ>(mt, x) == Map::<Dim, (int, int)>::empty() implies forall|i: Dim|
        0 <= i < xs.len() ==> !#[trigger] x.contains_key(i) by {
        assert forall|i: Dim| 0 <= i < xs.len() implies !#[trigger] x.contains_key(i) by {
            let j = ps[i as int];
            lemma_span_column(xs, j);
            let col = crate::matrix::column_of::<QQ>(rows_matrix::<QQ>(xs), j);
            let e = Map::<Dim, (int, int)>::empty().insert(i, QQ::rone());
            assert forall|t: Dim| #[trigger] col.contains_key(t) == e.contains_key(t) && (e.contains_key(t) ==> col[t] == e[t]) by {
                if 0 <= t < xs.len() {
                    assert(coeff_of::<QQ>(col, t) == coeff_of::<QQ>(xs[t as int]@, j));
                    if t != i {
                        assert(coeff_of::<QQ>(xs[t as int]@, ps[i as int]) == (0int, 1int));
                    }
                }
            }
            assert(col =~= e);
            let z = Map::<Dim, (int, int)>::empty();
            assert(z.dom() =~= Set::<Dim>::empty());
            crate::inner::lemma_dot_insert::<QQ>(z, i, QQ::rone(), x);
            crate::inner::lemma_dot_empty::<QQ>(x);
            crate::inner::lemma_coeff_valid::<QQ>(x, i);
            QQ::lemma_ring_axioms(coeff_of::<QQ>(x, i), coeff_of::<QQ>(x, i), coeff_of::<QQ>(x, i));
            super::elimination::lemma_zero_add(coeff_of::<QQ>(x, i));
            assert(col.contains_key(i));
            assert(mt.contains_key(j));
            assert(!crate::matrix::mat_vec::<QQ>(mt, x).contains_key(j));
        }
    }
}

/// Empty vector space.
pub fn empty() -> (r: Vec<QQVector>)
    ensures
        r@.len() == 0,
{
    Vec::new()
}

/// Is `basis` the empty vector space?
pub fn is_empty(basis: &[QQVector]) -> (r: bool)
    ensures
        r == (basis@.len() == 0),
{
    basis.len() == 0
}

/// Membership in the span of `basis`.
pub fn mem(basis: &[QQVector], v: &QQVector) -> (r: bool)
    requires
        basis@.len() < i32::MAX,
    ensures
        r == in_span(basis@, v@),
{
    mem_vector_space(basis, v)
}

/// Is `u` a subspace of `v`?
pub fn subspace(u: &[QQVector], v: &[QQVector]) -> (r: bool)
    requires
        v@.len() < i32::MAX,
    ensures
        r == forall|k: int| 0 <= k < u@.len() ==> in_span(v@, (#[trigger] u@[k])@),
{
    let mut k: usize = 0;
    while k < u.len()
        invariant
            k <= u@.len(),
            v@.len() < i32::MAX,
            forall|t: int| 0 <= t < k ==> in_span(v@, (#[trigger] u@[t])@),
        decreases u@.len() - k,
    {
        if !mem(v, &u[k]) {
            assert(!in_span(v@, u@[k as int]@));
            return false;
        }
        k = k + 1;
    }
    true
}

/// Do `u` and `v` span the same space?
pub fn equal(u: &[QQVector], v: &[QQVector]) -> (r: bool)
    requires
        u@.len() < i32::MAX,
        v@.len() < i32::MAX,
    ensures
        r == ((forall|k: int| 0 <= k < u@.len() ==> in_span(v@, (#[trigger] u@[k])@)) && (forall|k: int|
            0 <= k < v@.len() ==> in_span(u@, (#[trigger] v@[k])@))),
{
    subspace(u, v) && subspace(v, u)
}

/// Pack a basis into a matrix whose rows are the basis vectors.
pub fn matrix_of(basis: &[QQVector]) -> (r: QQMatrix)
    requires
        basis@.len() <= i32::MAX + 1,
    ensures
        r@ == rows_matrix::<QQ>(basis@),
{
    let mut rows: Vec<QQVector> = Vec::new();
    let mut k: usize = 0;
    while k < basis.len()
        invariant
            k <= basis@.len(),
            rows@.len() == k,
            forall|t: int| 0 <= t < k ==> (#[trigger] rows@[t])@ == basis@[t]@,
        decreases basis@.len() - k,
    {
        rows.push(basis[k].clone());
        k = k + 1;
    }
    let ghost rv = rows@;
    let m = QQMatrix::of_rows(rows);
    proof {
        assert(rows_matrix::<QQ>(rv) =~= rows_matrix::<QQ>(basis@));
    }
    m
}

/// Treat the rows of `m` as a basis for the space they span. Assumes
/// the rows are linearly independent.
pub fn of_matrix(m: &QQMatrix) -> (r: Vec<QQVector>)
    ensures
        r@.len() == m@.dom().len(),
        forall|t: int| 0 <= t < r@.len() ==> is_row_of(m@, #[trigger] r@[t]@),
        forall|i: Dim| #[trigger] m@.contains_key(i) ==> occurs_in(r@, m@[i]),
{
    let rows = m.rows_iter();
    let mut out: Vec<QQVector> = Vec::new();
    let mut k: usize = 0;
    while k < rows.len()
        invariant
            k <= rows@.len(),
            crate::ring::sorted_keys(rows@),
            seq_view(rows@) == m@,
            out@.len() == k,
            forall|t: int| 0 <= t < k ==> (#[trigger] out@[t])@ == rows@[t].1@,
        decreases rows@.len() - k,
    {
        out.push(rows[k].1.clone());
        k = k + 1;
    }
    proof {
        crate::ring::lemma_view_len(rows@);
        assert forall|t: int| 0 <= t < out@.len() implies is_row_of(m@, #[trigger] out@[t]@) by {
            crate::ring::lemma_view_index(rows@, t);
            assert(m@.contains_key(rows@[t].0));
        }
        assert forall|i: Dim| #[trigger] m@.contains_key(i) implies occurs_in(out@, m@[i]) by {
            let t = choose|t: int| 0 <= t < rows@.len() && #[trigger] rows@[t].0 == i;
            crate::ring::lemma_view_index(rows@, t);
            assert(out@[t]@ == m@[i]);
        }
    }
    out
}

/// `w` is a combination `x * m` of the rows of `m`.
pub open spec fn in_row_space(m: Map<Dim, QVec>, w: QVec) -> bool {
    exists|x: QVec| #[trigger] vec_mat::<QQ>(x, m) == w
}

/// Vector `t` of `r` is one at `ps[t]` and zero at every earlier position
/// of `ps`.
pub open spec fn echelon_at(r: Seq<QQVector>, ps: Seq<Dim>) -> bool {
    &&& ps.len() == r.len()
    &&& forall|s: int, t: int|
        0 <= s <= t < r.len() ==> #[trigger] coeff_of::<QQ>(r[t]@, ps[s]) == (if s == t {
            QQ::rone()
        } else {
            QQ::rzero()
        })
}

/// A vector `x * mu == y * mv` of both row spaces that is zero at every
/// position of `ps` is the zero vector (for `x` and `y` whose indices can be
/// doubled within `Dim`).
pub open spec fn pins_meet(mu: Map<Dim, QVec>, mv: Map<Dim, QVec>, ps: Seq<Dim>) -> bool {
    forall|x: QVec, y: QVec|
        #![trigger vec_mat::<QQ>(x, mu), vec_mat::<QQ>(y, mv)]
        is_sparse::<QQ>(x) && is_sparse::<QQ>(y) && interlace_ok(x) && interlace_ok(y) && vec_mat::<QQ>(x, mu) == vec_mat::<QQ>(
            y,
            mv,
        ) && vanishes_at(vec_mat::<QQ>(x, mu), ps) ==> vec_mat::<QQ>(x, mu) == Map::<Dim, (int, int)>::empty()
}

/// Intersection of two vector spaces: the nonzero rows of `C * U`, where
/// `C * U = D * V` spans the intersection of the rowspaces of `U` and `V`.
/// Each vector returned is a combination of the vectors of `u` and also one
/// of the vectors of `v`. The vectors come in echelon form: each is one at a
/// position where the earlier ones are zero, and a vector of both spaces
/// that is zero at all those positions is zero, so they form a basis of the
/// intersection.
pub fn intersect(u: &[QQVector], v: &[QQVector]) -> (r: Vec<QQVector>)
    requires
        u@.len() < 0x3fff_ffff,
        v@.len() < 0x3fff_ffff,
        meet_ok(rows_matrix::<QQ>(u@), rows_matrix::<QQ>(v@)),
    ensures
        forall|t: int| 0 <= t < r@.len() ==> in_row_space(rows_matrix::<QQ>(u@), #[trigger] r@[t]@),
        forall|t: int| 0 <= t < r@.len() ==> in_row_space(rows_matrix::<QQ>(v@), #[trigger] r@[t]@),
        forall|t: int| 0 <= t < r@.len() ==> (#[trigger] r@[t])@ != Map::<Dim, (int, int)>::empty(),
        exists|ps: Seq<Dim>| echelon_at(r@, ps) && pins_meet(rows_matrix::<QQ>(u@), rows_matrix::<QQ>(v@), ps),
{
    let mu = matrix_of(u);
    let mv = matrix_of(v);
    proof {
        assert(meet_ok(mu@, mv@));
    }
    let (mc, md) = intersect_rowspace(&mu, &mv);
    let ghost ps = choose|ps: Seq<Dim>| pivoted_rows(mc@, mu@, ps) && meet_pinned(mu@, mv@, ps);
    let rows = mc.rows_iter();
    let mut out: Vec<QQVector> = Vec::new();
    let mut k: usize = 0;
    while k < rows.len()
        invariant
            pivoted_rows(mc@, mu@, ps),
            out@.len() == k,
            forall|t: int| 0 <= t < k ==> (#[trigger] out@[t])@ == vec_mat::<QQ>(row_of::<QQ>(mc@, rows@[t].0), mu@),
            k <= rows@.len(),
            seq_view(rows@) == mc@,
            crate::ring::sorted_keys(rows@),
            forall|i: Dim| #[trigger] vec_mat::<QQ>(row_of::<QQ>(mc@, i), mu@) == vec_mat::<QQ>(row_of::<QQ>(md@, i), mv@),
            mu@ == rows_matrix::<QQ>(u@),
            mv@ == rows_matrix::<QQ>(v@),
            forall|t: int| 0 <= t < out@.len() ==> in_row_space(mu@, #[trigger] out@[t]@),
            forall|t: int| 0 <= t < out@.len() ==> in_row_space(mv@, #[trigger] out@[t]@),
            forall|t: int| 0 <= t < out@.len() ==> (#[trigger] out@[t])@ != Map::<Dim, (int, int)>::empty(),
        decreases rows@.len() - k,
    {
        let w = mu.vector_left_mul(&rows[k].1);
        proof {
            crate::ring::lemma_view_index(rows@, k as int);
            let i = rows@[k as int].0;
            assert(row_of::<QQ>(mc@, i) == rows@[k as int].1@);
            assert(mc@.contains_key(i));
            assert(coeff_of::<QQ>(vec_mat::<QQ>(row_of::<QQ>(mc@, (i as int) as Dim), mu@), ps[i as int]) == QQ::rone());
            QQ::lemma_valid_units();
        }
        if !w.is_zero() {
            proof {
                crate::ring::lemma_view_index(rows@, k as int);
                let i = rows@[k as int].0;
                assert(row_of::<QQ>(mc@, i) == rows@[k as int].1@);
                assert(vec_mat::<QQ>(row_of::<QQ>(mc@, i), mu@) == w@);
                assert(vec_mat::<QQ>(row_of::<QQ>(md@, i), mv@) == w@);
            }
            let ghost prev = out@;
            out.push(w);
            proof {
                assert forall|t: int| 0 <= t < out@.len() implies in_row_space(mu@, #[trigger] out@[t]@) && in_row_space(mv@, out@[t]@)
                    && out@[t]@ != Map::<Dim, (int, int)>::empty() by {
                    if t < prev.len() {
                        assert(out@[t] == prev[t]);
                    }
                }
                assert forall|t: int| 0 <= t < k + 1 implies (#[trigger] out@[t])@ == vec_mat::<QQ>(
                    row_of::<QQ>(mc@, rows@[t].0),
                    mu@,
                ) by {
                    if t < prev.len() {
                        assert(out@[t] == prev[t]);
                    }
                }
            }
        }
        k = k + 1;
    }
    proof {
        let ps2 = Seq::new(rows@.len(), |t: int| ps[rows@[t].0 as int]);
        assert forall|s: int, t: int| 0 <= s <= t < out@.len() implies #[trigger] coeff_of::<QQ>(out@[t]@, ps2[s]) == (if s == t {
            QQ::rone()
        } else {
            QQ::rzero()
        }) by {
            crate::ring::lemma_view_index(rows@, t);
            crate::ring::lemma_view_index(rows@, s);
            let ks = rows@[s].0;
            let kt = rows@[t].0;
            assert(mc@.contains_key(ks) && mc@.contains_key(kt));
            if s < t {
                assert(ks < kt);
            }
            assert(coeff_of::<QQ>(vec_mat::<QQ>(row_of::<QQ>(mc@, (kt as int) as Dim), mu@), ps[ks as int]) == (if ks == kt {
                QQ::rone()
            } else {
                QQ::rzero()
            }));
        }
        assert(echelon_at(out@, ps2));
        assert forall|x: QVec, y: QVec|
            #![trigger vec_mat::<QQ>(x, mu@), vec_mat::<QQ>(y, mv@)]
            is_sparse::<QQ>(x) && is_sparse::<QQ>(y) && interlace_ok(x) && interlace_ok(y) && vec_mat::<QQ>(x, mu@)
                == vec_mat::<QQ>(y, mv@) && vanishes_at(vec_mat::<QQ>(x, mu@), ps2) implies vec_mat::<QQ>(x, mu@) == Map::<
            Dim,
            (int, int),
        >::empty() by {
            let p = crate::ring::map_interlace(x, y);
            crate::ring::lemma_deinterlace_interlace(x, y);
            super::universal::lemma_interlace_finite(x, y);
            assert(is_sparse::<QQ>(p));
            let w = vec_mat::<QQ>(x, mu@);
            assert forall|kk: int| 0 <= kk < ps.len() implies #[trigger] coeff_of::<QQ>(w, ps[kk]) == QQ::rzero() by {
                let i = kk as Dim;
                assert(coeff_of::<QQ>(vec_mat::<QQ>(row_of::<QQ>(mc@, (kk) as Dim), mu@), ps[kk]) == QQ::rone());
                if !mc@.contains_key(i) {
                    assert(row_of::<QQ>(mc@, i) == Map::<Dim, (int, int)>::empty());
                    assert(Map::<Dim, (int, int)>::empty().dom() =~= Set::<Dim>::empty());
                    assert(vec_mat::<QQ>(Map::<Dim, (int, int)>::empty(), mu@) == Map::<Dim, (int, int)>::empty());
                    QQ::lemma_valid_units();
                }
                assert(seq_view(rows@).contains_key(i));
                let t = choose|t: int| 0 <= t < rows@.len() && #[trigger] rows@[t].0 == i;
                assert(ps2[t] == ps[kk]);
            }
            assert(in_meet(mu@, mv@, p));
        }
        assert(pins_meet(mu@, mv@, ps2));
    }
    out
}

/// A basis for the direct sum `u + v`: `v`, then each vector of `u` that is
/// not found in the span of the vectors gathered so far.
pub fn sum(u: &[QQVector], v: &[QQVector]) -> (r: Vec<QQVector>)
    requires
        u@.len() + v@.len() < i32::MAX,
    ensures
        v@.len() <= r@.len() <= v@.len() + u@.len(),
        forall|t: int| 0 <= t < v@.len() ==> (#[trigger] r@[t])@ == v@[t]@,
        forall|t: int| v@.len() <= t < r@.len() ==> occurs_in(u@, #[trigger] r@[t]@),
        forall|k: int| 0 <= k < u@.len() ==> in_span(r@, (#[trigger] u@[k])@),
        forall|k: int| 0 <= k < v@.len() ==> in_span(r@, (#[trigger] v@[k])@),
        independent(v@) ==> independent(r@),
{
    let mut result: Vec<QQVector> = Vec::new();
    let mut k: usize = 0;
    while k < v.len()
        invariant
            k <= v@.len(),
            result@.len() == k,
            forall|t: int| 0 <= t < k ==> (#[trigger] result@[t])@ == v@[t]@,
            all_sparse(result@),
        decreases v@.len() - k,
    {
        let c = v[k].clone();
        c.lemma_sparse();
        let ghost prev = result@;
        result.push(c);
        proof {
            assert forall|t: int| 0 <= t < result@.len() implies is_sparse::<QQ>(#[trigger] result@[t]@) by {
                if t < prev.len() {
                    assert(result@[t] == prev[t]);
                }
            }
        }
        k = k + 1;
    }
    proof {
        assert forall|t: int| 0 <= t < v@.len() implies in_span(result@, (#[trigger] v@[t])@) by {
            lemma_in_span_member(result@, t);
        }
        assert(rows_matrix::<QQ>(result@) =~= rows_matrix::<QQ>(v@));
    }
    let mut k: usize = 0;
    while k < u.len()
        invariant
            k <= u@.len(),
            u@.len() + v@.len() < i32::MAX,
            v@.len() <= result@.len() <= v@.len() + k,
            forall|t: int| 0 <= t < v@.len() ==> (#[trigger] result@[t])@ == v@[t]@,
            forall|t: int| v@.len() <= t < result@.len() ==> occurs_in(u@, #[trigger] result@[t]@),
            all_sparse(result@),
            forall|j: int| 0 <= j < k ==> in_span(result@, (#[trigger] u@[j])@),
            forall|j: int| 0 <= j < v@.len() ==> in_span(result@, (#[trigger] v@[j])@),
            independent(v@) ==> independent(result@),
        decreases u@.len() - k,
    {
        if !mem(result.as_slice(), &u[k]) {
            let ghost prev = result@;
            let c = u[k].clone();
            c.lemma_sparse();
            result.push(c);
            proof {
                assert forall|t: int| v@.len() <= t < result@.len() implies occurs_in(u@, #[trigger] result@[t]@) by {
                    if t < prev.len() {
                        assert(result@[t] == prev[t]);
                    } else {
                        assert(result@[t]@ == u@[k as int]@);
                    }
                }
                assert forall|t: int| 0 <= t < result@.len() implies is_sparse::<QQ>(#[trigger] result@[t]@) by {
                    if t < prev.len() {
                        assert(result@[t] == prev[t]);
                    }
                }
                assert forall|j: int| 0 <= j < k + 1 implies in_span(result@, (#[trigger] u@[j])@) by {
                    if j < k {
                        lemma_in_span_push(prev, c, u@[j]@);
                    } else {
                        lemma_in_span_member(result@, prev.len() as int);
                    }
                }
                assert forall|j: int| 0 <= j < v@.len() implies in_span(result@, (#[trigger] v@[j])@) by {
                    lemma_in_span_push(prev, c, v@[j]@);
                }
                if independent(v@) {
                    lemma_independent_push(prev, c);
                }
            }
        }
        k = k + 1;
    }
    result
}

/// A basis for the space spanned by `u`.
pub fn basis(u: &[QQVector]) -> (r: Vec<QQVector>)
    requires
        u@.len() < i32::MAX,
    ensures
        r@.len() <= u@.len(),
        forall|t: int| 0 <= t < r@.len() ==> occurs_in(u@, #[trigger] r@[t]@),
        forall|k: int| 0 <= k < u@.len() ==> in_span(r@, (#[trigger] u@[k])@),
        independent(r@),
{
    let none: Vec<QQVector> = Vec::new();
    proof {
        assert(independent(none@));
    }
    sum(u, none.as_slice())
}

/// Vectors of `u` that, together with `v`, span every vector of `u`: each
/// vector of `u` is kept unless it already lies in the span of `v` and the
/// vectors kept so far.
pub fn diff(u: &[QQVector], v: &[QQVector]) -> (r: Vec<QQVector>)
    requires
        u@.len() + v@.len() < i32::MAX,
    ensures
        r@.len() <= u@.len(),
        forall|t: int| 0 <= t < r@.len() ==> occurs_in(u@, #[trigger] r@[t]@),
        forall|k: int| 0 <= k < u@.len() ==> in_span(v@ + r@, (#[trigger] u@[k])@),
        independent(v@) ==> independent(v@ + r@),
{
    let mut result: Vec<QQVector> = Vec::new();
    proof {
        assert(v@ + result@ =~= v@);
    }
    let mut k: usize = 0;
    while k < u.len()
        invariant
            k <= u@.len(),
            u@.len() + v@.len() < i32::MAX,
            result@.len() <= k,
            forall|t: int| 0 <= t < result@.len() ==> occurs_in(u@, #[trigger] result@[t]@),
            forall|j: int| 0 <= j < k ==> in_span(v@ + result@, (#[trigger] u@[j])@),
            independent(v@) ==> independent(v@ + result@),
        decreases u@.len() - k,
    {
        let mut combined: Vec<QQVector> = Vec::new();
        let mut t: usize = 0;
        while t < v.len()
            invariant
                t <= v@.len(),
                combined@.len() == t,
                forall|i: int| 0 <= i < t ==> (#[trigger] combined@[i])@ == v@[i]@ && is_sparse::<QQ>(combined@[i]@),
            decreases v@.len() - t,
        {
            let c = v[t].clone();
            c.lemma_sparse();
            combined.push(c);
            t = t + 1;
        }
        let mut t: usize = 0;
        while t < result.len()
            invariant
                t <= result@.len(),
                combined@.len() == v@.len() + t,
                forall|i: int| 0 <= i < v@.len() ==> (#[trigger] combined@[i])@ == v@[i]@ && is_sparse::<QQ>(combined@[i]@),
                forall|i: int| 0 <= i < t ==> (#[trigger] combined@[v@.len() + i])@ == result@[i]@ && is_sparse::<QQ>(
                    combined@[v@.len() + i]@,
                ),
            decreases result@.len() - t,
        {
            let c = result[t].clone();
            c.lemma_sparse();
            combined.push(c);
            t = t + 1;
        }
        let ghost vr = v@ + result@;
        proof {
            assert forall|i: int| 0 <= i < vr.len() implies (#[trigger] vr[i])@ == combined@[i]@ && is_sparse::<QQ>(vr[i]@) by {
                if i >= v@.len() {
                    assert(combined@[v@.len() + (i - v@.len())] == combined@[i]);
                }
            }
            assert(rows_matrix::<QQ>(combined@) =~= rows_matrix::<QQ>(vr));
            assert(all_sparse(vr));
        }
        if !mem(combined.as_slice(), &u[k]) {
            let ghost prev = result@;
            let c = u[k].clone();
            c.lemma_sparse();
            result.push(c);
            proof {
                assert(v@ + result@ =~= vr.push(c));
                assert forall|t: int| 0 <= t < result@.len() implies occurs_in(u@, #[trigger] result@[t]@) by {
                    if t < prev.len() {
                        assert(result@[t] == prev[t]);
                    } else {
                        assert(result@[t]@ == u@[k as int]@);
                    }
                }
                assert forall|j: int| 0 <= j < k + 1 implies in_span(v@ + result@, (#[trigger] u@[j])@) by {
                    if j < k {
                        lemma_in_span_push(vr, c, u@[j]@);
                    } else {
                        assert(all_sparse(vr.push(c))) by {
                            assert forall|i: int| 0 <= i < vr.push(c).len() implies is_sparse::<QQ>(#[trigger] vr.push(c)[i]@) by {
                                if i < vr.len() {
                                    assert(vr.push(c)[i] == vr[i]);
                                }
                            }
                        }
                        lemma_in_span_member(vr.push(c), vr.len() as int);
                    }
                }
                if independent(v@) {
                    assert(all_sparse(vr.push(c))) by {
                        assert forall|i: int| 0 <= i < vr.push(c).len() implies is_sparse::<QQ>(#[trigger] vr.push(c)[i]@) by {
                            if i < vr.len() {
                                assert(vr.push(c)[i] == vr[i]);
                            }
                        }
                    }
                    lemma_independent_push(vr, c);
                }
            }
        } else {
            proof {
                assert(in_span(vr, u@[k as int]@));
            }
        }
        k = k + 1;
    }
    result
}

/// The standard basis of n-dimensional space.
pub fn standard_basis(dim: usize) -> (r: Vec<QQVector>)
    requires
        dim <= i32::MAX + 1,
    ensures
        r@.len() == dim,
        forall|i: int| 0 <= i < dim ==> (#[trigger] r@[i])@ == Map::<Dim, (int, int)>::empty().insert(i as Dim, (1int, 1int)),
{
    let mut out: Vec<QQVector> = Vec::new();
    let mut i: usize = 0;
    while i < dim
        invariant
            i <= dim,
            dim <= i32::MAX + 1,
            out@.len() == i,
            forall|t: int| 0 <= t < i ==> (#[trigger] out@[t])@ == Map::<Dim, (int, int)>::empty().insert(t as Dim, (1int, 1int)),
        decreases dim - i,
    {
        let id: Dim = i as Dim;
        out.push(QQVector::of_term(QQ::one(), id));
        i = i + 1;
    }
    out
}

/// The vectors are in reduced echelon form with pivots `ps`: vector `t` has
/// coefficient one at `ps[t]`, and every other vector has zero there.
pub open spec fn reduced_at(xs: Seq<QQVector>, ps: Seq<Dim>) -> bool {
    &&& xs.len() == ps.len()
    &&& forall|t: int| 0 <= t < xs.len() ==> coeff_of::<QQ>(#[trigger] xs[t]@, ps[t]) == (1int, 1int)
    &&& forall|s: int, t: int|
        0 <= s < xs.len() && 0 <= t < xs.len() && s != t ==> coeff_of::<QQ>(#[trigger] xs[s]@, #[trigger] ps[t]) == (0int, 1int)
}

/// One elimination step: `x - c * n`, where `c` is the coefficient of `x`
/// at `dim` and `n` has coefficient one there, has coefficient zero at `dim`
/// and keeps the coefficients of `x` wherever `n` is zero.
proof fn lemma_eliminate(x: QVec, n: QVec, c: (int, int), dim: Dim, p: Dim)
    requires
        is_sparse::<QQ>(x),
        is_sparse::<QQ>(n),
        c == coeff_of::<QQ>(x, dim),
        coeff_of::<QQ>(n, dim) == (1int, 1int),
        is_sparse::<QQ>(map_scale::<QQ>(crate::num::arith::rat_neg(c), n)),
    ensures
        coeff_of::<QQ>(map_add::<QQ>(x, map_scale::<QQ>(crate::num::arith::rat_neg(c), n)), dim) == (0int, 1int),
        coeff_of::<QQ>(n, p) == (0int, 1int) ==> coeff_of::<QQ>(
            map_add::<QQ>(x, map_scale::<QQ>(crate::num::arith::rat_neg(c), n)),
            p,
        ) == coeff_of::<QQ>(x, p),
{
    <QQ as Ring>::lemma_valid_units();
    assert(<QQ as Ring>::valid(c)) by {
        if x.contains_key(dim) {
        }
    }
    <QQ as Ring>::lemma_valid_closed(c, c);
    let k = crate::num::arith::rat_neg(c);
    lemma_coeff_scale::<QQ>(k, n, dim);
    lemma_coeff_scale::<QQ>(k, n, p);
    lemma_coeff_add::<QQ>(x, map_scale::<QQ>(k, n), dim);
    lemma_coeff_add::<QQ>(x, map_scale::<QQ>(k, n), p);
    <QQ as Ring>::lemma_ring_axioms(c, (1int, 1int), (0int, 1int));
    <QQ as Ring>::lemma_ring_axioms(k, (1int, 1int), (0int, 1int));
    assert(<QQ as Ring>::valid(coeff_of::<QQ>(x, p))) by {
        if x.contains_key(p) {
        }
    }
    <QQ as Ring>::lemma_ring_axioms(coeff_of::<QQ>(x, p), (0int, 1int), (0int, 1int));
}

/// Simplify a basis by Gauss-Jordan elimination: each vector in turn is
/// normalised at its smallest dimension, which is then eliminated from the
/// vectors kept so far and from those still to come. The result is in
/// reduced echelon form.
pub fn simplify(basis: &[QQVector]) -> (r: Vec<QQVector>)
    ensures
        r@.len() <= basis@.len(),
        exists|ps: Seq<Dim>| reduced_at(r@, ps),
        basis@.len() <= i32::MAX ==> forall|t: int| 0 <= t < r@.len() ==> in_span(basis@, (#[trigger] r@[t])@),
        2 * basis@.len() <= i32::MAX ==> forall|u: int| 0 <= u < basis@.len() ==> in_span(r@, (#[trigger] basis@[u])@),
        basis@.len() <= i32::MAX ==> independent(r@),
{
    let mut xs: Vec<QQVector> = Vec::new();
    let mut ys: Vec<QQVector> = Vec::new();
    let ghost mut ps: Seq<Dim> = Seq::empty();
    let mut k: usize = 0;
    while k < basis.len()
        invariant
            k <= basis@.len(),
            ys@.len() == k,
            forall|u: int| 0 <= u < k ==> (#[trigger] ys@[u])@ == basis@[u]@,
            all_sparse(ys@),
        decreases basis@.len() - k,
    {
        let c = basis[k].clone();
        c.lemma_sparse();
        let ghost prev = ys@;
        ys.push(c);
        proof {
            assert forall|u: int| 0 <= u < ys@.len() implies is_sparse::<QQ>(#[trigger] ys@[u]@) by {
                if u < prev.len() {
                    assert(ys@[u] == prev[u]);
                }
            }
        }
        k = k + 1;
    }
    let ghost b0 = ys@;
    let ghost small = b0.len() <= i32::MAX;
    proof {
        if small {
            assert forall|u: int| 0 <= u < b0.len() implies in_span(b0, (#[trigger] b0[u])@) by {
                lemma_in_span_member(b0, u);
            }
        }
    }
    let ghost small2 = 2 * b0.len() <= i32::MAX;
    proof {
        if small2 {
            assert(ys@ + xs@ =~= b0);
            assert forall|u: int| 0 <= u < b0.len() implies in_span(ys@ + xs@, (#[trigger] b0[u])@) by {
                lemma_in_span_member(b0, u);
            }
        }
    }
    let mut next: usize = 0;
    while next < ys.len()
        invariant
            next <= ys@.len(),
            ys@.len() == basis@.len(),
            xs@.len() <= next,
            reduced_at(xs@, ps),
            forall|u: int, t: int|
                next <= u < ys@.len() && 0 <= t < ps.len() ==> coeff_of::<QQ>(#[trigger] ys@[u]@, #[trigger] ps[t]) == (0int, 1int),
            all_sparse(b0),
            b0.len() == basis@.len(),
            forall|u: int| 0 <= u < b0.len() ==> (#[trigger] b0[u])@ == basis@[u]@,
            small == (b0.len() <= i32::MAX),
            small ==> forall|s: int| 0 <= s < xs@.len() ==> in_span(b0, (#[trigger] xs@[s])@),
            small ==> forall|u: int| next <= u < ys@.len() ==> in_span(b0, (#[trigger] ys@[u])@),
            small2 == (2 * b0.len() <= i32::MAX),
            all_sparse(xs@),
            all_sparse(ys@),
            small2 ==> forall|u: int| 0 <= u < b0.len() ==> in_span(ys@ + xs@, (#[trigger] b0[u])@),
            small2 ==> forall|u: int| 0 <= u < next ==> in_span(xs@, (#[trigger] ys@[u])@),
        decreases ys@.len() - next,
    {
        let y = ys[next].clone();
        let ghost yi = next as int;
        let ghost xs_head = xs@;
        let ghost ys_head = ys@;
        next = next + 1;
        let dim = match y.min_support() {
            Some((d, _)) => d,
            None => {
                proof {
                    if small2 {
                        lemma_in_span_zero(xs@);
                        assert(ys@[yi]@ == y@);
                    }
                }
                continue;
            },
        };
        y.lemma_sparse();
        let (coeff, rest) = y.pivot(dim);
        proof {
            super::lemma_nonzero_numerator(coeff@);
        }
        let inv = coeff.inverse();
        <QQ as Ring>::lemma_valid(&inv);
        <QQ as Ring>::lemma_valid(&coeff);
        let scaled = rest.scalar_mul(&inv);
        scaled.lemma_sparse();
        rest.lemma_sparse();
        let normalized = scaled.add_term(QQ::one(), dim);
        normalized.lemma_sparse();
        proof {
            <QQ as Ring>::lemma_valid_units();
            lemma_coeff_scale::<QQ>(inv@, rest@, dim);
            lemma_coeff_add_term::<QQ>(scaled@, dim, (1int, 1int), dim);
            <QQ as Ring>::lemma_ring_axioms(inv@, (0int, 1int), (0int, 1int));
            <QQ as Ring>::lemma_ring_axioms((1int, 1int), (0int, 1int), (0int, 1int));
            assert(coeff_of::<QQ>(normalized@, dim) == (1int, 1int));
            assert forall|t: int| 0 <= t < ps.len() implies coeff_of::<QQ>(normalized@, #[trigger] ps[t]) == (0int, 1int) by {
                assert(coeff_of::<QQ>(ys@[yi]@, ps[t]) == (0int, 1int));
                assert(ps[t] != dim);
                lemma_coeff_scale::<QQ>(inv@, rest@, ps[t]);
                lemma_coeff_add_term::<QQ>(scaled@, dim, (1int, 1int), ps[t]);
            }
            crate::num::arith::lemma_rat_inv(coeff@);
            crate::num::arith::lemma_rat_ring(coeff@, inv@, inv@);
            crate::inner::lemma_scale_sparse::<QQ>(inv@, y@);
            assert forall|d: Dim| #[trigger] coeff_of::<QQ>(normalized@, d) == coeff_of::<QQ>(map_scale::<QQ>(inv@, y@), d) by {
                lemma_coeff_scale::<QQ>(inv@, y@, d);
                lemma_coeff_scale::<QQ>(inv@, rest@, d);
                lemma_coeff_add_term::<QQ>(scaled@, dim, (1int, 1int), d);
            }
            lemma_sparse_ext(normalized@, map_scale::<QQ>(inv@, y@));
            if small {
                lemma_in_span_scale(b0, inv@, y@);
            }
            assert forall|d: Dim| #[trigger] coeff_of::<QQ>(y@, d) == coeff_of::<QQ>(map_scale::<QQ>(coeff@, normalized@), d) by {
                lemma_coeff_scale::<QQ>(coeff@, normalized@, d);
                lemma_coeff_scale::<QQ>(inv@, y@, d);
                crate::inner::lemma_coeff_valid::<QQ>(y@, d);
                crate::num::arith::lemma_rat_ring(coeff@, inv@, coeff_of::<QQ>(y@, d));
                QQ::lemma_ring_axioms(coeff_of::<QQ>(y@, d), coeff_of::<QQ>(y@, d), coeff_of::<QQ>(y@, d));
            }
            crate::inner::lemma_scale_sparse::<QQ>(coeff@, normalized@);
            lemma_sparse_ext(y@, map_scale::<QQ>(coeff@, normalized@));
        }
        let ghost xs0 = xs@;
        let mut t: usize = 0;
        while t < xs.len()
            invariant
                t <= xs@.len(),
                xs@.len() == xs0.len(),
                xs0.len() < next,
                next <= ys@.len(),
                ys@.len() == basis@.len(),
                reduced_at(xs0, ps),
                coeff_of::<QQ>(normalized@, dim) == (1int, 1int),
                is_sparse::<QQ>(normalized@),
                forall|q: int| 0 <= q < ps.len() ==> coeff_of::<QQ>(normalized@, #[trigger] ps[q]) == (0int, 1int),
                forall|s: int| t <= s < xs@.len() ==> #[trigger] xs@[s] == xs0[s],
                forall|s: int| 0 <= s < t ==> coeff_of::<QQ>(#[trigger] xs@[s]@, dim) == (0int, 1int),
                forall|s: int, q: int| 0 <= s < t && 0 <= q < ps.len() ==> coeff_of::<QQ>(#[trigger] xs@[s]@, #[trigger] ps[q]) == coeff_of::<QQ>(
                    xs0[s]@,
                    ps[q],
                ),
                all_sparse(b0),
                small ==> in_span(b0, normalized@),
                small ==> forall|s: int| 0 <= s < xs@.len() ==> in_span(b0, (#[trigger] xs@[s])@),
                all_sparse(xs0),
                all_sparse(xs@),
                forall|s: int| 0 <= s < t ==> (#[trigger] xs@[s])@ == map_add::<QQ>(
                    xs0[s]@,
                    map_scale::<QQ>(QQ::rneg(coeff_of::<QQ>(xs0[s]@, dim)), normalized@),
                ),
            decreases xs@.len() - t,
        {
            let c = xs[t].coeff(dim);
            let nc = c.negate();
            xs[t].lemma_sparse();
            let sn = normalized.scalar_mul(&nc);
            sn.lemma_sparse();
            let updated = xs[t].add(&sn);
            updated.lemma_sparse();
            <QQ as Ring>::lemma_valid(&nc);
            proof {
                if small {
                    lemma_in_span_add_scaled(b0, xs@[t as int]@, nc@, normalized@);
                }
                assert forall|q: int| 0 <= q < ps.len() implies coeff_of::<QQ>(updated@, #[trigger] ps[q]) == coeff_of::<QQ>(xs0[t as int]@, ps[q]) by {
                    lemma_eliminate(xs@[t as int]@, normalized@, c@, dim, ps[q]);
                }
                lemma_eliminate(xs@[t as int]@, normalized@, c@, dim, dim);
            }
            let ghost xs_before = xs@;
            xs.set(t, updated);
            proof {
                if small {
                    assert forall|s: int| 0 <= s < xs@.len() implies in_span(b0, (#[trigger] xs@[s])@) by {
                        if s != t {
                            assert(xs@[s] == xs_before[s]);
                        }
                    }
                }
                assert forall|s: int| 0 <= s < xs@.len() implies is_sparse::<QQ>(#[trigger] xs@[s]@) by {
                    if s != t {
                        assert(xs@[s] == xs_before[s]);
                    }
                }
                assert forall|s: int| 0 <= s < t + 1 implies (#[trigger] xs@[s])@ == map_add::<QQ>(
                    xs0[s]@,
                    map_scale::<QQ>(QQ::rneg(coeff_of::<QQ>(xs0[s]@, dim)), normalized@),
                ) by {
                    if s != t {
                        assert(xs@[s] == xs_before[s]);
                    }
                }
            }
            t = t + 1;
        }
        let ghost ys0 = ys@;
        let mut t: usize = next;
        while t < ys.len()
            invariant
                next <= t <= ys@.len(),
                ys@.len() == basis@.len(),
                ys@.len() == ys0.len(),
                xs@.len() < next,
                coeff_of::<QQ>(normalized@, dim) == (1int, 1int),
                is_sparse::<QQ>(normalized@),
                forall|q: int| 0 <= q < ps.len() ==> coeff_of::<QQ>(normalized@, #[trigger] ps[q]) == (0int, 1int),
                forall|u: int, q: int|
                    next <= u < ys0.len() && 0 <= q < ps.len() ==> coeff_of::<QQ>(#[trigger] ys0[u]@, #[trigger] ps[q]) == (0int, 1int),
                forall|u: int| t <= u < ys@.len() ==> #[trigger] ys@[u] == ys0[u],
                forall|u: int| next <= u < t ==> coeff_of::<QQ>(#[trigger] ys@[u]@, dim) == (0int, 1int),
                forall|u: int, q: int|
                    next <= u < t && 0 <= q < ps.len() ==> coeff_of::<QQ>(#[trigger] ys@[u]@, #[trigger] ps[q]) == (0int, 1int),
                all_sparse(b0),
                small ==> in_span(b0, normalized@),
                small ==> forall|u: int| next <= u < ys@.len() ==> in_span(b0, (#[trigger] ys@[u])@),
                all_sparse(ys@),
                forall|u: int| 0 <= u < next ==> #[trigger] ys@[u] == ys0[u],
                forall|u: int| next <= u < t ==> (#[trigger] ys@[u])@ == map_add::<QQ>(
                    ys0[u]@,
                    map_scale::<QQ>(QQ::rneg(coeff_of::<QQ>(ys0[u]@, dim)), normalized@),
                ),
            decreases ys@.len() - t,
        {
            let c = ys[t].coeff(dim);
            let nc = c.negate();
            ys[t].lemma_sparse();
            let sn = normalized.scalar_mul(&nc);
            sn.lemma_sparse();
            let updated = ys[t].add(&sn);
            updated.lemma_sparse();
            <QQ as Ring>::lemma_valid(&nc);
            proof {
                if small {
                    lemma_in_span_add_scaled(b0, ys@[t as int]@, nc@, normalized@);
                }
                assert forall|q: int| 0 <= q < ps.len() implies coeff_of::<QQ>(updated@, #[trigger] ps[q]) == (0int, 1int) by {
                    assert(coeff_of::<QQ>(ys0[t as int]@, ps[q]) == (0int, 1int));
                    lemma_eliminate(ys@[t as int]@, normalized@, c@, dim, ps[q]);
                }
                lemma_eliminate(ys@[t as int]@, normalized@, c@, dim, dim);
            }
            let ghost ys_before = ys@;
            ys.set(t, updated);
            proof {
                if small {
                    assert forall|u: int| next <= u < ys@.len() implies in_span(b0, (#[trigger] ys@[u])@) by {
                        if u != t {
                            assert(ys@[u] == ys_before[u]);
                        }
                    }
                }
                assert forall|u: int| 0 <= u < ys@.len() implies is_sparse::<QQ>(#[trigger] ys@[u]@) by {
                    if u != t {
                        assert(ys@[u] == ys_before[u]);
                    }
                }
                assert forall|u: int| next <= u < t + 1 implies (#[trigger] ys@[u])@ == map_add::<QQ>(
                    ys0[u]@,
                    map_scale::<QQ>(QQ::rneg(coeff_of::<QQ>(ys0[u]@, dim)), normalized@),
                ) by {
                    if u != t {
                        assert(ys@[u] == ys_before[u]);
                    }
                }
            }
            t = t + 1;
        }
        let ghost xs1 = xs@;
        xs.push(normalized);
        proof {
            let ps1 = ps.push(dim);
            assert forall|s: int, q: int|
                0 <= s < xs@.len() && 0 <= q < xs@.len() && s != q implies coeff_of::<QQ>(#[trigger] xs@[s]@, #[trigger] ps1[q]) == (
            0int, 1int) by {
                if s < xs1.len() && q < xs1.len() {
                    assert(xs@[s] == xs1[s]);
                }
            }
            assert forall|s: int| 0 <= s < xs@.len() implies coeff_of::<QQ>(#[trigger] xs@[s]@, ps1[s]) == (1int, 1int) by {
                if s < xs1.len() {
                    assert(xs@[s] == xs1[s]);
                }
            }
            assert forall|u: int, q: int|
                next <= u < ys@.len() && 0 <= q < ps1.len() implies coeff_of::<QQ>(#[trigger] ys@[u]@, #[trigger] ps1[q]) == (
            0int, 1int) by {}
            ps = ps1;
            assert forall|s: int| 0 <= s < xs@.len() implies is_sparse::<QQ>(#[trigger] xs@[s]@) by {
                if s < xs1.len() {
                    assert(xs@[s] == xs1[s]);
                }
            }
            if small2 {
                assert forall|s: int| 0 <= s < xs_head.len() implies (#[trigger] xs@[s])@ == map_add::<QQ>(
                    xs_head[s]@,
                    map_scale::<QQ>(QQ::rneg(coeff_of::<QQ>(xs_head[s]@, dim)), normalized@),
                ) by {
                    assert(xs@[s] == xs1[s]);
                }
                assert(xs@[xs_head.len() as int] == normalized);
                assert(y@ == ys_head[yi]@);
                lemma_simplify_spans(b0, xs_head, ys_head, xs@, ys@, normalized, dim, yi, coeff@);
            }
            if small {
                assert forall|s: int| 0 <= s < xs@.len() implies in_span(b0, (#[trigger] xs@[s])@) by {
                    if s < xs1.len() {
                        assert(xs@[s] == xs1[s]);
                    }
                }
            }
        }
    }
    proof {
        assert(rows_matrix::<QQ>(b0) =~= rows_matrix::<QQ>(basis@));
        if small {
            lemma_reduced_independent(xs@, ps);
        }
        if small2 {
            let w = ys@ + xs@;
            assert(all_sparse(w)) by {
                assert forall|i: int| 0 <= i < w.len() implies is_sparse::<QQ>(#[trigger] w[i]@) by {
                    if i >= ys@.len() {
                        assert(w[i] == xs@[i - ys@.len()]);
                    }
                }
            }
            assert forall|i: int| 0 <= i < w.len() implies in_span(xs@, (#[trigger] w[i])@) by {
                if i < ys@.len() {
                    assert(w[i] == ys@[i]);
                } else {
                    assert(w[i] == xs@[i - ys@.len()]);
                    lemma_in_span_member(xs@, i - ys@.len());
                }
            }
            assert forall|u: int| 0 <= u < basis@.len() implies in_span(xs@, (#[trigger] basis@[u])@) by {
                lemma_in_span_trans(xs@, w, b0[u]@);
                assert(b0[u]@ == basis@[u]@);
            }
        }
    }
    xs
}

/// The least common multiple of the denominators of the first `n` coordinates.
pub open spec fn denominators_lcm(es: Seq<(Dim, QQ)>, n: int) -> int
    decreases n,
{
    if n <= 0 || n > es.len() {
        1
    } else {
        lcm(abs(denominators_lcm(es, n - 1)), abs(es[n - 1].1@.1)) as int
    }
}

/// Scale each basis vector by the least common multiple of its
/// denominators so that every coordinate becomes an integer.
pub fn scale_integer(basis: &[QQVector]) -> (r: Vec<QQVector>)
    ensures
        r@.len() == basis@.len(),
        forall|t: int| 0 <= t < r@.len() ==> integer_scaling(basis@[t]@, #[trigger] r@[t]@),
{
    let mut out: Vec<QQVector> = Vec::new();
    let mut k: usize = 0;
    while k < basis.len()
        invariant
            k <= basis@.len(),
            out@.len() == k,
            forall|t: int| 0 <= t < k ==> integer_scaling(basis@[t]@, #[trigger] out@[t]@),
        decreases basis@.len() - k,
    {
        let v = &basis[k];
        let es = v.iter();
        let mut common = ZZ::one();
        let mut t: usize = 0;
        while t < es.len()
            invariant
                t <= es@.len(),
                common@ == denominators_lcm(es@, t as int),
            decreases es@.len() - t,
        {
            let den = es[t].1.denominator();
            common = common.lcm(&den);
            t = t + 1;
        }
        let scaled = v.scalar_mul(&QQ::of_zz(&common));
        let ghost prev = out@;
        out.push(scaled);
        proof {
            assert forall|t: int| 0 <= t < k + 1 implies integer_scaling(basis@[t]@, #[trigger] out@[t]@) by {
                if t < k {
                    assert(out@[t] == prev[t]);
                } else {
                    assert(seq_view(es@) == basis@[t]@);
                }
            }
        }
        k = k + 1;
    }
    out
}

/// Dimension of the spanned space (number of basis vectors).
pub fn dimension(basis: &[QQVector]) -> (r: usize)
    ensures
        r == basis@.len(),
{
    basis.len()
}

} // verus!
