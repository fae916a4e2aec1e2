//! Facts behind the universal property of the pushout: row vectors times
//! matrices read column by column, and inner products against interlaced
//! vectors split into their even and odd halves.

use vstd::prelude::*;

use crate::algebra::Ring;
use crate::inner::{
    lemma_add_sparse, lemma_coeff_valid, lemma_dot_empty, lemma_dot_insert, lemma_dot_max, lemma_dot_valid,
    lemma_max_key_exists, lemma_scale_sparse,
};
use crate::matrix::{column_of, mat_sparse, row_of, vec_mat};
use crate::num::QQ;
use crate::ring::{
    coeff_of, interlace_ok, is_max_key, is_sparse, lemma_coeff_add, lemma_coeff_scale, map_add, map_dot, map_evens,
    map_interlace, map_odds, map_scale, Dim,
};

use super::elimination::{lemma_dot_add_right, lemma_dot_scale_right, lemma_remove_sparse, lemma_zero_add};
use super::QVec;

verus! {

/// Unfolding `v * m` at the largest key of `v`.
proof fn lemma_vec_mat_max(v: QVec, d: Dim, m: Map<Dim, QVec>)
    requires
        v.dom().finite(),
        is_max_key(v, d),
    ensures
        vec_mat::<QQ>(v, m) == map_add::<QQ>(vec_mat::<QQ>(v.remove(d), m), map_scale::<QQ>(v[d], row_of::<QQ>(m, d))),
{
    assert(v.dom().len() > 0);
    let c = choose|c: Dim| is_max_key(v, c);
    assert(c == d) by {
        assert(v.contains_key(c) && v.contains_key(d));
        assert(c <= d && d <= c);
    }
}

/// Column `j` of a sparse matrix is sparse.
pub proof fn lemma_column_sparse(m: Map<Dim, QVec>, j: Dim)
    requires
        mat_sparse::<QQ>(m),
    ensures
        is_sparse::<QQ>(column_of::<QQ>(m, j)),
        forall|d: Dim| #[trigger] coeff_of::<QQ>(column_of::<QQ>(m, j), d) == coeff_of::<QQ>(row_of::<QQ>(m, d), j),
{
    let col = column_of::<QQ>(m, j);
    assert(col.dom().subset_of(m.dom()));
    vstd::set_lib::lemma_len_subset(col.dom(), m.dom());
    assert forall|d: Dim| #[trigger] col.contains_key(d) implies QQ::valid(col[d]) && col[d] != QQ::rzero() by {
        assert(is_sparse::<QQ>(m[d]));
    }
}

/// `v * m` is sparse, and its coefficient at `j` is `v . column_j(m)`.
pub proof fn lemma_vec_mat_coeff(v: QVec, m: Map<Dim, QVec>)
    requires
        is_sparse::<QQ>(v),
        mat_sparse::<QQ>(m),
    ensures
        is_sparse::<QQ>(vec_mat::<QQ>(v, m)),
        forall|j: Dim| #[trigger] coeff_of::<QQ>(vec_mat::<QQ>(v, m), j) == map_dot::<QQ>(v, column_of::<QQ>(m, j)),
    decreases v.dom().len(),
{
    QQ::lemma_valid_units();
    if v.dom().len() == 0 {
        assert(v =~= Map::<Dim, (int, int)>::empty());
        assert(vec_mat::<QQ>(v, m) =~= Map::<Dim, (int, int)>::empty());
        assert(Map::<Dim, (int, int)>::empty().dom() =~= Set::<Dim>::empty());
        assert forall|j: Dim| #[trigger] coeff_of::<QQ>(vec_mat::<QQ>(v, m), j) == map_dot::<QQ>(v, column_of::<QQ>(m, j)) by {
            lemma_dot_empty::<QQ>(column_of::<QQ>(m, j));
        }
    } else {
        lemma_max_key_exists(v);
        let d = choose|d: Dim| is_max_key(v, d);
        let v1 = v.remove(d);
        lemma_remove_sparse(v, d);
        lemma_vec_mat_max(v, d, m);
        lemma_vec_mat_coeff(v1, m);
        let row = row_of::<QQ>(m, d);
        assert(is_sparse::<QQ>(row)) by {
            if !m.contains_key(d) {
                assert(row.dom() =~= Set::<Dim>::empty());
            }
        }
        lemma_scale_sparse::<QQ>(v[d], row);
        lemma_add_sparse::<QQ>(vec_mat::<QQ>(v1, m), map_scale::<QQ>(v[d], row));
        assert forall|j: Dim| #[trigger] coeff_of::<QQ>(vec_mat::<QQ>(v, m), j) == map_dot::<QQ>(v, column_of::<QQ>(m, j)) by {
            lemma_column_sparse(m, j);
            lemma_dot_max::<QQ>(v, d, column_of::<QQ>(m, j));
            lemma_coeff_add::<QQ>(vec_mat::<QQ>(v1, m), map_scale::<QQ>(v[d], row), j);
            lemma_coeff_scale::<QQ>(v[d], row, j);
        }
    }
}

/// The inner product is symmetric.
pub proof fn lemma_dot_symm(a: QVec, b: QVec)
    requires
        is_sparse::<QQ>(a),
        is_sparse::<QQ>(b),
    ensures
        map_dot::<QQ>(a, b) == map_dot::<QQ>(b, a),
    decreases a.dom().len(),
{
    QQ::lemma_valid_units();
    let z = Map::<Dim, (int, int)>::empty();
    if a.dom().len() == 0 {
        assert(a =~= z);
        lemma_dot_empty::<QQ>(b);
        crate::matrix::lemma_dot_empty_right::<QQ>(b);
    } else {
        lemma_max_key_exists(a);
        let m = choose|m: Dim| is_max_key(a, m);
        let a1 = a.remove(m);
        lemma_remove_sparse(a, m);
        lemma_dot_max::<QQ>(a, m, b);
        lemma_dot_symm(a1, b);
        let e = z.insert(m, QQ::rone());
        assert(z.dom() =~= Set::<Dim>::empty());
        assert(e.dom() =~= Set::<Dim>::empty().insert(m));
        lemma_scale_sparse::<QQ>(a[m], e);
        assert forall|k: Dim| #[trigger] map_scale::<QQ>(a[m], e).contains_key(k) == (k == m) && (k == m ==> map_scale::<QQ>(
            a[m],
            e,
        )[k] == a[m]) by {
            QQ::lemma_ring_axioms(a[m], a[m], a[m]);
        }
        assert(map_add::<QQ>(a1, map_scale::<QQ>(a[m], e)) =~= a) by {
            QQ::lemma_ring_axioms(a[m], a[m], a[m]);
            lemma_zero_add(a[m]);
            assert forall|k: Dim| k != m && a.contains_key(k) implies QQ::radd(a[k], QQ::rzero()) == a[k] by {
                QQ::lemma_ring_axioms(a[k], a[k], a[k]);
            }
        }
        lemma_dot_add_right(b, a1, map_scale::<QQ>(a[m], e));
        lemma_dot_scale_right(b, a[m], e);
        // b . e reads the coefficient of b at m
        lemma_dot_insert::<QQ>(z, m, QQ::rone(), b);
        lemma_dot_empty::<QQ>(b);
        lemma_dot_symm_unit(b, m);
        lemma_coeff_valid::<QQ>(b, m);
        crate::num::arith::lemma_rat_ring(a[m], coeff_of::<QQ>(b, m), coeff_of::<QQ>(b, m));
        QQ::lemma_ring_axioms(coeff_of::<QQ>(b, m), coeff_of::<QQ>(b, m), coeff_of::<QQ>(b, m));
        lemma_zero_add(coeff_of::<QQ>(b, m));
    }
}

/// `b . e_m` is the coefficient of `b` at `m`.
pub proof fn lemma_dot_symm_unit(b: QVec, m: Dim)
    requires
        is_sparse::<QQ>(b),
    ensures
        map_dot::<QQ>(b, Map::<Dim, (int, int)>::empty().insert(m, QQ::rone())) == coeff_of::<QQ>(b, m),
{
    QQ::lemma_valid_units();
    let e = Map::<Dim, (int, int)>::empty().insert(m, QQ::rone());
    let z = Map::<Dim, (int, int)>::empty();
    let b1 = b.remove(m);
    lemma_remove_sparse(b, m);
    crate::inner::lemma_dot_congr::<QQ>(b1, e, z);
    crate::matrix::lemma_dot_empty_right::<QQ>(b1);
    if b.contains_key(m) {
        assert(b =~= b1.insert(m, b[m]));
        lemma_dot_insert::<QQ>(b1, m, b[m], e);
        QQ::lemma_ring_axioms(b[m], b[m], b[m]);
        lemma_zero_add(b[m]);
    } else {
        assert(b1 =~= b);
    }
}

/// The even half of a sparse map is sparse.
pub proof fn lemma_evens_sparse(p: QVec)
    requires
        is_sparse::<QQ>(p),
    ensures
        is_sparse::<QQ>(map_evens(p)),
        is_sparse::<QQ>(map_odds(p)),
    decreases p.dom().len(),
{
    if p.dom().len() == 0 {
        assert(map_evens(p).dom() =~= Set::<Dim>::empty());
        assert(map_odds(p).dom() =~= Set::<Dim>::empty());
    } else {
        let k = p.dom().choose();
        let p1 = p.remove(k);
        lemma_remove_sparse(p, k);
        lemma_evens_sparse(p1);
        let h = (k / 2) as Dim;
        assert(map_evens(p).dom().subset_of(map_evens(p1).dom().insert(h)));
        assert(map_odds(p).dom().subset_of(map_odds(p1).dom().insert(h)));
        vstd::set_lib::lemma_len_subset(map_evens(p).dom(), map_evens(p1).dom().insert(h));
        vstd::set_lib::lemma_len_subset(map_odds(p).dom(), map_odds(p1).dom().insert(h));
    }
}

/// The inner product of an interlaced map splits into its halves.
pub proof fn lemma_dot_interlace(a: QVec, b: QVec, p: QVec)
    requires
        is_sparse::<QQ>(a),
        is_sparse::<QQ>(b),
        is_sparse::<QQ>(p),
        interlace_ok(a),
        interlace_ok(b),
    ensures
        map_dot::<QQ>(map_interlace(a, b), p) == QQ::radd(map_dot::<QQ>(a, map_evens(p)), map_dot::<QQ>(b, map_odds(p))),
    decreases a.dom().len() + b.dom().len(),
{
    QQ::lemma_valid_units();
    lemma_evens_sparse(p);
    let z = Map::<Dim, (int, int)>::empty();
    if a.dom().len() > 0 {
        let d = a.dom().choose();
        let a1 = a.remove(d);
        lemma_remove_sparse(a, d);
        lemma_dot_interlace(a1, b, p);
        let k = (2 * d) as Dim;
        assert(map_interlace(a, b) =~= map_interlace(a1, b).insert(k, a[d])) by {
            assert forall|q: Dim| #[trigger] map_interlace(a, b).contains_key(q) == map_interlace(a1, b).insert(k, a[d]).contains_key(q) && (
            map_interlace(a, b).contains_key(q) ==> map_interlace(a, b)[q] == map_interlace(a1, b).insert(k, a[d])[q]) by {
                if q % 2 == 0 && q != k {
                    assert((q / 2) as Dim != d);
                }
            }
        }
        assert(!map_interlace(a1, b).contains_key(k));
        assert(interlace_ok(a1));
        assert(is_sparse::<QQ>(map_interlace(a1, b))) by {
            assert(map_interlace(a1, b).dom().subset_of(map_interlace(a, b).dom()));
            lemma_interlace_finite(a, b);
            vstd::set_lib::lemma_len_subset(map_interlace(a1, b).dom(), map_interlace(a, b).dom());
        }
        lemma_dot_insert::<QQ>(map_interlace(a1, b), k, a[d], p);
        assert(a =~= a1.insert(d, a[d]));
        lemma_dot_insert::<QQ>(a1, d, a[d], map_evens(p));
        assert(coeff_of::<QQ>(map_evens(p), d) == coeff_of::<QQ>(p, k));
        lemma_dot_valid::<QQ>(a1, map_evens(p));
        lemma_dot_valid::<QQ>(b, map_odds(p));
        lemma_coeff_valid::<QQ>(p, k);
        QQ::lemma_valid_closed(a[d], coeff_of::<QQ>(p, k));
        crate::inner::lemma_add_swap::<QQ>(map_dot::<QQ>(a1, map_evens(p)), map_dot::<QQ>(b, map_odds(p)), QQ::rmul(a[d], coeff_of::<QQ>(p, k)));
    } else if b.dom().len() > 0 {
        assert(a =~= z);
        let d = b.dom().choose();
        let b1 = b.remove(d);
        lemma_remove_sparse(b, d);
        lemma_dot_interlace(a, b1, p);
        let k = (2 * d + 1) as Dim;
        assert(map_interlace(a, b) =~= map_interlace(a, b1).insert(k, b[d])) by {
            assert forall|q: Dim| #[trigger] map_interlace(a, b).contains_key(q) == map_interlace(a, b1).insert(k, b[d]).contains_key(q) && (
            map_interlace(a, b).contains_key(q) ==> map_interlace(a, b)[q] == map_interlace(a, b1).insert(k, b[d])[q]) by {
                if q % 2 != 0 && q != k {
                    assert((q / 2) as Dim != d);
                }
            }
        }
        assert(!map_interlace(a, b1).contains_key(k));
        assert(interlace_ok(b1));
        assert(is_sparse::<QQ>(map_interlace(a, b1))) by {
            assert(map_interlace(a, b1).dom().subset_of(map_interlace(a, b).dom()));
            lemma_interlace_finite(a, b);
            vstd::set_lib::lemma_len_subset(map_interlace(a, b1).dom(), map_interlace(a, b).dom());
        }
        lemma_dot_insert::<QQ>(map_interlace(a, b1), k, b[d], p);
        assert(b =~= b1.insert(d, b[d]));
        lemma_dot_insert::<QQ>(b1, d, b[d], map_odds(p));
        assert(coeff_of::<QQ>(map_odds(p), d) == coeff_of::<QQ>(p, k));
        lemma_dot_valid::<QQ>(a, map_evens(p));
        lemma_dot_valid::<QQ>(b1, map_odds(p));
        lemma_coeff_valid::<QQ>(p, k);
        QQ::lemma_valid_closed(b[d], coeff_of::<QQ>(p, k));
        QQ::lemma_ring_axioms(map_dot::<QQ>(a, map_evens(p)), map_dot::<QQ>(b1, map_odds(p)), QQ::rmul(b[d], coeff_of::<QQ>(p, k)));
    } else {
        assert(a =~= z);
        assert(b =~= z);
        assert(map_interlace(a, b) =~= z);
        lemma_dot_empty::<QQ>(p);
        lemma_dot_empty::<QQ>(map_evens(p));
        lemma_dot_empty::<QQ>(map_odds(p));
        QQ::lemma_ring_axioms(QQ::rzero(), QQ::rzero(), QQ::rzero());
    }
}

/// Interlacing finite maps gives a finite map.
pub proof fn lemma_interlace_finite(a: QVec, b: QVec)
    requires
        a.dom().finite(),
        b.dom().finite(),
    ensures
        map_interlace(a, b).dom().finite(),
    decreases a.dom().len() + b.dom().len(),
{
    if a.dom().len() > 0 {
        let d = a.dom().choose();
        lemma_interlace_finite(a.remove(d), b);
        let k = (2 * d) as Dim;
        assert forall|q: Dim| #[trigger] map_interlace(a, b).contains_key(q) implies map_interlace(a.remove(d), b).dom().insert(
            k,
        ).contains(q) by {
            if q % 2 == 0 && (q / 2) as Dim == d {
                assert(q == k);
            }
        }
        vstd::set_lib::lemma_len_subset(map_interlace(a, b).dom(), map_interlace(a.remove(d), b).dom().insert(k));
    } else if b.dom().len() > 0 {
        let d = b.dom().choose();
        lemma_interlace_finite(a, b.remove(d));
        let k = (2 * d + 1) as Dim;
        assert forall|q: Dim| #[trigger] map_interlace(a, b).contains_key(q) implies map_interlace(a, b.remove(d)).dom().insert(
            k,
        ).contains(q) by {
            if q % 2 != 0 && (q / 2) as Dim == d {
                assert(q == k);
            }
        }
        vstd::set_lib::lemma_len_subset(map_interlace(a, b).dom(), map_interlace(a, b.remove(d)).dom().insert(k));
    } else {
        assert(map_interlace(a, b).dom() =~= Set::<Dim>::empty());
    }
}

/// The interleaved matrix of the pushout: column `j` of `A` at the even
/// positions and column `j` of `-B` at the odd ones.
pub open spec fn interleaved(a: Map<Dim, QVec>, b: Map<Dim, QVec>) -> Map<Dim, QVec> {
    crate::matrix::mat_interlace_columns::<QQ>(
        crate::matrix::mat_transpose::<QQ>(a),
        crate::matrix::mat_transpose::<QQ>(crate::matrix::mat_scale::<QQ>(QQ::rneg(QQ::rone()), b)),
    )
}

/// `-B` is sparse and its columns are the negated columns of `B`.
pub proof fn lemma_neg_columns(b: Map<Dim, QVec>, j: Dim)
    requires
        mat_sparse::<QQ>(b),
    ensures
        mat_sparse::<QQ>(crate::matrix::mat_scale::<QQ>(QQ::rneg(QQ::rone()), b)),
        forall|i: Dim, e: Dim| #[trigger] b.contains_key(i) && #[trigger] b[i].contains_key(e) ==> crate::matrix::mat_scale::<QQ>(
            QQ::rneg(QQ::rone()),
            b,
        ).contains_key(i) && crate::matrix::mat_scale::<QQ>(QQ::rneg(QQ::rone()), b)[i].contains_key(e),
        column_of::<QQ>(crate::matrix::mat_scale::<QQ>(QQ::rneg(QQ::rone()), b), j) == map_scale::<QQ>(
            QQ::rneg(QQ::rone()),
            column_of::<QQ>(b, j),
        ),
{
    QQ::lemma_valid_units();
    let mone = QQ::rneg(QQ::rone());
    QQ::lemma_valid_closed(QQ::rone(), QQ::rone());
    let nb = crate::matrix::mat_scale::<QQ>(mone, b);
    assert(nb.dom().subset_of(b.dom()));
    vstd::set_lib::lemma_len_subset(nb.dom(), b.dom());
    assert forall|i: Dim| #[trigger] nb.contains_key(i) implies is_sparse::<QQ>(nb[i]) && nb[i] != Map::<Dim, (int, int)>::empty() by {
        lemma_scale_sparse::<QQ>(mone, b[i]);
    }
    assert forall|i: Dim| #[trigger] b.contains_key(i) implies nb.contains_key(i) by {
        assert(b[i] != Map::<Dim, (int, int)>::empty());
        if forall|e: Dim| !b[i].contains_key(e) {
            assert(b[i] =~= Map::<Dim, (int, int)>::empty());
        }
        let e = choose|e: Dim| b[i].contains_key(e);
        assert(is_sparse::<QQ>(b[i]));
        super::elimination::lemma_neg_one(b[i][e]);
        crate::inner::lemma_neg_facts::<QQ>(QQ::rzero(), QQ::rzero());
        assert(map_scale::<QQ>(mone, b[i]).contains_key(e));
    }
    assert forall|i: Dim, e: Dim| #[trigger] b.contains_key(i) && #[trigger] b[i].contains_key(e) implies nb.contains_key(i)
        && nb[i].contains_key(e) by {
        assert(is_sparse::<QQ>(b[i]));
        super::elimination::lemma_neg_one(b[i][e]);
        crate::inner::lemma_neg_facts::<QQ>(QQ::rzero(), QQ::rzero());
        assert(map_scale::<QQ>(mone, b[i]).contains_key(e));
    }
    let cb = column_of::<QQ>(b, j);
    let cnb = column_of::<QQ>(nb, j);
    assert forall|d: Dim| #[trigger] cnb.contains_key(d) == map_scale::<QQ>(mone, cb).contains_key(d) && (cnb.contains_key(d)
        ==> cnb[d] == map_scale::<QQ>(mone, cb)[d]) by {
        if b.contains_key(d) && b[d].contains_key(j) {
            super::elimination::lemma_neg_one(b[d][j]);
            crate::inner::lemma_neg_facts::<QQ>(QQ::rzero(), QQ::rzero());
        }
    }
    assert(cnb =~= map_scale::<QQ>(mone, cb));
}

/// Row `j` of the interleaved matrix at `p`: the coefficient at `j` of the
/// even half times `A`, minus that of the odd half times `B`.
pub proof fn lemma_interleaved_row(a: Map<Dim, QVec>, b: Map<Dim, QVec>, p: QVec, j: Dim)
    requires
        mat_sparse::<QQ>(a),
        mat_sparse::<QQ>(b),
        crate::matrix::mat_interlace_ok(crate::matrix::mat_transpose::<QQ>(a)),
        crate::matrix::mat_interlace_ok(
            crate::matrix::mat_transpose::<QQ>(crate::matrix::mat_scale::<QQ>(QQ::rneg(QQ::rone()), b)),
        ),
        is_sparse::<QQ>(p),
    ensures
        map_dot::<QQ>(row_of::<QQ>(interleaved(a, b), j), p) == QQ::radd(
            coeff_of::<QQ>(vec_mat::<QQ>(map_evens(p), a), j),
            QQ::rneg(coeff_of::<QQ>(vec_mat::<QQ>(map_odds(p), b), j)),
        ),
{
    QQ::lemma_valid_units();
    let mone = QQ::rneg(QQ::rone());
    QQ::lemma_valid_closed(QQ::rone(), QQ::rone());
    let nb = crate::matrix::mat_scale::<QQ>(mone, b);
    let at = crate::matrix::mat_transpose::<QQ>(a);
    let nbt = crate::matrix::mat_transpose::<QQ>(nb);
    let il = interleaved(a, b);
    lemma_evens_sparse(p);
    let ev = map_evens(p);
    let od = map_odds(p);
    lemma_vec_mat_coeff(ev, a);
    lemma_vec_mat_coeff(od, b);
    lemma_neg_columns(b, j);
    let ca = column_of::<QQ>(a, j);
    let cb = column_of::<QQ>(b, j);
    let cnb = column_of::<QQ>(nb, j);
    lemma_column_sparse(a, j);
    lemma_column_sparse(b, j);
    lemma_column_sparse(nb, j);
    assert(row_of::<QQ>(at, j) == ca) by {
        if !at.contains_key(j) {
            assert(ca =~= Map::<Dim, (int, int)>::empty());
        }
    }
    assert(row_of::<QQ>(nbt, j) == cnb) by {
        if !nbt.contains_key(j) {
            assert(cnb =~= Map::<Dim, (int, int)>::empty());
        }
    }
    assert(interlace_ok(ca)) by {
        if at.contains_key(j) {
            assert(interlace_ok(at[j]));
        }
    }
    assert(interlace_ok(cnb)) by {
        if nbt.contains_key(j) {
            assert(interlace_ok(nbt[j]));
        }
    }
    assert(row_of::<QQ>(il, j) == map_interlace(ca, cnb)) by {
        if !il.contains_key(j) {
            assert(map_interlace(ca, cnb) =~= Map::<Dim, (int, int)>::empty());
        }
    }
    lemma_dot_interlace(ca, cnb, p);
    crate::inner::lemma_dot_scale::<QQ>(mone, cb, od);
    lemma_dot_symm(ev, ca);
    lemma_dot_symm(od, cb);
    lemma_dot_valid::<QQ>(cb, od);
    super::elimination::lemma_neg_one(map_dot::<QQ>(cb, od));
}

/// `p` is in the null space of the interleaved matrix exactly when its even
/// half times `A` equals its odd half times `B`.
pub proof fn lemma_interleaved_null(a: Map<Dim, QVec>, b: Map<Dim, QVec>, p: QVec)
    requires
        mat_sparse::<QQ>(a),
        mat_sparse::<QQ>(b),
        crate::matrix::mat_interlace_ok(crate::matrix::mat_transpose::<QQ>(a)),
        crate::matrix::mat_interlace_ok(
            crate::matrix::mat_transpose::<QQ>(crate::matrix::mat_scale::<QQ>(QQ::rneg(QQ::rone()), b)),
        ),
        is_sparse::<QQ>(p),
    ensures
        (crate::matrix::mat_vec::<QQ>(interleaved(a, b), p) == Map::<Dim, (int, int)>::empty()) == (vec_mat::<QQ>(map_evens(p), a)
            == vec_mat::<QQ>(map_odds(p), b)),
{
    QQ::lemma_valid_units();
    let il = interleaved(a, b);
    lemma_evens_sparse(p);
    let ev = map_evens(p);
    let od = map_odds(p);
    lemma_vec_mat_coeff(ev, a);
    lemma_vec_mat_coeff(od, b);
    assert forall|j: Dim|
        #![trigger map_dot::<QQ>(row_of::<QQ>(il, j), p)]
        (map_dot::<QQ>(row_of::<QQ>(il, j), p) == QQ::rzero()) == (coeff_of::<QQ>(vec_mat::<QQ>(ev, a), j) == coeff_of::<QQ>(
            vec_mat::<QQ>(od, b),
            j,
        )) by {
        lemma_interleaved_row(a, b, p, j);
        let x = coeff_of::<QQ>(vec_mat::<QQ>(ev, a), j);
        let y = coeff_of::<QQ>(vec_mat::<QQ>(od, b), j);
        lemma_coeff_valid::<QQ>(vec_mat::<QQ>(ev, a), j);
        lemma_coeff_valid::<QQ>(vec_mat::<QQ>(od, b), j);
        QQ::lemma_valid_closed(y, y);
        QQ::lemma_ring_axioms(x, x, x);
        if QQ::radd(x, QQ::rneg(y)) == QQ::rzero() {
            crate::inner::lemma_neg_unique::<QQ>(x, QQ::rneg(y));
            super::elimination::lemma_neg_one(y);
            super::elimination::lemma_neg_one(x);
        }
    }
    if crate::matrix::mat_vec::<QQ>(il, p) == Map::<Dim, (int, int)>::empty() {
        assert forall|j: Dim| #[trigger] coeff_of::<QQ>(vec_mat::<QQ>(ev, a), j) == coeff_of::<QQ>(vec_mat::<QQ>(od, b), j) by {
            assert(!crate::matrix::mat_vec::<QQ>(il, p).contains_key(j));
            if !il.contains_key(j) {
                lemma_dot_empty::<QQ>(p);
                assert(row_of::<QQ>(il, j) == Map::<Dim, (int, int)>::empty());
            }
            assert(map_dot::<QQ>(row_of::<QQ>(il, j), p) == QQ::rzero());
        }
        super::vector_space::lemma_sparse_ext(vec_mat::<QQ>(ev, a), vec_mat::<QQ>(od, b));
    }
    if vec_mat::<QQ>(ev, a) == vec_mat::<QQ>(od, b) {
        assert forall|j: Dim| !(#[trigger] crate::matrix::mat_vec::<QQ>(il, p).contains_key(j)) by {
            assert(map_dot::<QQ>(row_of::<QQ>(il, j), p) == QQ::rzero());
        }
        assert(crate::matrix::mat_vec::<QQ>(il, p) =~= Map::<Dim, (int, int)>::empty());
    }
}

/// The coefficients `c[0 .. n]` as a sparse map over the positions.
pub open spec fn coeff_map(c: Seq<(int, int)>, n: int) -> QVec {
    Map::new(|t: Dim| 0 <= t < n && c[t as int] != QQ::rzero(), |t: Dim| c[t as int])
}

/// Taking halves commutes with `x + k * y`.
proof fn lemma_halves_linear(x: QVec, k: (int, int), y: QVec)
    requires
        is_sparse::<QQ>(x),
        is_sparse::<QQ>(y),
        crate::num::arith::is_canonical(k),
    ensures
        map_evens(map_add::<QQ>(x, map_scale::<QQ>(k, y))) == map_add::<QQ>(map_evens(x), map_scale::<QQ>(k, map_evens(y))),
        map_odds(map_add::<QQ>(x, map_scale::<QQ>(k, y))) == map_add::<QQ>(map_odds(x), map_scale::<QQ>(k, map_odds(y))),
{
    QQ::lemma_valid_units();
    QQ::lemma_ring_axioms(k, k, k);
    assert(map_evens(map_add::<QQ>(x, map_scale::<QQ>(k, y))) =~= map_add::<QQ>(map_evens(x), map_scale::<QQ>(k, map_evens(y))));
    assert(map_odds(map_add::<QQ>(x, map_scale::<QQ>(k, y))) =~= map_add::<QQ>(map_odds(x), map_scale::<QQ>(k, map_odds(y))));
}

/// The combination `c[0] * pairs[0] + ...` split into halves is the
/// coefficient map times the matrices whose rows are those halves.
pub proof fn lemma_comb_halves(pairs: Seq<super::QQVector>, c: Seq<(int, int)>, n: int, cm: Map<Dim, QVec>, dm: Map<Dim, QVec>)
    requires
        0 <= n <= pairs.len(),
        n <= c.len(),
        n <= i32::MAX,
        mat_sparse::<QQ>(cm),
        mat_sparse::<QQ>(dm),
        forall|t: int| 0 <= t < n ==> is_sparse::<QQ>((#[trigger] pairs[t])@),
        forall|t: int| 0 <= t < n ==> crate::num::arith::is_canonical(#[trigger] c[t]),
        forall|t: int| 0 <= t < n ==> row_of::<QQ>(cm, t as Dim) == map_evens((#[trigger] pairs[t])@) && row_of::<QQ>(dm, t as Dim)
            == map_odds(pairs[t]@),
    ensures
        is_sparse::<QQ>(coeff_map(c, n)),
        vec_mat::<QQ>(coeff_map(c, n), cm) == map_evens(super::elimination::lin_comb(pairs, c, n)),
        vec_mat::<QQ>(coeff_map(c, n), dm) == map_odds(super::elimination::lin_comb(pairs, c, n)),
    decreases n,
{
    QQ::lemma_valid_units();
    let u = coeff_map(c, n);
    if n == 0 {
        assert(u =~= Map::<Dim, (int, int)>::empty());
        assert(u.dom() =~= Set::<Dim>::empty());
        assert(vec_mat::<QQ>(u, cm) =~= Map::<Dim, (int, int)>::empty());
        assert(vec_mat::<QQ>(u, dm) =~= Map::<Dim, (int, int)>::empty());
        assert(map_evens(super::elimination::lin_comb(pairs, c, n)) =~= Map::<Dim, (int, int)>::empty());
        assert(map_odds(super::elimination::lin_comb(pairs, c, n)) =~= Map::<Dim, (int, int)>::empty());
    } else {
        lemma_comb_halves(pairs, c, n - 1, cm, dm);
        let u1 = coeff_map(c, n - 1);
        let top = (n - 1) as Dim;
        let l1 = super::elimination::lin_comb(pairs, c, n - 1);
        let v = pairs[n - 1]@;
        let k = c[n - 1];
        assert(is_sparse::<QQ>(v));
        assert(crate::num::arith::is_canonical(k));
        assert forall|t: int| 0 <= t < n - 1 implies crate::num::arith::is_canonical(#[trigger] c[t]) by {}
        super::elimination::lemma_lin_comb_sparse(pairs, c, n - 1);
        lemma_halves_linear(l1, k, v);
        assert(row_of::<QQ>(cm, top) == map_evens(v));
        assert(row_of::<QQ>(dm, top) == map_odds(v));
        if k == QQ::rzero() {
            assert(u =~= u1);
            assert(map_scale::<QQ>(k, map_evens(v)) =~= Map::<Dim, (int, int)>::empty()) by {
                QQ::lemma_ring_axioms(k, k, k);
                assert forall|d: Dim| map_evens(v).contains_key(d) implies QQ::rmul(k, map_evens(v)[d]) == QQ::rzero() by {
                    assert(is_sparse::<QQ>(v));
                    QQ::lemma_ring_axioms(map_evens(v)[d], map_evens(v)[d], map_evens(v)[d]);
                }
            }
            assert(map_scale::<QQ>(k, map_odds(v)) =~= Map::<Dim, (int, int)>::empty()) by {
                assert forall|d: Dim| map_odds(v).contains_key(d) implies QQ::rmul(k, map_odds(v)[d]) == QQ::rzero() by {
                    assert(is_sparse::<QQ>(v));
                    QQ::lemma_ring_axioms(map_odds(v)[d], map_odds(v)[d], map_odds(v)[d]);
                }
            }
            lemma_evens_sparse(l1);
            assert(map_add::<QQ>(map_evens(l1), Map::<Dim, (int, int)>::empty()) =~= map_evens(l1)) by {
                assert forall|d: Dim| map_evens(l1).contains_key(d) implies QQ::radd(map_evens(l1)[d], QQ::rzero()) == map_evens(l1)[d] by {
                    QQ::lemma_ring_axioms(map_evens(l1)[d], map_evens(l1)[d], map_evens(l1)[d]);
                }
            }
            assert(map_add::<QQ>(map_odds(l1), Map::<Dim, (int, int)>::empty()) =~= map_odds(l1)) by {
                assert forall|d: Dim| map_odds(l1).contains_key(d) implies QQ::radd(map_odds(l1)[d], QQ::rzero()) == map_odds(l1)[d] by {
                    QQ::lemma_ring_axioms(map_odds(l1)[d], map_odds(l1)[d], map_odds(l1)[d]);
                }
            }
        } else {
            assert(u =~= u1.insert(top, k));
            assert(u.dom().subset_of(u1.dom().insert(top)));
            assert(is_max_key(u, top));
            assert(u.remove(top) =~= u1);
            lemma_vec_mat_max(u, top, cm);
            lemma_vec_mat_max(u, top, dm);
        }
    }
}

/// The universal property of the pushout, from the spanning property of the
/// null space of the interleaved matrix: a pair `cc`, `dd` with
/// `cc * A = dd * B` is `(u * C, u * D)` where `C` and `D` hold the halves of
/// the null space basis.
pub proof fn lemma_pushout_universal(
    a: Map<Dim, QVec>,
    b: Map<Dim, QVec>,
    il: Map<Dim, QVec>,
    dims: Seq<Dim>,
    pairs: Seq<super::QQVector>,
    cm: Map<Dim, QVec>,
    dm: Map<Dim, QVec>,
    cc: QVec,
    dd: QVec,
)
    requires
        mat_sparse::<QQ>(a),
        mat_sparse::<QQ>(b),
        super::rowspace_ok(a),
        super::rowspace_ok(b),
        crate::matrix::mat_interlace_ok(crate::matrix::mat_transpose::<QQ>(a)),
        crate::matrix::mat_interlace_ok(
            crate::matrix::mat_transpose::<QQ>(crate::matrix::mat_scale::<QQ>(QQ::rneg(QQ::rone()), b)),
        ),
        il == interleaved(a, b),
        forall|k: Dim| #[trigger] crate::matrix::mat_transpose::<QQ>(il).contains_key(k) ==> dims.contains(k),
        pairs.len() <= i32::MAX,
        forall|t: int| 0 <= t < pairs.len() ==> is_sparse::<QQ>((#[trigger] pairs[t])@) && row_of::<QQ>(cm, t as Dim) == map_evens(
            pairs[t]@,
        ) && row_of::<QQ>(dm, t as Dim) == map_odds(pairs[t]@),
        mat_sparse::<QQ>(cm),
        mat_sparse::<QQ>(dm),
        forall|x: QVec|
            #![trigger is_sparse::<QQ>(x), crate::matrix::mat_vec::<QQ>(il, x)]
            is_sparse::<QQ>(x) && crate::matrix::mat_vec::<QQ>(il, x) == Map::<Dim, (int, int)>::empty() && (forall|d: Dim|
                #[trigger] x.contains_key(d) ==> dims.contains(d)) ==> exists|c: Seq<(int, int)>|
                c.len() == pairs.len() && (forall|t: int| 0 <= t < c.len() ==> crate::num::arith::is_canonical(#[trigger] c[t]))
                    && #[trigger] super::elimination::lin_comb(pairs, c, pairs.len() as int) == x,
        is_sparse::<QQ>(cc),
        is_sparse::<QQ>(dd),
        forall|i: Dim| #[trigger] cc.contains_key(i) ==> a.contains_key(i),
        forall|i: Dim| #[trigger] dd.contains_key(i) ==> b.contains_key(i),
        vec_mat::<QQ>(cc, a) == vec_mat::<QQ>(dd, b),
    ensures
        exists|u: QVec| #[trigger] is_sparse::<QQ>(u) && vec_mat::<QQ>(u, cm) == cc && vec_mat::<QQ>(u, dm) == dd,
{
    QQ::lemma_valid_units();
    let mone = QQ::rneg(QQ::rone());
    let at = crate::matrix::mat_transpose::<QQ>(a);
    let nb = crate::matrix::mat_scale::<QQ>(mone, b);
    let nbt = crate::matrix::mat_transpose::<QQ>(nb);
    assert(interlace_ok(cc)) by {
        assert forall|i: Dim| #[trigger] cc.contains_key(i) implies i32::MIN <= 2 * i && 2 * i + 1 <= i32::MAX by {
            assert(a.contains_key(i));
        }
    }
    assert(interlace_ok(dd)) by {
        assert forall|i: Dim| #[trigger] dd.contains_key(i) implies i32::MIN <= 2 * i && 2 * i + 1 <= i32::MAX by {
            assert(b.contains_key(i));
        }
    }
    let p = map_interlace(cc, dd);
    lemma_interlace_finite(cc, dd);
    assert(is_sparse::<QQ>(p));
    crate::ring::lemma_deinterlace_interlace(cc, dd);
    lemma_interleaved_null(a, b, p);
    lemma_neg_columns(b, 0);
    assert forall|k: Dim| #[trigger] p.contains_key(k) implies dims.contains(k) by {
        let h = (k / 2) as Dim;
        if k % 2 == 0 {
            assert(a.contains_key(h));
            assert(a[h] != Map::<Dim, (int, int)>::empty());
            if forall|e: Dim| !a[h].contains_key(e) {
                assert(a[h] =~= Map::<Dim, (int, int)>::empty());
            }
            let j = choose|j: Dim| a[h].contains_key(j);
            assert(column_of::<QQ>(a, j).contains_key(h));
            assert(column_of::<QQ>(a, j) != Map::<Dim, (int, int)>::empty());
            assert(at.contains_key(j));
            assert(row_of::<QQ>(at, j).contains_key(h));
            assert(il.contains_key(j));
            assert(il[j].contains_key(k));
            assert(column_of::<QQ>(il, k).contains_key(j));
            assert(column_of::<QQ>(il, k) != Map::<Dim, (int, int)>::empty());
        } else {
            assert(b.contains_key(h));
            assert(b[h] != Map::<Dim, (int, int)>::empty());
            if forall|e: Dim| !b[h].contains_key(e) {
                assert(b[h] =~= Map::<Dim, (int, int)>::empty());
            }
            let j = choose|j: Dim| b[h].contains_key(j);
            assert(nb.contains_key(h) && nb[h].contains_key(j));
            assert(column_of::<QQ>(nb, j).contains_key(h));
            assert(column_of::<QQ>(nb, j) != Map::<Dim, (int, int)>::empty());
            assert(nbt.contains_key(j));
            assert(row_of::<QQ>(nbt, j).contains_key(h));
            assert(il.contains_key(j));
            assert(il[j].contains_key(k));
            assert(column_of::<QQ>(il, k).contains_key(j));
            assert(column_of::<QQ>(il, k) != Map::<Dim, (int, int)>::empty());
        }
        assert(crate::matrix::mat_transpose::<QQ>(il).contains_key(k));
    }
    let c0 = choose|c0: Seq<(int, int)>|
        c0.len() == pairs.len() && (forall|t: int| 0 <= t < c0.len() ==> crate::num::arith::is_canonical(#[trigger] c0[t]))
            && #[trigger] super::elimination::lin_comb(pairs, c0, pairs.len() as int) == p;
    lemma_comb_halves(pairs, c0, pairs.len() as int, cm, dm);
    assert(is_sparse::<QQ>(coeff_map(c0, pairs.len() as int)));
}

/// Row `j` of the interleaved matrix is column `j` of `A` interlaced with
/// column `j` of `-B`, both interlaceable.
pub proof fn lemma_interleaved_row_shape(a: Map<Dim, QVec>, b: Map<Dim, QVec>, j: Dim)
    requires
        mat_sparse::<QQ>(a),
        mat_sparse::<QQ>(b),
        crate::matrix::mat_interlace_ok(crate::matrix::mat_transpose::<QQ>(a)),
        crate::matrix::mat_interlace_ok(
            crate::matrix::mat_transpose::<QQ>(crate::matrix::mat_scale::<QQ>(QQ::rneg(QQ::rone()), b)),
        ),
    ensures
        row_of::<QQ>(interleaved(a, b), j) == map_interlace(
            column_of::<QQ>(a, j),
            column_of::<QQ>(crate::matrix::mat_scale::<QQ>(QQ::rneg(QQ::rone()), b), j),
        ),
        interlace_ok(column_of::<QQ>(a, j)),
        interlace_ok(column_of::<QQ>(crate::matrix::mat_scale::<QQ>(QQ::rneg(QQ::rone()), b), j)),
{
    let mone = QQ::rneg(QQ::rone());
    let nb = crate::matrix::mat_scale::<QQ>(mone, b);
    let at = crate::matrix::mat_transpose::<QQ>(a);
    let nbt = crate::matrix::mat_transpose::<QQ>(nb);
    let il = interleaved(a, b);
    let ca = column_of::<QQ>(a, j);
    let cnb = column_of::<QQ>(nb, j);
    assert(row_of::<QQ>(at, j) == ca) by {
        if !at.contains_key(j) {
            assert(ca =~= Map::<Dim, (int, int)>::empty());
        }
    }
    assert(row_of::<QQ>(nbt, j) == cnb) by {
        if !nbt.contains_key(j) {
            assert(cnb =~= Map::<Dim, (int, int)>::empty());
        }
    }
    assert(interlace_ok(ca)) by {
        if at.contains_key(j) {
            assert(interlace_ok(at[j]));
        }
    }
    assert(interlace_ok(cnb)) by {
        if nbt.contains_key(j) {
            assert(interlace_ok(nbt[j]));
        }
    }
    assert(row_of::<QQ>(il, j) == map_interlace(ca, cnb)) by {
        if !il.contains_key(j) {
            assert(map_interlace(ca, cnb) =~= Map::<Dim, (int, int)>::empty());
        }
    }
}

} // verus!
