//! The matrices that `intersect_rowspace` builds, described row by row, and
//! the facts behind its maximality: the pairs it finds span every vector
//! that lies in both row spaces.

use vstd::prelude::*;

use crate::algebra::Ring;
use crate::inner::lemma_coeff_valid;
use crate::matrix::{column_of, lists_entries, mat_add_row, mat_sparse, mat_vec, row_of, vec_mat};
use crate::num::arith::{is_canonical, lemma_rat_inv, rat_inv};
use crate::num::QQ;
use crate::ring::{coeff_of, is_sparse, lemma_coeff_add, map_add, map_dot, map_evens, map_interlace, map_odds, map_scale, Dim};

use super::QVec;

verus! {

/// One of the first `k` entries of `es` sits at row `i`, column `j`.
pub open spec fn done_entry(es: Seq<(Dim, Dim, QQ)>, k: int, i: Dim, j: Dim) -> bool {
    exists|t: int| 0 <= t < k && #[trigger] es[t].0 == i && es[t].1 == j
}

/// Position `q` has the parity that the entries are placed at (odd or even)
/// and holds the entry `(q / 2, j)` of the first `k` entries of `es`.
pub open spec fn placed(es: Seq<(Dim, Dim, QQ)>, k: int, j: Dim, q: Dim, odd: bool) -> bool {
    (if odd {
        q % 2 != 0
    } else {
        q % 2 == 0
    }) && done_entry(es, k, (q / 2) as Dim, j)
}

/// The value placed at position `q` of row `j`: entry `(q / 2, j)` of `src`,
/// negated when `neg`.
pub open spec fn placed_value(src: Map<Dim, QVec>, j: Dim, q: Dim, neg: bool) -> (int, int) {
    if neg {
        QQ::rneg(coeff_of::<QQ>(row_of::<QQ>(src, (q / 2) as Dim), j))
    } else {
        coeff_of::<QQ>(row_of::<QQ>(src, (q / 2) as Dim), j)
    }
}

/// The row of a matrix after `v` is added to row `i`.
pub proof fn lemma_row_after_add(m: Map<Dim, QVec>, i: Dim, v: QVec, k: Dim)
    ensures
        row_of::<QQ>(mat_add_row::<QQ>(m, i, v), k) == (if k == i {
            map_add::<QQ>(row_of::<QQ>(m, i), v)
        } else {
            row_of::<QQ>(m, k)
        }),
{
}

/// Placing entry `k` of `es` (at column `2i`, or `2i + 1` when `odd`, of row
/// `j`) extends the description of the matrix by that entry.
pub proof fn lemma_place_step(
    m: Map<Dim, QVec>,
    es: Seq<(Dim, Dim, QQ)>,
    src: Map<Dim, QVec>,
    k: int,
    odd: bool,
    neg: bool,
    base: spec_fn(Dim, Dim) -> (int, int),
    col: Dim,
    v: (int, int),
)
    requires
        col == (if odd { 2 * es[k].0 + 1 } else { 2 * es[k].0 }),
        v == (if neg { QQ::rneg(es[k].2@) } else { es[k].2@ }),
        mat_sparse::<QQ>(m),
        mat_sparse::<QQ>(src),
        lists_entries::<QQ>(es, src),
        0 <= k < es.len(),
        -0x4000_0000 <= es[k].0 < 0x3fff_ffff,
        forall|j: Dim, q: Dim| #[trigger] coeff_of::<QQ>(row_of::<QQ>(m, j), q) == (if placed(es, k, j, q, odd) {
            placed_value(src, j, q, neg)
        } else {
            base(j, q)
        }),
        forall|j: Dim, q: Dim| (if odd { q % 2 != 0 } else { q % 2 == 0 }) ==> #[trigger] base(j, q) == QQ::rzero(),
    ensures
        forall|j: Dim, q: Dim| #[trigger] coeff_of::<QQ>(
            row_of::<QQ>(mat_add_row::<QQ>(m, es[k].1, Map::<Dim, (int, int)>::empty().insert(col, v)), j),
            q,
        ) == (if placed(es, k + 1, j, q, odd) {
            placed_value(src, j, q, neg)
        } else {
            base(j, q)
        }),
{
    QQ::lemma_valid_units();
    let i = es[k].0;
    let j0 = es[k].1;
    let c = es[k].2@;
    assert(src.contains_key(i) && src[i].contains_key(j0) && src[i][j0] == c);
    assert(is_sparse::<QQ>(src[i]));
    QQ::lemma_valid_closed(c, c);
    let single = Map::<Dim, (int, int)>::empty().insert(col, v);
    assert(single.dom() =~= Set::<Dim>::empty().insert(col));
    assert(is_sparse::<QQ>(single)) by {
        if neg {
            super::elimination::lemma_neg_one(c);
            crate::inner::lemma_neg_facts::<QQ>(QQ::rzero(), QQ::rzero());
        }
    }
    assert(!done_entry(es, k, i, j0)) by {
        if done_entry(es, k, i, j0) {
            let t = choose|t: int| 0 <= t < k && #[trigger] es[t].0 == i && es[t].1 == j0;
            assert(crate::matrix::entry_lt((es[t].0, es[t].1), (es[k].0, es[k].1)));
        }
    }
    assert forall|j: Dim, q: Dim| #[trigger] coeff_of::<QQ>(row_of::<QQ>(mat_add_row::<QQ>(m, j0, single), j), q) == (if placed(
        es,
        k + 1,
        j,
        q,
        odd,
    ) {
        placed_value(src, j, q, neg)
    } else {
        base(j, q)
    }) by {
        lemma_row_after_add(m, j0, single, j);
        assert(placed(es, k + 1, j, q, odd) == (placed(es, k, j, q, odd) || (j == j0 && q == col))) by {
            if placed(es, k + 1, j, q, odd) && !placed(es, k, j, q, odd) {
                let t = choose|t: int| 0 <= t < k + 1 && #[trigger] es[t].0 == (q / 2) as Dim && es[t].1 == j;
                assert(t == k);
            }
            if j == j0 && q == col {
                assert(es[k].0 == (q / 2) as Dim);
            }
        }
        if j == j0 {
            let r = row_of::<QQ>(m, j0);
            assert(is_sparse::<QQ>(r)) by {
                if !m.contains_key(j0) {
                    assert(r.dom() =~= Set::<Dim>::empty());
                }
            }
            lemma_coeff_add::<QQ>(r, single, q);
            lemma_coeff_valid::<QQ>(r, q);
            QQ::lemma_ring_axioms(coeff_of::<QQ>(r, q), QQ::rzero(), QQ::rzero());
            if q == col {
                assert(!placed(es, k, j, q, odd));
                assert(base(j, q) == QQ::rzero());
                super::elimination::lemma_zero_add(v);
            }
        }
    }
}

/// After all entries are placed, the placed value at a position is the
/// source's entry there (zero where the source has none).
pub proof fn lemma_done_all(es: Seq<(Dim, Dim, QQ)>, src: Map<Dim, QVec>, i: Dim, j: Dim)
    requires
        lists_entries::<QQ>(es, src),
    ensures
        (if done_entry(es, es.len() as int, i, j) {
            coeff_of::<QQ>(row_of::<QQ>(src, i), j)
        } else {
            QQ::rzero()
        }) == coeff_of::<QQ>(row_of::<QQ>(src, i), j),
{
    if src.contains_key(i) && src[i].contains_key(j) {
        let t = choose|t: int| 0 <= t < es.len() && #[trigger] es[t].0 == i && es[t].1 == j;
        assert(done_entry(es, es.len() as int, i, j));
    }
}

/// Coefficient `q` of row `j` of the interleaved matrix: entry `(q/2, j)` of
/// `A` at even `q`, minus entry `(q/2, j)` of `B` at odd `q`.
pub open spec fn interleaved_coeff(a: Map<Dim, QVec>, b: Map<Dim, QVec>, j: Dim, q: Dim) -> (int, int) {
    if q % 2 == 0 {
        coeff_of::<QQ>(row_of::<QQ>(a, (q / 2) as Dim), j)
    } else {
        QQ::rneg(coeff_of::<QQ>(row_of::<QQ>(b, (q / 2) as Dim), j))
    }
}

/// The rows of the interleaved matrix, coefficient by coefficient.
pub proof fn lemma_interleaved_coeffs(a: Map<Dim, QVec>, b: Map<Dim, QVec>, j: Dim)
    requires
        mat_sparse::<QQ>(a),
        mat_sparse::<QQ>(b),
        crate::matrix::mat_interlace_ok(crate::matrix::mat_transpose::<QQ>(a)),
        crate::matrix::mat_interlace_ok(
            crate::matrix::mat_transpose::<QQ>(crate::matrix::mat_scale::<QQ>(QQ::rneg(QQ::rone()), b)),
        ),
    ensures
        is_sparse::<QQ>(row_of::<QQ>(super::universal::interleaved(a, b), j)),
        forall|q: Dim| #[trigger] coeff_of::<QQ>(row_of::<QQ>(super::universal::interleaved(a, b), j), q) == interleaved_coeff(a, b, j, q),
{
    QQ::lemma_valid_units();
    let mone = QQ::rneg(QQ::rone());
    QQ::lemma_valid_closed(QQ::rone(), QQ::rone());
    let nb = crate::matrix::mat_scale::<QQ>(mone, b);
    super::universal::lemma_interleaved_row_shape(a, b, j);
    super::universal::lemma_neg_columns(b, j);
    super::universal::lemma_column_sparse(a, j);
    super::universal::lemma_column_sparse(b, j);
    super::universal::lemma_column_sparse(nb, j);
    let ca = column_of::<QQ>(a, j);
    let cnb = column_of::<QQ>(nb, j);
    super::universal::lemma_interlace_finite(ca, cnb);
    assert forall|q: Dim| #[trigger] coeff_of::<QQ>(map_interlace(ca, cnb), q) == interleaved_coeff(a, b, j, q) by {
        let h = (q / 2) as Dim;
        crate::ring::lemma_coeff_scale::<QQ>(mone, column_of::<QQ>(b, j), h);
        lemma_coeff_valid::<QQ>(column_of::<QQ>(b, j), h);
        super::elimination::lemma_neg_one(coeff_of::<QQ>(column_of::<QQ>(b, j), h));
        assert(coeff_of::<QQ>(ca, h) == coeff_of::<QQ>(row_of::<QQ>(a, h), j));
        assert(coeff_of::<QQ>(column_of::<QQ>(b, j), h) == coeff_of::<QQ>(row_of::<QQ>(b, h), j));
    }
}

/// Coefficient `q` of row `j` of the matrix holding `A`'s columns at the even
/// positions only.
pub open spec fn a_half(a: Map<Dim, QVec>, j: Dim, q: Dim) -> (int, int) {
    if q % 2 == 0 {
        coeff_of::<QQ>(row_of::<QQ>(a, (q / 2) as Dim), j)
    } else {
        QQ::rzero()
    }
}

/// `p` pairs a combination of the rows of `A` (its even half) with one of
/// the rows of `B` (its odd half) that give the same vector.
pub open spec fn in_meet(a: Map<Dim, QVec>, b: Map<Dim, QVec>, p: QVec) -> bool {
    is_sparse::<QQ>(p) && vec_mat::<QQ>(map_evens(p), a) == vec_mat::<QQ>(map_odds(p), b)
}

/// `w` is zero at every position of `ps`.
pub open spec fn vanishes_at(w: QVec, ps: Seq<Dim>) -> bool {
    forall|k: int| 0 <= k < ps.len() ==> #[trigger] coeff_of::<QQ>(w, ps[k]) == QQ::rzero()
}

/// Entry `j` of `m * x` is row `j` of `m` times `x`.
pub proof fn lemma_mat_vec_coeff(m: Map<Dim, QVec>, x: QVec, j: Dim)
    ensures
        coeff_of::<QQ>(mat_vec::<QQ>(m, x), j) == map_dot::<QQ>(row_of::<QQ>(m, j), x),
{
    if !m.contains_key(j) {
        crate::inner::lemma_dot_empty::<QQ>(x);
    }
}

/// The rows of the interleaved matrix times `p`: the coefficient at `j` of
/// the even half times `A` minus that of the odd half times `B`; where the
/// matrix has no row `j`, both are zero.
pub proof fn lemma_base_rows(a: Map<Dim, QVec>, b: Map<Dim, QVec>, m0: Map<Dim, QVec>, p: QVec, j: Dim)
    requires
        mat_sparse::<QQ>(a),
        mat_sparse::<QQ>(b),
        crate::matrix::mat_interlace_ok(crate::matrix::mat_transpose::<QQ>(a)),
        crate::matrix::mat_interlace_ok(
            crate::matrix::mat_transpose::<QQ>(crate::matrix::mat_scale::<QQ>(QQ::rneg(QQ::rone()), b)),
        ),
        mat_sparse::<QQ>(m0),
        forall|i: Dim, q: Dim| #[trigger] coeff_of::<QQ>(row_of::<QQ>(m0, i), q) == interleaved_coeff(a, b, i, q),
        is_sparse::<QQ>(p),
    ensures
        map_dot::<QQ>(row_of::<QQ>(m0, j), p) == QQ::radd(
            coeff_of::<QQ>(vec_mat::<QQ>(map_evens(p), a), j),
            QQ::rneg(coeff_of::<QQ>(vec_mat::<QQ>(map_odds(p), b), j)),
        ),
        !m0.contains_key(j) ==> coeff_of::<QQ>(vec_mat::<QQ>(map_evens(p), a), j) == QQ::rzero()
            && coeff_of::<QQ>(vec_mat::<QQ>(map_odds(p), b), j) == QQ::rzero(),
{
    QQ::lemma_valid_units();
    let il = super::universal::interleaved(a, b);
    lemma_interleaved_coeffs(a, b, j);
    let r0 = row_of::<QQ>(m0, j);
    assert(is_sparse::<QQ>(r0)) by {
        if !m0.contains_key(j) {
            assert(r0.dom() =~= Set::<Dim>::empty());
        }
    }
    super::vector_space::lemma_sparse_ext(r0, row_of::<QQ>(il, j));
    super::universal::lemma_interleaved_row(a, b, p, j);
    if !m0.contains_key(j) {
        super::universal::lemma_evens_sparse(p);
        super::universal::lemma_vec_mat_coeff(map_evens(p), a);
        super::universal::lemma_vec_mat_coeff(map_odds(p), b);
        super::universal::lemma_interleaved_row_shape(a, b, j);
        let ca = column_of::<QQ>(a, j);
        let cb = column_of::<QQ>(b, j);
        assert(ca =~= Map::<Dim, (int, int)>::empty()) by {
            assert forall|i: Dim| !#[trigger] ca.contains_key(i) by {
                if ca.contains_key(i) {
                    assert(crate::ring::interlace_ok(ca));
                    let q = (2 * i) as Dim;
                    assert(coeff_of::<QQ>(r0, q) == QQ::rzero());
                    assert((q / 2) as Dim == i);
                    assert(coeff_of::<QQ>(row_of::<QQ>(a, i), j) == a[i][j]);
                }
            }
        }
        assert(cb =~= Map::<Dim, (int, int)>::empty()) by {
            assert forall|i: Dim| !#[trigger] cb.contains_key(i) by {
                if cb.contains_key(i) {
                    let nb = crate::matrix::mat_scale::<QQ>(QQ::rneg(QQ::rone()), b);
                    super::universal::lemma_neg_columns(b, j);
                    let cnb = column_of::<QQ>(nb, j);
                    assert(crate::ring::interlace_ok(cnb));
                    assert(cnb.contains_key(i));
                    let q = (2 * i + 1) as Dim;
                    assert(coeff_of::<QQ>(r0, q) == QQ::rzero());
                    assert((q / 2) as Dim == i);
                    assert(coeff_of::<QQ>(row_of::<QQ>(b, i), j) == b[i][j]);
                    super::elimination::lemma_neg_one(b[i][j]);
                    crate::inner::lemma_neg_facts::<QQ>(QQ::rzero(), QQ::rzero());
                }
            }
        }
        crate::matrix::lemma_dot_empty_right::<QQ>(map_evens(p));
        crate::matrix::lemma_dot_empty_right::<QQ>(map_odds(p));
    }
}

/// A row holding `A`'s column `col` at the even positions, times `p`, is the
/// coefficient at `col` of the even half of `p` times `A`.
pub proof fn lemma_half_rows(a: Map<Dim, QVec>, ma: Map<Dim, QVec>, p: QVec, col: Dim)
    requires
        mat_sparse::<QQ>(a),
        crate::matrix::mat_interlace_ok(crate::matrix::mat_transpose::<QQ>(a)),
        mat_sparse::<QQ>(ma),
        forall|i: Dim, q: Dim| #[trigger] coeff_of::<QQ>(row_of::<QQ>(ma, i), q) == a_half(a, i, q),
        is_sparse::<QQ>(p),
    ensures
        map_dot::<QQ>(row_of::<QQ>(ma, col), p) == coeff_of::<QQ>(vec_mat::<QQ>(map_evens(p), a), col),
{
    QQ::lemma_valid_units();
    let ca = column_of::<QQ>(a, col);
    let e = Map::<Dim, (int, int)>::empty();
    super::universal::lemma_column_sparse(a, col);
    assert(crate::ring::interlace_ok(ca)) by {
        let at = crate::matrix::mat_transpose::<QQ>(a);
        assert forall|d: Dim| #[trigger] ca.contains_key(d) implies i32::MIN <= 2 * d && 2 * d + 1 <= i32::MAX by {
            assert(at.contains_key(col)) by {
                assert(column_of::<QQ>(a, col) != e);
            }
            assert(at[col].contains_key(d));
        }
    }
    assert(crate::ring::interlace_ok(e));
    assert(is_sparse::<QQ>(e)) by {
        assert(e.dom() =~= Set::<Dim>::empty());
    }
    super::universal::lemma_interlace_finite(ca, e);
    let r = row_of::<QQ>(ma, col);
    assert(is_sparse::<QQ>(r)) by {
        if !ma.contains_key(col) {
            assert(r.dom() =~= Set::<Dim>::empty());
        }
    }
    assert forall|q: Dim| #[trigger] coeff_of::<QQ>(r, q) == coeff_of::<QQ>(map_interlace(ca, e), q) by {
        assert(coeff_of::<QQ>(r, q) == a_half(a, col, q));
        let h = (q / 2) as Dim;
        if q % 2 == 0 {
            if a.contains_key(h) && a[h].contains_key(col) {
                assert(ca.contains_key(h));
            } else {
                assert(!ca.contains_key(h));
            }
        }
    }
    super::vector_space::lemma_sparse_ext(r, map_interlace(ca, e));
    super::universal::lemma_evens_sparse(p);
    super::universal::lemma_dot_interlace(ca, e, p);
    crate::inner::lemma_dot_empty::<QQ>(map_odds(p));
    super::universal::lemma_dot_symm(ca, map_evens(p));
    super::universal::lemma_vec_mat_coeff(map_evens(p), a);
    crate::inner::lemma_dot_valid::<QQ>(ca, map_evens(p));
    QQ::lemma_ring_axioms(map_dot::<QQ>(ca, map_evens(p)), QQ::rzero(), QQ::rzero());
}

/// When row `r` of `m` times `p` is the nonzero `g` and every other row
/// times `p` is zero, `p / g` solves `m * x = e_r`.
pub proof fn lemma_unit_target(m: Map<Dim, QVec>, p: QVec, r: Dim, g: (int, int))
    requires
        mat_sparse::<QQ>(m),
        is_sparse::<QQ>(p),
        is_canonical(g),
        g != QQ::rzero(),
        forall|j: Dim| #[trigger] map_dot::<QQ>(row_of::<QQ>(m, j), p) == (if j == r { g } else { QQ::rzero() }),
    ensures
        is_sparse::<QQ>(map_scale::<QQ>(rat_inv(g), p)),
        mat_vec::<QQ>(m, map_scale::<QQ>(rat_inv(g), p)) == Map::<Dim, (int, int)>::empty().insert(r, QQ::rone()),
{
    QQ::lemma_valid_units();
    super::lemma_nonzero_numerator(g);
    lemma_rat_inv(g);
    let k = rat_inv(g);
    let x = map_scale::<QQ>(k, p);
    crate::inner::lemma_scale_sparse::<QQ>(k, p);
    let target = Map::<Dim, (int, int)>::empty().insert(r, QQ::rone());
    assert forall|j: Dim| #[trigger] map_dot::<QQ>(row_of::<QQ>(m, j), x) == (if j == r { QQ::rone() } else { QQ::rzero() }) by {
        let row = row_of::<QQ>(m, j);
        assert(is_sparse::<QQ>(row)) by {
            if !m.contains_key(j) {
                assert(row.dom() =~= Set::<Dim>::empty());
            }
        }
        super::universal::lemma_dot_symm(row, x);
        crate::inner::lemma_dot_scale::<QQ>(k, p, row);
        super::universal::lemma_dot_symm(row, p);
        if j == r {
            super::elimination::lemma_mul_comm(k, g);
        } else {
            QQ::lemma_ring_axioms(k, k, k);
            crate::inner::lemma_neg_facts::<QQ>(k, QQ::rzero());
            QQ::lemma_ring_axioms(QQ::rzero(), k, k);
            super::elimination::lemma_mul_comm(k, QQ::rzero());
        }
    }
    assert forall|j: Dim| #[trigger] mat_vec::<QQ>(m, x).contains_key(j) == target.contains_key(j) by {
        assert(map_dot::<QQ>(row_of::<QQ>(m, j), x) == (if j == r { QQ::rone() } else { QQ::rzero() }));
        assert(map_dot::<QQ>(row_of::<QQ>(m, j), p) == (if j == r { g } else { QQ::rzero() }));
        if j == r {
            if !m.contains_key(j) {
                crate::inner::lemma_dot_empty::<QQ>(p);
                assert(row_of::<QQ>(m, j) == Map::<Dim, (int, int)>::empty());
            }
        }
    }
    assert(mat_vec::<QQ>(m, x).dom() =~= target.dom());
    assert(mat_vec::<QQ>(m, x)[r] == QQ::rone()) by {
        assert(map_dot::<QQ>(row_of::<QQ>(m, r), x) == QQ::rone());
    }
    assert(mat_vec::<QQ>(m, x) =~= target);
}

/// The setting of the search for a basis of the intersection: `A` and `B`
/// sparse with interlaceable columns, `m0` the interleaved matrix with its
/// rows below `mr0`, and `ma` holding `A`'s columns at the even positions.
pub open spec fn search_setting(a: Map<Dim, QVec>, b: Map<Dim, QVec>, m0: Map<Dim, QVec>, ma: Map<Dim, QVec>, mr0: int) -> bool {
    &&& mat_sparse::<QQ>(a)
    &&& mat_sparse::<QQ>(b)
    &&& crate::matrix::mat_interlace_ok(crate::matrix::mat_transpose::<QQ>(a))
    &&& crate::matrix::mat_interlace_ok(
        crate::matrix::mat_transpose::<QQ>(crate::matrix::mat_scale::<QQ>(QQ::rneg(QQ::rone()), b)),
    )
    &&& mat_sparse::<QQ>(m0)
    &&& forall|i: Dim, q: Dim| #[trigger] coeff_of::<QQ>(row_of::<QQ>(m0, i), q) == interleaved_coeff(a, b, i, q)
    &&& forall|i: Dim| #[trigger] m0.contains_key(i) ==> i < mr0
    &&& mat_sparse::<QQ>(ma)
    &&& forall|i: Dim, q: Dim| #[trigger] coeff_of::<QQ>(row_of::<QQ>(ma, i), q) == a_half(a, i, q)
}

/// The rows of a candidate: those of `m0` below `mr0`, then the rows of `ma`
/// at the positions `succ`, in order, then row `col` of `ma`.
pub open spec fn candidate_rows(
    cand: Map<Dim, QVec>,
    m0: Map<Dim, QVec>,
    ma: Map<Dim, QVec>,
    mr0: int,
    succ: Seq<Dim>,
    col: Dim,
) -> bool {
    forall|j: Dim| #[trigger] row_of::<QQ>(cand, j) == (if j < mr0 {
        row_of::<QQ>(m0, j)
    } else if j < mr0 + succ.len() {
        row_of::<QQ>(ma, succ[j - mr0])
    } else if j == mr0 + succ.len() {
        row_of::<QQ>(ma, col)
    } else {
        Map::<Dim, (int, int)>::empty()
    })
}

/// Row `j` of a candidate times `p`.
pub proof fn lemma_candidate_dot(
    a: Map<Dim, QVec>,
    b: Map<Dim, QVec>,
    m0: Map<Dim, QVec>,
    ma: Map<Dim, QVec>,
    mr0: int,
    cand: Map<Dim, QVec>,
    succ: Seq<Dim>,
    col: Dim,
    p: QVec,
    j: Dim,
)
    requires
        search_setting(a, b, m0, ma, mr0),
        candidate_rows(cand, m0, ma, mr0, succ, col),
        is_sparse::<QQ>(p),
    ensures
        map_dot::<QQ>(row_of::<QQ>(cand, j), p) == (if j < mr0 {
            QQ::radd(
                coeff_of::<QQ>(vec_mat::<QQ>(map_evens(p), a), j),
                QQ::rneg(coeff_of::<QQ>(vec_mat::<QQ>(map_odds(p), b), j)),
            )
        } else if j < mr0 + succ.len() {
            coeff_of::<QQ>(vec_mat::<QQ>(map_evens(p), a), succ[j - mr0])
        } else if j == mr0 + succ.len() {
            coeff_of::<QQ>(vec_mat::<QQ>(map_evens(p), a), col)
        } else {
            QQ::rzero()
        }),
{
    assert(row_of::<QQ>(cand, j) == (if j < mr0 {
        row_of::<QQ>(m0, j)
    } else if j < mr0 + succ.len() {
        row_of::<QQ>(ma, succ[j - mr0])
    } else if j == mr0 + succ.len() {
        row_of::<QQ>(ma, col)
    } else {
        Map::<Dim, (int, int)>::empty()
    }));
    if j < mr0 {
        lemma_base_rows(a, b, m0, p, j);
    } else if j < mr0 + succ.len() {
        lemma_half_rows(a, ma, p, succ[j - mr0]);
    } else if j == mr0 + succ.len() {
        lemma_half_rows(a, ma, p, col);
    } else {
        crate::inner::lemma_dot_empty::<QQ>(p);
    }
}

/// When `cand * x = e_r` has no solution, every `p` in the meet that
/// vanishes at `succ` vanishes at `col` too.
pub proof fn lemma_none_vanish(
    a: Map<Dim, QVec>,
    b: Map<Dim, QVec>,
    m0: Map<Dim, QVec>,
    ma: Map<Dim, QVec>,
    mr0: int,
    cand: Map<Dim, QVec>,
    succ: Seq<Dim>,
    col: Dim,
    p: QVec,
)
    requires
        search_setting(a, b, m0, ma, mr0),
        candidate_rows(cand, m0, ma, mr0, succ, col),
        mat_sparse::<QQ>(cand),
        in_meet(a, b, p),
        vanishes_at(vec_mat::<QQ>(map_evens(p), a), succ),
        i32::MIN <= mr0,
        mr0 + succ.len() <= i32::MAX,
        forall|x: QVec| #[trigger] is_sparse::<QQ>(x) ==> mat_vec::<QQ>(cand, x) != Map::<Dim, (int, int)>::empty().insert(
            (mr0 + succ.len()) as Dim,
            QQ::rone(),
        ),
    ensures
        coeff_of::<QQ>(vec_mat::<QQ>(map_evens(p), a), col) == QQ::rzero(),
{
    QQ::lemma_valid_units();
    let wa = vec_mat::<QQ>(map_evens(p), a);
    let wb = vec_mat::<QQ>(map_odds(p), b);
    let r = (mr0 + succ.len()) as Dim;
    let g = coeff_of::<QQ>(wa, col);
    if g != QQ::rzero() {
        super::universal::lemma_evens_sparse(p);
        super::universal::lemma_vec_mat_coeff(map_evens(p), a);
        crate::inner::lemma_coeff_valid::<QQ>(wa, col);
        assert forall|j: Dim| #[trigger] map_dot::<QQ>(row_of::<QQ>(cand, j), p) == (if j == r { g } else { QQ::rzero() }) by {
            lemma_candidate_dot(a, b, m0, ma, mr0, cand, succ, col, p, j);
            if j < mr0 {
                let x = coeff_of::<QQ>(wa, j);
                crate::inner::lemma_coeff_valid::<QQ>(wa, j);
                QQ::lemma_ring_axioms(x, x, x);
            } else if j < mr0 + succ.len() {
                let k = j - mr0;
                assert(coeff_of::<QQ>(wa, succ[k]) == QQ::rzero());
            }
        }
        lemma_unit_target(cand, p, r, g);
        let x = map_scale::<QQ>(rat_inv(g), p);
        assert(is_sparse::<QQ>(x));
        assert(false);
    }
}

/// A solution of `cand * x = e_r`: its halves give the same vector `w`, which
/// is one at `col` and zero at every position of `succ`.
pub proof fn lemma_some_solution(
    a: Map<Dim, QVec>,
    b: Map<Dim, QVec>,
    m0: Map<Dim, QVec>,
    ma: Map<Dim, QVec>,
    mr0: int,
    cand: Map<Dim, QVec>,
    succ: Seq<Dim>,
    col: Dim,
    x: QVec,
)
    requires
        search_setting(a, b, m0, ma, mr0),
        candidate_rows(cand, m0, ma, mr0, succ, col),
        is_sparse::<QQ>(x),
        i32::MIN <= mr0,
        mr0 + succ.len() <= i32::MAX,
        mat_vec::<QQ>(cand, x) == Map::<Dim, (int, int)>::empty().insert((mr0 + succ.len()) as Dim, QQ::rone()),
    ensures
        vec_mat::<QQ>(map_evens(x), a) == vec_mat::<QQ>(map_odds(x), b),
        coeff_of::<QQ>(vec_mat::<QQ>(map_evens(x), a), col) == QQ::rone(),
        forall|s: int| 0 <= s < succ.len() ==> #[trigger] coeff_of::<QQ>(vec_mat::<QQ>(map_evens(x), a), succ[s]) == QQ::rzero(),
{
    QQ::lemma_valid_units();
    let wa = vec_mat::<QQ>(map_evens(x), a);
    let wb = vec_mat::<QQ>(map_odds(x), b);
    let r = (mr0 + succ.len()) as Dim;
    let e = Map::<Dim, (int, int)>::empty().insert(r, QQ::rone());
    super::universal::lemma_evens_sparse(x);
    super::universal::lemma_vec_mat_coeff(map_evens(x), a);
    super::universal::lemma_vec_mat_coeff(map_odds(x), b);
    assert forall|j: Dim| #[trigger] coeff_of::<QQ>(wa, j) == coeff_of::<QQ>(wb, j) by {
        lemma_base_rows(a, b, m0, x, j);
        if m0.contains_key(j) {
            lemma_candidate_dot(a, b, m0, ma, mr0, cand, succ, col, x, j);
            lemma_mat_vec_coeff(cand, x, j);
            assert(coeff_of::<QQ>(e, j) == QQ::rzero());
            let u = coeff_of::<QQ>(wa, j);
            let v = coeff_of::<QQ>(wb, j);
            crate::inner::lemma_coeff_valid::<QQ>(wa, j);
            crate::inner::lemma_coeff_valid::<QQ>(wb, j);
            QQ::lemma_valid_closed(v, v);
            QQ::lemma_ring_axioms(u, u, u);
            crate::inner::lemma_neg_unique::<QQ>(u, QQ::rneg(v));
            super::elimination::lemma_neg_one(v);
            super::elimination::lemma_neg_one(u);
        }
    }
    super::vector_space::lemma_sparse_ext(wa, wb);
    lemma_candidate_dot(a, b, m0, ma, mr0, cand, succ, col, x, r);
    lemma_mat_vec_coeff(cand, x, r);
    assert forall|s: int| 0 <= s < succ.len() implies #[trigger] coeff_of::<QQ>(wa, succ[s]) == QQ::rzero() by {
        let j = (mr0 + s) as Dim;
        lemma_candidate_dot(a, b, m0, ma, mr0, cand, succ, col, x, j);
        lemma_mat_vec_coeff(cand, x, j);
        assert(j - mr0 == s);
    }
}

/// Row `k` of `c` times `A` is one at `ps[k]` and zero at every earlier
/// position of `ps`; `c` has no rows beyond the first `ps.len()`.
pub open spec fn pivoted_rows(c: Map<Dim, QVec>, a: Map<Dim, QVec>, ps: Seq<Dim>) -> bool {
    &&& ps.len() <= i32::MAX
    &&& forall|i: Dim| #[trigger] c.contains_key(i) ==> 0 <= i < ps.len()
    &&& forall|s: int, k: int|
        0 <= s <= k < ps.len() ==> #[trigger] coeff_of::<QQ>(vec_mat::<QQ>(row_of::<QQ>(c, k as Dim), a), ps[s]) == (if s
            == k {
            QQ::rone()
        } else {
            QQ::rzero()
        })
}

/// Every vector lying in both row spaces (as the even half of `p` times `A`
/// and the odd half times `B`) that is zero at every position of `ps` is
/// the zero vector.
pub open spec fn meet_pinned(a: Map<Dim, QVec>, b: Map<Dim, QVec>, ps: Seq<Dim>) -> bool {
    forall|p: QVec|
        #[trigger] in_meet(a, b, p) && vanishes_at(vec_mat::<QQ>(map_evens(p), a), ps) ==> vec_mat::<QQ>(map_evens(p), a)
            == Map::<Dim, (int, int)>::empty()
}

} // verus!
