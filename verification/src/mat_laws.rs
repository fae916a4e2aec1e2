//! Laws of the matrix product over the sparse models: the product is
//! associative, the diagonal on the rows and columns in use is an identity
//! on both sides, and powers add: `m^(a+b) = m^a * m^b`.

use vstd::prelude::*;

use crate::algebra::Ring;
use crate::inner::{lemma_coeff_valid, lemma_dot_add, lemma_dot_congr, lemma_dot_empty, lemma_dot_insert, lemma_dot_max, lemma_dot_scale, lemma_dot_valid, lemma_max_key_exists, lemma_scale_sparse, lemma_add_sparse};
use crate::matrix::{column_of, column_support, diagonal, lemma_dot_empty_right, mat_mul, mat_pow, mat_sparse, mat_vec, row_of, row_times};
use crate::ring::{coeff_of, is_max_key, is_sparse, lemma_coeff_add, lemma_coeff_scale, map_add, map_dot, map_scale, Dim};

verus! {

/// Sparse maps with the same coefficients are equal.
pub proof fn lemma_sparse_eq<R: Ring>(a: Map<Dim, R::V>, b: Map<Dim, R::V>)
    requires
        is_sparse::<R>(a),
        is_sparse::<R>(b),
        forall|d: Dim| #[trigger] coeff_of::<R>(a, d) == coeff_of::<R>(b, d),
    ensures
        a == b,
{
    assert forall|d: Dim| #[trigger] a.contains_key(d) == b.contains_key(d) && (a.contains_key(d) ==> a[d] == b[d]) by {
        assert(coeff_of::<R>(a, d) == coeff_of::<R>(b, d));
    }
    assert(a =~= b);
}

/// A row of a sparse matrix is sparse.
pub proof fn lemma_row_sparse<R: Ring>(m: Map<Dim, Map<Dim, R::V>>, i: Dim)
    requires
        mat_sparse::<R>(m),
    ensures
        is_sparse::<R>(row_of::<R>(m, i)),
{
    if !m.contains_key(i) {
        assert(Map::<Dim, R::V>::empty().dom() =~= Set::<Dim>::empty());
    }
}

/// A column of a sparse matrix is sparse, and its coefficients are the
/// matrix entries.
pub proof fn lemma_column_sparse<R: Ring>(m: Map<Dim, Map<Dim, R::V>>, j: Dim)
    requires
        mat_sparse::<R>(m),
    ensures
        is_sparse::<R>(column_of::<R>(m, j)),
        forall|i: Dim| #[trigger] coeff_of::<R>(column_of::<R>(m, j), i) == coeff_of::<R>(row_of::<R>(m, i), j),
{
    let c = column_of::<R>(m, j);
    assert(c.dom().subset_of(m.dom()));
    vstd::set_lib::lemma_len_subset(c.dom(), m.dom());
}

/// The columns of a sparse matrix are finitely many.
pub proof fn lemma_columns_finite<R: Ring>(m: Map<Dim, Map<Dim, R::V>>)
    requires
        mat_sparse::<R>(m),
    ensures
        column_support(m).finite(),
    decreases m.dom().len(),
{
    if m.dom().len() == 0 {
        assert(column_support(m) =~= Set::<Dim>::empty()) by {
            assert forall|j: Dim| !column_support(m).contains(j) by {
                if column_support(m).contains(j) {
                    let i = choose|i: Dim| m.contains_key(i) && #[trigger] m[i].contains_key(j);
                    assert(m.dom().contains(i));
                }
            }
        }
    } else {
        let k = m.dom().choose();
        let r = m.remove(k);
        assert(r.dom() =~= m.dom().remove(k));
        lemma_columns_finite::<R>(r);
        assert(column_support(m) =~= column_support(r).union(m[k].dom())) by {
            assert forall|j: Dim| column_support(m).contains(j) implies column_support(r).union(m[k].dom()).contains(j) by {
                let i = choose|i: Dim| m.contains_key(i) && #[trigger] m[i].contains_key(j);
                if i != k {
                    assert(r.contains_key(i) && r[i].contains_key(j));
                }
            }
            assert forall|j: Dim| column_support(r).union(m[k].dom()).contains(j) implies column_support(m).contains(j) by {
                if column_support(r).contains(j) {
                    let i = choose|i: Dim| r.contains_key(i) && #[trigger] r[i].contains_key(j);
                    assert(m.contains_key(i) && m[i].contains_key(j));
                } else {
                    assert(m.contains_key(k) && m[k].contains_key(j));
                }
            }
        }
    }
}

/// `a . {j: v}` is `a[j] * v`.
pub proof fn lemma_dot_unit_right<R: Ring>(a: Map<Dim, R::V>, j: Dim, v: R::V)
    requires
        is_sparse::<R>(a),
        R::valid(v),
    ensures
        map_dot::<R>(a, Map::<Dim, R::V>::empty().insert(j, v)) == R::rmul(coeff_of::<R>(a, j), v),
{
    R::lemma_valid_units();
    let e = Map::<Dim, R::V>::empty().insert(j, v);
    let z = Map::<Dim, R::V>::empty();
    lemma_coeff_valid::<R>(a, j);
    R::lemma_ring_axioms(coeff_of::<R>(a, j), R::rzero(), R::rzero());
    R::lemma_ring_axioms(R::rzero(), v, R::rzero());
    R::lemma_ring_axioms(v, R::rzero(), R::rzero());
    if v == R::rzero() {
        lemma_dot_congr::<R>(a, e, z);
        lemma_dot_empty_right::<R>(a);
    } else {
        let a1 = a.remove(j);
        assert(a1.dom().subset_of(a.dom()));
        vstd::set_lib::lemma_len_subset(a1.dom(), a.dom());
        assert(is_sparse::<R>(a1));
        lemma_dot_congr::<R>(a1, e, z);
        lemma_dot_empty_right::<R>(a1);
        assert(e.dom() =~= Set::<Dim>::empty().insert(j));
        if a.contains_key(j) {
            assert(a =~= a1.insert(j, a[j]));
            lemma_dot_insert::<R>(a1, j, a[j], e);
            R::lemma_valid_closed(a[j], v);
            R::lemma_ring_axioms(R::rmul(a[j], v), R::rzero(), R::rzero());
            R::lemma_ring_axioms(R::rzero(), R::rmul(a[j], v), R::rzero());
        } else {
            assert(a1 =~= a);
            assert(coeff_of::<R>(a, j) == R::rzero());
        }
    }
}

/// `{i: v} . b` is `v * b[i]`.
pub proof fn lemma_dot_unit_left<R: Ring>(i: Dim, v: R::V, b: Map<Dim, R::V>)
    requires
        is_sparse::<R>(b),
        R::valid(v),
        v != R::rzero(),
    ensures
        map_dot::<R>(Map::<Dim, R::V>::empty().insert(i, v), b) == R::rmul(v, coeff_of::<R>(b, i)),
{
    R::lemma_valid_units();
    let z = Map::<Dim, R::V>::empty();
    assert(z.dom() =~= Set::<Dim>::empty());
    lemma_dot_insert::<R>(z, i, v, b);
    lemma_dot_empty::<R>(b);
    lemma_coeff_valid::<R>(b, i);
    R::lemma_valid_closed(v, coeff_of::<R>(b, i));
    R::lemma_ring_axioms(R::rmul(v, coeff_of::<R>(b, i)), R::rzero(), R::rzero());
    R::lemma_ring_axioms(R::rzero(), R::rmul(v, coeff_of::<R>(b, i)), R::rzero());
}

/// `x * Y` is sparse, and its coefficient at `j` is `x . column_j(Y)`.
pub proof fn lemma_row_times<R: Ring>(x: Map<Dim, R::V>, y: Map<Dim, Map<Dim, R::V>>)
    requires
        is_sparse::<R>(x),
        mat_sparse::<R>(y),
    ensures
        is_sparse::<R>(row_times::<R>(x, y)),
        forall|j: Dim| #[trigger] coeff_of::<R>(row_times::<R>(x, y), j) == map_dot::<R>(x, column_of::<R>(y, j)),
{
    let r = row_times::<R>(x, y);
    lemma_columns_finite::<R>(y);
    assert forall|j: Dim| r.contains_key(j) implies #[trigger] column_support(y).contains(j) by {
        let c = column_of::<R>(y, j);
        if !(exists|i: Dim| #[trigger] c.contains_key(i)) {
            assert(c =~= Map::<Dim, R::V>::empty());
        }
        let i = choose|i: Dim| #[trigger] c.contains_key(i);
        assert(y.contains_key(i) && y[i].contains_key(j));
    }
    assert(r.dom().subset_of(column_support(y)));
    vstd::set_lib::lemma_len_subset(r.dom(), column_support(y));
    assert forall|j: Dim| #[trigger] r.contains_key(j) implies R::valid(r[j]) && r[j] != R::rzero() by {
        lemma_column_sparse::<R>(y, j);
        lemma_dot_valid::<R>(x, column_of::<R>(y, j));
    }
    assert forall|j: Dim| #[trigger] coeff_of::<R>(r, j) == map_dot::<R>(x, column_of::<R>(y, j)) by {
        if !r.contains_key(j) && column_of::<R>(y, j) == Map::<Dim, R::V>::empty() {
            lemma_dot_empty_right::<R>(x);
        }
    }
}

/// The product with the empty row is empty.
pub proof fn lemma_row_times_empty<R: Ring>(y: Map<Dim, Map<Dim, R::V>>)
    ensures
        row_times::<R>(Map::<Dim, R::V>::empty(), y) == Map::<Dim, R::V>::empty(),
{
    assert forall|j: Dim| !(#[trigger] row_times::<R>(Map::<Dim, R::V>::empty(), y).contains_key(j)) by {
        lemma_dot_empty::<R>(column_of::<R>(y, j));
    }
    assert(row_times::<R>(Map::<Dim, R::V>::empty(), y) =~= Map::<Dim, R::V>::empty());
}

/// Entry `l` of `Y * c` is `row_l(Y) . c`, and `Y * c` is sparse.
pub proof fn lemma_mat_vec<R: Ring>(y: Map<Dim, Map<Dim, R::V>>, c: Map<Dim, R::V>, l: Dim)
    requires
        mat_sparse::<R>(y),
        is_sparse::<R>(c),
    ensures
        coeff_of::<R>(mat_vec::<R>(y, c), l) == map_dot::<R>(row_of::<R>(y, l), c),
        is_sparse::<R>(mat_vec::<R>(y, c)),
{
    let w = mat_vec::<R>(y, c);
    if !y.contains_key(l) {
        lemma_dot_empty::<R>(c);
    }
    assert(w.dom().subset_of(y.dom()));
    vstd::set_lib::lemma_len_subset(w.dom(), y.dom());
    assert forall|k: Dim| #[trigger] w.contains_key(k) implies R::valid(w[k]) && w[k] != R::rzero() by {
        lemma_dot_valid::<R>(y[k], c);
    }
}

/// `(x * Y) . c == x . (Y * c)`: the step behind associativity.
pub proof fn lemma_dot_row_times<R: Ring>(x: Map<Dim, R::V>, y: Map<Dim, Map<Dim, R::V>>, c: Map<Dim, R::V>)
    requires
        is_sparse::<R>(x),
        mat_sparse::<R>(y),
        is_sparse::<R>(c),
    ensures
        map_dot::<R>(row_times::<R>(x, y), c) == map_dot::<R>(x, mat_vec::<R>(y, c)),
    decreases x.dom().len(),
{
    R::lemma_valid_units();
    let w = mat_vec::<R>(y, c);
    if x.dom().len() == 0 {
        assert(x =~= Map::<Dim, R::V>::empty());
        lemma_row_times_empty::<R>(y);
        lemma_dot_empty::<R>(c);
        lemma_dot_empty::<R>(w);
    } else {
        lemma_max_key_exists(x);
        let d = choose|d: Dim| is_max_key(x, d);
        let x1 = x.remove(d);
        let v = x[d];
        assert(x1.dom().subset_of(x.dom()));
        vstd::set_lib::lemma_len_subset(x1.dom(), x.dom());
        assert(is_sparse::<R>(x1));
        lemma_dot_row_times::<R>(x1, y, c);
        let p = row_times::<R>(x1, y);
        let yd = row_of::<R>(y, d);
        lemma_row_sparse::<R>(y, d);
        let sc = map_scale::<R>(v, yd);
        lemma_row_times::<R>(x1, y);
        lemma_row_times::<R>(x, y);
        lemma_scale_sparse::<R>(v, yd);
        lemma_add_sparse::<R>(p, sc);
        // x * Y is (x1 * Y) + v * row_d(Y).
        assert forall|j: Dim| #[trigger] coeff_of::<R>(row_times::<R>(x, y), j) == coeff_of::<R>(map_add::<R>(p, sc), j) by {
            let col = column_of::<R>(y, j);
            lemma_column_sparse::<R>(y, j);
            lemma_dot_max::<R>(x, d, col);
            lemma_coeff_add::<R>(p, sc, j);
            lemma_coeff_scale::<R>(v, yd, j);
            assert(coeff_of::<R>(col, d) == coeff_of::<R>(yd, j));
        }
        lemma_sparse_eq::<R>(row_times::<R>(x, y), map_add::<R>(p, sc));
        lemma_dot_add::<R>(p, sc, c);
        lemma_dot_scale::<R>(v, yd, c);
        // x . w unfolds at d.
        lemma_mat_vec::<R>(y, c, d);
        lemma_dot_max::<R>(x, d, w);
    }
}

/// The product of sparse matrices is sparse; its row `i` is row `i` of the
/// left factor times the right factor; its columns are among those of the
/// right factor.
pub proof fn lemma_mul<R: Ring>(x: Map<Dim, Map<Dim, R::V>>, y: Map<Dim, Map<Dim, R::V>>)
    requires
        mat_sparse::<R>(x),
        mat_sparse::<R>(y),
    ensures
        mat_sparse::<R>(mat_mul::<R>(x, y)),
        forall|i: Dim| #[trigger] row_of::<R>(mat_mul::<R>(x, y), i) == row_times::<R>(row_of::<R>(x, i), y),
        column_support(mat_mul::<R>(x, y)).subset_of(column_support(y)),
{
    let p = mat_mul::<R>(x, y);
    assert(p.dom().subset_of(x.dom()));
    vstd::set_lib::lemma_len_subset(p.dom(), x.dom());
    assert forall|i: Dim| #[trigger] p.contains_key(i) implies is_sparse::<R>(p[i]) && p[i] != Map::<Dim, R::V>::empty() by {
        lemma_row_times::<R>(x[i], y);
    }
    assert forall|i: Dim| #[trigger] row_of::<R>(p, i) == row_times::<R>(row_of::<R>(x, i), y) by {
        if !x.contains_key(i) {
            lemma_row_times_empty::<R>(y);
        }
    }
    assert forall|j: Dim| column_support(p).contains(j) implies #[trigger] column_support(y).contains(j) by {
        let i = choose|i: Dim| p.contains_key(i) && #[trigger] p[i].contains_key(j);
        let c = column_of::<R>(y, j);
        assert(c != Map::<Dim, R::V>::empty());
        if !(exists|k: Dim| #[trigger] c.contains_key(k)) {
            assert(c =~= Map::<Dim, R::V>::empty());
        }
        let k = choose|k: Dim| #[trigger] c.contains_key(k);
        assert(y.contains_key(k) && y[k].contains_key(j));
    }
}

/// Sparse matrices with the same rows are equal.
pub proof fn lemma_mat_eq<R: Ring>(m: Map<Dim, Map<Dim, R::V>>, n: Map<Dim, Map<Dim, R::V>>)
    requires
        mat_sparse::<R>(m),
        mat_sparse::<R>(n),
        forall|i: Dim| #[trigger] row_of::<R>(m, i) == row_of::<R>(n, i),
    ensures
        m == n,
{
    assert forall|i: Dim| #[trigger] m.contains_key(i) == n.contains_key(i) by {
        assert(row_of::<R>(m, i) == row_of::<R>(n, i));
    }
    assert forall|i: Dim| #[trigger] m.contains_key(i) implies m[i] == n[i] by {
        assert(row_of::<R>(m, i) == row_of::<R>(n, i));
    }
    assert(m =~= n);
}

/// Column `j` of `Y * Z` is `Y` times column `j` of `Z`.
pub proof fn lemma_column_of_mul<R: Ring>(y: Map<Dim, Map<Dim, R::V>>, z: Map<Dim, Map<Dim, R::V>>, j: Dim)
    requires
        mat_sparse::<R>(y),
        mat_sparse::<R>(z),
    ensures
        column_of::<R>(mat_mul::<R>(y, z), j) == mat_vec::<R>(y, column_of::<R>(z, j)),
{
    let yz = mat_mul::<R>(y, z);
    let cz = column_of::<R>(z, j);
    lemma_mul::<R>(y, z);
    lemma_column_sparse::<R>(yz, j);
    lemma_column_sparse::<R>(z, j);
    lemma_mat_vec::<R>(y, cz, 0);
    assert forall|l: Dim| #[trigger] coeff_of::<R>(column_of::<R>(yz, j), l) == coeff_of::<R>(mat_vec::<R>(y, cz), l) by {
        lemma_mat_vec::<R>(y, cz, l);
        lemma_row_sparse::<R>(y, l);
        lemma_row_times::<R>(row_of::<R>(y, l), z);
        assert(row_of::<R>(yz, l) == row_times::<R>(row_of::<R>(y, l), z));
    }
    lemma_sparse_eq::<R>(column_of::<R>(yz, j), mat_vec::<R>(y, cz));
}

/// The matrix product is associative: `(X * Y) * Z == X * (Y * Z)`.
pub proof fn lemma_mul_assoc<R: Ring>(x: Map<Dim, Map<Dim, R::V>>, y: Map<Dim, Map<Dim, R::V>>, z: Map<Dim, Map<Dim, R::V>>)
    requires
        mat_sparse::<R>(x),
        mat_sparse::<R>(y),
        mat_sparse::<R>(z),
    ensures
        mat_mul::<R>(mat_mul::<R>(x, y), z) == mat_mul::<R>(x, mat_mul::<R>(y, z)),
{
    let xy = mat_mul::<R>(x, y);
    let yz = mat_mul::<R>(y, z);
    lemma_mul::<R>(x, y);
    lemma_mul::<R>(y, z);
    lemma_mul::<R>(xy, z);
    lemma_mul::<R>(x, yz);
    assert forall|i: Dim| #[trigger] row_of::<R>(mat_mul::<R>(xy, z), i) == row_of::<R>(mat_mul::<R>(x, yz), i) by {
        let xi = row_of::<R>(x, i);
        lemma_row_sparse::<R>(x, i);
        let u = row_times::<R>(xi, y);
        lemma_row_times::<R>(xi, y);
        lemma_row_times::<R>(u, z);
        lemma_row_times::<R>(xi, yz);
        assert(row_of::<R>(xy, i) == u);
        assert forall|j: Dim| #[trigger] coeff_of::<R>(row_times::<R>(u, z), j) == coeff_of::<R>(row_times::<R>(xi, yz), j) by {
            lemma_column_sparse::<R>(z, j);
            lemma_dot_row_times::<R>(xi, y, column_of::<R>(z, j));
            lemma_column_of_mul::<R>(y, z, j);
        }
        lemma_sparse_eq::<R>(row_times::<R>(u, z), row_times::<R>(xi, yz));
    }
    lemma_mat_eq::<R>(mat_mul::<R>(xy, z), mat_mul::<R>(x, yz));
}

/// A valid element stored in a sparse map is nonzero, so one differs from
/// zero whenever a sparse map holds an entry.
proof fn lemma_nonzero_ring<R: Ring>(x: R::V)
    requires
        R::valid(x),
        x != R::rzero(),
    ensures
        R::rone() != R::rzero(),
{
    R::lemma_valid_units();
    R::lemma_ring_axioms(x, R::rzero(), R::rzero());
}

/// The identity on a finite set of positions is sparse, its row and column
/// `i` hold one at `i` alone when `i` is in the set, and it uses only
/// positions of the set.
pub proof fn lemma_diagonal<R: Ring>(s: Set<Dim>)
    requires
        s.finite(),
    ensures
        mat_sparse::<R>(diagonal::<R>(s)),
        forall|i: Dim| #[trigger] row_of::<R>(diagonal::<R>(s), i) == (if s.contains(i) && R::rone() != R::rzero() {
            Map::<Dim, R::V>::empty().insert(i, R::rone())
        } else {
            Map::<Dim, R::V>::empty()
        }),
        forall|j: Dim| #[trigger] column_of::<R>(diagonal::<R>(s), j) == (if s.contains(j) && R::rone() != R::rzero() {
            Map::<Dim, R::V>::empty().insert(j, R::rone())
        } else {
            Map::<Dim, R::V>::empty()
        }),
        diagonal::<R>(s).dom().subset_of(s),
        column_support(diagonal::<R>(s)).subset_of(s),
{
    R::lemma_valid_units();
    let d = diagonal::<R>(s);
    assert(d.dom().subset_of(s));
    vstd::set_lib::lemma_len_subset(d.dom(), s);
    assert forall|i: Dim| #[trigger] d.contains_key(i) implies is_sparse::<R>(d[i]) && d[i] != Map::<Dim, R::V>::empty() by {
        assert(d[i].dom() =~= Set::<Dim>::empty().insert(i));
        assert(d[i].contains_key(i));
    }
    assert forall|j: Dim| #[trigger] column_of::<R>(d, j) == (if s.contains(j) && R::rone() != R::rzero() {
        Map::<Dim, R::V>::empty().insert(j, R::rone())
    } else {
        Map::<Dim, R::V>::empty()
    }) by {
        assert(column_of::<R>(d, j) =~= (if s.contains(j) && R::rone() != R::rzero() {
            Map::<Dim, R::V>::empty().insert(j, R::rone())
        } else {
            Map::<Dim, R::V>::empty()
        }));
    }
    assert forall|j: Dim| column_support(d).contains(j) implies #[trigger] s.contains(j) by {
        let i = choose|i: Dim| d.contains_key(i) && #[trigger] d[i].contains_key(j);
    }
}

/// The identity on the columns a matrix uses is a right identity for it.
pub proof fn lemma_mul_identity_right<R: Ring>(x: Map<Dim, Map<Dim, R::V>>, s: Set<Dim>)
    requires
        mat_sparse::<R>(x),
        s.finite(),
        column_support(x).subset_of(s),
    ensures
        mat_mul::<R>(x, diagonal::<R>(s)) == x,
{
    R::lemma_valid_units();
    let d = diagonal::<R>(s);
    lemma_diagonal::<R>(s);
    lemma_mul::<R>(x, d);
    assert forall|i: Dim| #[trigger] row_of::<R>(mat_mul::<R>(x, d), i) == row_of::<R>(x, i) by {
        let xi = row_of::<R>(x, i);
        lemma_row_sparse::<R>(x, i);
        lemma_row_times::<R>(xi, d);
        assert forall|j: Dim| #[trigger] coeff_of::<R>(row_times::<R>(xi, d), j) == coeff_of::<R>(xi, j) by {
            if s.contains(j) && R::rone() != R::rzero() {
                lemma_dot_unit_right::<R>(xi, j, R::rone());
                lemma_coeff_valid::<R>(xi, j);
                R::lemma_ring_axioms(coeff_of::<R>(xi, j), R::rzero(), R::rzero());
            } else {
                lemma_dot_empty_right::<R>(xi);
                if xi.contains_key(j) {
                    assert(x.contains_key(i) && x[i].contains_key(j));
                    assert(column_support(x).contains(j));
                    lemma_nonzero_ring::<R>(xi[j]);
                }
            }
        }
        lemma_sparse_eq::<R>(row_times::<R>(xi, d), xi);
    }
    lemma_mat_eq::<R>(mat_mul::<R>(x, d), x);
}

/// The identity on the rows a matrix uses is a left identity for it.
pub proof fn lemma_mul_identity_left<R: Ring>(s: Set<Dim>, y: Map<Dim, Map<Dim, R::V>>)
    requires
        mat_sparse::<R>(y),
        s.finite(),
        y.dom().subset_of(s),
    ensures
        mat_mul::<R>(diagonal::<R>(s), y) == y,
{
    R::lemma_valid_units();
    let d = diagonal::<R>(s);
    lemma_diagonal::<R>(s);
    lemma_mul::<R>(d, y);
    assert forall|i: Dim| #[trigger] row_of::<R>(mat_mul::<R>(d, y), i) == row_of::<R>(y, i) by {
        let yi = row_of::<R>(y, i);
        lemma_row_sparse::<R>(y, i);
        if s.contains(i) && R::rone() != R::rzero() {
            let e = Map::<Dim, R::V>::empty().insert(i, R::rone());
            assert(e.dom() =~= Set::<Dim>::empty().insert(i));
            lemma_row_times::<R>(e, y);
            assert forall|j: Dim| #[trigger] coeff_of::<R>(row_times::<R>(e, y), j) == coeff_of::<R>(yi, j) by {
                lemma_column_sparse::<R>(y, j);
                lemma_dot_unit_left::<R>(i, R::rone(), column_of::<R>(y, j));
                lemma_coeff_valid::<R>(yi, j);
                R::lemma_ring_axioms(coeff_of::<R>(yi, j), R::rzero(), R::rzero());
            }
            lemma_sparse_eq::<R>(row_times::<R>(e, y), yi);
        } else {
            lemma_row_times_empty::<R>(y);
            if y.contains_key(i) {
                assert(s.contains(i));
                if !(exists|k: Dim| #[trigger] y[i].contains_key(k)) {
                    assert(y[i] =~= Map::<Dim, R::V>::empty());
                }
                let k = choose|k: Dim| #[trigger] y[i].contains_key(k);
                lemma_nonzero_ring::<R>(y[i][k]);
            }
        }
    }
    lemma_mat_eq::<R>(mat_mul::<R>(d, y), y);
}

/// The positions a matrix uses: its rows and its columns.
pub open spec fn used_positions<R: Ring>(m: Map<Dim, Map<Dim, R::V>>) -> Set<Dim> {
    m.dom().union(column_support(m))
}

/// Powers of a sparse matrix are sparse and use only its positions.
pub proof fn lemma_pow_shape<R: Ring>(m: Map<Dim, Map<Dim, R::V>>, n: nat)
    requires
        mat_sparse::<R>(m),
    ensures
        used_positions::<R>(m).finite(),
        mat_sparse::<R>(mat_pow::<R>(m, n)),
        column_support(mat_pow::<R>(m, n)).subset_of(used_positions::<R>(m)),
    decreases n,
{
    lemma_columns_finite::<R>(m);
    let s = used_positions::<R>(m);
    if n == 0 {
        lemma_diagonal::<R>(s);
    } else {
        lemma_pow_shape::<R>(m, (n - 1) as nat);
        lemma_mul::<R>(mat_pow::<R>(m, (n - 1) as nat), m);
    }
}

/// Powers add: `m^(a + b) == m^a * m^b`.
pub proof fn lemma_pow_add<R: Ring>(m: Map<Dim, Map<Dim, R::V>>, a: nat, b: nat)
    requires
        mat_sparse::<R>(m),
    ensures
        mat_pow::<R>(m, a + b) == mat_mul::<R>(mat_pow::<R>(m, a), mat_pow::<R>(m, b)),
    decreases b,
{
    lemma_pow_shape::<R>(m, a);
    if b == 0 {
        assert(a + b == a);
        lemma_mul_identity_right::<R>(mat_pow::<R>(m, a), used_positions::<R>(m));
    } else {
        let b1 = (b - 1) as nat;
        lemma_pow_add::<R>(m, a, b1);
        lemma_pow_shape::<R>(m, b1);
        assert((a + b - 1) as nat == a + b1);
        lemma_mul_assoc::<R>(mat_pow::<R>(m, a), mat_pow::<R>(m, b1), m);
    }
}

/// The first power is the matrix itself.
pub proof fn lemma_pow_one<R: Ring>(m: Map<Dim, Map<Dim, R::V>>)
    requires
        mat_sparse::<R>(m),
    ensures
        mat_pow::<R>(m, 1) == m,
{
    lemma_columns_finite::<R>(m);
    assert(mat_pow::<R>(m, 0) == diagonal::<R>(used_positions::<R>(m)));
    lemma_mul_identity_left::<R>(used_positions::<R>(m), m);
}

} // verus!
