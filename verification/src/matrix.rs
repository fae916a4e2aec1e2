//! Sparse matrices over a ring, stored as rows of sparse vectors.

use vstd::prelude::*;

use std::collections::BTreeSet;

use crate::algebra::Ring;
use crate::ring::{
    coeff_of, has_key, is_sparse, map_add, map_add_term, map_dot, map_scale, seq_view, sorted_keys, Dim,
    Vector,
};

verus! {

broadcast use {vstd::laws_cmp::group_laws_cmp, vstd::std_specs::btree::group_btree_axioms};

/// Row `i` of a matrix model (empty if absent).
pub open spec fn row_of<R: Ring>(m: Map<Dim, Map<Dim, R::V>>, i: Dim) -> Map<Dim, R::V> {
    if m.contains_key(i) {
        m[i]
    } else {
        Map::empty()
    }
}

/// Entry `(i, j)` of a matrix model (zero if absent).
pub open spec fn entry_of<R: Ring>(m: Map<Dim, Map<Dim, R::V>>, i: Dim, j: Dim) -> R::V {
    coeff_of::<R>(row_of::<R>(m, i), j)
}

/// Every stored row is a nonempty sparse vector.
pub open spec fn mat_sparse<R: Ring>(m: Map<Dim, Map<Dim, R::V>>) -> bool {
    &&& m.dom().finite()
    &&& forall|i: Dim| #[trigger] m.contains_key(i) ==> is_sparse::<R>(m[i]) && m[i] != Map::<Dim, R::V>::empty()
}

/// `m` with `v` added to row `i` (the row is dropped if it becomes zero).
pub open spec fn mat_add_row<R: Ring>(m: Map<Dim, Map<Dim, R::V>>, i: Dim, v: Map<Dim, R::V>) -> Map<Dim, Map<Dim, R::V>> {
    let s = map_add::<R>(row_of::<R>(m, i), v);
    if s == Map::<Dim, R::V>::empty() {
        m.remove(i)
    } else {
        m.insert(i, s)
    }
}

/// Column `j` of a matrix model, as a map from row index to entry.
pub open spec fn column_of<R: Ring>(m: Map<Dim, Map<Dim, R::V>>, j: Dim) -> Map<Dim, R::V> {
    Map::new(|i: Dim| m.contains_key(i) && m[i].contains_key(j), |i: Dim| m[i][j])
}

/// Row-wise sum of two matrix models.
pub open spec fn mat_add<R: Ring>(a: Map<Dim, Map<Dim, R::V>>, b: Map<Dim, Map<Dim, R::V>>) -> Map<Dim, Map<Dim, R::V>> {
    Map::new(
        |i: Dim| (a.contains_key(i) || b.contains_key(i)) && map_add::<R>(row_of::<R>(a, i), row_of::<R>(b, i))
            != Map::<Dim, R::V>::empty(),
        |i: Dim| map_add::<R>(row_of::<R>(a, i), row_of::<R>(b, i)),
    )
}

/// `k * m`, dropping rows that become zero.
pub open spec fn mat_scale<R: Ring>(k: R::V, m: Map<Dim, Map<Dim, R::V>>) -> Map<Dim, Map<Dim, R::V>> {
    Map::new(
        |i: Dim| m.contains_key(i) && map_scale::<R>(k, m[i]) != Map::<Dim, R::V>::empty(),
        |i: Dim| map_scale::<R>(k, m[i]),
    )
}

/// The transpose of a matrix model: row `j` is column `j`.
pub open spec fn mat_transpose<R: Ring>(m: Map<Dim, Map<Dim, R::V>>) -> Map<Dim, Map<Dim, R::V>> {
    Map::new(
        |j: Dim| column_of::<R>(m, j) != Map::<Dim, R::V>::empty(),
        |j: Dim| column_of::<R>(m, j),
    )
}

/// Transposing twice gives back a matrix whose rows are all nonzero.
pub proof fn lemma_transpose_transpose<R: Ring>(m: Map<Dim, Map<Dim, R::V>>)
    requires
        forall|i: Dim| #[trigger] m.contains_key(i) ==> m[i] != Map::<Dim, R::V>::empty(),
    ensures
        mat_transpose::<R>(mat_transpose::<R>(m)) == m,
{
    let t = mat_transpose::<R>(m);
    let tt = mat_transpose::<R>(t);
    assert forall|i: Dim| #[trigger] tt.contains_key(i) <==> m.contains_key(i) by {
        if m.contains_key(i) {
            if !(exists|j: Dim| #[trigger] m[i].contains_key(j)) {
                assert(m[i] =~= Map::<Dim, R::V>::empty());
            }
            let j = choose|j: Dim| #[trigger] m[i].contains_key(j);
            assert(column_of::<R>(m, j).contains_key(i));
            assert(t.contains_key(j));
            assert(column_of::<R>(t, i).contains_key(j));
        }
        if tt.contains_key(i) {
            let col = column_of::<R>(t, i);
            if !(exists|j: Dim| #[trigger] col.contains_key(j)) {
                assert(col =~= Map::<Dim, R::V>::empty());
            }
            let j = choose|j: Dim| #[trigger] col.contains_key(j);
            assert(t.contains_key(j) && t[j].contains_key(i));
            assert(column_of::<R>(m, j).contains_key(i));
        }
    }
    assert forall|i: Dim| #[trigger] tt.contains_key(i) implies tt[i] =~= m[i] by {
        assert forall|j: Dim| #[trigger] tt[i].contains_key(j) <==> m[i].contains_key(j) by {
            if m[i].contains_key(j) {
                assert(column_of::<R>(m, j).contains_key(i));
            }
        }
    }
    assert(tt =~= m);
}

/// Row vector `r` times matrix `b`: entry `j` is `r . column_j(b)`, zeros dropped.
pub open spec fn row_times<R: Ring>(r: Map<Dim, R::V>, b: Map<Dim, Map<Dim, R::V>>) -> Map<Dim, R::V> {
    Map::new(
        |j: Dim| column_of::<R>(b, j) != Map::<Dim, R::V>::empty() && map_dot::<R>(r, column_of::<R>(b, j))
            != R::rzero(),
        |j: Dim| map_dot::<R>(r, column_of::<R>(b, j)),
    )
}

/// Matrix product `a * b`.
pub open spec fn mat_mul<R: Ring>(a: Map<Dim, Map<Dim, R::V>>, b: Map<Dim, Map<Dim, R::V>>) -> Map<Dim, Map<Dim, R::V>> {
    Map::new(
        |i: Dim| a.contains_key(i) && row_times::<R>(a[i], b) != Map::<Dim, R::V>::empty(),
        |i: Dim| row_times::<R>(a[i], b),
    )
}

/// `m * v` for a column vector `v`: entry `i` is `row_i . v`, zeros dropped.
pub open spec fn mat_vec<R: Ring>(m: Map<Dim, Map<Dim, R::V>>, v: Map<Dim, R::V>) -> Map<Dim, R::V> {
    Map::new(
        |i: Dim| m.contains_key(i) && map_dot::<R>(m[i], v) != R::rzero(),
        |i: Dim| map_dot::<R>(m[i], v),
    )
}

/// Row `i` after adding `v` as column `j`: `v[i]` is added at position `j`.
pub open spec fn column_added_row<R: Ring>(m: Map<Dim, Map<Dim, R::V>>, j: Dim, v: Map<Dim, R::V>, i: Dim) -> Map<
    Dim,
    R::V,
> {
    if v.contains_key(i) {
        map_add_term::<R>(row_of::<R>(m, i), j, v[i])
    } else {
        row_of::<R>(m, i)
    }
}

/// `m` with `v` added as column `j`, zero rows dropped.
pub open spec fn mat_add_column<R: Ring>(m: Map<Dim, Map<Dim, R::V>>, j: Dim, v: Map<Dim, R::V>) -> Map<
    Dim,
    Map<Dim, R::V>,
> {
    Map::new(
        |i: Dim| (m.contains_key(i) || v.contains_key(i)) && column_added_row::<R>(m, j, v, i) != Map::<Dim, R::V>::empty(),
        |i: Dim| column_added_row::<R>(m, j, v, i),
    )
}

/// `m` with column `j` cleared, zero rows dropped.
pub open spec fn mat_remove_column<R: Ring>(m: Map<Dim, Map<Dim, R::V>>, j: Dim) -> Map<Dim, Map<Dim, R::V>> {
    Map::new(
        |i: Dim| m.contains_key(i) && m[i].remove(j) != Map::<Dim, R::V>::empty(),
        |i: Dim| m[i].remove(j),
    )
}

/// Row vector `v` times matrix `m`: `sum_d v[d] * row_d(m)`, accumulated in
/// increasing order of the keys of `v`.
pub open spec fn vec_mat<R: Ring>(v: Map<Dim, R::V>, m: Map<Dim, Map<Dim, R::V>>) -> Map<Dim, R::V>
    decreases v.dom().len(),
{
    if v.dom().finite() && v.dom().len() > 0 {
        let d = choose|d: Dim| crate::ring::is_max_key(v, d);
        if crate::ring::is_max_key(v, d) {
            map_add::<R>(vec_mat::<R>(v.remove(d), m), map_scale::<R>(v[d], row_of::<R>(m, d)))
        } else {
            Map::empty()
        }
    } else {
        Map::empty()
    }
}

/// Row vector `r` times each row of `t` (read as columns of a matrix whose transpose is `t`).
pub open spec fn row_times_rows<R: Ring>(r: Map<Dim, R::V>, t: Map<Dim, Map<Dim, R::V>>) -> Map<Dim, R::V> {
    Map::new(
        |j: Dim| t.contains_key(j) && map_dot::<R>(r, t[j]) != R::rzero(),
        |j: Dim| map_dot::<R>(r, t[j]),
    )
}

/// The one-entry row `{d: c}`, or the zero row when `c` is zero.
pub open spec fn unit_row<R: Ring>(d: Dim, c: R::V) -> Map<Dim, R::V> {
    if c == R::rzero() {
        Map::empty()
    } else {
        Map::<Dim, R::V>::empty().insert(d, c)
    }
}

/// The identity matrix on the positions of `dims`.
pub open spec fn diagonal<R: Ring>(dims: Set<Dim>) -> Map<Dim, Map<Dim, R::V>> {
    Map::new(|i: Dim| dims.contains(i) && R::rone() != R::rzero(), |i: Dim| Map::<Dim, R::V>::empty().insert(i, R::rone()))
}

/// Row indices `0 .. rows.len()` holding the views of `rows`, zero rows dropped.
pub open spec fn rows_matrix<R: Ring>(rows: Seq<Vector<R>>) -> Map<Dim, Map<Dim, R::V>> {
    Map::new(
        |i: Dim| 0 <= i < rows.len() && rows[i as int]@ != Map::<Dim, R::V>::empty(),
        |i: Dim| rows[i as int]@,
    )
}

/// The sparse row of the first `k` entries of a dense row.
pub open spec fn dense_prefix<R: Ring>(s: Seq<R>, k: int) -> Map<Dim, R::V> {
    Map::new(|j: Dim| 0 <= j < k && j < s.len() && s[j as int]@ != R::rzero(), |j: Dim| s[j as int]@)
}

/// The sparse matrix of a dense row-major array, zero rows dropped.
pub open spec fn dense_matrix<R: Ring>(rows: Seq<Vec<R>>) -> Map<Dim, Map<Dim, R::V>> {
    Map::new(
        |i: Dim| 0 <= i < rows.len() && dense_prefix::<R>(rows[i as int]@, rows[i as int]@.len() as int)
            != Map::<Dim, R::V>::empty(),
        |i: Dim| dense_prefix::<R>(rows[i as int]@, rows[i as int]@.len() as int),
    )
}

/// The columns holding a nonzero entry.
pub open spec fn column_support<V>(m: Map<Dim, Map<Dim, V>>) -> Set<Dim> {
    Set::new(|j: Dim| exists|i: Dim| m.contains_key(i) && #[trigger] m[i].contains_key(j))
}

/// `m` to the power `n`: `m * m * ... * m`, starting from the identity on
/// the rows and columns that `m` uses.
pub open spec fn mat_pow<R: Ring>(m: Map<Dim, Map<Dim, R::V>>, n: nat) -> Map<Dim, Map<Dim, R::V>>
    decreases n,
{
    if n == 0 {
        diagonal::<R>(m.dom().union(column_support(m)))
    } else {
        mat_mul::<R>(mat_pow::<R>(m, (n - 1) as nat), m)
    }
}

/// Rows of `a` and `b` interlaced column-wise, row by row.
pub open spec fn mat_interlace_columns<R: Ring>(a: Map<Dim, Map<Dim, R::V>>, b: Map<Dim, Map<Dim, R::V>>) -> Map<
    Dim,
    Map<Dim, R::V>,
> {
    Map::new(
        |i: Dim| a.contains_key(i) || b.contains_key(i),
        |i: Dim| crate::ring::map_interlace(row_of::<R>(a, i), row_of::<R>(b, i)),
    )
}

/// Every row can be interlaced.
pub open spec fn mat_interlace_ok<V>(m: Map<Dim, Map<Dim, V>>) -> bool {
    forall|i: Dim| #[trigger] m.contains_key(i) ==> crate::ring::interlace_ok(m[i])
}

/// `(i, j)` precedes `(k, l)` in row-major order.
pub open spec fn entry_lt(a: (Dim, Dim), b: (Dim, Dim)) -> bool {
    a.0 < b.0 || (a.0 == b.0 && a.1 < b.1)
}

/// `es` lists each nonzero entry `(i, j, m[i][j])` of `m` exactly once, in row-major order.
pub open spec fn lists_entries<R: Ring>(es: Seq<(Dim, Dim, R)>, m: Map<Dim, Map<Dim, R::V>>) -> bool {
    &&& forall|t: int| #![trigger es[t]] 0 <= t < es.len() ==> m.contains_key(es[t].0) && m[es[t].0].contains_key(es[t].1)
        && m[es[t].0][es[t].1] == es[t].2@
    &&& forall|i: Dim, j: Dim| m.contains_key(i) && #[trigger] m[i].contains_key(j) ==> exists|t: int| 0 <= t < es.len()
        && #[trigger] es[t].0 == i && es[t].1 == j
    &&& forall|t: int, u: int| 0 <= t < u < es.len() ==> entry_lt((#[trigger] es[t].0, es[t].1), (#[trigger] es[u].0, es[u].1))
}

/// Nonempty sparse rows in a list.
pub open spec fn rows_ok<R: Ring>(s: Seq<(Dim, Vector<R>)>) -> bool {
    forall|k: int| 0 <= k < s.len() ==> #[trigger] s[k].1@ != Map::<Dim, R::V>::empty() && is_sparse::<R>(s[k].1@)
}

pub proof fn lemma_rows_sparse<R: Ring>(s: Seq<(Dim, Vector<R>)>)
    requires
        sorted_keys(s),
        rows_ok(s),
    ensures
        mat_sparse::<R>(seq_view(s)),
{
    crate::ring::lemma_view_finite(s);
    assert forall|i: Dim| #[trigger] seq_view(s).contains_key(i) implies is_sparse::<R>(seq_view(s)[i])
        && seq_view(s)[i] != Map::<Dim, R::V>::empty() by {
        let t = choose|t: int| 0 <= t < s.len() && #[trigger] s[t].0 == i;
        crate::ring::lemma_view_index(s, t);
    }
}

/// A sparse matrix with coefficients drawn from a ring, held as a list of
/// `(row index, row)` pairs sorted by row index, with no zero row.
#[derive(Debug, PartialEq, Eq, Hash)]
pub struct Matrix<R: Ring> {
    rows: Vec<(Dim, Vector<R>)>,
}

impl<R: Ring> View for Matrix<R> {
    type V = Map<Dim, Map<Dim, R::V>>;

    closed spec fn view(&self) -> Map<Dim, Map<Dim, R::V>> {
        seq_view(self.rows@)
    }
}

impl<R: Ring> Matrix<R> {
    #[verifier::type_invariant]
    spec fn well_formed(self) -> bool {
        sorted_keys(self.rows@) && rows_ok(self.rows@)
    }

    /// The stored rows are nonempty sparse vectors.
    pub fn lemma_sparse(&self)
        ensures
            mat_sparse::<R>(self@),
    {
        proof {
            use_type_invariant(self);
            lemma_rows_sparse(self.rows@);
        }
    }

    /// The all-zero matrix.
    pub fn zero() -> (r: Self)
        ensures
            r@ == Map::<Dim, Map<Dim, R::V>>::empty(),
    {
        let r = Matrix { rows: Vec::new() };
        proof {
            crate::ring::lemma_view_empty(r.rows@);
        }
        r
    }

    pub fn is_zero(&self) -> (r: bool)
        ensures
            r == (self@ == Map::<Dim, Map<Dim, R::V>>::empty()),
    {
        proof {
            if self.rows@.len() > 0 {
                use_type_invariant(self);
                crate::ring::lemma_view_index(self.rows@, 0);
                assert(!(self@ =~= Map::<Dim, Map<Dim, R::V>>::empty()));
            } else {
                crate::ring::lemma_view_empty(self.rows@);
            }
        }
        self.rows.len() == 0
    }

    /// Position of row `i` in the row list, or where it would be inserted.
    fn find(&self, i: Dim) -> (r: (usize, bool))
        ensures
            r.0 <= self.rows@.len(),
            r.1 ==> r.0 < self.rows@.len() && self.rows@[r.0 as int].0 == i,
            forall|k: int| 0 <= k < r.0 ==> #[trigger] self.rows@[k].0 < i,
            !r.1 ==> forall|k: int| r.0 <= k < self.rows@.len() ==> #[trigger] self.rows@[k].0 > i,
            !r.1 ==> !self@.contains_key(i),
    {
        proof {
            use_type_invariant(self);
        }
        let mut k: usize = 0;
        while k < self.rows.len()
            invariant
                k <= self.rows@.len(),
                sorted_keys(self.rows@),
                forall|t: int| 0 <= t < k ==> #[trigger] self.rows@[t].0 < i,
            decreases self.rows@.len() - k,
        {
            let d = self.rows[k].0;
            if d == i {
                return (k, true);
            }
            if d > i {
                proof {
                    assert forall|t: int| k <= t < self.rows@.len() implies #[trigger] self.rows@[t].0 > i by {
                        if t > k {
                            assert(self.rows@[k as int].0 < self.rows@[t].0);
                        }
                    }
                    if has_key(self.rows@, i) {
                        let t = choose|t: int| 0 <= t < self.rows@.len() && #[trigger] self.rows@[t].0 == i;
                        assert(t < k || t >= k);
                    }
                }
                return (k, false);
            }
            k = k + 1;
        }
        proof {
            if has_key(self.rows@, i) {
                let t = choose|t: int| 0 <= t < self.rows@.len() && #[trigger] self.rows@[t].0 == i;
            }
        }
        (k, false)
    }

    /// Row `i` (zero vector if absent).
    pub fn row(&self, i: Dim) -> (r: Vector<R>)
        ensures
            r@ == row_of::<R>(self@, i),
    {
        proof {
            use_type_invariant(self);
        }
        let (k, found) = self.find(i);
        if found {
            proof {
                crate::ring::lemma_view_index(self.rows@, k as int);
            }
            self.rows[k].1.clone()
        } else {
            Vector::zero()
        }
    }

    /// `(i,j)` entry (zero if absent).
    pub fn entry(&self, i: Dim, j: Dim) -> (r: R)
        ensures
            r@ == entry_of::<R>(self@, i, j),
    {
        proof {
            use_type_invariant(self);
        }
        let (k, found) = self.find(i);
        if found {
            proof {
                crate::ring::lemma_view_index(self.rows@, k as int);
            }
            self.rows[k].1.coeff(j)
        } else {
            R::zero()
        }
    }

    /// A copy of the row list, entry by entry.
    fn copy_rows(&self) -> (out: Vec<(Dim, Vector<R>)>)
        ensures
            out@.len() == self.rows@.len(),
            forall|t: int| #![trigger out@[t]] 0 <= t < out@.len() ==> out@[t].0 == self.rows@[t].0
                && out@[t].1@ == self.rows@[t].1@,
            sorted_keys(out@),
            rows_ok(out@),
            seq_view(out@) == self@,
    {
        proof {
            use_type_invariant(self);
        }
        let mut out: Vec<(Dim, Vector<R>)> = Vec::new();
        let mut k: usize = 0;
        while k < self.rows.len()
            invariant
                k <= self.rows@.len(),
                sorted_keys(self.rows@),
                out@.len() == k,
                forall|t: int| #![trigger out@[t]] 0 <= t < k ==> out@[t].0 == self.rows@[t].0 && out@[t].1@ == self.rows@[t].1@,
            decreases self.rows@.len() - k,
        {
            let v = self.rows[k].1.clone();
            let ghost old_out = out@;
            out.push((self.rows[k].0, v));
            proof {
                assert forall|t: int| #![trigger out@[t]] 0 <= t < k + 1 implies out@[t].0 == self.rows@[t].0
                    && out@[t].1@ == self.rows@[t].1@ by {
                    if t < k {
                        assert(out@[t] == old_out[t]);
                    }
                }
            }
            k = k + 1;
        }
        proof {
            crate::ring::lemma_same_keys_view(out@, self.rows@);
            assert forall|t: int| 0 <= t < out@.len() implies #[trigger] out@[t].1@ != Map::<Dim, R::V>::empty()
                && is_sparse::<R>(out@[t].1@) by {
                assert(out@[t].1@ == self.rows@[t].1@);
            }
        }
        out
    }

    /// The nonzero rows `(i, row)`, in ascending row order.
    pub fn rows_iter(&self) -> (r: Vec<(Dim, Vector<R>)>)
        ensures
            sorted_keys(r@),
            seq_view(r@) == self@,
    {
        self.copy_rows()
    }

    /// The smallest-row-index nonzero row, or `None`.
    pub fn min_row(&self) -> (r: Option<(Dim, Vector<R>)>)
        ensures
            match r {
                Some((i, v)) => crate::ring::is_min_key(self@, i) && self@[i] == v@,
                None => self@ == Map::<Dim, Map<Dim, R::V>>::empty(),
            },
    {
        proof {
            use_type_invariant(self);
        }
        if self.rows.len() == 0 {
            proof {
                crate::ring::lemma_view_empty(self.rows@);
            }
            None
        } else {
            proof {
                crate::ring::lemma_view_index(self.rows@, 0);
                crate::ring::lemma_min_first(self.rows@);
            }
            Some((self.rows[0].0, self.rows[0].1.clone()))
        }
    }

    pub fn nb_rows(&self) -> (r: usize)
        ensures
            r == self@.dom().len(),
    {
        proof {
            use_type_invariant(self);
            crate::ring::lemma_view_len(self.rows@);
        }
        self.rows.len()
    }

    /// Add `v` (as a row vector) to row `i`.
    pub fn add_row(self, i: Dim, v: Vector<R>) -> (r: Self)
        ensures
            r@ == mat_add_row::<R>(self@, i, v@),
    {
        proof {
            use_type_invariant(&self);
            lemma_rows_sparse(self.rows@);
        }
        v.lemma_sparse();
        if v.is_zero() {
            proof {
                lemma_add_row_zero::<R>(self@, i, v@);
            }
            return self;
        }
        let (k, found) = self.find(i);
        let Matrix { rows: mut e } = self;
        if found {
            proof {
                crate::ring::lemma_view_index(e@, k as int);
            }
            let merged = e[k].1.add(&v);
            merged.lemma_sparse();
            if merged.is_zero() {
                proof {
                    crate::ring::lemma_view_remove_at(e@, k as int);
                }
                e.remove(k);
            } else {
                proof {
                    crate::ring::lemma_view_update_at(e@, k as int, merged);
                }
                e.set(k, (i, merged));
            }
        } else {
            proof {
                crate::ring::lemma_view_insert_at(e@, k as int, (i, v));
                lemma_add_to_empty::<R>(v@);
            }
            e.insert(k, (i, v));
        }
        proof {
            assert forall|t: int| 0 <= t < e@.len() implies #[trigger] e@[t].1@ != Map::<Dim, R::V>::empty()
                && is_sparse::<R>(e@[t].1@) by {
                crate::ring::lemma_view_index(e@, t);
            }
        }
        Matrix { rows: e }
    }

    /// Add `k` to entry `(i, j)`.
    pub fn add_entry(self, i: Dim, j: Dim, k: R) -> (r: Self)
        ensures
            r@ == mat_add_row::<R>(
                self@,
                i,
                if k@ == R::rzero() { Map::<Dim, R::V>::empty() } else { Map::<Dim, R::V>::empty().insert(j, k@) },
            ),
    {
        R::lemma_valid(&k);
        let v = Vector::of_term(k, j);
        self.add_row(i, v)
    }

    /// Remove row `i`. Returns the removed row (zero if absent) and the rest.
    pub fn pivot(self, i: Dim) -> (r: (Vector<R>, Self))
        ensures
            r.0@ == row_of::<R>(self@, i),
            r.1@ == self@.remove(i),
    {
        proof {
            use_type_invariant(&self);
        }
        let (k, found) = self.find(i);
        let Matrix { rows: mut e } = self;
        if found {
            proof {
                crate::ring::lemma_view_index(e@, k as int);
                crate::ring::lemma_view_remove_at(e@, k as int);
            }
            let (_, v) = e.remove(k);
            proof {
                assert forall|t: int| 0 <= t < e@.len() implies #[trigger] e@[t].1@ != Map::<Dim, R::V>::empty()
                    && is_sparse::<R>(e@[t].1@) by {
                    crate::ring::lemma_view_index(e@, t);
                }
            }
            (v, Matrix { rows: e })
        } else {
            proof {
                assert(seq_view(e@).remove(i) =~= seq_view(e@));
            }
            (Vector::zero(), Matrix { rows: e })
        }
    }
}

proof fn lemma_add_row_zero<R: Ring>(m: Map<Dim, Map<Dim, R::V>>, i: Dim, v: Map<Dim, R::V>)
    requires
        mat_sparse::<R>(m),
        v == Map::<Dim, R::V>::empty(),
    ensures
        mat_add_row::<R>(m, i, v) == m,
{
    let r = row_of::<R>(m, i);
    R::lemma_valid_units();
    assert forall|d: Dim| #[trigger] r.contains_key(d) implies R::radd(r[d], R::rzero()) == r[d] by {
        R::lemma_ring_axioms(r[d], R::rzero(), R::rzero());
    }
    assert(map_add::<R>(r, v) =~= r);
    if m.contains_key(i) {
        assert(m.insert(i, r) =~= m);
    } else {
        assert(m.remove(i) =~= m);
    }
}

/// Adding a sparse row to the zero row gives that row.
pub proof fn lemma_add_to_empty_pub<R: Ring>(v: Map<Dim, R::V>)
    requires
        is_sparse::<R>(v),
    ensures
        map_add::<R>(Map::<Dim, R::V>::empty(), v) == v,
{
    lemma_add_to_empty::<R>(v);
}

/// The inner product with the zero vector is zero.
pub proof fn lemma_dot_empty_right<R: Ring>(a: Map<Dim, R::V>)
    requires
        is_sparse::<R>(a),
    ensures
        map_dot::<R>(a, Map::<Dim, R::V>::empty()) == R::rzero(),
    decreases a.dom().len(),
{
    R::lemma_valid_units();
    if a.dom().len() > 0 {
        let d = choose|d: Dim| crate::ring::is_max_key(a, d);
        if crate::ring::is_max_key(a, d) {
            lemma_dot_empty_right::<R>(a.remove(d));
            R::lemma_ring_axioms(a[d], R::rzero(), R::rzero());
            R::lemma_ring_axioms(R::rzero(), R::rzero(), R::rzero());
        }
    }
}

proof fn lemma_add_to_empty<R: Ring>(v: Map<Dim, R::V>)
    requires
        is_sparse::<R>(v),
    ensures
        map_add::<R>(Map::<Dim, R::V>::empty(), v) == v,
{
    R::lemma_valid_units();
    assert forall|d: Dim| #[trigger] v.contains_key(d) implies R::radd(R::rzero(), v[d]) == v[d] by {
        R::lemma_ring_axioms(v[d], R::rzero(), R::rzero());
    }
    assert(map_add::<R>(Map::<Dim, R::V>::empty(), v) =~= v);
}


/// The renderings of the coefficients of `row` at the first `n` columns of
/// `cols`, separated by `, `.
pub open spec fn coeffs_text<R: Ring>(row: Map<Dim, R::V>, cols: Seq<Dim>, n: int) -> Seq<char>
    decreases n,
{
    if n <= 0 || n > cols.len() {
        Seq::empty()
    } else if n == 1 {
        R::text(coeff_of::<R>(row, cols[0]))
    } else {
        coeffs_text::<R>(row, cols, n - 1) + seq![',', ' '] + R::text(coeff_of::<R>(row, cols[n - 1]))
    }
}

/// The lines `row i: [c1, c2, ...]` of the first `n` rows, each ending in a
/// newline.
pub open spec fn rows_text<R: Ring>(rows: Seq<(Dim, Vector<R>)>, cols: Seq<Dim>, n: int) -> Seq<char>
    decreases n,
{
    if n <= 0 || n > rows.len() {
        Seq::empty()
    } else {
        rows_text(rows, cols, n - 1) + seq!['r', 'o', 'w', ' '] + crate::num::zz::int_to_decimal(rows[n - 1].0 as int) + seq![
            ':',
            ' ',
            '[',
        ] + coeffs_text::<R>(rows[n - 1].1@, cols, cols.len() as int) + seq![']', '\n']
    }
}

impl<R: Ring> Matrix<R> {
    /// The rendering of the matrix: `0` for the zero matrix, otherwise one
    /// line `row i: [c1, c2, ...]` per nonzero row in ascending order, with
    /// the coefficients at every column that has a nonzero entry, in
    /// ascending order.
    pub fn to_string(&self) -> (r: String)
        ensures
            self@ == Map::<Dim, Map<Dim, R::V>>::empty() ==> r@ == seq!['0'],
            self@ != Map::<Dim, Map<Dim, R::V>>::empty() ==> exists|rows: Seq<(Dim, Vector<R>)>, ts: Seq<(Dim, Vector<R>)>|
                sorted_keys(rows) && seq_view(rows) == self@ && sorted_keys(ts) && seq_view(ts) == mat_transpose::<R>(self@)
                    && r@ == rows_text(rows, ts.map_values(|e: (Dim, Vector<R>)| e.0), rows.len() as int),
    {
        proof {
            use_type_invariant(self);
            reveal_strlit("0");
        }
        if self.is_zero() {
            return String::from_str("0");
        }
        let ts = self.transpose().rows_iter();
        let ghost tsv = ts@;
        let mut cols: Vec<Dim> = Vec::new();
        let mut k: usize = 0;
        while k < ts.len()
            invariant
                k <= ts@.len(),
                cols@ == ts@.subrange(0, k as int).map_values(|e: (Dim, Vector<R>)| e.0),
            decreases ts@.len() - k,
        {
            cols.push(ts[k].0);
            proof {
                assert(cols@ =~= ts@.subrange(0, k + 1).map_values(|e: (Dim, Vector<R>)| e.0));
            }
            k = k + 1;
        }
        proof {
            assert(ts@.subrange(0, ts@.len() as int) =~= ts@);
        }
        let rows = &self.rows;
        let mut s = String::new();
        let mut i: usize = 0;
        proof {
            assert(s@ =~= rows_text(rows@, cols@, 0));
        }
        while i < rows.len()
            invariant
                i <= rows@.len(),
                s@ == rows_text(rows@, cols@, i as int),
            decreases rows@.len() - i,
        {
            let ghost before = s@;
            proof {
                reveal_strlit("row ");
                reveal_strlit(": [");
                reveal_strlit("]\n");
            }
            s.append("row ");
            let idx = crate::num::ZZ::of_i64(rows[i].0 as i64).to_string();
            s.append(idx.as_str());
            s.append(": [");
            let ghost mid = s@;
            let row = &rows[i].1;
            let mut j: usize = 0;
            while j < cols.len()
                invariant
                    j <= cols@.len(),
                    s@ == mid + coeffs_text::<R>(row@, cols@, j as int),
                decreases cols@.len() - j,
            {
                let ghost b2 = s@;
                proof {
                    reveal_strlit(", ");
                }
                if j > 0 {
                    s.append(", ");
                }
                let c = row.coeff(cols[j]);
                let t = R::render(&c);
                s.append(t.as_str());
                proof {
                    if j == 0 {
                        assert(s@ =~= b2 + R::text(coeff_of::<R>(row@, cols@[0])));
                    } else {
                        assert(s@ =~= b2 + seq![',', ' '] + R::text(coeff_of::<R>(row@, cols@[j as int])));
                    }
                    assert(s@ =~= mid + coeffs_text::<R>(row@, cols@, j + 1));
                }
                j = j + 1;
            }
            s.append("]\n");
            proof {
                assert(s@ =~= rows_text(rows@, cols@, i + 1));
            }
            i = i + 1;
        }
        s
    }
}

impl<R: Ring> Clone for Matrix<R> {
    fn clone(&self) -> (r: Self)
        ensures
            r@ == self@,
    {
        Matrix { rows: self.copy_rows() }
    }
}

impl<R: Ring> Default for Matrix<R> {
    fn default() -> (r: Self)
        ensures
            r@ == Map::<Dim, Map<Dim, R::V>>::empty(),
    {
        Self::zero()
    }
}

impl<R: Ring> Matrix<R> {
    /// `self + other`.
    pub fn add(&self, other: &Self) -> (r: Self)
        ensures
            r@ == mat_add::<R>(self@, other@),
    {
        proof {
            use_type_invariant(self);
            use_type_invariant(other);
            lemma_rows_sparse(self.rows@);
            lemma_mat_add_empty::<R>(self@);
            crate::ring::lemma_view_empty(other.rows@.subrange(0, 0));
        }
        let mut acc = self.clone();
        let mut k: usize = 0;
        while k < other.rows.len()
            invariant
                k <= other.rows@.len(),
                sorted_keys(other.rows@),
                rows_ok(other.rows@),
                mat_sparse::<R>(self@),
                acc@ == mat_add::<R>(self@, seq_view(other.rows@.subrange(0, k as int))),
            decreases other.rows@.len() - k,
        {
            proof {
                crate::ring::lemma_prefix_push(other.rows@, k as int);
                lemma_mat_add_step::<R>(
                    self@,
                    seq_view(other.rows@.subrange(0, k as int)),
                    other.rows@[k as int].0,
                    other.rows@[k as int].1@,
                );
            }
            let v = other.rows[k].1.clone();
            acc = acc.add_row(other.rows[k].0, v);
            k = k + 1;
        }
        proof {
            assert(other.rows@.subrange(0, other.rows@.len() as int) =~= other.rows@);
        }
        acc
    }

    /// `k * self`.
    pub fn scalar_mul(&self, k: &R) -> (r: Self)
        ensures
            r@ == mat_scale::<R>(k@, self@),
    {
        R::lemma_valid(k);
        proof {
            use_type_invariant(self);
            lemma_rows_sparse(self.rows@);
            R::lemma_valid_units();
        }
        if R::is_zero(k) {
            proof {
                lemma_mat_scale_zero::<R>(self@);
            }
            return Self::zero();
        }
        let one = R::one();
        if R::equal(k, &one) {
            proof {
                lemma_mat_scale_one::<R>(self@);
            }
            return self.clone();
        }
        let mut out: Vec<(Dim, Vector<R>)> = Vec::new();
        let mut i: usize = 0;
        proof {
            crate::ring::lemma_view_empty(out@);
            crate::ring::lemma_view_empty(self.rows@.subrange(0, 0));
            assert(mat_scale::<R>(k@, Map::<Dim, Map<Dim, R::V>>::empty()) =~= Map::<Dim, Map<Dim, R::V>>::empty());
        }
        while i < self.rows.len()
            invariant
                i <= self.rows@.len(),
                sorted_keys(self.rows@),
                rows_ok(self.rows@),
                R::valid(k@),
                sorted_keys(out@),
                rows_ok(out@),
                crate::ring::keys_below(out@, crate::ring::head(self.rows@, i as int)),
                seq_view(out@) == mat_scale::<R>(k@, seq_view(self.rows@.subrange(0, i as int))),
            decreases self.rows@.len() - i,
        {
            let d = self.rows[i].0;
            let scaled = self.rows[i].1.scalar_mul(k);
            scaled.lemma_sparse();
            proof {
                crate::ring::lemma_prefix_push(self.rows@, i as int);
                crate::ring::lemma_head_next(self.rows@, i as int);
                lemma_mat_scale_step::<R>(k@, seq_view(self.rows@.subrange(0, i as int)), d, self.rows@[i as int].1@);
            }
            if !scaled.is_zero() {
                proof {
                    crate::ring::lemma_view_push(out@, (d, scaled));
                }
                let ghost old_out = out@;
                out.push((d, scaled));
                proof {
                    assert forall|t: int| 0 <= t < out@.len() implies #[trigger] out@[t].1@ != Map::<Dim, R::V>::empty()
                        && is_sparse::<R>(out@[t].1@) by {
                        if t < old_out.len() {
                            assert(out@[t] == old_out[t]);
                        }
                    }
                    assert forall|t: int| 0 <= t < out@.len() implies #[trigger] out@[t].0 < crate::ring::head(self.rows@, i + 1) by {
                        if t < old_out.len() {
                            assert(out@[t] == old_out[t]);
                        }
                    }
                }
            } else {
                proof {
                    assert forall|t: int| 0 <= t < out@.len() implies #[trigger] out@[t].0 < crate::ring::head(self.rows@, i + 1) by {
                    }
                }
            }
            i = i + 1;
        }
        proof {
            assert(self.rows@.subrange(0, self.rows@.len() as int) =~= self.rows@);
        }
        Matrix { rows: out }
    }

    /// Column `j` as a vector indexed by row position.
    pub fn column(&self, j: Dim) -> (r: Vector<R>)
        ensures
            r@ == column_of::<R>(self@, j),
    {
        proof {
            use_type_invariant(self);
            crate::ring::lemma_view_empty(self.rows@.subrange(0, 0));
            assert(column_of::<R>(Map::<Dim, Map<Dim, R::V>>::empty(), j) =~= Map::<Dim, R::V>::empty());
        }
        let mut col: Vector<R> = Vector::zero();
        let mut i: usize = 0;
        while i < self.rows.len()
            invariant
                i <= self.rows@.len(),
                sorted_keys(self.rows@),
                rows_ok(self.rows@),
                col@ == column_of::<R>(seq_view(self.rows@.subrange(0, i as int)), j),
            decreases self.rows@.len() - i,
        {
            let c = self.rows[i].1.coeff(j);
            proof {
                crate::ring::lemma_prefix_push(self.rows@, i as int);
                R::lemma_valid_units();
                lemma_column_step::<R>(seq_view(self.rows@.subrange(0, i as int)), self.rows@[i as int].0, self.rows@[i as int].1@, j);
            }
            col = col.add_term(c, self.rows[i].0);
            i = i + 1;
        }
        proof {
            assert(self.rows@.subrange(0, self.rows@.len() as int) =~= self.rows@);
        }
        col
    }

    /// `self * v`, treating `v` as a column vector.
    pub fn vector_right_mul(&self, v: &Vector<R>) -> (r: Vector<R>)
        ensures
            r@ == mat_vec::<R>(self@, v@),
    {
        proof {
            use_type_invariant(self);
            crate::ring::lemma_view_empty(self.rows@.subrange(0, 0));
            assert(mat_vec::<R>(Map::<Dim, Map<Dim, R::V>>::empty(), v@) =~= Map::<Dim, R::V>::empty());
        }
        let mut result: Vector<R> = Vector::zero();
        let mut i: usize = 0;
        while i < self.rows.len()
            invariant
                i <= self.rows@.len(),
                sorted_keys(self.rows@),
                result@ == mat_vec::<R>(seq_view(self.rows@.subrange(0, i as int)), v@),
            decreases self.rows@.len() - i,
        {
            let c = self.rows[i].1.dot(v);
            proof {
                crate::ring::lemma_prefix_push(self.rows@, i as int);
                lemma_mat_vec_step::<R>(seq_view(self.rows@.subrange(0, i as int)), self.rows@[i as int].0, self.rows@[i as int].1@, v@);
            }
            result = result.add_term(c, self.rows[i].0);
            i = i + 1;
        }
        proof {
            assert(self.rows@.subrange(0, self.rows@.len() as int) =~= self.rows@);
        }
        result
    }
}

/// Adding `x` at a key that `m` lacks inserts it (or leaves `m` alone when `x` is zero).
proof fn lemma_add_term_absent<R: Ring>(m: Map<Dim, R::V>, d: Dim, x: R::V)
    requires
        !m.contains_key(d),
        R::valid(x),
    ensures
        map_add_term::<R>(m, d, x) == if x == R::rzero() { m } else { m.insert(d, x) },
{
    R::lemma_valid_units();
    R::lemma_ring_axioms(x, R::rzero(), R::rzero());
    assert(R::radd(R::rzero(), x) == x);
    if x == R::rzero() {
        assert(m.remove(d) =~= m);
    }
}

/// Adding the zero map on the right leaves a sparse map unchanged.
proof fn lemma_map_add_empty<R: Ring>(r: Map<Dim, R::V>)
    requires
        is_sparse::<R>(r),
    ensures
        map_add::<R>(r, Map::<Dim, R::V>::empty()) == r,
{
    R::lemma_valid_units();
    assert forall|d: Dim| #[trigger] r.contains_key(d) implies R::radd(r[d], R::rzero()) == r[d] by {
        R::lemma_ring_axioms(r[d], R::rzero(), R::rzero());
    }
    assert(map_add::<R>(r, Map::<Dim, R::V>::empty()) =~= r);
}

proof fn lemma_mat_add_empty<R: Ring>(a: Map<Dim, Map<Dim, R::V>>)
    requires
        mat_sparse::<R>(a),
    ensures
        mat_add::<R>(a, Map::<Dim, Map<Dim, R::V>>::empty()) == a,
{
    assert forall|i: Dim| #[trigger] a.contains_key(i) implies map_add::<R>(a[i], Map::<Dim, R::V>::empty()) == a[i] by {
        lemma_map_add_empty::<R>(a[i]);
    }
    assert(mat_add::<R>(a, Map::<Dim, Map<Dim, R::V>>::empty()) =~= a);
}

/// Adding a matrix one new row at a time.
proof fn lemma_mat_add_step<R: Ring>(a: Map<Dim, Map<Dim, R::V>>, p: Map<Dim, Map<Dim, R::V>>, d: Dim, v: Map<Dim, R::V>)
    requires
        mat_sparse::<R>(a),
        !p.contains_key(d),
    ensures
        mat_add::<R>(a, p.insert(d, v)) == mat_add_row::<R>(mat_add::<R>(a, p), d, v),
{
    let m = mat_add::<R>(a, p);
    if a.contains_key(d) {
        lemma_map_add_empty::<R>(a[d]);
    }
    assert(row_of::<R>(m, d) == row_of::<R>(a, d));
    assert forall|i: Dim| i != d implies #[trigger] row_of::<R>(p.insert(d, v), i) == row_of::<R>(p, i) by {
    }
    assert(row_of::<R>(p.insert(d, v), d) == v);
    assert(mat_add::<R>(a, p.insert(d, v)) =~= mat_add_row::<R>(m, d, v));
}

proof fn lemma_mat_scale_zero<R: Ring>(m: Map<Dim, Map<Dim, R::V>>)
    requires
        mat_sparse::<R>(m),
    ensures
        mat_scale::<R>(R::rzero(), m) == Map::<Dim, Map<Dim, R::V>>::empty(),
{
    R::lemma_valid_units();
    assert forall|i: Dim| #[trigger] m.contains_key(i) implies map_scale::<R>(R::rzero(), m[i]) == Map::<Dim, R::V>::empty() by {
        assert forall|d: Dim| #[trigger] m[i].contains_key(d) implies R::rmul(R::rzero(), m[i][d]) == R::rzero() by {
            R::lemma_ring_axioms(m[i][d], m[i][d], m[i][d]);
        }
        assert(map_scale::<R>(R::rzero(), m[i]) =~= Map::<Dim, R::V>::empty());
    }
    assert(mat_scale::<R>(R::rzero(), m) =~= Map::<Dim, Map<Dim, R::V>>::empty());
}

proof fn lemma_mat_scale_one<R: Ring>(m: Map<Dim, Map<Dim, R::V>>)
    requires
        mat_sparse::<R>(m),
    ensures
        mat_scale::<R>(R::rone(), m) == m,
{
    R::lemma_valid_units();
    assert forall|i: Dim| #[trigger] m.contains_key(i) implies map_scale::<R>(R::rone(), m[i]) == m[i] by {
        assert forall|d: Dim| #[trigger] m[i].contains_key(d) implies R::rmul(R::rone(), m[i][d]) == m[i][d] by {
            R::lemma_ring_axioms(m[i][d], m[i][d], m[i][d]);
        }
        assert(map_scale::<R>(R::rone(), m[i]) =~= m[i]);
    }
    assert(mat_scale::<R>(R::rone(), m) =~= m);
}

proof fn lemma_mat_scale_step<R: Ring>(k: R::V, p: Map<Dim, Map<Dim, R::V>>, d: Dim, v: Map<Dim, R::V>)
    requires
        !p.contains_key(d),
    ensures
        mat_scale::<R>(k, p.insert(d, v)) == if map_scale::<R>(k, v) == Map::<Dim, R::V>::empty() {
            mat_scale::<R>(k, p)
        } else {
            mat_scale::<R>(k, p).insert(d, map_scale::<R>(k, v))
        },
{
    if map_scale::<R>(k, v) == Map::<Dim, R::V>::empty() {
        assert(mat_scale::<R>(k, p.insert(d, v)) =~= mat_scale::<R>(k, p));
    } else {
        assert(mat_scale::<R>(k, p.insert(d, v)) =~= mat_scale::<R>(k, p).insert(d, map_scale::<R>(k, v)));
    }
}

proof fn lemma_column_step<R: Ring>(p: Map<Dim, Map<Dim, R::V>>, d: Dim, row: Map<Dim, R::V>, j: Dim)
    requires
        !p.contains_key(d),
        is_sparse::<R>(row),
    ensures
        column_of::<R>(p.insert(d, row), j) == map_add_term::<R>(column_of::<R>(p, j), d, coeff_of::<R>(row, j)),
{
    R::lemma_valid_units();
    lemma_add_term_absent::<R>(column_of::<R>(p, j), d, coeff_of::<R>(row, j));
    if row.contains_key(j) {
        assert(column_of::<R>(p.insert(d, row), j) =~= column_of::<R>(p, j).insert(d, row[j]));
    } else {
        assert(column_of::<R>(p.insert(d, row), j) =~= column_of::<R>(p, j));
    }
}

proof fn lemma_mat_vec_step<R: Ring>(p: Map<Dim, Map<Dim, R::V>>, d: Dim, row: Map<Dim, R::V>, v: Map<Dim, R::V>)
    requires
        !p.contains_key(d),
        R::valid(map_dot::<R>(row, v)),
    ensures
        mat_vec::<R>(p.insert(d, row), v) == map_add_term::<R>(mat_vec::<R>(p, v), d, map_dot::<R>(row, v)),
{
    lemma_add_term_absent::<R>(mat_vec::<R>(p, v), d, map_dot::<R>(row, v));
    if map_dot::<R>(row, v) == R::rzero() {
        assert(mat_vec::<R>(p.insert(d, row), v) =~= mat_vec::<R>(p, v));
    } else {
        assert(mat_vec::<R>(p.insert(d, row), v) =~= mat_vec::<R>(p, v).insert(d, map_dot::<R>(row, v)));
    }
}


impl<R: Ring> Matrix<R> {
    /// Add `v` (as a column vector) to column `j`.
    pub fn add_column(self, j: Dim, v: Vector<R>) -> (r: Self)
        ensures
            r@ == mat_add_column::<R>(self@, j, v@),
    {
        let ghost m0 = self@;
        proof {
            use_type_invariant(&self);
            lemma_rows_sparse(self.rows@);
        }
        v.lemma_sparse();
        let es = v.iter();
        let mut cur = self;
        let mut k: usize = 0;
        proof {
            crate::ring::lemma_view_empty(es@.subrange(0, 0));
            lemma_mat_add_column_empty::<R>(m0, j);
        }
        while k < es.len()
            invariant
                k <= es@.len(),
                sorted_keys(es@),
                seq_view(es@) == v@,
                is_sparse::<R>(v@),
                mat_sparse::<R>(m0),
                cur@ == mat_add_column::<R>(m0, j, seq_view(es@.subrange(0, k as int))),
            decreases es@.len() - k,
        {
            proof {
                crate::ring::lemma_prefix_push(es@, k as int);
                crate::ring::lemma_view_index(es@, k as int);
                lemma_mat_add_column_step::<R>(m0, j, seq_view(es@.subrange(0, k as int)), es@[k as int].0, es@[k as int].1@);
            }
            let c = R::copy(&es[k].1);
            cur = cur.add_entry(es[k].0, j, c);
            k = k + 1;
        }
        proof {
            assert(es@.subrange(0, es@.len() as int) =~= es@);
        }
        cur
    }

    /// Transpose.
    pub fn transpose(&self) -> (r: Self)
        ensures
            r@ == mat_transpose::<R>(self@),
    {
        proof {
            use_type_invariant(self);
            crate::ring::lemma_view_empty(self.rows@.subrange(0, 0));
            lemma_transpose_empty::<R>();
        }
        let mut t = Self::zero();
        let mut i: usize = 0;
        while i < self.rows.len()
            invariant
                i <= self.rows@.len(),
                sorted_keys(self.rows@),
                rows_ok(self.rows@),
                t@ == mat_transpose::<R>(seq_view(self.rows@.subrange(0, i as int))),
            decreases self.rows@.len() - i,
        {
            proof {
                crate::ring::lemma_prefix_push(self.rows@, i as int);
                lemma_transpose_step::<R>(seq_view(self.rows@.subrange(0, i as int)), self.rows@[i as int].0, self.rows@[i as int].1@);
            }
            let row = self.rows[i].1.clone();
            t = t.add_column(self.rows[i].0, row);
            i = i + 1;
        }
        proof {
            assert(self.rows@.subrange(0, self.rows@.len() as int) =~= self.rows@);
        }
        t
    }

    /// `self * other`.
    pub fn mul(&self, other: &Self) -> (r: Self)
        ensures
            r@ == mat_mul::<R>(self@, other@),
    {
        proof {
            use_type_invariant(self);
            crate::ring::lemma_view_empty(self.rows@.subrange(0, 0));
            assert(mat_mul::<R>(Map::<Dim, Map<Dim, R::V>>::empty(), other@) =~= Map::<Dim, Map<Dim, R::V>>::empty());
        }
        let other_t = other.transpose();
        proof {
            use_type_invariant(&other_t);
        }
        let mut result = Self::zero();
        let mut i: usize = 0;
        while i < self.rows.len()
            invariant
                i <= self.rows@.len(),
                sorted_keys(self.rows@),
                sorted_keys(other_t.rows@),
                seq_view(other_t.rows@) == mat_transpose::<R>(other@),
                result@ == mat_mul::<R>(seq_view(self.rows@.subrange(0, i as int)), other@),
            decreases self.rows@.len() - i,
        {
            let mut out_row: Vector<R> = Vector::zero();
            let mut j: usize = 0;
            proof {
                crate::ring::lemma_view_empty(other_t.rows@.subrange(0, 0));
                assert(row_times_rows::<R>(self.rows@[i as int].1@, Map::<Dim, Map<Dim, R::V>>::empty())
                    =~= Map::<Dim, R::V>::empty());
            }
            while j < other_t.rows.len()
                invariant
                    i < self.rows@.len(),
                    j <= other_t.rows@.len(),
                    sorted_keys(other_t.rows@),
                    out_row@ == row_times_rows::<R>(self.rows@[i as int].1@, seq_view(other_t.rows@.subrange(0, j as int))),
                decreases other_t.rows@.len() - j,
            {
                let c = self.rows[i].1.dot(&other_t.rows[j].1);
                proof {
                    crate::ring::lemma_prefix_push(other_t.rows@, j as int);
                    lemma_row_times_step::<R>(
                        self.rows@[i as int].1@,
                        seq_view(other_t.rows@.subrange(0, j as int)),
                        other_t.rows@[j as int].0,
                        other_t.rows@[j as int].1@,
                    );
                }
                out_row = out_row.add_term(c, other_t.rows[j].0);
                j = j + 1;
            }
            out_row.lemma_sparse();
            proof {
                assert(other_t.rows@.subrange(0, other_t.rows@.len() as int) =~= other_t.rows@);
                lemma_row_times_transpose::<R>(self.rows@[i as int].1@, other@);
                crate::ring::lemma_prefix_push(self.rows@, i as int);
                lemma_mat_mul_step::<R>(
                    seq_view(self.rows@.subrange(0, i as int)),
                    self.rows@[i as int].0,
                    self.rows@[i as int].1@,
                    other@,
                );
            }
            result = result.add_row(self.rows[i].0, out_row);
            i = i + 1;
        }
        proof {
            assert(self.rows@.subrange(0, self.rows@.len() as int) =~= self.rows@);
        }
        result
    }

    /// `v^T * self`, treating `v` as a column vector.
    pub fn vector_left_mul(&self, v: &Vector<R>) -> (r: Vector<R>)
        ensures
            r@ == vec_mat::<R>(v@, self@),
    {
        let es = v.iter();
        let mut result: Vector<R> = Vector::zero();
        let mut k: usize = 0;
        proof {
            crate::ring::lemma_view_empty(es@.subrange(0, 0));
            assert(Map::<Dim, R::V>::empty().dom().len() == 0);
        }
        while k < es.len()
            invariant
                k <= es@.len(),
                sorted_keys(es@),
                seq_view(es@) == v@,
                result@ == vec_mat::<R>(seq_view(es@.subrange(0, k as int)), self@),
            decreases es@.len() - k,
        {
            let scaled = self.row(es[k].0).scalar_mul(&es[k].1);
            proof {
                crate::ring::lemma_prefix_push(es@, k as int);
                crate::ring::lemma_view_finite(es@.subrange(0, k as int));
                crate::ring::lemma_key_absent(es@.subrange(0, k as int), es@[k as int].0 as int);
                lemma_vec_mat_step::<R>(seq_view(es@.subrange(0, k as int)), es@[k as int].0, es@[k as int].1@, self@);
            }
            result = result.add(&scaled);
            k = k + 1;
        }
        proof {
            assert(es@.subrange(0, es@.len() as int) =~= es@);
        }
        result
    }

    /// Remove column `j`. Returns the removed column (as a vector indexed by
    /// row) and the matrix with that column cleared.
    pub fn pivot_column(self, j: Dim) -> (r: (Vector<R>, Self))
        ensures
            r.0@ == column_of::<R>(self@, j),
            r.1@ == mat_remove_column::<R>(self@, j),
    {
        proof {
            use_type_invariant(&self);
            crate::ring::lemma_view_empty(self.rows@.subrange(0, 0));
            assert(column_of::<R>(Map::<Dim, Map<Dim, R::V>>::empty(), j) =~= Map::<Dim, R::V>::empty());
            assert(mat_remove_column::<R>(Map::<Dim, Map<Dim, R::V>>::empty(), j) =~= Map::<Dim, Map<Dim, R::V>>::empty());
        }
        let mut col: Vector<R> = Vector::zero();
        let mut out: Vec<(Dim, Vector<R>)> = Vec::new();
        proof {
            crate::ring::lemma_view_empty(out@);
        }
        let mut i: usize = 0;
        while i < self.rows.len()
            invariant
                i <= self.rows@.len(),
                sorted_keys(self.rows@),
                rows_ok(self.rows@),
                col@ == column_of::<R>(seq_view(self.rows@.subrange(0, i as int)), j),
                sorted_keys(out@),
                rows_ok(out@),
                crate::ring::keys_below(out@, crate::ring::head(self.rows@, i as int)),
                seq_view(out@) == mat_remove_column::<R>(seq_view(self.rows@.subrange(0, i as int)), j),
            decreases self.rows@.len() - i,
        {
            let d = self.rows[i].0;
            let (entry, rest) = self.rows[i].1.clone().pivot(j);
            rest.lemma_sparse();
            proof {
                crate::ring::lemma_prefix_push(self.rows@, i as int);
                crate::ring::lemma_head_next(self.rows@, i as int);
                R::lemma_valid_units();
                lemma_column_step::<R>(seq_view(self.rows@.subrange(0, i as int)), d, self.rows@[i as int].1@, j);
                lemma_remove_column_step::<R>(seq_view(self.rows@.subrange(0, i as int)), d, self.rows@[i as int].1@, j);
            }
            col = col.add_term(entry, d);
            if !rest.is_zero() {
                proof {
                    crate::ring::lemma_view_push(out@, (d, rest));
                }
                let ghost old_out = out@;
                out.push((d, rest));
                proof {
                    assert forall|t: int| 0 <= t < out@.len() implies #[trigger] out@[t].1@ != Map::<Dim, R::V>::empty()
                        && is_sparse::<R>(out@[t].1@) by {
                        if t < old_out.len() {
                            assert(out@[t] == old_out[t]);
                        }
                    }
                    assert forall|t: int| 0 <= t < out@.len() implies #[trigger] out@[t].0 < crate::ring::head(self.rows@, i + 1) by {
                        if t < old_out.len() {
                            assert(out@[t] == old_out[t]);
                        }
                    }
                }
            } else {
                proof {
                    assert forall|t: int| 0 <= t < out@.len() implies #[trigger] out@[t].0 < crate::ring::head(self.rows@, i + 1) by {
                    }
                }
            }
            i = i + 1;
        }
        proof {
            assert(self.rows@.subrange(0, self.rows@.len() as int) =~= self.rows@);
        }
        (col, Matrix { rows: out })
    }
}

proof fn lemma_mat_add_column_empty<R: Ring>(m: Map<Dim, Map<Dim, R::V>>, j: Dim)
    requires
        mat_sparse::<R>(m),
    ensures
        mat_add_column::<R>(m, j, Map::<Dim, R::V>::empty()) == m,
{
    assert(mat_add_column::<R>(m, j, Map::<Dim, R::V>::empty()) =~= m);
}

/// Adding a one-entry row at `j` is adding a term at `j`.
proof fn lemma_map_add_single<R: Ring>(r: Map<Dim, R::V>, j: Dim, c: R::V)
    requires
        is_sparse::<R>(r),
        R::valid(c),
        c != R::rzero(),
    ensures
        map_add::<R>(r, Map::<Dim, R::V>::empty().insert(j, c)) == map_add_term::<R>(r, j, c),
{
    R::lemma_valid_units();
    assert forall|d: Dim| #[trigger] r.contains_key(d) implies R::radd(r[d], R::rzero()) == r[d] by {
        R::lemma_ring_axioms(r[d], R::rzero(), R::rzero());
    }
    let s = R::radd(coeff_of::<R>(r, j), c);
    if s == R::rzero() {
        assert(map_add::<R>(r, Map::<Dim, R::V>::empty().insert(j, c)) =~= r.remove(j));
    } else {
        assert(map_add::<R>(r, Map::<Dim, R::V>::empty().insert(j, c)) =~= r.insert(j, s));
    }
}

proof fn lemma_mat_add_column_step<R: Ring>(m: Map<Dim, Map<Dim, R::V>>, j: Dim, p: Map<Dim, R::V>, d: Dim, c: R::V)
    requires
        mat_sparse::<R>(m),
        !p.contains_key(d),
        R::valid(c),
        c != R::rzero(),
    ensures
        mat_add_column::<R>(m, j, p.insert(d, c)) == mat_add_row::<R>(
            mat_add_column::<R>(m, j, p),
            d,
            Map::<Dim, R::V>::empty().insert(j, c),
        ),
{
    let x = mat_add_column::<R>(m, j, p);
    assert(row_of::<R>(x, d) == row_of::<R>(m, d));
    lemma_map_add_single::<R>(row_of::<R>(m, d), j, c);
    assert(mat_add_column::<R>(m, j, p.insert(d, c)) =~= mat_add_row::<R>(x, d, Map::<Dim, R::V>::empty().insert(j, c)));
}

proof fn lemma_transpose_empty<R: Ring>()
    ensures
        mat_transpose::<R>(Map::<Dim, Map<Dim, R::V>>::empty()) == Map::<Dim, Map<Dim, R::V>>::empty(),
{
    assert forall|j: Dim| #[trigger] column_of::<R>(Map::<Dim, Map<Dim, R::V>>::empty(), j) == Map::<Dim, R::V>::empty() by {
        assert(column_of::<R>(Map::<Dim, Map<Dim, R::V>>::empty(), j) =~= Map::<Dim, R::V>::empty());
    }
    assert(mat_transpose::<R>(Map::<Dim, Map<Dim, R::V>>::empty()) =~= Map::<Dim, Map<Dim, R::V>>::empty());
}

/// Transposing one new row at a time: row `d` becomes column `d`.
proof fn lemma_transpose_step<R: Ring>(p: Map<Dim, Map<Dim, R::V>>, d: Dim, v: Map<Dim, R::V>)
    requires
        !p.contains_key(d),
        is_sparse::<R>(v),
    ensures
        mat_transpose::<R>(p.insert(d, v)) == mat_add_column::<R>(mat_transpose::<R>(p), d, v),
{
    let t = mat_transpose::<R>(p);
    assert forall|i: Dim| #[trigger] row_of::<R>(t, i) == column_of::<R>(p, i) by {
        if !t.contains_key(i) {
            assert(column_of::<R>(p, i) =~= Map::<Dim, R::V>::empty());
        }
    }
    assert forall|i: Dim| #[trigger] column_of::<R>(p.insert(d, v), i) == column_added_row::<R>(t, d, v, i) by {
        if v.contains_key(i) {
            lemma_add_term_absent::<R>(column_of::<R>(p, i), d, v[i]);
            assert(column_of::<R>(p.insert(d, v), i) =~= column_of::<R>(p, i).insert(d, v[i]));
        } else {
            assert(column_of::<R>(p.insert(d, v), i) =~= column_of::<R>(p, i));
        }
    }
    assert(mat_transpose::<R>(p.insert(d, v)) =~= mat_add_column::<R>(t, d, v));
}

proof fn lemma_row_times_step<R: Ring>(r: Map<Dim, R::V>, t: Map<Dim, Map<Dim, R::V>>, j: Dim, c: Map<Dim, R::V>)
    requires
        !t.contains_key(j),
        R::valid(map_dot::<R>(r, c)),
    ensures
        row_times_rows::<R>(r, t.insert(j, c)) == map_add_term::<R>(row_times_rows::<R>(r, t), j, map_dot::<R>(r, c)),
{
    lemma_add_term_absent::<R>(row_times_rows::<R>(r, t), j, map_dot::<R>(r, c));
    if map_dot::<R>(r, c) == R::rzero() {
        assert(row_times_rows::<R>(r, t.insert(j, c)) =~= row_times_rows::<R>(r, t));
    } else {
        assert(row_times_rows::<R>(r, t.insert(j, c)) =~= row_times_rows::<R>(r, t).insert(j, map_dot::<R>(r, c)));
    }
}

proof fn lemma_row_times_transpose<R: Ring>(r: Map<Dim, R::V>, b: Map<Dim, Map<Dim, R::V>>)
    ensures
        row_times_rows::<R>(r, mat_transpose::<R>(b)) == row_times::<R>(r, b),
{
    assert(row_times_rows::<R>(r, mat_transpose::<R>(b)) =~= row_times::<R>(r, b));
}

proof fn lemma_mat_mul_step<R: Ring>(p: Map<Dim, Map<Dim, R::V>>, i: Dim, r: Map<Dim, R::V>, b: Map<Dim, Map<Dim, R::V>>)
    requires
        !p.contains_key(i),
        is_sparse::<R>(row_times::<R>(r, b)),
    ensures
        mat_mul::<R>(p.insert(i, r), b) == mat_add_row::<R>(mat_mul::<R>(p, b), i, row_times::<R>(r, b)),
{
    let x = mat_mul::<R>(p, b);
    assert(row_of::<R>(x, i) == Map::<Dim, R::V>::empty());
    lemma_add_to_empty::<R>(row_times::<R>(r, b));
    assert(mat_mul::<R>(p.insert(i, r), b) =~= mat_add_row::<R>(x, i, row_times::<R>(r, b)));
}

/// Adding an entry above every key of `v` adds its scaled row to the product.
proof fn lemma_vec_mat_step<R: Ring>(v: Map<Dim, R::V>, d: Dim, c: R::V, m: Map<Dim, Map<Dim, R::V>>)
    requires
        v.dom().finite(),
        forall|e: Dim| e >= d ==> !#[trigger] v.contains_key(e),
    ensures
        vec_mat::<R>(v.insert(d, c), m) == map_add::<R>(vec_mat::<R>(v, m), map_scale::<R>(c, row_of::<R>(m, d))),
{
    let n = v.insert(d, c);
    assert(crate::ring::is_max_key(n, d));
    assert(n.dom().len() > 0);
    let e = choose|e: Dim| crate::ring::is_max_key(n, e);
    assert(e == d) by {
        assert(n.contains_key(e) && n.contains_key(d));
        assert(e <= d && d <= e);
    }
    assert(n.remove(d) =~= v);
}

proof fn lemma_remove_column_step<R: Ring>(p: Map<Dim, Map<Dim, R::V>>, d: Dim, row: Map<Dim, R::V>, j: Dim)
    requires
        !p.contains_key(d),
    ensures
        mat_remove_column::<R>(p.insert(d, row), j) == if row.remove(j) == Map::<Dim, R::V>::empty() {
            mat_remove_column::<R>(p, j)
        } else {
            mat_remove_column::<R>(p, j).insert(d, row.remove(j))
        },
{
    if row.remove(j) == Map::<Dim, R::V>::empty() {
        assert(mat_remove_column::<R>(p.insert(d, row), j) =~= mat_remove_column::<R>(p, j));
    } else {
        assert(mat_remove_column::<R>(p.insert(d, row), j) =~= mat_remove_column::<R>(p, j).insert(d, row.remove(j)));
    }
}


impl<R: Ring> Matrix<R> {
    /// The identity matrix restricted to the given diagonal positions; a
    /// position listed twice is set once.
    pub fn identity(dims: &[Dim]) -> (r: Self)
        ensures
            r@ == diagonal::<R>(dims@.to_set()),
    {
        let mut m = Self::zero();
        let mut k: usize = 0;
        proof {
            assert(dims@.subrange(0, 0).to_set() =~= Set::<Dim>::empty());
            assert(diagonal::<R>(Set::<Dim>::empty()) =~= Map::<Dim, Map<Dim, R::V>>::empty());
        }
        while k < dims.len()
            invariant
                k <= dims@.len(),
                m@ == diagonal::<R>(dims@.subrange(0, k as int).to_set()),
            decreases dims@.len() - k,
        {
            let ghost t = dims@.subrange(0, k as int).to_set();
            proof {
                lemma_push_to_set(dims@.subrange(0, k as int), dims@[k as int]);
                assert(dims@.subrange(0, k + 1) =~= dims@.subrange(0, k as int).push(dims@[k as int]));
            }
            let d = dims[k];
            if m.row(d).is_zero() {
                let one = R::one();
                m = m.add_entry(d, d, one);
                proof {
                    lemma_diagonal_insert::<R>(t, d);
                }
            } else {
                proof {
                    assert(t.contains(d));
                    assert(t.insert(d) =~= t);
                }
            }
            k = k + 1;
        }
        proof {
            assert(dims@.subrange(0, dims@.len() as int) =~= dims@);
        }
        m
    }

    /// Build a matrix whose `i`-th row is the `i`-th element of `rows`.
    pub fn of_rows(rows: Vec<Vector<R>>) -> (r: Self)
        requires
            rows@.len() <= i32::MAX + 1,
        ensures
            r@ == rows_matrix::<R>(rows@),
    {
        let mut m = Self::zero();
        let mut k: usize = 0;
        proof {
            assert(rows_matrix::<R>(rows@.subrange(0, 0)) =~= Map::<Dim, Map<Dim, R::V>>::empty());
        }
        while k < rows.len()
            invariant
                k <= rows@.len(),
                rows@.len() <= i32::MAX + 1,
                m@ == rows_matrix::<R>(rows@.subrange(0, k as int)),
            decreases rows@.len() - k,
        {
            let v = rows[k].clone();
            v.lemma_sparse();
            let id: Dim = k as Dim;
            proof {
                lemma_add_to_empty::<R>(v@);
                assert(!m@.contains_key(id));
                assert(row_of::<R>(m@, id) == Map::<Dim, R::V>::empty());
            }
            let ghost old_m = m@;
            m = m.add_row(id, v);
            proof {
                if v@ == Map::<Dim, R::V>::empty() {
                    assert(old_m.remove(id) =~= old_m);
                }
                assert(m@ =~= rows_matrix::<R>(rows@.subrange(0, k + 1)));
            }
            k = k + 1;
        }
        proof {
            assert(rows@.subrange(0, rows@.len() as int) =~= rows@);
        }
        m
    }

    /// Build a matrix from a dense row-major representation.
    pub fn of_dense(rows: &[Vec<R>]) -> (r: Self)
        requires
            rows@.len() <= i32::MAX + 1,
            forall|i: int| 0 <= i < rows@.len() ==> #[trigger] rows@[i]@.len() <= i32::MAX + 1,
        ensures
            r@ == dense_matrix::<R>(rows@),
    {
        let mut m = Self::zero();
        let mut k: usize = 0;
        proof {
            assert(dense_matrix::<R>(rows@.subrange(0, 0)) =~= Map::<Dim, Map<Dim, R::V>>::empty());
        }
        while k < rows.len()
            invariant
                k <= rows@.len(),
                rows@.len() <= i32::MAX + 1,
                forall|i: int| 0 <= i < rows@.len() ==> #[trigger] rows@[i]@.len() <= i32::MAX + 1,
                m@ == dense_matrix::<R>(rows@.subrange(0, k as int)),
            decreases rows@.len() - k,
        {
            let row: &Vec<R> = &rows[k];
            let mut v: Vector<R> = Vector::zero();
            let mut j: usize = 0;
            proof {
                assert(dense_prefix::<R>(row@, 0) =~= Map::<Dim, R::V>::empty());
            }
            while j < row.len()
                invariant
                    j <= row@.len(),
                    row@.len() <= i32::MAX + 1,
                    v@ == dense_prefix::<R>(row@, j as int),
                decreases row@.len() - j,
            {
                let x = R::copy(&row[j]);
                R::lemma_valid(&x);
                let jd: Dim = j as Dim;
                proof {
                    lemma_add_term_absent::<R>(v@, jd, x@);
                }
                v = v.add_term(x, jd);
                proof {
                    assert(v@ =~= dense_prefix::<R>(row@, j + 1));
                }
                j = j + 1;
            }
            v.lemma_sparse();
            let id: Dim = k as Dim;
            proof {
                lemma_add_to_empty::<R>(v@);
                assert(!m@.contains_key(id));
                assert(row_of::<R>(m@, id) == Map::<Dim, R::V>::empty());
                assert(rows@.subrange(0, k + 1)[k as int] == row);
            }
            let ghost old_m = m@;
            m = m.add_row(id, v);
            proof {
                if v@ == Map::<Dim, R::V>::empty() {
                    assert(old_m.remove(id) =~= old_m);
                }
                assert(m@ =~= dense_matrix::<R>(rows@.subrange(0, k + 1)));
            }
            k = k + 1;
        }
        proof {
            assert(rows@.subrange(0, rows@.len() as int) =~= rows@);
        }
        m
    }

    /// Materialise this sparse matrix as a dense `rows`-by-`cols` array.
    /// Entries outside the stored support are filled with zero.
    pub fn dense_of(&self, rows: usize, cols: usize) -> (r: Vec<Vec<R>>)
        requires
            rows <= i32::MAX + 1,
            cols <= i32::MAX + 1,
        ensures
            r@.len() == rows,
            forall|i: int| 0 <= i < rows ==> (#[trigger] r@[i])@.len() == cols,
            forall|i: int, j: int| 0 <= i < rows && 0 <= j < cols ==> (#[trigger] r@[i]@[j])@ == entry_of::<R>(self@, i as Dim, j as Dim),
    {
        let mut out: Vec<Vec<R>> = Vec::new();
        let mut i: usize = 0;
        while i < rows
            invariant
                i <= rows,
                rows <= i32::MAX + 1,
                cols <= i32::MAX + 1,
                out@.len() == i,
                forall|a: int| 0 <= a < i ==> (#[trigger] out@[a])@.len() == cols,
                forall|a: int, b: int| 0 <= a < i && 0 <= b < cols ==> (#[trigger] out@[a]@[b])@ == entry_of::<R>(self@, a as Dim, b as Dim),
            decreases rows - i,
        {
            let id: Dim = i as Dim;
            let mut line: Vec<R> = Vec::new();
            let mut j: usize = 0;
            while j < cols
                invariant
                    j <= cols,
                    cols <= i32::MAX + 1,
                    i < rows <= i32::MAX + 1,
                    id == i,
                    line@.len() == j,
                    forall|b: int| 0 <= b < j ==> (#[trigger] line@[b])@ == entry_of::<R>(self@, i as Dim, b as Dim),
                decreases cols - j,
            {
                let jd: Dim = j as Dim;
                line.push(self.entry(id, jd));
                j = j + 1;
            }
            let ghost old_out = out@;
            out.push(line);
            proof {
                assert forall|a: int, b: int| 0 <= a < i + 1 && 0 <= b < cols implies (#[trigger] out@[a]@[b])@ == entry_of::<R>(self@, a as Dim, b as Dim) by {
                    if a < i {
                        assert(out@[a] == old_out[a]);
                    }
                }
                assert forall|a: int| 0 <= a < i + 1 implies (#[trigger] out@[a])@.len() == cols by {
                    if a < i {
                        assert(out@[a] == old_out[a]);
                    }
                }
            }
            i = i + 1;
        }
        out
    }

    /// Combine two matrices column-wise, interleaving `self`'s columns at even
    /// positions and `other`'s columns at odd positions.
    pub fn interlace_columns(&self, other: &Self) -> (r: Self)
        requires
            mat_interlace_ok(self@),
            mat_interlace_ok(other@),
        ensures
            r@ == mat_interlace_columns::<R>(self@, other@),
    {
        proof {
            use_type_invariant(self);
            use_type_invariant(other);
            crate::ring::lemma_view_empty(self.rows@.subrange(0, 0));
            assert(mat_interlace_columns::<R>(Map::<Dim, Map<Dim, R::V>>::empty(), Map::<Dim, Map<Dim, R::V>>::empty())
                =~= Map::<Dim, Map<Dim, R::V>>::empty());
        }
        let mut m = Self::zero();
        let mut k: usize = 0;
        while k < self.rows.len()
            invariant
                k <= self.rows@.len(),
                sorted_keys(self.rows@),
                rows_ok(self.rows@),
                seq_view(self.rows@) == self@,
                mat_interlace_ok(self@),
                mat_interlace_ok(other@),
                m@ == mat_interlace_columns::<R>(
                    seq_view(self.rows@.subrange(0, k as int)),
                    other@.restrict(seq_view(self.rows@.subrange(0, k as int)).dom()),
                ),
            decreases self.rows@.len() - k,
        {
            let d = self.rows[k].0;
            let o = other.row(d);
            proof {
                crate::ring::lemma_view_index(self.rows@, k as int);
            }
            let v = self.rows[k].1.interlace(&o);
            v.lemma_sparse();
            proof {
                crate::ring::lemma_prefix_push(self.rows@, k as int);
                lemma_add_to_empty::<R>(v@);
                lemma_interlace_nonempty::<R>(self.rows@[k as int].1@, o@);
                lemma_interlace_columns_step::<R>(
                    seq_view(self.rows@.subrange(0, k as int)),
                    other@,
                    seq_view(self.rows@.subrange(0, k as int)).dom(),
                    d,
                    self.rows@[k as int].1@,
                );
            }
            m = m.add_row(d, v);
            k = k + 1;
        }
        proof {
            assert(self.rows@.subrange(0, self.rows@.len() as int) =~= self.rows@);
            use_type_invariant(other);
            crate::ring::lemma_view_empty(other.rows@.subrange(0, 0));
            assert(mat_interlace_columns::<R>(self@, other@.restrict(self@.dom()))
                == mat_interlace_columns::<R>(self@, other@.restrict(self@.dom().union(
                seq_view(other.rows@.subrange(0, 0)).dom()))));
            assert(self@.dom().union(seq_view(other.rows@.subrange(0, 0)).dom()) =~= self@.dom());
            lemma_rows_sparse(other.rows@);
        }
        let mut k: usize = 0;
        while k < other.rows.len()
            invariant
                k <= other.rows@.len(),
                sorted_keys(other.rows@),
                rows_ok(other.rows@),
                seq_view(other.rows@) == other@,
                mat_interlace_ok(other@),
                m@ == mat_interlace_columns::<R>(
                    self@,
                    other@.restrict(self@.dom().union(seq_view(other.rows@.subrange(0, k as int)).dom())),
                ),
            decreases other.rows@.len() - k,
        {
            let d = other.rows[k].0;
            proof {
                crate::ring::lemma_prefix_push(other.rows@, k as int);
                crate::ring::lemma_view_index(other.rows@, k as int);
            }
            if !self.has_row(d) {
                let z: Vector<R> = Vector::zero();
                let v = z.interlace(&other.rows[k].1);
                v.lemma_sparse();
                proof {
                    lemma_add_to_empty::<R>(v@);
                    lemma_interlace_nonempty::<R>(Map::<Dim, R::V>::empty(), other.rows@[k as int].1@);
                    lemma_interlace_columns_other_step::<R>(
                        self@,
                        other@,
                        self@.dom().union(seq_view(other.rows@.subrange(0, k as int)).dom()),
                        d,
                    );
                }
                m = m.add_row(d, v);
            } else {
                proof {
                    assert(self@.dom().union(seq_view(other.rows@.subrange(0, k + 1)).dom()) =~= self@.dom().union(
                        seq_view(other.rows@.subrange(0, k as int)).dom()));
                }
            }
            proof {
                assert(self@.dom().union(seq_view(other.rows@.subrange(0, k + 1)).dom()) =~= self@.dom().union(
                    seq_view(other.rows@.subrange(0, k as int)).dom()).insert(d));
            }
            k = k + 1;
        }
        proof {
            assert(other.rows@.subrange(0, other.rows@.len() as int) =~= other.rows@);
            assert(other@.restrict(self@.dom().union(other@.dom())) =~= other@);
        }
        m
    }

    /// Is row `i` nonzero?
    fn has_row(&self, i: Dim) -> (r: bool)
        ensures
            r == self@.contains_key(i),
    {
        let (_, found) = self.find(i);
        found
    }
}

/// Pushing an element onto a sequence adds it to its set.
proof fn lemma_push_to_set(s: Seq<Dim>, l: Dim)
    ensures
        s.push(l).to_set() == s.to_set().insert(l),
{
    let p = s.push(l);
    assert forall|x: Dim| p.to_set().contains(x) implies s.to_set().insert(l).contains(x) by {
        let i = choose|i: int| 0 <= i < p.len() && p[i] == x;
        if i < s.len() {
            assert(s[i] == x);
        }
    }
    assert forall|x: Dim| s.to_set().insert(l).contains(x) implies p.to_set().contains(x) by {
        if x == l {
            assert(p[s.len() as int] == x);
        } else {
            let i = choose|i: int| 0 <= i < s.len() && s[i] == x;
            assert(p[i] == x);
        }
    }
    assert(p.to_set() =~= s.to_set().insert(l));
}

/// Setting `(l, l)` to one in the identity on `t`, where row `l` is zero,
/// gives the identity on `t` with `l`.
proof fn lemma_diagonal_insert<R: Ring>(t: Set<Dim>, l: Dim)
    requires
        row_of::<R>(diagonal::<R>(t), l) == Map::<Dim, R::V>::empty(),
    ensures
        mat_add_row::<R>(
            diagonal::<R>(t),
            l,
            if R::rone() == R::rzero() { Map::<Dim, R::V>::empty() } else { Map::<Dim, R::V>::empty().insert(l, R::rone()) },
        ) == diagonal::<R>(t.insert(l)),
{
    R::lemma_valid_units();
    let d = diagonal::<R>(t);
    if R::rone() == R::rzero() {
        assert(map_add::<R>(Map::<Dim, R::V>::empty(), Map::<Dim, R::V>::empty()) =~= Map::<Dim, R::V>::empty());
        assert(d =~= Map::<Dim, Map<Dim, R::V>>::empty());
        assert(d.remove(l) =~= d);
        assert(diagonal::<R>(t.insert(l)) =~= d);
    } else {
        assert(!d.contains_key(l)) by {
            if d.contains_key(l) {
                assert(row_of::<R>(d, l).contains_key(l));
            }
        }
        let u = Map::<Dim, R::V>::empty().insert(l, R::rone());
        lemma_add_to_empty::<R>(u);
        assert(u.contains_key(l));
        assert(u != Map::<Dim, R::V>::empty());
        assert(mat_add_row::<R>(d, l, u) == d.insert(l, u));
        assert(diagonal::<R>(t.insert(l)) =~= d.insert(l, u));
    }
}

/// An interlaced row is nonzero when either side is.
proof fn lemma_interlace_nonempty<R: Ring>(a: Map<Dim, R::V>, b: Map<Dim, R::V>)
    requires
        crate::ring::interlace_ok(a),
        crate::ring::interlace_ok(b),
    ensures
        (crate::ring::map_interlace(a, b) == Map::<Dim, R::V>::empty()) == (a == Map::<Dim, R::V>::empty()
            && b == Map::<Dim, R::V>::empty()),
{
    let w = crate::ring::map_interlace(a, b);
    if a != Map::<Dim, R::V>::empty() {
        let d = choose|d: Dim| a.contains_key(d) && !Map::<Dim, R::V>::empty().contains_key(d);
        assert(!(a =~= Map::<Dim, R::V>::empty()) ==> exists|d: Dim| a.contains_key(d));
        let e = choose|d: Dim| a.contains_key(d);
        let k = (2 * e) as Dim;
        assert(w.contains_key(k));
    } else if b != Map::<Dim, R::V>::empty() {
        assert(!(b =~= Map::<Dim, R::V>::empty()) ==> exists|d: Dim| b.contains_key(d));
        let e = choose|d: Dim| b.contains_key(d);
        let k = (2 * e + 1) as Dim;
        assert(w.contains_key(k));
    } else {
        assert(w =~= Map::<Dim, R::V>::empty());
    }
}

proof fn lemma_interlace_columns_step<R: Ring>(
    p: Map<Dim, Map<Dim, R::V>>,
    b: Map<Dim, Map<Dim, R::V>>,
    dom: Set<Dim>,
    d: Dim,
    v: Map<Dim, R::V>,
)
    requires
        dom == p.dom(),
        !p.contains_key(d),
        crate::ring::map_interlace(v, row_of::<R>(b, d)) != Map::<Dim, R::V>::empty(),
        map_add::<R>(Map::<Dim, R::V>::empty(), crate::ring::map_interlace(v, row_of::<R>(b, d)))
            == crate::ring::map_interlace(v, row_of::<R>(b, d)),
    ensures
        mat_interlace_columns::<R>(p.insert(d, v), b.restrict(p.insert(d, v).dom())) == mat_add_row::<R>(
            mat_interlace_columns::<R>(p, b.restrict(dom)),
            d,
            crate::ring::map_interlace(v, row_of::<R>(b, d)),
        ),
{
    let x = mat_interlace_columns::<R>(p, b.restrict(dom));
    assert(!x.contains_key(d));
    assert(row_of::<R>(x, d) == Map::<Dim, R::V>::empty());
    assert(mat_interlace_columns::<R>(p.insert(d, v), b.restrict(p.insert(d, v).dom())) =~= mat_add_row::<R>(
        x,
        d,
        crate::ring::map_interlace(v, row_of::<R>(b, d)),
    ));
}

proof fn lemma_interlace_columns_other_step<R: Ring>(
    a: Map<Dim, Map<Dim, R::V>>,
    b: Map<Dim, Map<Dim, R::V>>,
    dom: Set<Dim>,
    d: Dim,
)
    requires
        a.dom().subset_of(dom),
        !dom.contains(d),
        b.contains_key(d),
        crate::ring::map_interlace(Map::<Dim, R::V>::empty(), b[d]) != Map::<Dim, R::V>::empty(),
        map_add::<R>(Map::<Dim, R::V>::empty(), crate::ring::map_interlace(Map::<Dim, R::V>::empty(), b[d]))
            == crate::ring::map_interlace(Map::<Dim, R::V>::empty(), b[d]),
    ensures
        mat_interlace_columns::<R>(a, b.restrict(dom.insert(d))) == mat_add_row::<R>(
            mat_interlace_columns::<R>(a, b.restrict(dom)),
            d,
            crate::ring::map_interlace(Map::<Dim, R::V>::empty(), b[d]),
        ),
{
    let x = mat_interlace_columns::<R>(a, b.restrict(dom));
    assert(!a.contains_key(d));
    assert(row_of::<R>(x, d) == Map::<Dim, R::V>::empty());
    assert(row_of::<R>(a, d) == Map::<Dim, R::V>::empty());
    assert(mat_interlace_columns::<R>(a, b.restrict(dom.insert(d))) =~= mat_add_row::<R>(
        x,
        d,
        crate::ring::map_interlace(Map::<Dim, R::V>::empty(), b[d]),
    ));
}


impl<R: Ring> Matrix<R> {
    /// Set of row indices with a nonzero row.
    pub fn row_set(&self) -> (r: BTreeSet<Dim>)
        ensures
            r@ == self@.dom(),
    {
        proof {
            use_type_invariant(self);
            crate::ring::lemma_view_empty(self.rows@.subrange(0, 0));
        }
        let mut set: BTreeSet<Dim> = BTreeSet::new();
        let mut k: usize = 0;
        while k < self.rows.len()
            invariant
                k <= self.rows@.len(),
                sorted_keys(self.rows@),
                set@ == seq_view(self.rows@.subrange(0, k as int)).dom(),
            decreases self.rows@.len() - k,
        {
            proof {
                crate::ring::lemma_prefix_push(self.rows@, k as int);
            }
            set.insert(self.rows[k].0);
            proof {
                assert(set@ =~= seq_view(self.rows@.subrange(0, k + 1)).dom());
            }
            k = k + 1;
        }
        proof {
            assert(self.rows@.subrange(0, self.rows@.len() as int) =~= self.rows@);
        }
        set
    }

    /// Set of column indices with at least one nonzero entry.
    pub fn column_set(&self) -> (r: BTreeSet<Dim>)
        ensures
            r@ == column_support(self@),
    {
        proof {
            use_type_invariant(self);
            crate::ring::lemma_view_empty(self.rows@.subrange(0, 0));
            assert(column_support(Map::<Dim, Map<Dim, R::V>>::empty()) =~= Set::<Dim>::empty());
        }
        let mut set: BTreeSet<Dim> = BTreeSet::new();
        let mut k: usize = 0;
        while k < self.rows.len()
            invariant
                k <= self.rows@.len(),
                sorted_keys(self.rows@),
                set@ == column_support(seq_view(self.rows@.subrange(0, k as int))),
            decreases self.rows@.len() - k,
        {
            let es = self.rows[k].1.iter();
            let ghost base = set@;
            let mut t: usize = 0;
            proof {
                crate::ring::lemma_view_empty(es@.subrange(0, 0));
                assert(base.union(seq_view(es@.subrange(0, 0)).dom()) =~= base);
            }
            while t < es.len()
                invariant
                    t <= es@.len(),
                    sorted_keys(es@),
                    set@ == base.union(seq_view(es@.subrange(0, t as int)).dom()),
                decreases es@.len() - t,
            {
                proof {
                    crate::ring::lemma_prefix_push(es@, t as int);
                }
                set.insert(es[t].0);
                proof {
                    assert(set@ =~= base.union(seq_view(es@.subrange(0, t + 1)).dom()));
                }
                t = t + 1;
            }
            proof {
                assert(es@.subrange(0, es@.len() as int) =~= es@);
                crate::ring::lemma_prefix_push(self.rows@, k as int);
                lemma_column_support_step(seq_view(self.rows@.subrange(0, k as int)), self.rows@[k as int].0, self.rows@[k as int].1@);
            }
            k = k + 1;
        }
        proof {
            assert(self.rows@.subrange(0, self.rows@.len() as int) =~= self.rows@);
        }
        set
    }

    /// Number of columns with at least one nonzero entry.
    pub fn nb_columns(&self) -> (r: usize)
        ensures
            r == column_support(self@).len(),
    {
        self.column_set().len()
    }

    /// `m` with `1` added on the diagonal at `x`, unless already there.
    fn add_diagonal(m: Self, x: Dim, Ghost(dims): Ghost<Set<Dim>>) -> (r: Self)
        requires
            m@ == diagonal::<R>(dims),
        ensures
            r@ == diagonal::<R>(dims.insert(x)),
    {
        proof {
            R::lemma_valid_units();
        }
        if m.has_row(x) {
            proof {
                assert(dims.insert(x) =~= dims);
            }
            m
        } else {
            let one = R::one();
            let ghost u = Map::<Dim, R::V>::empty().insert(x, R::rone());
            proof {
                assert(row_of::<R>(m@, x) == Map::<Dim, R::V>::empty());
                if R::rone() == R::rzero() {
                    assert(map_add::<R>(Map::<Dim, R::V>::empty(), Map::<Dim, R::V>::empty()) =~= Map::<Dim, R::V>::empty());
                    assert(m@ =~= Map::<Dim, Map<Dim, R::V>>::empty());
                    assert(diagonal::<R>(dims.insert(x)) =~= Map::<Dim, Map<Dim, R::V>>::empty());
                } else {
                    lemma_add_to_empty::<R>(u);
                    assert(u.contains_key(x));
                    assert(diagonal::<R>(dims.insert(x)) =~= m@.insert(x, u));
                }
            }
            m.add_entry(x, x, one)
        }
    }

    /// The identity matrix on the rows and columns that `self` uses.
    fn support_identity(&self) -> (r: Self)
        ensures
            r@ == diagonal::<R>(self@.dom().union(column_support(self@))),
    {
        proof {
            use_type_invariant(self);
            crate::ring::lemma_view_empty(self.rows@.subrange(0, 0));
            assert(diagonal::<R>(Set::<Dim>::empty()) =~= Map::<Dim, Map<Dim, R::V>>::empty());
            assert(Map::<Dim, Map<Dim, R::V>>::empty().dom().union(column_support(Map::<Dim, Map<Dim, R::V>>::empty())) =~= Set::<Dim>::empty());
        }
        let mut id = Self::zero();
        let mut k: usize = 0;
        while k < self.rows.len()
            invariant
                k <= self.rows@.len(),
                sorted_keys(self.rows@),
                id@ == diagonal::<R>(seq_view(self.rows@.subrange(0, k as int)).dom().union(
                    column_support(seq_view(self.rows@.subrange(0, k as int))))),
            decreases self.rows@.len() - k,
        {
            let ghost base = seq_view(self.rows@.subrange(0, k as int)).dom().union(
                column_support(seq_view(self.rows@.subrange(0, k as int))));
            let d = self.rows[k].0;
            id = Self::add_diagonal(id, d, Ghost(base));
            let es = self.rows[k].1.iter();
            let mut t: usize = 0;
            proof {
                crate::ring::lemma_view_empty(es@.subrange(0, 0));
                assert(base.insert(d).union(seq_view(es@.subrange(0, 0)).dom()) =~= base.insert(d));
            }
            while t < es.len()
                invariant
                    t <= es@.len(),
                    sorted_keys(es@),
                    id@ == diagonal::<R>(base.insert(d).union(seq_view(es@.subrange(0, t as int)).dom())),
                decreases es@.len() - t,
            {
                proof {
                    crate::ring::lemma_prefix_push(es@, t as int);
                }
                id = Self::add_diagonal(id, es[t].0, Ghost(base.insert(d).union(seq_view(es@.subrange(0, t as int)).dom())));
                proof {
                    assert(base.insert(d).union(seq_view(es@.subrange(0, t as int)).dom()).insert(es@[t as int].0)
                        =~= base.insert(d).union(seq_view(es@.subrange(0, t + 1)).dom()));
                }
                t = t + 1;
            }
            proof {
                assert(es@.subrange(0, es@.len() as int) =~= es@);
                crate::ring::lemma_prefix_push(self.rows@, k as int);
                lemma_column_support_step(seq_view(self.rows@.subrange(0, k as int)), d, self.rows@[k as int].1@);
                assert(base.insert(d).union(self.rows@[k as int].1@.dom()) =~= seq_view(self.rows@.subrange(0, k + 1)).dom().union(
                    column_support(seq_view(self.rows@.subrange(0, k + 1)))));
            }
            k = k + 1;
        }
        proof {
            assert(self.rows@.subrange(0, self.rows@.len() as int) =~= self.rows@);
        }
        id
    }

    /// Matrix exponentiation by a non-negative integer power: `self`
    /// multiplied `n` times onto the identity on the dimensions that appear
    /// in `self`'s row or column support (so the exponent zero gives that
    /// identity).
    pub fn pow(&self, n: u32) -> (r: Self)
        ensures
            r@ == mat_pow::<R>(self@, n as nat),
    {
        let mut result = self.support_identity();
        let mut k: u32 = 0;
        while k < n
            invariant
                k <= n,
                result@ == mat_pow::<R>(self@, k as nat),
            decreases n - k,
        {
            result = result.mul(self);
            k = k + 1;
        }
        result
    }
}

proof fn lemma_column_support_step<V>(p: Map<Dim, Map<Dim, V>>, d: Dim, row: Map<Dim, V>)
    requires
        !p.contains_key(d),
    ensures
        column_support(p.insert(d, row)) == column_support(p).union(row.dom()),
{
    assert forall|j: Dim| column_support(p.insert(d, row)).contains(j) implies column_support(p).union(row.dom()).contains(j) by {
        let i = choose|i: Dim| p.insert(d, row).contains_key(i) && #[trigger] p.insert(d, row)[i].contains_key(j);
        if i != d {
            assert(p.contains_key(i) && p[i].contains_key(j));
        }
    }
    assert forall|j: Dim| column_support(p).union(row.dom()).contains(j) implies column_support(p.insert(d, row)).contains(j) by {
        if row.dom().contains(j) {
            assert(p.insert(d, row)[d].contains_key(j));
        } else {
            let i = choose|i: Dim| p.contains_key(i) && #[trigger] p[i].contains_key(j);
            assert(p.insert(d, row)[i].contains_key(j));
        }
    }
    assert(column_support(p.insert(d, row)) =~= column_support(p).union(row.dom()));
}


impl<R: Ring> Matrix<R> {
    /// Every nonzero entry `(i, j, coeff)`, in row-major order.
    pub fn entries(&self) -> (r: Vec<(Dim, Dim, R)>)
        ensures
            lists_entries::<R>(r@, self@),
    {
        proof {
            use_type_invariant(self);
        }
        let mut out: Vec<(Dim, Dim, R)> = Vec::new();
        let mut k: usize = 0;
        while k < self.rows.len()
            invariant
                k <= self.rows@.len(),
                sorted_keys(self.rows@),
                seq_view(self.rows@) == self@,
                forall|t: int| #![trigger out@[t]] 0 <= t < out@.len() ==> self@.contains_key(out@[t].0)
                    && self@[out@[t].0].contains_key(out@[t].1) && self@[out@[t].0][out@[t].1] == out@[t].2@
                    && out@[t].0 < crate::ring::head(self.rows@, k as int),
                forall|i: Dim, j: Dim| self@.contains_key(i) && #[trigger] self@[i].contains_key(j) && i < crate::ring::head(self.rows@, k as int)
                    ==> exists|t: int| 0 <= t < out@.len() && #[trigger] out@[t].0 == i && out@[t].1 == j,
                forall|t: int, u: int| 0 <= t < u < out@.len() ==> entry_lt((#[trigger] out@[t].0, out@[t].1), (#[trigger] out@[u].0, out@[u].1)),
            decreases self.rows@.len() - k,
        {
            let d = self.rows[k].0;
            let es = self.rows[k].1.iter();
            proof {
                crate::ring::lemma_view_index(self.rows@, k as int);
                crate::ring::lemma_head_next(self.rows@, k as int);
            }
            let ghost start = out@.len();
            let mut t: usize = 0;
            while t < es.len()
                invariant
                    k < self.rows@.len(),
                    d == self.rows@[k as int].0,
                    sorted_keys(self.rows@),
                    seq_view(self.rows@) == self@,
                    self@[d] == seq_view(es@),
                    self@.contains_key(d),
                    sorted_keys(es@),
                    t <= es@.len(),
                    start <= out@.len(),
                    crate::ring::head(self.rows@, k as int) == d,
                    forall|x: int| #![trigger out@[x]] 0 <= x < out@.len() ==> self@.contains_key(out@[x].0)
                        && self@[out@[x].0].contains_key(out@[x].1) && self@[out@[x].0][out@[x].1] == out@[x].2@,
                    forall|x: int| #![trigger out@[x]] 0 <= x < start ==> out@[x].0 < d,
                    forall|x: int| #![trigger out@[x]] start <= x < out@.len() ==> out@[x].0 == d
                        && out@[x].1 < crate::ring::head(es@, t as int),
                    forall|i: Dim, j: Dim| self@.contains_key(i) && #[trigger] self@[i].contains_key(j) && (i < d || (i == d
                        && j < crate::ring::head(es@, t as int))) ==> exists|x: int| 0 <= x < out@.len() && #[trigger] out@[x].0 == i
                        && out@[x].1 == j,
                    forall|x: int, u: int| 0 <= x < u < out@.len() ==> entry_lt((#[trigger] out@[x].0, out@[x].1), (#[trigger] out@[u].0, out@[u].1)),
                decreases es@.len() - t,
            {
                let c = R::copy(&es[t].1);
                let j = es[t].0;
                proof {
                    crate::ring::lemma_view_index(es@, t as int);
                    crate::ring::lemma_head_next(es@, t as int);
                }
                let ghost old_out = out@;
                out.push((d, j, c));
                proof {
                    let n = old_out.len() as int;
                    assert(out@[n] == (d, j, c));
                    assert forall|x: int| #![trigger out@[x]] 0 <= x < out@.len() implies self@.contains_key(out@[x].0)
                        && self@[out@[x].0].contains_key(out@[x].1) && self@[out@[x].0][out@[x].1] == out@[x].2@ by {
                        if x < n {
                            assert(out@[x] == old_out[x]);
                        }
                    }
                    assert forall|x: int| #![trigger out@[x]] start <= x < out@.len() implies out@[x].0 == d
                        && out@[x].1 < crate::ring::head(es@, t + 1) by {
                        if x < n {
                            assert(out@[x] == old_out[x]);
                        }
                    }
                    assert forall|x: int| #![trigger out@[x]] 0 <= x < start implies out@[x].0 < d by {
                        assert(out@[x] == old_out[x]);
                    }
                    assert forall|x: int, u: int| 0 <= x < u < out@.len() implies entry_lt((#[trigger] out@[x].0, out@[x].1), (#[trigger] out@[u].0, out@[u].1)) by {
                        if u < n {
                            assert(out@[x] == old_out[x] && out@[u] == old_out[u]);
                        } else {
                            assert(out@[x] == old_out[x]);
                        }
                    }
                    assert forall|i: Dim, jj: Dim| self@.contains_key(i) && #[trigger] self@[i].contains_key(jj) && (i < d || (i == d
                        && jj < crate::ring::head(es@, t + 1))) implies exists|x: int| 0 <= x < out@.len() && #[trigger] out@[x].0 == i
                        && out@[x].1 == jj by {
                        if i < d || jj < crate::ring::head(es@, t as int) {
                            let x = choose|x: int| 0 <= x < old_out.len() && #[trigger] old_out[x].0 == i && old_out[x].1 == jj;
                            assert(out@[x] == old_out[x]);
                        } else {
                            let u = choose|u: int| 0 <= u < es@.len() && #[trigger] es@[u].0 == jj;
                            if u < t {
                                assert(es@[u].0 < es@[t as int].0);
                                if t > 0 {
                                    assert(es@[u].0 <= es@[t - 1].0);
                                }
                            } else if u > t {
                                assert(es@[t as int].0 < es@[u].0);
                                if t + 1 < es@.len() {
                                    assert(es@[t + 1].0 <= es@[u].0);
                                }
                            }
                            assert(u == t);
                            assert(out@[n].0 == i && out@[n].1 == jj);
                        }
                    }
                }
                t = t + 1;
            }
            proof {
                assert forall|i: Dim, j: Dim| self@.contains_key(i) && #[trigger] self@[i].contains_key(j) && i < crate::ring::head(self.rows@, k + 1)
                    implies exists|x: int| 0 <= x < out@.len() && #[trigger] out@[x].0 == i && out@[x].1 == j by {
                    if i >= d {
                        let u = choose|u: int| 0 <= u < self.rows@.len() && #[trigger] self.rows@[u].0 == i;
                        if u > k {
                            assert(self.rows@[k + 1].0 <= self.rows@[u].0);
                        }
                        if u < k {
                            assert(self.rows@[u].0 < self.rows@[k as int].0);
                        }
                        assert(i == d);
                        assert(j < crate::ring::head(es@, t as int));
                    }
                }
            }
            k = k + 1;
        }
        proof {
            assert forall|i: Dim, j: Dim| self@.contains_key(i) && #[trigger] self@[i].contains_key(j) implies exists|x: int| 0 <= x
                < out@.len() && #[trigger] out@[x].0 == i && out@[x].1 == j by {
                assert(i < crate::ring::head(self.rows@, k as int));
            }
        }
        out
    }

    /// Apply `f` to each row, dropping rows that become zero.
    pub fn map_rows<F: Fn(Vector<R>) -> Vector<R>>(self, f: F) -> (r: Self)
        requires
            forall|v: Vector<R>| #[trigger] f.requires((v,)),
        ensures
            forall|i: Dim| #[trigger] r@.contains_key(i) ==> self@.contains_key(i) && exists|v: Vector<R>, w: Vector<R>|
                v@ == self@[i] && f.ensures((v,), w) && w@ == r@[i],
            forall|i: Dim| #[trigger] self@.contains_key(i) && !r@.contains_key(i) ==> exists|v: Vector<R>, w: Vector<R>|
                v@ == self@[i] && f.ensures((v,), w) && w@ == Map::<Dim, R::V>::empty(),
    {
        proof {
            use_type_invariant(&self);
        }
        let mut out: Vec<(Dim, Vector<R>)> = Vec::new();
        let mut k: usize = 0;
        proof {
            crate::ring::lemma_view_empty(out@);
        }
        while k < self.rows.len()
            invariant
                k <= self.rows@.len(),
                sorted_keys(self.rows@),
                seq_view(self.rows@) == self@,
                forall|v: Vector<R>| #[trigger] f.requires((v,)),
                sorted_keys(out@),
                rows_ok(out@),
                crate::ring::keys_below(out@, crate::ring::head(self.rows@, k as int)),
                forall|i: Dim| #[trigger] seq_view(out@).contains_key(i) ==> self@.contains_key(i) && exists|v: Vector<R>, w: Vector<R>|
                    v@ == self@[i] && f.ensures((v,), w) && w@ == seq_view(out@)[i],
                forall|i: Dim| #[trigger] self@.contains_key(i) && i < crate::ring::head(self.rows@, k as int) && !seq_view(out@).contains_key(i)
                    ==> exists|v: Vector<R>, w: Vector<R>| v@ == self@[i] && f.ensures((v,), w) && w@ == Map::<Dim, R::V>::empty(),
            decreases self.rows@.len() - k,
        {
            let d = self.rows[k].0;
            let v = self.rows[k].1.clone();
            proof {
                crate::ring::lemma_view_index(self.rows@, k as int);
                crate::ring::lemma_head_next(self.rows@, k as int);
            }
            let ghost gv = v;
            let w = f(v);
            w.lemma_sparse();
            let ghost old_out = out@;
            if !w.is_zero() {
                proof {
                    crate::ring::lemma_view_push(out@, (d, w));
                }
                out.push((d, w));
                proof {
                    assert forall|t: int| 0 <= t < out@.len() implies #[trigger] out@[t].1@ != Map::<Dim, R::V>::empty()
                        && is_sparse::<R>(out@[t].1@) by {
                        if t < old_out.len() {
                            assert(out@[t] == old_out[t]);
                        }
                    }
                    assert forall|t: int| 0 <= t < out@.len() implies #[trigger] out@[t].0 < crate::ring::head(self.rows@, k + 1) by {
                        if t < old_out.len() {
                            assert(out@[t] == old_out[t]);
                        }
                    }
                    assert(seq_view(out@)[d] == w@);
                }
            } else {
                proof {
                    assert forall|t: int| 0 <= t < out@.len() implies #[trigger] out@[t].0 < crate::ring::head(self.rows@, k + 1) by {
                    }
                }
            }
            proof {
                crate::ring::lemma_key_absent(old_out, d as int);
                assert forall|i: Dim| #[trigger] self@.contains_key(i) && i < crate::ring::head(self.rows@, k + 1) && !seq_view(out@).contains_key(i)
                    implies exists|v: Vector<R>, w: Vector<R>| v@ == self@[i] && f.ensures((v,), w) && w@ == Map::<Dim, R::V>::empty() by {
                    if i < d {
                    } else {
                        let u = choose|u: int| 0 <= u < self.rows@.len() && #[trigger] self.rows@[u].0 == i;
                        if u > k {
                            assert(self.rows@[k + 1].0 <= self.rows@[u].0);
                        }
                        if u < k {
                            assert(self.rows@[u].0 < self.rows@[k as int].0);
                        }
                        assert(i == d);
                        assert(gv@ == self@[i] && f.ensures((gv,), w) && w@ == Map::<Dim, R::V>::empty());
                    }
                }
                assert forall|i: Dim| #[trigger] seq_view(out@).contains_key(i) implies self@.contains_key(i) && exists|v: Vector<R>, w: Vector<R>|
                    v@ == self@[i] && f.ensures((v,), w) && w@ == seq_view(out@)[i] by {
                    if i == d && w@ != Map::<Dim, R::V>::empty() {
                        assert(gv@ == self@[i] && f.ensures((gv,), w) && w@ == seq_view(out@)[i]);
                    } else {
                        assert(seq_view(old_out).contains_key(i));
                        assert(seq_view(out@)[i] == seq_view(old_out)[i]);
                    }
                }
            }
            k = k + 1;
        }
        proof {
            assert forall|i: Dim| #[trigger] self@.contains_key(i) implies i < crate::ring::head(self.rows@, k as int) by {
            }
        }
        Matrix { rows: out }
    }
}

/// Reading back entry `(i, j)` of the matrix built from a dense array gives
/// the array's entry: `dense_of` undoes `of_dense`.
pub proof fn lemma_dense_round_trip<R: Ring>(rows: Seq<Vec<R>>, i: int, j: int)
    requires
        0 <= i < rows.len(),
        0 <= j < rows[i]@.len(),
        rows.len() <= i32::MAX + 1,
        rows[i]@.len() <= i32::MAX + 1,
    ensures
        entry_of::<R>(dense_matrix::<R>(rows), i as Dim, j as Dim) == rows[i]@[j]@,
{
    let m = dense_matrix::<R>(rows);
    let p = dense_prefix::<R>(rows[i]@, rows[i]@.len() as int);
    assert((i as Dim) as int == i && (j as Dim) as int == j);
    assert(row_of::<R>(m, i as Dim) == p) by {
        if !m.contains_key(i as Dim) {
            assert(p == Map::<Dim, R::V>::empty());
        }
    }
}

} // verus!
