//! Sparse vectors and matrices over a ring.
//!
//! Both [`Vector`] and [`Matrix`] are sparse: only nonzero entries are stored.
//! The invariant "no stored entry equals zero" is preserved by every public
//! operation, so equality and `is_zero` are correct without explicit
//! normalisation.

use vstd::prelude::*;

use crate::algebra::{AbelianGroup, Ring};

verus! {

/// Signed integer dimension used to index vectors and matrix rows/columns.
pub type Dim = i32;

// ===========================================================================
// Sorted association lists
// ===========================================================================

/// Keys strictly increase along the list.
pub open spec fn sorted_keys<T>(s: Seq<(Dim, T)>) -> bool {
    forall|i: int, j: int| 0 <= i < j < s.len() ==> #[trigger] s[i].0 < #[trigger] s[j].0
}

/// Does the list hold an entry at key `d`?
pub open spec fn has_key<T>(s: Seq<(Dim, T)>, d: Dim) -> bool {
    exists|i: int| 0 <= i < s.len() && #[trigger] s[i].0 == d
}

/// The map from keys to (the views of) their values.
pub open spec fn seq_view<R: View>(s: Seq<(Dim, R)>) -> Map<Dim, R::V> {
    Map::new(
        |d: Dim| has_key(s, d),
        |d: Dim| s[choose|i: int| 0 <= i < s.len() && #[trigger] s[i].0 == d].1@,
    )
}

/// The coefficient of a sparse map at `d`: its entry, or zero.
pub open spec fn coeff_of<R: Ring>(m: Map<Dim, R::V>, d: Dim) -> R::V {
    if m.contains_key(d) {
        m[d]
    } else {
        R::rzero()
    }
}

/// Every stored coefficient is a valid, nonzero ring element.
pub open spec fn is_sparse<R: Ring>(m: Map<Dim, R::V>) -> bool {
    &&& m.dom().finite()
    &&& forall|d: Dim| #[trigger] m.contains_key(d) ==> R::valid(m[d]) && m[d] != R::rzero()
}

/// Pointwise sum of two sparse maps, dropping zero sums.
pub open spec fn map_add<R: Ring>(a: Map<Dim, R::V>, b: Map<Dim, R::V>) -> Map<Dim, R::V> {
    Map::new(
        |d: Dim|
            (a.contains_key(d) || b.contains_key(d)) && R::radd(coeff_of::<R>(a, d), coeff_of::<R>(b, d))
                != R::rzero(),
        |d: Dim| R::radd(coeff_of::<R>(a, d), coeff_of::<R>(b, d)),
    )
}

/// Pointwise negation of a sparse map.
pub open spec fn map_neg<R: Ring>(a: Map<Dim, R::V>) -> Map<Dim, R::V> {
    a.map_values(|v: R::V| R::rneg(v))
}

/// `k * a`, dropping zero products.
pub open spec fn map_scale<R: Ring>(k: R::V, a: Map<Dim, R::V>) -> Map<Dim, R::V> {
    Map::new(
        |d: Dim| a.contains_key(d) && R::rmul(k, a[d]) != R::rzero(),
        |d: Dim| R::rmul(k, a[d]),
    )
}

/// `m` with `c` added to its coefficient at `d` (the entry is dropped if the sum is zero).
pub open spec fn map_add_term<R: Ring>(m: Map<Dim, R::V>, d: Dim, c: R::V) -> Map<Dim, R::V> {
    let s = R::radd(coeff_of::<R>(m, d), c);
    if s == R::rzero() {
        m.remove(d)
    } else {
        m.insert(d, s)
    }
}

/// The terms `es[0 .. n]` added one after the other to the zero vector.
pub open spec fn add_terms<R: Ring>(es: Seq<(Dim, R)>, n: int) -> Map<Dim, R::V>
    decreases n,
{
    if n <= 0 {
        Map::empty()
    } else {
        map_add_term::<R>(add_terms::<R>(es, n - 1), es[n - 1].0, es[n - 1].1@)
    }
}

/// `m` with its coefficient at `d` replaced by `c` (the entry is dropped if `c` is zero).
pub open spec fn map_set<R: Ring>(m: Map<Dim, R::V>, d: Dim, c: R::V) -> Map<Dim, R::V> {
    if c == R::rzero() {
        m.remove(d)
    } else {
        m.insert(d, c)
    }
}

/// `d` is the smallest key of `m`.
pub open spec fn is_min_key<V>(m: Map<Dim, V>, d: Dim) -> bool {
    m.contains_key(d) && forall|k: Dim| #[trigger] m.contains_key(k) ==> d <= k
}

/// `d` is the largest key of `m`.
pub open spec fn is_max_key<V>(m: Map<Dim, V>, d: Dim) -> bool {
    m.contains_key(d) && forall|k: Dim| #[trigger] m.contains_key(k) ==> k <= d
}

/// Inner product `sum_d a[d] * b[d]`, accumulated in increasing order of the
/// keys of `a` (terms whose key is absent from `b` contribute zero).
pub open spec fn map_dot<R: Ring>(a: Map<Dim, R::V>, b: Map<Dim, R::V>) -> R::V
    decreases a.dom().len(),
{
    if a.dom().finite() && a.dom().len() > 0 {
        let d = choose|d: Dim| is_max_key(a, d);
        if is_max_key(a, d) {
            R::radd(map_dot::<R>(a.remove(d), b), R::rmul(a[d], coeff_of::<R>(b, d)))
        } else {
            R::rzero()
        }
    } else {
        R::rzero()
    }
}

/// Valid, nonzero values in a list.
pub open spec fn entries_ok<R: Ring>(s: Seq<(Dim, R)>) -> bool {
    forall|i: int| 0 <= i < s.len() ==> R::valid(#[trigger] s[i].1@) && s[i].1@ != R::rzero()
}

/// All keys of a list are below `bound`.
pub open spec fn keys_below<T>(s: Seq<(Dim, T)>, bound: int) -> bool {
    forall|i: int| 0 <= i < s.len() ==> #[trigger] s[i].0 < bound
}

pub proof fn lemma_view_index<R: View>(s: Seq<(Dim, R)>, i: int)
    requires
        sorted_keys(s),
        0 <= i < s.len(),
    ensures
        seq_view(s).contains_key(s[i].0),
        seq_view(s)[s[i].0] == s[i].1@,
{
    let d = s[i].0;
    assert(has_key(s, d));
    let j = choose|j: int| 0 <= j < s.len() && #[trigger] s[j].0 == d;
    if j < i {
        assert(s[j].0 < s[i].0);
    } else if i < j {
        assert(s[i].0 < s[j].0);
    }
}

pub proof fn lemma_view_finite<R: View>(s: Seq<(Dim, R)>)
    ensures
        seq_view(s).dom().finite(),
        seq_view(s).dom() == s.map_values(|e: (Dim, R)| e.0).to_set(),
{
    let keys = s.map_values(|e: (Dim, R)| e.0);
    assert forall|d: Dim| seq_view(s).dom().contains(d) <==> keys.to_set().contains(d) by {
        if seq_view(s).dom().contains(d) {
            let i = choose|i: int| 0 <= i < s.len() && #[trigger] s[i].0 == d;
            assert(keys[i] == d);
        }
        if keys.to_set().contains(d) {
            let i = choose|i: int| 0 <= i < keys.len() && keys[i] == d;
            assert(s[i].0 == d);
        }
    }
    assert(seq_view(s).dom() =~= keys.to_set());
    vstd::seq_lib::seq_to_set_is_finite(keys);
}

pub proof fn lemma_view_empty<R: View>(s: Seq<(Dim, R)>)
    requires
        s.len() == 0,
    ensures
        seq_view(s) == Map::<Dim, R::V>::empty(),
{
    assert(seq_view(s) =~= Map::<Dim, R::V>::empty());
}

/// Appending an entry whose key exceeds every key extends the map by one entry.
pub proof fn lemma_view_push<R: View>(s: Seq<(Dim, R)>, x: (Dim, R))
    requires
        sorted_keys(s),
        keys_below(s, x.0 as int),
    ensures
        sorted_keys(s.push(x)),
        seq_view(s.push(x)) == seq_view(s).insert(x.0, x.1@),
        !seq_view(s).contains_key(x.0),
{
    let t = s.push(x);
    assert(sorted_keys(t)) by {
        assert forall|i: int, j: int| 0 <= i < j < t.len() implies #[trigger] t[i].0 < #[trigger] t[j].0 by {
            if j == s.len() {
                assert(t[i] == s[i]);
            } else {
                assert(t[i] == s[i] && t[j] == s[j]);
            }
        }
    }
    assert forall|d: Dim| #[trigger] seq_view(t).contains_key(d) <==> seq_view(s).insert(x.0, x.1@).contains_key(d) by {
        if has_key(t, d) {
            let i = choose|i: int| 0 <= i < t.len() && #[trigger] t[i].0 == d;
            if i < s.len() {
                assert(s[i].0 == d);
            }
        }
        if has_key(s, d) {
            let i = choose|i: int| 0 <= i < s.len() && #[trigger] s[i].0 == d;
            assert(t[i].0 == d);
        }
        assert(t[s.len() as int].0 == x.0);
    }
    assert forall|d: Dim| #[trigger] seq_view(t).contains_key(d) implies seq_view(t)[d] == seq_view(s).insert(x.0, x.1@)[d] by {
        let i = choose|i: int| 0 <= i < t.len() && #[trigger] t[i].0 == d;
        lemma_view_index(t, i);
        if i < s.len() {
            assert(t[i] == s[i]);
            lemma_view_index(s, i);
        }
    }
    assert(seq_view(t) =~= seq_view(s).insert(x.0, x.1@));
    if has_key(s, x.0) {
        let i = choose|i: int| 0 <= i < s.len() && #[trigger] s[i].0 == x.0;
        assert(s[i].0 < x.0);
    }
}

/// A sorted list denotes the map `m` when its entries are exactly the entries of `m`.
pub proof fn lemma_view_char<R: View>(s: Seq<(Dim, R)>, m: Map<Dim, R::V>)
    requires
        sorted_keys(s),
        forall|i: int| 0 <= i < s.len() ==> #[trigger] m.contains_key(s[i].0) && m[s[i].0] == s[i].1@,
        forall|d: Dim| #[trigger] m.contains_key(d) ==> has_key(s, d),
    ensures
        seq_view(s) == m,
{
    assert forall|d: Dim| #[trigger] seq_view(s).contains_key(d) <==> m.contains_key(d) by {
        if has_key(s, d) {
            let i = choose|i: int| 0 <= i < s.len() && #[trigger] s[i].0 == d;
            assert(m.contains_key(s[i].0));
        }
    }
    assert forall|d: Dim| #[trigger] seq_view(s).contains_key(d) implies seq_view(s)[d] == m[d] by {
        let i = choose|i: int| 0 <= i < s.len() && #[trigger] s[i].0 == d;
        lemma_view_index(s, i);
        assert(m.contains_key(s[i].0));
    }
    assert(seq_view(s) =~= m);
}

/// Inserting an entry at its sorted position adds it to the map.
pub proof fn lemma_view_insert_at<R: View>(s: Seq<(Dim, R)>, pos: int, x: (Dim, R))
    requires
        sorted_keys(s),
        0 <= pos <= s.len(),
        forall|i: int| 0 <= i < pos ==> #[trigger] s[i].0 < x.0,
        forall|i: int| pos <= i < s.len() ==> #[trigger] s[i].0 > x.0,
    ensures
        sorted_keys(s.insert(pos, x)),
        seq_view(s.insert(pos, x)) == seq_view(s).insert(x.0, x.1@),
        !seq_view(s).contains_key(x.0),
{
    let t = s.insert(pos, x);
    assert forall|i: int, j: int| 0 <= i < j < t.len() implies #[trigger] t[i].0 < #[trigger] t[j].0 by {
        if i < pos && j < pos {
            assert(t[i] == s[i] && t[j] == s[j]);
        } else if i < pos && j == pos {
        } else if i < pos {
            assert(t[i] == s[i] && t[j] == s[j - 1]);
        } else if i == pos {
            assert(t[j] == s[j - 1]);
        } else {
            assert(t[i] == s[i - 1] && t[j] == s[j - 1]);
        }
    }
    if has_key(s, x.0) {
        let k = choose|k: int| 0 <= k < s.len() && #[trigger] s[k].0 == x.0;
        assert(k < pos || k >= pos);
    }
    let m = seq_view(s).insert(x.0, x.1@);
    assert forall|i: int| 0 <= i < t.len() implies #[trigger] m.contains_key(t[i].0) && m[t[i].0] == t[i].1@ by {
        if i < pos {
            assert(t[i] == s[i]);
            lemma_view_index(s, i);
        } else if i > pos {
            assert(t[i] == s[i - 1]);
            lemma_view_index(s, i - 1);
        }
    }
    assert forall|d: Dim| #[trigger] m.contains_key(d) implies has_key(t, d) by {
        if d == x.0 {
            assert(t[pos].0 == d);
        } else {
            let k = choose|k: int| 0 <= k < s.len() && #[trigger] s[k].0 == d;
            if k < pos {
                assert(t[k] == s[k]);
            } else {
                assert(t[k + 1] == s[k]);
            }
        }
    }
    lemma_view_char(t, m);
}

/// Removing the entry at `pos` removes its key from the map.
pub proof fn lemma_view_remove_at<R: View>(s: Seq<(Dim, R)>, pos: int)
    requires
        sorted_keys(s),
        0 <= pos < s.len(),
    ensures
        sorted_keys(s.remove(pos)),
        seq_view(s.remove(pos)) == seq_view(s).remove(s[pos].0),
{
    let t = s.remove(pos);
    assert forall|i: int, j: int| 0 <= i < j < t.len() implies #[trigger] t[i].0 < #[trigger] t[j].0 by {
        if j < pos {
            assert(t[i] == s[i] && t[j] == s[j]);
        } else if i < pos {
            assert(t[i] == s[i] && t[j] == s[j + 1]);
        } else {
            assert(t[i] == s[i + 1] && t[j] == s[j + 1]);
        }
    }
    let m = seq_view(s).remove(s[pos].0);
    assert forall|i: int| 0 <= i < t.len() implies #[trigger] m.contains_key(t[i].0) && m[t[i].0] == t[i].1@ by {
        if i < pos {
            assert(t[i] == s[i]);
            assert(s[i].0 < s[pos].0);
            lemma_view_index(s, i);
        } else {
            assert(t[i] == s[i + 1]);
            assert(s[pos].0 < s[i + 1].0);
            lemma_view_index(s, i + 1);
        }
    }
    assert forall|d: Dim| #[trigger] m.contains_key(d) implies has_key(t, d) by {
        let k = choose|k: int| 0 <= k < s.len() && #[trigger] s[k].0 == d;
        if k < pos {
            assert(t[k] == s[k]);
        } else {
            assert(k != pos);
            assert(t[k - 1] == s[k]);
        }
    }
    lemma_view_char(t, m);
}

/// Replacing the value at `pos` (same key) updates the map at that key.
pub proof fn lemma_view_update_at<R: View>(s: Seq<(Dim, R)>, pos: int, v: R)
    requires
        sorted_keys(s),
        0 <= pos < s.len(),
    ensures
        sorted_keys(s.update(pos, (s[pos].0, v))),
        seq_view(s.update(pos, (s[pos].0, v))) == seq_view(s).insert(s[pos].0, v@),
{
    let t = s.update(pos, (s[pos].0, v));
    assert forall|i: int, j: int| 0 <= i < j < t.len() implies #[trigger] t[i].0 < #[trigger] t[j].0 by {
        assert(t[i].0 == s[i].0 && t[j].0 == s[j].0);
    }
    let m = seq_view(s).insert(s[pos].0, v@);
    assert forall|i: int| 0 <= i < t.len() implies #[trigger] m.contains_key(t[i].0) && m[t[i].0] == t[i].1@ by {
        if i != pos {
            assert(t[i] == s[i]);
            if i < pos {
                assert(s[i].0 < s[pos].0);
            } else {
                assert(s[pos].0 < s[i].0);
            }
            lemma_view_index(s, i);
        }
    }
    assert forall|d: Dim| #[trigger] m.contains_key(d) implies has_key(t, d) by {
        if d == s[pos].0 {
            assert(t[pos].0 == d);
        } else {
            let k = choose|k: int| 0 <= k < s.len() && #[trigger] s[k].0 == d;
            assert(t[k].0 == d);
        }
    }
    lemma_view_char(t, m);
}

// ===========================================================================
// Vector
// ===========================================================================

/// A sparse vector with coefficients drawn from a ring, held as a list of
/// `(dimension, coefficient)` pairs sorted by dimension, with no zero
/// coefficient.
#[derive(Debug, PartialEq, Eq, Hash)]
pub struct Vector<R: Ring> {
    entries: Vec<(Dim, R)>,
}

impl<R: Ring> View for Vector<R> {
    type V = Map<Dim, R::V>;

    closed spec fn view(&self) -> Map<Dim, R::V> {
        seq_view(self.entries@)
    }
}

impl<R: Ring> Vector<R> {
    #[verifier::type_invariant]
    spec fn well_formed(self) -> bool {
        sorted_keys(self.entries@) && entries_ok(self.entries@)
    }

    /// The stored coefficients are valid and nonzero.
    pub fn lemma_sparse(&self)
        ensures
            is_sparse::<R>(self@),
    {
        proof {
            use_type_invariant(self);
            lemma_entries_sparse(self.entries@);
        }
    }

    /// The zero vector.
    pub fn zero() -> (r: Self)
        ensures
            r@ == Map::<Dim, R::V>::empty(),
    {
        let r = Vector { entries: Vec::new() };
        proof {
            lemma_view_empty(r.entries@);
        }
        r
    }

    /// A vector whose only nonzero entry is `coeff` at position `dim`.
    pub fn of_term(coeff: R, dim: Dim) -> (r: Self)
        ensures
            r@ == if coeff@ == R::rzero() {
                Map::<Dim, R::V>::empty()
            } else {
                Map::<Dim, R::V>::empty().insert(dim, coeff@)
            },
    {
        R::lemma_valid(&coeff);
        if R::is_zero(&coeff) {
            Self::zero()
        } else {
            let mut entries = Vec::new();
            proof {
                lemma_view_empty(entries@);
                lemma_view_push(entries@, (dim, coeff));
            }
            entries.push((dim, coeff));
            Vector { entries }
        }
    }

    /// Number of nonzero entries.
    pub fn len(&self) -> (r: usize)
        ensures
            r == self@.dom().len(),
    {
        proof {
            use_type_invariant(self);
            lemma_view_len(self.entries@);
        }
        self.entries.len()
    }

    /// True iff every entry is zero.
    pub fn is_zero(&self) -> (r: bool)
        ensures
            r == (self@ == Map::<Dim, R::V>::empty()),
    {
        proof {
            if self.entries@.len() > 0 {
                use_type_invariant(self);
                lemma_view_index(self.entries@, 0);
                assert(!(self@ =~= Map::<Dim, R::V>::empty()));
            } else {
                lemma_view_empty(self.entries@);
            }
        }
        self.entries.len() == 0
    }

    /// Alias for [`is_zero`](Self::is_zero); a sparse vector with no stored
    /// entries is exactly the zero vector.
    pub fn is_empty(&self) -> (r: bool)
        ensures
            r == (self@ == Map::<Dim, R::V>::empty()),
    {
        self.is_zero()
    }

    /// Position of `dim` in the entry list, or where it would be inserted.
    fn find(&self, dim: Dim) -> (r: (usize, bool))
        ensures
            r.0 <= self.entries@.len(),
            r.1 ==> r.0 < self.entries@.len() && self.entries@[r.0 as int].0 == dim,
            forall|i: int| 0 <= i < r.0 ==> #[trigger] self.entries@[i].0 < dim,
            !r.1 ==> forall|i: int| r.0 <= i < self.entries@.len() ==> #[trigger] self.entries@[i].0 > dim,
    {
        proof {
            use_type_invariant(self);
        }
        let mut i: usize = 0;
        while i < self.entries.len()
            invariant
                i <= self.entries@.len(),
                sorted_keys(self.entries@),
                forall|k: int| 0 <= k < i ==> #[trigger] self.entries@[k].0 < dim,
            decreases self.entries@.len() - i,
        {
            let d = self.entries[i].0;
            if d == dim {
                return (i, true);
            }
            if d > dim {
                proof {
                    assert forall|k: int| i <= k < self.entries@.len() implies #[trigger] self.entries@[k].0 > dim by {
                        if k > i {
                            assert(self.entries@[i as int].0 < self.entries@[k].0);
                        }
                    }
                }
                return (i, false);
            }
            i = i + 1;
        }
        (i, false)
    }

    /// Coefficient at `dim` (zero if no entry is stored there).
    pub fn coeff(&self, dim: Dim) -> (r: R)
        ensures
            r@ == coeff_of::<R>(self@, dim),
    {
        proof {
            use_type_invariant(self);
        }
        let (i, found) = self.find(dim);
        if found {
            proof {
                lemma_view_index(self.entries@, i as int);
            }
            R::copy(&self.entries[i].1)
        } else {
            proof {
                if has_key(self.entries@, dim) {
                    let k = choose|k: int| 0 <= k < self.entries@.len() && #[trigger] self.entries@[k].0 == dim;
                    assert(k < i || k >= i);
                }
            }
            R::zero()
        }
    }
}

impl<R: Ring> Vector<R> {
    /// The sum of the terms `(dim, coeff)` of `entries`, added one after the
    /// other with [`Vector::add_term`].
    pub fn from_entries(entries: Vec<(Dim, R)>) -> (r: Self)
        ensures
            r@ == add_terms::<R>(entries@, entries@.len() as int),
    {
        let mut v = Self::zero();
        let mut k: usize = 0;
        while k < entries.len()
            invariant
                k <= entries@.len(),
                v@ == add_terms::<R>(entries@, k as int),
            decreases entries@.len() - k,
        {
            let d = entries[k].0;
            let c = R::copy(&entries[k].1);
            v = v.add_term(c, d);
            k = k + 1;
        }
        v
    }

    /// Add `coeff` to the entry at position `dim`.
    pub fn add_term(self, coeff: R, dim: Dim) -> (r: Self)
        ensures
            r@ == map_add_term::<R>(self@, dim, coeff@),
    {
        R::lemma_valid(&coeff);
        proof {
            use_type_invariant(&self);
            lemma_entries_sparse(self.entries@);
            R::lemma_valid_units();
            R::lemma_ring_axioms(coeff_of::<R>(self@, dim), coeff@, coeff@);
            R::lemma_ring_axioms(coeff@, R::rzero(), R::rzero());
        }
        if R::is_zero(&coeff) {
            proof {
                if !self@.contains_key(dim) {
                    assert(self@.remove(dim) =~= self@);
                } else {
                    assert(self@.insert(dim, self@[dim]) =~= self@);
                }
            }
            return self;
        }
        let (i, found) = self.find(dim);
        let Vector { entries: mut e } = self;
        if found {
            proof {
                lemma_view_index(e@, i as int);
                R::lemma_valid_closed(e@[i as int].1@, coeff@);
            }
            let new = R::add(&e[i].1, &coeff);
            if R::is_zero(&new) {
                proof {
                    lemma_view_remove_at(e@, i as int);
                }
                e.remove(i);
            } else {
                proof {
                    lemma_view_update_at(e@, i as int, new);
                }
                e.set(i, (dim, new));
            }
        } else {
            proof {
                lemma_view_insert_at(e@, i as int, (dim, coeff));
                assert(!seq_view(e@).contains_key(dim));
            }
            e.insert(i, (dim, coeff));
        }
        proof {
            assert(entries_ok(e@));
        }
        Vector { entries: e }
    }

    /// Replace the entry at `dim` with `coeff` (or remove it if zero).
    pub fn set(self, dim: Dim, coeff: R) -> (r: Self)
        ensures
            r@ == map_set::<R>(self@, dim, coeff@),
    {
        R::lemma_valid(&coeff);
        proof {
            use_type_invariant(&self);
        }
        let (i, found) = self.find(dim);
        let Vector { entries: mut e } = self;
        if R::is_zero(&coeff) {
            if found {
                proof {
                    lemma_view_remove_at(e@, i as int);
                }
                e.remove(i);
            } else {
                proof {
                    if has_key(e@, dim) {
                        let k = choose|k: int| 0 <= k < e@.len() && #[trigger] e@[k].0 == dim;
                        assert(k < i || k >= i);
                    }
                    assert(seq_view(e@).remove(dim) =~= seq_view(e@));
                }
            }
        } else if found {
            proof {
                lemma_view_update_at(e@, i as int, coeff);
            }
            e.set(i, (dim, coeff));
        } else {
            proof {
                lemma_view_insert_at(e@, i as int, (dim, coeff));
            }
            e.insert(i, (dim, coeff));
        }
        Vector { entries: e }
    }

    /// Remove the entry at `dim`. Returns the coefficient that was there
    /// (zero if none) and the vector with that position cleared.
    pub fn pivot(self, dim: Dim) -> (r: (R, Self))
        ensures
            r.0@ == coeff_of::<R>(self@, dim),
            r.1@ == self@.remove(dim),
    {
        proof {
            use_type_invariant(&self);
        }
        let (i, found) = self.find(dim);
        let Vector { entries: mut e } = self;
        if found {
            proof {
                lemma_view_index(e@, i as int);
                lemma_view_remove_at(e@, i as int);
            }
            let (_, v) = e.remove(i);
            (v, Vector { entries: e })
        } else {
            proof {
                if has_key(e@, dim) {
                    let k = choose|k: int| 0 <= k < e@.len() && #[trigger] e@[k].0 == dim;
                    assert(k < i || k >= i);
                }
                assert(seq_view(e@).remove(dim) =~= seq_view(e@));
            }
            (R::zero(), Vector { entries: e })
        }
    }

    /// Remove the smallest-dim entry. Returns `Err(self)` if `self` is zero.
    pub fn pop_min(self) -> (r: Result<((Dim, R), Self), Self>)
        ensures
            match r {
                Ok(((d, c), rest)) => is_min_key(self@, d) && self@[d] == c@ && rest@ == self@.remove(d),
                Err(z) => self@ == Map::<Dim, R::V>::empty() && z@ == self@,
            },
    {
        proof {
            use_type_invariant(&self);
        }
        if self.entries.len() == 0 {
            proof {
                lemma_view_empty(self.entries@);
            }
            return Err(self);
        }
        let Vector { entries: mut e } = self;
        proof {
            lemma_view_index(e@, 0);
            lemma_min_first(e@);
            lemma_view_remove_at(e@, 0);
        }
        let (d, c) = e.remove(0);
        Ok(((d, c), Vector { entries: e }))
    }

    /// The smallest-dim nonzero entry, or `None` if the vector is zero.
    pub fn min_support(&self) -> (r: Option<(Dim, R)>)
        ensures
            match r {
                Some((d, c)) => is_min_key(self@, d) && self@[d] == c@,
                None => self@ == Map::<Dim, R::V>::empty(),
            },
    {
        proof {
            use_type_invariant(self);
        }
        if self.entries.len() == 0 {
            proof {
                lemma_view_empty(self.entries@);
            }
            None
        } else {
            proof {
                lemma_view_index(self.entries@, 0);
                lemma_min_first(self.entries@);
            }
            Some((self.entries[0].0, R::copy(&self.entries[0].1)))
        }
    }

    /// The nonzero entries `(dim, coeff)`, in ascending `dim` order.
    pub fn iter(&self) -> (r: Vec<(Dim, R)>)
        ensures
            sorted_keys(r@),
            seq_view(r@) == self@,
    {
        proof {
            use_type_invariant(self);
        }
        let mut out: Vec<(Dim, R)> = Vec::new();
        let mut i: usize = 0;
        while i < self.entries.len()
            invariant
                i <= self.entries@.len(),
                sorted_keys(self.entries@),
                out@.len() == i,
                forall|k: int| 0 <= k < i ==> #[trigger] out@[k].0 == self.entries@[k].0 && out@[k].1@ == self.entries@[k].1@,
            decreases self.entries@.len() - i,
        {
            let c = R::copy(&self.entries[i].1);
            let ghost old_out = out@;
            out.push((self.entries[i].0, c));
            proof {
                assert forall|k: int| 0 <= k < i + 1 implies #[trigger] out@[k].0 == self.entries@[k].0
                    && out@[k].1@ == self.entries@[k].1@ by {
                    if k < i {
                        assert(out@[k] == old_out[k]);
                    }
                }
            }
            i = i + 1;
        }
        proof {
            lemma_same_keys_view(out@, self.entries@);
        }
        out
    }
}

impl<R: Ring> Clone for Vector<R> {
    fn clone(&self) -> (r: Self)
        ensures
            r@ == self@,
    {
        proof {
            use_type_invariant(self);
        }
        let out = self.iter();
        proof {
            assert forall|i: int| 0 <= i < out@.len() implies R::valid(#[trigger] out@[i].1@) && out@[i].1@ != R::rzero() by {
                lemma_view_index(out@, i);
                lemma_entries_sparse(self.entries@);
            }
        }
        Vector { entries: out }
    }
}

impl<R: Ring> Vector<R> {
    /// `-self`.
    pub fn negate(&self) -> (r: Self)
        ensures
            r@ == map_neg::<R>(self@),
    {
        proof {
            use_type_invariant(self);
        }
        let mut out: Vec<(Dim, R)> = Vec::new();
        let mut i: usize = 0;
        while i < self.entries.len()
            invariant
                i <= self.entries@.len(),
                sorted_keys(self.entries@),
                entries_ok(self.entries@),
                out@.len() == i,
                forall|k: int| 0 <= k < i ==> #[trigger] out@[k].0 == self.entries@[k].0
                    && out@[k].1@ == R::rneg(self.entries@[k].1@),
            decreases self.entries@.len() - i,
        {
            proof {
                R::lemma_valid_closed(self.entries@[i as int].1@, self.entries@[i as int].1@);
            }
            let c = R::negate(&self.entries[i].1);
            let ghost old_out = out@;
            out.push((self.entries[i].0, c));
            proof {
                assert forall|k: int| 0 <= k < i + 1 implies #[trigger] out@[k].0 == self.entries@[k].0
                    && out@[k].1@ == R::rneg(self.entries@[k].1@) by {
                    if k < i {
                        assert(out@[k] == old_out[k]);
                    }
                }
            }
            i = i + 1;
        }
        proof {
            let m = map_neg::<R>(self@);
            assert forall|k: int, l: int| 0 <= k < l < out@.len() implies #[trigger] out@[k].0 < #[trigger] out@[l].0 by {
                assert(self.entries@[k].0 < self.entries@[l].0);
            }
            assert forall|k: int| 0 <= k < out@.len() implies #[trigger] m.contains_key(out@[k].0)
                && m[out@[k].0] == out@[k].1@ by {
                lemma_view_index(self.entries@, k);
            }
            assert forall|d: Dim| #[trigger] m.contains_key(d) implies has_key(out@, d) by {
                let k = choose|k: int| 0 <= k < self.entries@.len() && #[trigger] self.entries@[k].0 == d;
                assert(out@[k].0 == d);
            }
            lemma_view_char(out@, m);
            assert forall|k: int| 0 <= k < out@.len() implies R::valid(#[trigger] out@[k].1@) && out@[k].1@ != R::rzero() by {
                assert(out@[k].0 == self.entries@[k].0);
                let v = self.entries@[k].1@;
                assert(R::valid(v) && v != R::rzero());
                R::lemma_valid_closed(v, v);
                R::lemma_ring_axioms(v, v, v);
            }
        }
        Vector { entries: out }
    }

    /// `self - other`.
    pub fn sub(&self, other: &Self) -> (r: Self)
        ensures
            r@ == map_add::<R>(self@, map_neg::<R>(other@)),
    {
        let n = other.negate();
        self.add(&n)
    }

    /// `k * self`.
    pub fn scalar_mul(&self, k: &R) -> (r: Self)
        ensures
            r@ == map_scale::<R>(k@, self@),
    {
        R::lemma_valid(k);
        proof {
            use_type_invariant(self);
            lemma_entries_sparse(self.entries@);
            R::lemma_valid_units();
        }
        if R::is_zero(k) {
            proof {
                assert forall|d: Dim| #[trigger] self@.contains_key(d) implies R::rmul(k@, self@[d]) == R::rzero() by {
                    R::lemma_ring_axioms(self@[d], self@[d], self@[d]);
                }
                assert(map_scale::<R>(k@, self@) =~= Map::<Dim, R::V>::empty());
            }
            return Self::zero();
        }
        let one = R::one();
        if R::equal(k, &one) {
            proof {
                assert forall|d: Dim| #[trigger] self@.contains_key(d) implies R::rmul(k@, self@[d]) == self@[d] by {
                    R::lemma_ring_axioms(self@[d], self@[d], self@[d]);
                }
                assert(map_scale::<R>(k@, self@) =~= self@);
            }
            return self.clone();
        }
        let mut out: Vec<(Dim, R)> = Vec::new();
        let mut i: usize = 0;
        proof {
            lemma_view_empty(out@);
            lemma_view_empty(self.entries@.subrange(0, 0));
            assert(map_scale::<R>(k@, Map::<Dim, R::V>::empty()) =~= Map::<Dim, R::V>::empty());
        }
        while i < self.entries.len()
            invariant
                i <= self.entries@.len(),
                R::valid(k@),
                sorted_keys(self.entries@),
                entries_ok(self.entries@),
                sorted_keys(out@),
                entries_ok(out@),
                i < self.entries@.len() ==> keys_below(out@, self.entries@[i as int].0 as int),
                seq_view(out@) == map_scale::<R>(k@, seq_view(self.entries@.subrange(0, i as int))),
            decreases self.entries@.len() - i,
        {
            let ghost pre = self.entries@.subrange(0, i as int);
            proof {
                lemma_prefix_push(self.entries@, i as int);
                R::lemma_valid_closed(k@, self.entries@[i as int].1@);
            }
            let prod = R::mul(k, &self.entries[i].1);
            let d = self.entries[i].0;
            let ghost v = self.entries@[i as int].1@;
            if !R::is_zero(&prod) {
                proof {
                    lemma_view_push(out@, (d, prod));
                    assert(map_scale::<R>(k@, seq_view(pre).insert(d, v)) =~= map_scale::<R>(k@, seq_view(pre)).insert(d, prod@));
                }
                out.push((d, prod));
            } else {
                proof {
                    assert(map_scale::<R>(k@, seq_view(pre).insert(d, v)) =~= map_scale::<R>(k@, seq_view(pre)));
                }
            }
            proof {
                if i + 1 < self.entries@.len() {
                    assert(self.entries@[i as int].0 < self.entries@[i + 1].0);
                }
            }
            i = i + 1;
        }
        proof {
            assert(self.entries@.subrange(0, self.entries@.len() as int) == self.entries@);
        }
        Vector { entries: out }
    }

    /// Inner product `sum_i self_i * other_i`.
    pub fn dot(&self, other: &Self) -> (r: R)
        ensures
            r@ == map_dot::<R>(self@, other@),
            R::valid(r@),
    {
        proof {
            use_type_invariant(self);
            use_type_invariant(other);
            lemma_entries_sparse(other.entries@);
            R::lemma_valid_units();
            lemma_view_empty(self.entries@.subrange(0, 0));
            assert(Map::<Dim, R::V>::empty().dom().len() == 0);
        }
        let mut acc = R::zero();
        let mut i: usize = 0;
        while i < self.entries.len()
            invariant
                i <= self.entries@.len(),
                sorted_keys(self.entries@),
                entries_ok(self.entries@),
                sorted_keys(other.entries@),
                entries_ok(other.entries@),
                is_sparse::<R>(other@),
                R::valid(acc@),
                acc@ == map_dot::<R>(seq_view(self.entries@.subrange(0, i as int)), other@),
            decreases self.entries@.len() - i,
        {
            let ghost pre = self.entries@.subrange(0, i as int);
            let d = self.entries[i].0;
            let ghost v = self.entries@[i as int].1@;
            proof {
                assert(R::valid(v));
                lemma_prefix_push(self.entries@, i as int);
                lemma_view_finite(pre);
                lemma_dot_step::<R>(seq_view(pre), d, v, other@);
                if other@.contains_key(d) {
                    assert(R::valid(other@[d]));
                } else {
                    R::lemma_valid_units();
                }
                R::lemma_valid_closed(v, coeff_of::<R>(other@, d));
                R::lemma_valid_closed(acc@, R::rmul(v, coeff_of::<R>(other@, d)));
            }
            let (pos, found) = other.find(d);
            if found {
                proof {
                    lemma_view_index(other.entries@, pos as int);
                }
                let w = &other.entries[pos].1;
                let prod = R::mul(&self.entries[i].1, w);
                acc = R::add(&acc, &prod);
            } else {
                proof {
                    if has_key(other.entries@, d) {
                        let k = choose|k: int| 0 <= k < other.entries@.len() && #[trigger] other.entries@[k].0 == d;
                        assert(k < pos || k >= pos);
                    }
                    R::lemma_ring_axioms(v, v, v);
                    R::lemma_ring_axioms(acc@, acc@, acc@);
                }
            }
            i = i + 1;
        }
        proof {
            assert(self.entries@.subrange(0, self.entries@.len() as int) == self.entries@);
        }
        acc
    }

    /// `self + other`.
    pub fn add(&self, other: &Self) -> (r: Self)
        ensures
            r@ == map_add::<R>(self@, other@),
    {
        proof {
            use_type_invariant(self);
            use_type_invariant(other);
        }
        let a = &self.entries;
        let b = &other.entries;
        let mut out: Vec<(Dim, R)> = Vec::new();
        let mut i: usize = 0;
        let mut j: usize = 0;
        proof {
            lemma_view_empty(out@);
            lemma_view_empty(a@.subrange(0, 0));
            lemma_view_empty(b@.subrange(0, 0));
            assert(map_add::<R>(Map::<Dim, R::V>::empty(), Map::<Dim, R::V>::empty()) =~= Map::<Dim, R::V>::empty());
        }
        while i < a.len() || j < b.len()
            invariant
                i <= a@.len(),
                j <= b@.len(),
                sorted_keys(a@),
                sorted_keys(b@),
                entries_ok(a@),
                entries_ok(b@),
                sorted_keys(out@),
                entries_ok(out@),
                keys_below(out@, head(a@, i as int)),
                keys_below(out@, head(b@, j as int)),
                keys_below(a@.subrange(0, i as int), head(b@, j as int)),
                keys_below(b@.subrange(0, j as int), head(a@, i as int)),
                seq_view(out@) == map_add::<R>(seq_view(a@.subrange(0, i as int)), seq_view(b@.subrange(0, j as int))),
            decreases a@.len() - i + b@.len() - j,
        {
            let ghost pa = a@.subrange(0, i as int);
            let ghost pb = b@.subrange(0, j as int);
            proof {
                lemma_entries_sparse(pa);
                lemma_entries_sparse(pb);
                lemma_sorted_sub(a@, i as int);
                lemma_sorted_sub(b@, j as int);
            }
            if j >= b.len() || (i < a.len() && a[i].0 < b[j].0) {
                let d = a[i].0;
                let c = R::copy(&a[i].1);
                proof {
                    lemma_prefix_push(a@, i as int);
                    lemma_key_absent(pb, d as int);
                    lemma_view_push(out@, (d, c));
                    lemma_map_add_insert_left::<R>(seq_view(pa), seq_view(pb), d, c@);
                    lemma_head_next(a@, i as int);
                }
                out.push((d, c));
                i = i + 1;
            } else if i >= a.len() || b[j].0 < a[i].0 {
                let d = b[j].0;
                let c = R::copy(&b[j].1);
                proof {
                    lemma_prefix_push(b@, j as int);
                    lemma_key_absent(pa, d as int);
                    lemma_view_push(out@, (d, c));
                    lemma_map_add_insert_right::<R>(seq_view(pa), seq_view(pb), d, c@);
                    lemma_head_next(b@, j as int);
                }
                out.push((d, c));
                j = j + 1;
            } else {
                let d = a[i].0;
                proof {
                    lemma_prefix_push(a@, i as int);
                    lemma_prefix_push(b@, j as int);
                    lemma_key_absent(pa, d as int);
                    lemma_key_absent(pb, d as int);
                    lemma_map_add_insert_both::<R>(seq_view(pa), seq_view(pb), d, a@[i as int].1@, b@[j as int].1@);
                    lemma_head_next(a@, i as int);
                    lemma_head_next(b@, j as int);
                }
                proof {
                    R::lemma_valid_closed(a@[i as int].1@, b@[j as int].1@);
                }
                let sum = R::add(&a[i].1, &b[j].1);
                if !R::is_zero(&sum) {
                    proof {
                        lemma_view_push(out@, (d, sum));
                    }
                    out.push((d, sum));
                }
                i = i + 1;
                j = j + 1;
            }
        }
        proof {
            assert(a@.subrange(0, a@.len() as int) == a@);
            assert(b@.subrange(0, b@.len() as int) == b@);
        }
        Vector { entries: out }
    }
}

/// `f` can turn the coefficient `c` at `d` into `v`: some call of `f` on `d`
/// and an element denoting `c` returns an element denoting `v`.
pub open spec fn map_entry<R: Ring, F: Fn(Dim, R) -> R>(f: F, d: Dim, c: R::V, v: R::V) -> bool {
    exists|x: R, y: R| x@ == c && #[trigger] f.ensures((d, x), y) && y@ == v
}

/// `f` can combine the coefficients `ca` and `cb` at `d` into `v`.
pub open spec fn merge_entry<R: Ring, F: Fn(Dim, R, R) -> R>(f: F, d: Dim, ca: R::V, cb: R::V, v: R::V) -> bool {
    exists|x: R, y: R, z: R| x@ == ca && y@ == cb && #[trigger] f.ensures((d, x, y), z) && z@ == v
}

impl<R: Ring> Vector<R> {
    /// Apply `f` to each nonzero entry, dropping entries that become zero.
    pub fn map<F: Fn(Dim, R) -> R>(self, f: F) -> (r: Self)
        requires
            forall|d: Dim, x: R| #[trigger] f.requires((d, x)),
        ensures
            forall|d: Dim| #[trigger] r@.contains_key(d) ==> self@.contains_key(d) && map_entry(f, d, self@[d], r@[d]),
            forall|d: Dim| #[trigger] self@.contains_key(d) && !r@.contains_key(d) ==> map_entry(f, d, self@[d], R::rzero()),
    {
        proof {
            use_type_invariant(&self);
            lemma_view_empty(Seq::<(Dim, R)>::empty());
        }
        let mut out: Vec<(Dim, R)> = Vec::new();
        let mut k: usize = 0;
        while k < self.entries.len()
            invariant
                k <= self.entries@.len(),
                sorted_keys(self.entries@),
                seq_view(self.entries@) == self@,
                forall|d: Dim, x: R| #[trigger] f.requires((d, x)),
                sorted_keys(out@),
                entries_ok(out@),
                keys_below(out@, head(self.entries@, k as int)),
                forall|d: Dim| #[trigger] seq_view(out@).contains_key(d) ==> self@.contains_key(d) && map_entry(f, d, self@[d], seq_view(out@)[d]),
                forall|d: Dim| #[trigger] self@.contains_key(d) && d < head(self.entries@, k as int) && !seq_view(out@).contains_key(d)
                    ==> map_entry(f, d, self@[d], R::rzero()),
            decreases self.entries@.len() - k,
        {
            let d = self.entries[k].0;
            let x = R::copy(&self.entries[k].1);
            proof {
                lemma_view_index(self.entries@, k as int);
                lemma_head_next(self.entries@, k as int);
            }
            let ghost gx = x;
            let y = f(d, x);
            R::lemma_valid(&y);
            proof {
                assert(gx@ == self@[d] && f.ensures((d, gx), y) && y@ == y@);
                lemma_key_absent(out@, d as int);
            }
            let ghost old_out = out@;
            if !R::is_zero(&y) {
                proof {
                    lemma_view_push(out@, (d, y));
                }
                out.push((d, y));
                proof {
                    assert forall|t: int| 0 <= t < out@.len() implies R::valid(#[trigger] out@[t].1@) && out@[t].1@ != R::rzero() by {
                        if t < old_out.len() {
                            assert(out@[t] == old_out[t]);
                        }
                    }
                    assert forall|t: int| 0 <= t < out@.len() implies #[trigger] out@[t].0 < head(self.entries@, k + 1) by {
                        if t < old_out.len() {
                            assert(out@[t] == old_out[t]);
                        }
                    }
                }
            } else {
                proof {
                    assert forall|t: int| 0 <= t < out@.len() implies #[trigger] out@[t].0 < head(self.entries@, k + 1) by {
                    }
                }
            }
            proof {
                assert forall|e: Dim| #[trigger] self@.contains_key(e) && e < head(self.entries@, k + 1) && !seq_view(out@).contains_key(e)
                    implies map_entry(f, e, self@[e], R::rzero()) by {
                    if e >= d {
                        let u = choose|u: int| 0 <= u < self.entries@.len() && #[trigger] self.entries@[u].0 == e;
                        if u > k {
                            assert(self.entries@[k + 1].0 <= self.entries@[u].0);
                        }
                        if u < k {
                            assert(self.entries@[u].0 < self.entries@[k as int].0);
                        }
                        assert(e == d);
                    }
                }
                assert forall|e: Dim| #[trigger] seq_view(out@).contains_key(e) implies self@.contains_key(e) && map_entry(f, e, self@[e], seq_view(out@)[e]) by {
                    if e != d || y@ == R::rzero() {
                        assert(seq_view(old_out).contains_key(e));
                        assert(seq_view(out@)[e] == seq_view(old_out)[e]);
                    }
                }
            }
            k = k + 1;
        }
        proof {
            assert forall|d: Dim| #[trigger] self@.contains_key(d) implies d < head(self.entries@, k as int) by {
            }
        }
        Vector { entries: out }
    }

    /// Pointwise binary operation, treating missing entries as zero on either
    /// side. Entries that become zero are dropped.
    pub fn merge<F: Fn(Dim, R, R) -> R>(self, other: Self, f: F) -> (r: Self)
        requires
            forall|d: Dim, x: R, y: R| #[trigger] f.requires((d, x, y)),
        ensures
            forall|d: Dim| #[trigger] r@.contains_key(d) ==> (self@.contains_key(d) || other@.contains_key(d)) && merge_entry(
                f,
                d,
                coeff_of::<R>(self@, d),
                coeff_of::<R>(other@, d),
                r@[d],
            ),
            forall|d: Dim| (self@.contains_key(d) || other@.contains_key(d)) && !(#[trigger] r@.contains_key(d)) ==> merge_entry(
                f,
                d,
                coeff_of::<R>(self@, d),
                coeff_of::<R>(other@, d),
                R::rzero(),
            ),
    {
        proof {
            use_type_invariant(&self);
            use_type_invariant(&other);
        }
        let a = &self.entries;
        let b = &other.entries;
        let mut out: Vec<(Dim, R)> = Vec::new();
        let mut i: usize = 0;
        let mut j: usize = 0;
        proof {
            lemma_view_empty(out@);
            lemma_view_empty(a@.subrange(0, 0));
            lemma_view_empty(b@.subrange(0, 0));
        }
        while i < a.len() || j < b.len()
            invariant
                i <= a@.len(),
                j <= b@.len(),
                sorted_keys(a@),
                sorted_keys(b@),
                entries_ok(a@),
                entries_ok(b@),
                forall|d: Dim, x: R, y: R| #[trigger] f.requires((d, x, y)),
                sorted_keys(out@),
                entries_ok(out@),
                keys_below(out@, head(a@, i as int)),
                keys_below(out@, head(b@, j as int)),
                keys_below(a@.subrange(0, i as int), head(b@, j as int)),
                keys_below(b@.subrange(0, j as int), head(a@, i as int)),
                forall|d: Dim| #[trigger] seq_view(out@).contains_key(d) ==> (seq_view(a@.subrange(0, i as int)).contains_key(d)
                    || seq_view(b@.subrange(0, j as int)).contains_key(d)) && merge_entry(
                    f,
                    d,
                    coeff_of::<R>(seq_view(a@.subrange(0, i as int)), d),
                    coeff_of::<R>(seq_view(b@.subrange(0, j as int)), d),
                    seq_view(out@)[d],
                ),
                forall|d: Dim| (seq_view(a@.subrange(0, i as int)).contains_key(d) || seq_view(b@.subrange(0, j as int)).contains_key(d))
                    && !(#[trigger] seq_view(out@).contains_key(d)) ==> merge_entry(
                    f,
                    d,
                    coeff_of::<R>(seq_view(a@.subrange(0, i as int)), d),
                    coeff_of::<R>(seq_view(b@.subrange(0, j as int)), d),
                    R::rzero(),
                ),
            decreases a@.len() - i + b@.len() - j,
        {
            let ghost pa = a@.subrange(0, i as int);
            let ghost pb = b@.subrange(0, j as int);
            proof {
                lemma_sorted_sub(a@, i as int);
                lemma_sorted_sub(b@, j as int);
                R::lemma_valid_units();
            }
            let d: Dim;
            let x: R;
            let y: R;
            let ghost na: Seq<(Dim, R)>;
            let ghost nb: Seq<(Dim, R)>;
            if j >= b.len() || (i < a.len() && a[i].0 < b[j].0) {
                d = a[i].0;
                x = R::copy(&a[i].1);
                y = R::zero();
                proof {
                    lemma_prefix_push(a@, i as int);
                    lemma_key_absent(pb, d as int);
                    lemma_head_next(a@, i as int);
                    na = a@.subrange(0, i + 1);
                    nb = pb;
                }
                i = i + 1;
            } else if i >= a.len() || b[j].0 < a[i].0 {
                d = b[j].0;
                x = R::zero();
                y = R::copy(&b[j].1);
                proof {
                    lemma_prefix_push(b@, j as int);
                    lemma_key_absent(pa, d as int);
                    lemma_head_next(b@, j as int);
                    na = pa;
                    nb = b@.subrange(0, j + 1);
                }
                j = j + 1;
            } else {
                d = a[i].0;
                x = R::copy(&a[i].1);
                y = R::copy(&b[j].1);
                proof {
                    lemma_prefix_push(a@, i as int);
                    lemma_prefix_push(b@, j as int);
                    lemma_head_next(a@, i as int);
                    lemma_head_next(b@, j as int);
                    na = a@.subrange(0, i + 1);
                    nb = b@.subrange(0, j + 1);
                }
                i = i + 1;
                j = j + 1;
            }
            proof {
                lemma_key_absent(pa, d as int);
                lemma_key_absent(pb, d as int);
                lemma_key_absent(out@, d as int);
                assert(na == a@.subrange(0, i as int));
                assert(nb == b@.subrange(0, j as int));
                assert(coeff_of::<R>(seq_view(na), d) == x@);
                assert(coeff_of::<R>(seq_view(nb), d) == y@);
                assert(seq_view(na).contains_key(d) || seq_view(nb).contains_key(d));
                assert forall|e: Dim| e != d implies #[trigger] seq_view(na).contains_key(e) == seq_view(pa).contains_key(e)
                    && coeff_of::<R>(seq_view(na), e) == coeff_of::<R>(seq_view(pa), e) && seq_view(nb).contains_key(e)
                    == seq_view(pb).contains_key(e) && coeff_of::<R>(seq_view(nb), e) == coeff_of::<R>(seq_view(pb), e) by {
                }
            }
            let ghost gx = x;
            let ghost gy = y;
            let z = f(d, x, y);
            R::lemma_valid(&z);
            proof {
                assert(gx@ == coeff_of::<R>(seq_view(na), d) && gy@ == coeff_of::<R>(seq_view(nb), d) && f.ensures((d, gx, gy), z)
                    && z@ == z@);
            }
            let ghost old_out = out@;
            if !R::is_zero(&z) {
                proof {
                    lemma_view_push(out@, (d, z));
                }
                out.push((d, z));
                proof {
                    assert forall|t: int| 0 <= t < out@.len() implies R::valid(#[trigger] out@[t].1@) && out@[t].1@ != R::rzero() by {
                        if t < old_out.len() {
                            assert(out@[t] == old_out[t]);
                        }
                    }
                }
            }
            proof {
                assert forall|t: int| 0 <= t < out@.len() implies #[trigger] out@[t].0 < head(a@, i as int) && out@[t].0 < head(b@, j as int) by {
                    if t < old_out.len() {
                        assert(out@[t] == old_out[t]);
                    }
                }
                assert forall|e: Dim| #[trigger] seq_view(out@).contains_key(e) implies (seq_view(na).contains_key(e)
                    || seq_view(nb).contains_key(e)) && merge_entry(
                    f,
                    e,
                    coeff_of::<R>(seq_view(na), e),
                    coeff_of::<R>(seq_view(nb), e),
                    seq_view(out@)[e],
                ) by {
                    if e != d || z@ == R::rzero() {
                        assert(seq_view(old_out).contains_key(e));
                        assert(seq_view(out@)[e] == seq_view(old_out)[e]);
                    }
                }
                assert forall|e: Dim| (seq_view(na).contains_key(e) || seq_view(nb).contains_key(e))
                    && !(#[trigger] seq_view(out@).contains_key(e)) implies merge_entry(
                    f,
                    e,
                    coeff_of::<R>(seq_view(na), e),
                    coeff_of::<R>(seq_view(nb), e),
                    R::rzero(),
                ) by {
                    if e != d {
                        assert(!seq_view(old_out).contains_key(e));
                    }
                }
            }
        }
        proof {
            assert(a@.subrange(0, a@.len() as int) == a@);
            assert(b@.subrange(0, b@.len() as int) == b@);
        }
        Vector { entries: out }
    }
}

impl<R: Ring> Vector<R> {
    /// Do the two vectors hold the same coefficients?
    pub fn equal(&self, other: &Self) -> (r: bool)
        ensures
            r == (self@ == other@),
    {
        proof {
            use_type_invariant(self);
            use_type_invariant(other);
            lemma_entries_sparse(self.entries@);
            lemma_entries_sparse(other.entries@);
        }
        let a = &self.entries;
        let b = &other.entries;
        if a.len() != b.len() {
            proof {
                lemma_view_len(a@);
                lemma_view_len(b@);
            }
            return false;
        }
        let mut k: usize = 0;
        while k < a.len()
            invariant
                k <= a@.len(),
                a@.len() == b@.len(),
                a == &self.entries,
                b == &other.entries,
                sorted_keys(a@),
                sorted_keys(b@),
                entries_ok(a@),
                entries_ok(b@),
                forall|t: int| 0 <= t < k ==> #[trigger] a@[t].0 == b@[t].0 && a@[t].1@ == b@[t].1@,
            decreases a@.len() - k,
        {
            proof {
                R::lemma_valid_units();
            }
            let same_key = a[k].0 == b[k].0;
            let same_value = same_key && R::equal(&a[k].1, &b[k].1);
            if !same_value {
                proof {
                    lemma_view_index(a@, k as int);
                    lemma_view_index(b@, k as int);
                    if a@[k as int].0 != b@[k as int].0 {
                        lemma_vectors_differ(a@, b@, k as int);
                    } else {
                        assert(seq_view(a@)[a@[k as int].0] != seq_view(b@)[a@[k as int].0]);
                    }
                }
                return false;
            }
            proof {
                assert(a@[k as int].1@ == b@[k as int].1@);
            }
            k = k + 1;
        }
        proof {
            lemma_same_keys_view(a@, b@);
        }
        true
    }
}

/// Two sorted lists that agree before position `k` and differ in the key at
/// `k` denote different maps.
proof fn lemma_vectors_differ<R: View>(a: Seq<(Dim, R)>, b: Seq<(Dim, R)>, k: int)
    requires
        sorted_keys(a),
        sorted_keys(b),
        a.len() == b.len(),
        0 <= k < a.len(),
        forall|t: int| 0 <= t < k ==> #[trigger] a[t].0 == b[t].0,
        a[k].0 != b[k].0,
    ensures
        seq_view(a) != seq_view(b),
{
    lemma_view_index(a, k);
    lemma_view_index(b, k);
    if a[k].0 < b[k].0 {
        let d = a[k].0;
        if has_key(b, d) {
            let u = choose|u: int| 0 <= u < b.len() && #[trigger] b[u].0 == d;
            if u < k {
                assert(a[u].0 == d);
                assert(a[u].0 < a[k].0);
            } else if u > k {
                assert(b[k].0 < b[u].0);
            }
        }
        assert(!seq_view(b).contains_key(d));
    } else {
        let d = b[k].0;
        if has_key(a, d) {
            let u = choose|u: int| 0 <= u < a.len() && #[trigger] a[u].0 == d;
            if u < k {
                assert(b[u].0 == d);
                assert(b[u].0 < b[k].0);
            } else if u > k {
                assert(a[k].0 < a[u].0);
            }
        }
        assert(!seq_view(a).contains_key(d));
    }
}

/// Keys of `m` that can be doubled within `Dim`'s range.
pub open spec fn interlace_ok<V>(m: Map<Dim, V>) -> bool {
    forall|d: Dim| #[trigger] m.contains_key(d) ==> i32::MIN <= 2 * d && 2 * d + 1 <= i32::MAX
}

/// `a` at the even positions and `b` at the odd ones: `a[d]` moves to `2d`
/// and `b[d]` to `2d + 1`.
pub open spec fn map_interlace<V>(a: Map<Dim, V>, b: Map<Dim, V>) -> Map<Dim, V> {
    Map::new(
        |k: Dim| if k % 2 == 0 { a.contains_key((k / 2) as Dim) } else { b.contains_key((k / 2) as Dim) },
        |k: Dim| if k % 2 == 0 { a[(k / 2) as Dim] } else { b[(k / 2) as Dim] },
    )
}

/// The entries of `m` at even positions `2d`, moved to `d`.
pub open spec fn map_evens<V>(m: Map<Dim, V>) -> Map<Dim, V> {
    Map::new(
        |d: Dim| i32::MIN <= 2 * d <= i32::MAX && m.contains_key((2 * d) as Dim),
        |d: Dim| m[(2 * d) as Dim],
    )
}

/// The entries of `m` at odd positions `2d + 1`, moved to `d`.
pub open spec fn map_odds<V>(m: Map<Dim, V>) -> Map<Dim, V> {
    Map::new(
        |d: Dim| i32::MIN <= 2 * d + 1 <= i32::MAX && m.contains_key((2 * d + 1) as Dim),
        |d: Dim| m[(2 * d + 1) as Dim],
    )
}


/// The coefficients of a sum are the sums of the coefficients.
pub proof fn lemma_coeff_add<R: Ring>(a: Map<Dim, R::V>, b: Map<Dim, R::V>, d: Dim)
    requires
        is_sparse::<R>(a),
        is_sparse::<R>(b),
    ensures
        coeff_of::<R>(map_add::<R>(a, b), d) == R::radd(coeff_of::<R>(a, d), coeff_of::<R>(b, d)),
{
    R::lemma_valid_units();
    R::lemma_ring_axioms(R::rzero(), R::rzero(), R::rzero());
}

/// The coefficients of `k * a` are those of `a` times `k`.
pub proof fn lemma_coeff_scale<R: Ring>(k: R::V, a: Map<Dim, R::V>, d: Dim)
    requires
        R::valid(k),
        is_sparse::<R>(a),
    ensures
        coeff_of::<R>(map_scale::<R>(k, a), d) == R::rmul(k, coeff_of::<R>(a, d)),
{
    R::lemma_valid_units();
    R::lemma_ring_axioms(k, R::rzero(), R::rzero());
}

/// Adding a term at `d` changes the coefficient at `d` only.
pub proof fn lemma_coeff_add_term<R: Ring>(m: Map<Dim, R::V>, d: Dim, c: R::V, e: Dim)
    ensures
        e != d ==> coeff_of::<R>(map_add_term::<R>(m, d, c), e) == coeff_of::<R>(m, e),
        coeff_of::<R>(map_add_term::<R>(m, d, c), d) == R::radd(coeff_of::<R>(m, d), c),
{
}

/// Deinterlacing undoes interlacing: the even positions of `interlace(a, b)`
/// hold `a` and the odd ones hold `b`.
pub proof fn lemma_deinterlace_interlace<V>(a: Map<Dim, V>, b: Map<Dim, V>)
    requires
        interlace_ok(a),
        interlace_ok(b),
    ensures
        map_evens(map_interlace(a, b)) == a,
        map_odds(map_interlace(a, b)) == b,
{
    let m = map_interlace(a, b);
    assert forall|d: Dim| #[trigger] map_evens(m).contains_key(d) <==> a.contains_key(d) by {
        if a.contains_key(d) {
            let k = (2 * d) as Dim;
            assert(k % 2 == 0 && k / 2 == d);
        }
        if i32::MIN <= 2 * d <= i32::MAX {
            let k = (2 * d) as Dim;
            assert(k % 2 == 0 && k / 2 == d);
        }
    }
    assert forall|d: Dim| #[trigger] map_odds(m).contains_key(d) <==> b.contains_key(d) by {
        if b.contains_key(d) {
            let k = (2 * d + 1) as Dim;
            assert(k % 2 == 1 && k / 2 == d);
        }
        if i32::MIN <= 2 * d + 1 <= i32::MAX {
            let k = (2 * d + 1) as Dim;
            assert(k % 2 == 1 && k / 2 == d);
        }
    }
    assert forall|d: Dim| #[trigger] map_evens(m).contains_key(d) implies map_evens(m)[d] == a[d] by {
        let k = (2 * d) as Dim;
        assert(k % 2 == 0 && k / 2 == d);
    }
    assert forall|d: Dim| #[trigger] map_odds(m).contains_key(d) implies map_odds(m)[d] == b[d] by {
        let k = (2 * d + 1) as Dim;
        assert(k % 2 == 1 && k / 2 == d);
    }
    assert(map_evens(m) =~= a);
    assert(map_odds(m) =~= b);
}

/// Interlacing undoes deinterlacing: every map is the interlacing of its
/// even and odd positions.
pub proof fn lemma_interlace_deinterlace<V>(m: Map<Dim, V>)
    ensures
        map_interlace(map_evens(m), map_odds(m)) == m,
{
    let r = map_interlace(map_evens(m), map_odds(m));
    assert forall|k: Dim| #[trigger] r.contains_key(k) <==> m.contains_key(k) by {
        let d = (k / 2) as Dim;
        if k % 2 == 0 {
            assert(2 * d == k);
        } else {
            assert(2 * d + 1 == k);
        }
    }
    assert forall|k: Dim| #[trigger] r.contains_key(k) implies r[k] == m[k] by {
        let d = (k / 2) as Dim;
        if k % 2 == 0 {
            assert(2 * d == k);
        } else {
            assert(2 * d + 1 == k);
        }
    }
    assert(r =~= m);
}

impl<R: Ring> Vector<R> {
    /// The vector with each entry at `d` moved to `2d + offset`.
    fn spread(&self, offset: Dim) -> (r: Self)
        requires
            offset == 0 || offset == 1,
            interlace_ok(self@),
        ensures
            forall|k: Dim| #[trigger] r@.contains_key(k) <==> (k % 2 == offset && self@.contains_key((k / 2) as Dim)),
            forall|k: Dim| #[trigger] r@.contains_key(k) ==> r@[k] == self@[(k / 2) as Dim],
            is_sparse::<R>(r@),
    {
        proof {
            use_type_invariant(self);
        }
        let mut out: Vec<(Dim, R)> = Vec::new();
        let mut i: usize = 0;
        while i < self.entries.len()
            invariant
                i <= self.entries@.len(),
                offset == 0 || offset == 1,
                sorted_keys(self.entries@),
                entries_ok(self.entries@),
                interlace_ok(seq_view(self.entries@)),
                out@.len() == i,
                forall|k: int| #![trigger out@[k]] 0 <= k < i ==> out@[k].0 == 2 * self.entries@[k].0 + offset
                    && out@[k].1@ == self.entries@[k].1@,
            decreases self.entries@.len() - i,
        {
            proof {
                lemma_view_index(self.entries@, i as int);
            }
            let d = self.entries[i].0;
            let c = R::copy(&self.entries[i].1);
            let ghost old_out = out@;
            out.push((2 * d + offset, c));
            proof {
                assert forall|k: int| #![trigger out@[k]] 0 <= k < i + 1 implies out@[k].0 == 2 * self.entries@[k].0 + offset
                    && out@[k].1@ == self.entries@[k].1@ by {
                    if k < i {
                        assert(out@[k] == old_out[k]);
                    }
                }
            }
            i = i + 1;
        }
        proof {
            assert forall|k: int, l: int| 0 <= k < l < out@.len() implies #[trigger] out@[k].0 < #[trigger] out@[l].0 by {
                assert(self.entries@[k].0 < self.entries@[l].0);
            }
            assert forall|k: int| 0 <= k < out@.len() implies R::valid(#[trigger] out@[k].1@) && out@[k].1@ != R::rzero() by {
                assert(out@[k].1@ == self.entries@[k].1@);
            }
            assert forall|k: Dim| #[trigger] seq_view(out@).contains_key(k) <==> (k % 2 == offset
                && seq_view(self.entries@).contains_key((k / 2) as Dim)) by {
                if has_key(out@, k) {
                    let t = choose|t: int| 0 <= t < out@.len() && #[trigger] out@[t].0 == k;
                    lemma_view_index(self.entries@, t);
                }
                if k % 2 == offset && has_key(self.entries@, (k / 2) as Dim) {
                    let t = choose|t: int| 0 <= t < self.entries@.len() && #[trigger] self.entries@[t].0 == (k / 2) as Dim;
                    assert(out@[t].0 == k);
                }
            }
            assert forall|k: Dim| #[trigger] seq_view(out@).contains_key(k) implies seq_view(out@)[k]
                == seq_view(self.entries@)[(k / 2) as Dim] by {
                let t = choose|t: int| 0 <= t < out@.len() && #[trigger] out@[t].0 == k;
                lemma_view_index(out@, t);
                lemma_view_index(self.entries@, t);
            }
            lemma_entries_sparse(out@);
        }
        Vector { entries: out }
    }

    /// Combine `self` and `other` into a single vector with `self`'s entries
    /// at even positions and `other`'s at odd positions.
    pub fn interlace(&self, other: &Self) -> (r: Self)
        requires
            interlace_ok(self@),
            interlace_ok(other@),
        ensures
            r@ == map_interlace(self@, other@),
    {
        let x = self.spread(0);
        let y = other.spread(1);
        let r = x.add(&y);
        proof {
            R::lemma_valid_units();
            assert forall|k: Dim| x@.contains_key(k) implies R::radd(x@[k], R::rzero()) == x@[k] by {
                R::lemma_ring_axioms(x@[k], R::rzero(), R::rzero());
            }
            assert forall|k: Dim| y@.contains_key(k) implies R::radd(R::rzero(), y@[k]) == y@[k] by {
                R::lemma_ring_axioms(y@[k], R::rzero(), R::rzero());
            }
            assert(r@ =~= map_interlace(self@, other@));
        }
        r
    }

    /// Inverse of [`interlace`](Self::interlace): the entries at even
    /// positions `2d` and at odd positions `2d + 1`, each moved to `d`.
    pub fn deinterlace(&self) -> (r: (Self, Self))
        ensures
            r.0@ == map_evens(self@),
            r.1@ == map_odds(self@),
    {
        proof {
            use_type_invariant(self);
        }
        let mut even: Vec<(Dim, R)> = Vec::new();
        let mut odd: Vec<(Dim, R)> = Vec::new();
        let mut i: usize = 0;
        proof {
            lemma_view_empty(even@);
            lemma_view_empty(odd@);
            lemma_view_empty(self.entries@.subrange(0, 0));
            assert(map_evens(Map::<Dim, R::V>::empty()) =~= Map::<Dim, R::V>::empty());
            assert(map_odds(Map::<Dim, R::V>::empty()) =~= Map::<Dim, R::V>::empty());
        }
        while i < self.entries.len()
            invariant
                i <= self.entries@.len(),
                sorted_keys(self.entries@),
                entries_ok(self.entries@),
                sorted_keys(even@),
                sorted_keys(odd@),
                entries_ok(even@),
                entries_ok(odd@),
                forall|t: int| 0 <= t < even@.len() ==> 2 * #[trigger] even@[t].0 < head(self.entries@, i as int),
                forall|t: int| 0 <= t < odd@.len() ==> 2 * #[trigger] odd@[t].0 + 1 < head(self.entries@, i as int),
                seq_view(even@) == map_evens(seq_view(self.entries@.subrange(0, i as int))),
                seq_view(odd@) == map_odds(seq_view(self.entries@.subrange(0, i as int))),
            decreases self.entries@.len() - i,
        {
            let ghost pre = self.entries@.subrange(0, i as int);
            let d = self.entries[i].0;
            let c = R::copy(&self.entries[i].1);
            proof {
                lemma_prefix_push(self.entries@, i as int);
                lemma_head_next(self.entries@, i as int);
            }
            if d % 2 == 0 {
                let k = d / 2;
                proof {
                    assert(keys_below(even@, k as int));
                    lemma_view_push(even@, (k, c));
                    assert(map_evens(seq_view(pre).insert(d, c@)) =~= map_evens(seq_view(pre)).insert(k, c@));
                    assert(map_odds(seq_view(pre).insert(d, c@)) =~= map_odds(seq_view(pre)));
                }
                even.push((k, c));
            } else {
                let k = (d - 1) / 2;
                proof {
                    assert(keys_below(odd@, k as int));
                    lemma_view_push(odd@, (k, c));
                    assert(map_odds(seq_view(pre).insert(d, c@)) =~= map_odds(seq_view(pre)).insert(k, c@));
                    assert(map_evens(seq_view(pre).insert(d, c@)) =~= map_evens(seq_view(pre)));
                }
                odd.push((k, c));
            }
            i = i + 1;
        }
        proof {
            assert(self.entries@.subrange(0, self.entries@.len() as int) == self.entries@);
        }
        (Vector { entries: even }, Vector { entries: odd })
    }
}

/// The rendering `d:c` of an entry.
pub open spec fn entry_text<R: Ring>(e: (Dim, R)) -> Seq<char> {
    crate::num::zz::int_to_decimal(e.0 as int) + seq![':'] + R::text(e.1@)
}

/// The renderings of the first `n` entries, separated by `, `.
pub open spec fn entries_text<R: Ring>(es: Seq<(Dim, R)>, n: int) -> Seq<char>
    decreases n,
{
    if n <= 0 || n > es.len() {
        Seq::empty()
    } else if n == 1 {
        entry_text(es[0])
    } else {
        entries_text(es, n - 1) + seq![',', ' '] + entry_text(es[n - 1])
    }
}

impl<R: Ring> Vector<R> {
    /// The rendering `[d1:c1, d2:c2, ...]` of the nonzero entries, in
    /// ascending dimension order.
    pub fn to_string(&self) -> (r: String)
        ensures
            exists|es: Seq<(Dim, R)>|
                sorted_keys(es) && seq_view(es) == self@ && r@ == seq!['['] + entries_text(es, es.len() as int) + seq![']'],
    {
        proof {
            use_type_invariant(self);
            reveal_strlit("[");
            reveal_strlit("]");
        }
        let es = &self.entries;
        let mut s = String::from_str("[");
        let mut k: usize = 0;
        while k < es.len()
            invariant
                k <= es@.len(),
                s@ == seq!['['] + entries_text(es@, k as int),
            decreases es@.len() - k,
        {
            let ghost before = s@;
            proof {
                reveal_strlit(", ");
                reveal_strlit(":");
            }
            if k > 0 {
                s.append(", ");
            }
            let d = crate::num::ZZ::of_i64(es[k].0 as i64).to_string();
            s.append(d.as_str());
            s.append(":");
            let c = R::render(&es[k].1);
            s.append(c.as_str());
            proof {
                if k == 0 {
                    assert(s@ =~= before + entry_text(es@[0]));
                } else {
                    assert(s@ =~= before + seq![',', ' '] + entry_text(es@[k as int]));
                }
                assert(s@ =~= seq!['['] + entries_text(es@, k + 1));
            }
            k = k + 1;
        }
        s.append("]");
        s
    }
}

impl<R: Ring> Default for Vector<R> {
    fn default() -> (r: Self)
        ensures
            r@ == Map::<Dim, R::V>::empty(),
    {
        Self::zero()
    }
}

impl<R: Ring> AbelianGroup for Vector<R> {
    open spec fn ag_valid(v: Map<Dim, R::V>) -> bool {
        is_sparse::<R>(v)
    }

    open spec fn ag_zero() -> Map<Dim, R::V> {
        Map::empty()
    }

    open spec fn ag_add(a: Map<Dim, R::V>, b: Map<Dim, R::V>) -> Map<Dim, R::V> {
        map_add::<R>(a, b)
    }

    open spec fn ag_neg(a: Map<Dim, R::V>) -> Map<Dim, R::V> {
        map_neg::<R>(a)
    }

    fn zero() -> (r: Self) {
        let r = Vector::zero();
        proof {
            assert(Map::<Dim, R::V>::empty().dom() =~= Set::<Dim>::empty());
        }
        r
    }

    fn add(a: &Self, b: &Self) -> (r: Self) {
        let r = a.add(b);
        r.lemma_sparse();
        r
    }

    fn negate(a: &Self) -> (r: Self) {
        let r = a.negate();
        r.lemma_sparse();
        r
    }

    fn is_zero(a: &Self) -> (r: bool) {
        a.is_zero()
    }
}

/// The key at position `i`, or one past the largest `Dim` when `i` is past the end.
pub open spec fn head<T>(s: Seq<(Dim, T)>, i: int) -> int {
    if 0 <= i < s.len() {
        s[i].0 as int
    } else {
        i32::MAX as int + 1
    }
}

pub proof fn lemma_head_next<T>(s: Seq<(Dim, T)>, i: int)
    requires
        sorted_keys(s),
        0 <= i < s.len(),
    ensures
        head(s, i + 1) > s[i].0,
        keys_below(s.subrange(0, i + 1), head(s, i + 1)),
{
    if i + 1 < s.len() {
        assert(s[i].0 < s[i + 1].0);
    }
    let t = s.subrange(0, i + 1);
    assert forall|k: int| 0 <= k < t.len() implies #[trigger] t[k].0 < head(s, i + 1) by {
        assert(t[k] == s[k]);
        if k < i {
            assert(s[k].0 < s[i].0);
        }
    }
}

pub proof fn lemma_sorted_sub<T>(s: Seq<(Dim, T)>, i: int)
    requires
        sorted_keys(s),
        0 <= i <= s.len(),
    ensures
        sorted_keys(s.subrange(0, i)),
        i < s.len() ==> keys_below(s.subrange(0, i), s[i].0 as int),
{
    let t = s.subrange(0, i);
    assert forall|k: int, l: int| 0 <= k < l < t.len() implies #[trigger] t[k].0 < #[trigger] t[l].0 by {
        assert(t[k] == s[k] && t[l] == s[l]);
    }
    if i < s.len() {
        assert forall|k: int| 0 <= k < t.len() implies #[trigger] t[k].0 < s[i].0 as int by {
            assert(t[k] == s[k]);
        }
    }
}

/// The prefix of length `i + 1` is the prefix of length `i` with entry `i` appended.
pub proof fn lemma_prefix_push<R: View>(s: Seq<(Dim, R)>, i: int)
    requires
        sorted_keys(s),
        0 <= i < s.len(),
    ensures
        sorted_keys(s.subrange(0, i)),
        keys_below(s.subrange(0, i), s[i].0 as int),
        seq_view(s.subrange(0, i + 1)) == seq_view(s.subrange(0, i)).insert(s[i].0, s[i].1@),
        !seq_view(s.subrange(0, i)).contains_key(s[i].0),
{
    lemma_sorted_sub(s, i);
    assert(s.subrange(0, i + 1) == s.subrange(0, i).push(s[i]));
    lemma_view_push(s.subrange(0, i), s[i]);
}

/// A key below every key of a list is absent from its map.
pub proof fn lemma_key_absent<R: View>(s: Seq<(Dim, R)>, d: int)
    requires
        keys_below(s, d),
    ensures
        forall|e: Dim| e >= d ==> !#[trigger] seq_view(s).contains_key(e),
{
    assert forall|e: Dim| e >= d implies !#[trigger] seq_view(s).contains_key(e) by {
        if has_key(s, e) {
            let k = choose|k: int| 0 <= k < s.len() && #[trigger] s[k].0 == e;
        }
    }
}

proof fn lemma_map_add_insert_left<R: Ring>(a: Map<Dim, R::V>, b: Map<Dim, R::V>, d: Dim, v: R::V)
    requires
        is_sparse::<R>(a),
        is_sparse::<R>(b),
        !a.contains_key(d),
        !b.contains_key(d),
        R::valid(v),
        v != R::rzero(),
    ensures
        map_add::<R>(a.insert(d, v), b) == map_add::<R>(a, b).insert(d, v),
{
    R::lemma_valid_units();
    R::lemma_ring_axioms(v, R::rzero(), R::rzero());
    assert(map_add::<R>(a.insert(d, v), b) =~= map_add::<R>(a, b).insert(d, v));
}

proof fn lemma_map_add_insert_right<R: Ring>(a: Map<Dim, R::V>, b: Map<Dim, R::V>, d: Dim, v: R::V)
    requires
        is_sparse::<R>(a),
        is_sparse::<R>(b),
        !a.contains_key(d),
        !b.contains_key(d),
        R::valid(v),
        v != R::rzero(),
    ensures
        map_add::<R>(a, b.insert(d, v)) == map_add::<R>(a, b).insert(d, v),
{
    R::lemma_valid_units();
    R::lemma_ring_axioms(v, R::rzero(), R::rzero());
    assert(map_add::<R>(a, b.insert(d, v)) =~= map_add::<R>(a, b).insert(d, v));
}

proof fn lemma_map_add_insert_both<R: Ring>(a: Map<Dim, R::V>, b: Map<Dim, R::V>, d: Dim, va: R::V, vb: R::V)
    requires
        !a.contains_key(d),
        !b.contains_key(d),
    ensures
        R::radd(va, vb) != R::rzero() ==> map_add::<R>(a.insert(d, va), b.insert(d, vb)) == map_add::<R>(a, b).insert(d, R::radd(va, vb)),
        R::radd(va, vb) == R::rzero() ==> map_add::<R>(a.insert(d, va), b.insert(d, vb)) == map_add::<R>(a, b),
        !map_add::<R>(a, b).contains_key(d),
{
    if R::radd(va, vb) != R::rzero() {
        assert(map_add::<R>(a.insert(d, va), b.insert(d, vb)) =~= map_add::<R>(a, b).insert(d, R::radd(va, vb)));
    } else {
        assert(map_add::<R>(a.insert(d, va), b.insert(d, vb)) =~= map_add::<R>(a, b));
    }
}

/// Adding an entry above every key of `m` adds its product to the inner product.
proof fn lemma_dot_step<R: Ring>(m: Map<Dim, R::V>, d: Dim, v: R::V, b: Map<Dim, R::V>)
    requires
        m.dom().finite(),
        !m.contains_key(d),
        forall|k: Dim| #[trigger] m.contains_key(k) ==> k < d,
    ensures
        map_dot::<R>(m.insert(d, v), b) == R::radd(map_dot::<R>(m, b), R::rmul(v, coeff_of::<R>(b, d))),
{
    let n = m.insert(d, v);
    assert(is_max_key(n, d));
    assert(n.dom().len() > 0);
    let c = choose|c: Dim| is_max_key(n, c);
    assert(c == d) by {
        assert(n.contains_key(c) && n.contains_key(d));
        assert(c <= d && d <= c);
    }
    assert(n.remove(d) =~= m);
}

/// The first entry of a sorted list holds its smallest key.
pub proof fn lemma_min_first<R: View>(s: Seq<(Dim, R)>)
    requires
        sorted_keys(s),
        s.len() > 0,
    ensures
        is_min_key(seq_view(s), s[0].0),
{
    lemma_view_index(s, 0);
    assert forall|k: Dim| #[trigger] seq_view(s).contains_key(k) implies s[0].0 <= k by {
        let i = choose|i: int| 0 <= i < s.len() && #[trigger] s[i].0 == k;
        if i > 0 {
            assert(s[0].0 < s[i].0);
        }
    }
}

/// Lists with the same keys and value views, position by position, denote the same map.
pub proof fn lemma_same_keys_view<R: View>(t: Seq<(Dim, R)>, s: Seq<(Dim, R)>)
    requires
        sorted_keys(s),
        t.len() == s.len(),
        forall|k: int| 0 <= k < s.len() ==> #[trigger] t[k].0 == s[k].0 && t[k].1@ == s[k].1@,
    ensures
        sorted_keys(t),
        seq_view(t) == seq_view(s),
{
    assert forall|i: int, j: int| 0 <= i < j < t.len() implies #[trigger] t[i].0 < #[trigger] t[j].0 by {
        assert(t[i].0 == s[i].0 && t[j].0 == s[j].0);
    }
    assert forall|i: int| 0 <= i < t.len() implies #[trigger] seq_view(s).contains_key(t[i].0)
        && seq_view(s)[t[i].0] == t[i].1@ by {
        assert(t[i].0 == s[i].0);
        lemma_view_index(s, i);
    }
    assert forall|d: Dim| #[trigger] seq_view(s).contains_key(d) implies has_key(t, d) by {
        let k = choose|k: int| 0 <= k < s.len() && #[trigger] s[k].0 == d;
        assert(t[k].0 == d);
    }
    lemma_view_char(t, seq_view(s));
}

pub proof fn lemma_entries_sparse<R: Ring>(s: Seq<(Dim, R)>)
    requires
        sorted_keys(s),
        entries_ok(s),
    ensures
        is_sparse::<R>(seq_view(s)),
{
    lemma_view_finite(s);
    assert forall|d: Dim| #[trigger] seq_view(s).contains_key(d) implies R::valid(seq_view(s)[d])
        && seq_view(s)[d] != R::rzero() by {
        let i = choose|i: int| 0 <= i < s.len() && #[trigger] s[i].0 == d;
        lemma_view_index(s, i);
    }
}

pub proof fn lemma_view_len<R: View>(s: Seq<(Dim, R)>)
    requires
        sorted_keys(s),
    ensures
        seq_view(s).dom().len() == s.len(),
{
    lemma_view_finite(s);
    let keys = s.map_values(|e: (Dim, R)| e.0);
    assert(keys.no_duplicates()) by {
        assert forall|i: int, j: int| 0 <= i < keys.len() && 0 <= j < keys.len() && i != j implies keys[i] != keys[j] by {
            if i < j {
                assert(s[i].0 < s[j].0);
            } else {
                assert(s[j].0 < s[i].0);
            }
        }
    }
    keys.unique_seq_to_set();
}

/// Negating a vector twice gives it back, and a vector plus its negation is
/// the zero vector.
pub proof fn lemma_negate_laws<R: Ring>(u: Map<Dim, R::V>)
    requires
        is_sparse::<R>(u),
    ensures
        map_neg::<R>(map_neg::<R>(u)) == u,
        map_add::<R>(u, map_neg::<R>(u)) == Map::<Dim, R::V>::empty(),
{
    R::lemma_valid_units();
    let n = map_neg::<R>(u);
    assert forall|d: Dim| #[trigger] u.contains_key(d) implies R::rneg(R::rneg(u[d])) == u[d] by {
        let x = u[d];
        R::lemma_valid_closed(x, x);
        R::lemma_ring_axioms(x, x, x);
        R::lemma_ring_axioms(R::rneg(x), x, x);
        crate::inner::lemma_neg_unique::<R>(R::rneg(x), x);
    }
    assert(map_neg::<R>(n) =~= u);
    R::lemma_ring_axioms(R::rzero(), R::rzero(), R::rzero());
    assert forall|d: Dim| !(#[trigger] map_add::<R>(u, n).contains_key(d)) by {
        if u.contains_key(d) {
            R::lemma_ring_axioms(u[d], u[d], u[d]);
        }
    }
    assert(map_add::<R>(u, n) =~= Map::<Dim, R::V>::empty());
}

} // verus!
