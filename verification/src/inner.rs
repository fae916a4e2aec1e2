//! Laws of the sparse inner product [`map_dot`]: it is additive in each
//! entry, linear in its first argument, and reads its second argument only
//! at the keys of the first.

use vstd::prelude::*;

use crate::algebra::Ring;
use crate::ring::{coeff_of, is_max_key, is_sparse, map_add, map_dot, map_neg, map_scale, Dim};

verus! {

/// A finite, nonempty map has a largest key.
pub proof fn lemma_max_key_exists<V>(m: Map<Dim, V>)
    requires
        m.dom().finite(),
        m.dom().len() > 0,
    ensures
        exists|d: Dim| is_max_key(m, d),
    decreases m.dom().len(),
{
    let x = m.dom().choose();
    let rest = m.remove(x);
    if rest.dom().len() == 0 {
        assert forall|k: Dim| #[trigger] m.contains_key(k) implies k <= x by {
            if k != x {
                assert(rest.dom().contains(k));
            }
        }
        assert(is_max_key(m, x));
    } else {
        lemma_max_key_exists(rest);
        let y = choose|d: Dim| is_max_key(rest, d);
        if x <= y {
            assert(is_max_key(m, y));
        } else {
            assert forall|k: Dim| #[trigger] m.contains_key(k) implies k <= x by {
                if k != x {
                    assert(rest.contains_key(k));
                }
            }
            assert(is_max_key(m, x));
        }
    }
}

/// Unfolding the inner product at the largest key.
pub proof fn lemma_dot_max<R: Ring>(a: Map<Dim, R::V>, d: Dim, b: Map<Dim, R::V>)
    requires
        a.dom().finite(),
        is_max_key(a, d),
    ensures
        map_dot::<R>(a, b) == R::radd(map_dot::<R>(a.remove(d), b), R::rmul(a[d], coeff_of::<R>(b, d))),
{
    assert(a.dom().len() > 0);
    let c = choose|c: Dim| is_max_key(a, c);
    assert(c == d) by {
        assert(a.contains_key(c) && a.contains_key(d));
        assert(c <= d && d <= c);
    }
}

/// Coefficients of a sparse map are valid.
pub proof fn lemma_coeff_valid<R: Ring>(b: Map<Dim, R::V>, d: Dim)
    requires
        is_sparse::<R>(b),
    ensures
        R::valid(coeff_of::<R>(b, d)),
{
    R::lemma_valid_units();
}

/// The inner product of sparse maps is valid.
pub proof fn lemma_dot_valid<R: Ring>(a: Map<Dim, R::V>, b: Map<Dim, R::V>)
    requires
        is_sparse::<R>(a),
        is_sparse::<R>(b),
    ensures
        R::valid(map_dot::<R>(a, b)),
    decreases a.dom().len(),
{
    R::lemma_valid_units();
    if a.dom().len() > 0 {
        lemma_max_key_exists(a);
        let d = choose|d: Dim| is_max_key(a, d);
        lemma_dot_max::<R>(a, d, b);
        lemma_dot_valid::<R>(a.remove(d), b);
        lemma_coeff_valid::<R>(b, d);
        R::lemma_valid_closed(a[d], coeff_of::<R>(b, d));
        R::lemma_valid_closed(map_dot::<R>(a.remove(d), b), R::rmul(a[d], coeff_of::<R>(b, d)));
    }
}

/// `(x + y) + z == (x + z) + y` for valid elements.
pub proof fn lemma_add_swap<R: Ring>(x: R::V, y: R::V, z: R::V)
    requires
        R::valid(x),
        R::valid(y),
        R::valid(z),
    ensures
        R::radd(R::radd(x, y), z) == R::radd(R::radd(x, z), y),
{
    R::lemma_ring_axioms(x, y, z);
    R::lemma_ring_axioms(y, z, x);
    R::lemma_ring_axioms(x, z, y);
    R::lemma_ring_axioms(z, y, x);
}

/// `(a + b) + (c + d) == (a + c) + (b + d)` for valid elements.
pub proof fn lemma_add_shuffle<R: Ring>(a: R::V, b: R::V, c: R::V, d: R::V)
    requires
        R::valid(a),
        R::valid(b),
        R::valid(c),
        R::valid(d),
    ensures
        R::radd(R::radd(a, b), R::radd(c, d)) == R::radd(R::radd(a, c), R::radd(b, d)),
{
    R::lemma_valid_closed(a, b);
    R::lemma_valid_closed(c, d);
    R::lemma_valid_closed(a, c);
    R::lemma_valid_closed(b, d);
    R::lemma_ring_axioms(R::radd(a, b), c, d);
    R::lemma_ring_axioms(a, b, c);
    lemma_add_swap::<R>(a, b, c);
    R::lemma_ring_axioms(R::radd(a, c), b, d);
}

/// Inserting a key anywhere adds its product to the inner product.
pub proof fn lemma_dot_insert<R: Ring>(a: Map<Dim, R::V>, d: Dim, v: R::V, b: Map<Dim, R::V>)
    requires
        is_sparse::<R>(a),
        is_sparse::<R>(b),
        !a.contains_key(d),
        R::valid(v),
    ensures
        map_dot::<R>(a.insert(d, v), b) == R::radd(map_dot::<R>(a, b), R::rmul(v, coeff_of::<R>(b, d))),
    decreases a.dom().len(),
{
    let n = a.insert(d, v);
    let top_is_d = a.dom().len() == 0 || (forall|k: Dim| #[trigger] a.contains_key(k) ==> k < d);
    if top_is_d {
        assert forall|k: Dim| #[trigger] n.contains_key(k) implies k <= d by {
            if k != d {
                assert(a.contains_key(k));
            }
        }
        lemma_dot_max::<R>(n, d, b);
        assert(n.remove(d) =~= a);
    } else {
        lemma_max_key_exists(a);
        let m = choose|m: Dim| is_max_key(a, m);
        assert(m > d) by {
            if m < d {
                assert forall|k: Dim| #[trigger] a.contains_key(k) implies k < d by {}
            }
        }
        assert(is_max_key(n, m));
        lemma_dot_max::<R>(n, m, b);
        lemma_dot_max::<R>(a, m, b);
        let a1 = a.remove(m);
        assert(n.remove(m) =~= a1.insert(d, v));
        lemma_dot_insert::<R>(a1, d, v, b);
        lemma_dot_valid::<R>(a1, b);
        lemma_coeff_valid::<R>(b, d);
        lemma_coeff_valid::<R>(b, m);
        R::lemma_valid_closed(v, coeff_of::<R>(b, d));
        R::lemma_valid_closed(a[m], coeff_of::<R>(b, m));
        lemma_add_swap::<R>(map_dot::<R>(a1, b), R::rmul(v, coeff_of::<R>(b, d)), R::rmul(a[m], coeff_of::<R>(b, m)));
    }
}

/// The inner product reads its second argument only at the keys of the first.
pub proof fn lemma_dot_congr<R: Ring>(s: Map<Dim, R::V>, b1: Map<Dim, R::V>, b2: Map<Dim, R::V>)
    requires
        s.dom().finite(),
        forall|k: Dim| #[trigger] s.contains_key(k) ==> coeff_of::<R>(b1, k) == coeff_of::<R>(b2, k),
    ensures
        map_dot::<R>(s, b1) == map_dot::<R>(s, b2),
    decreases s.dom().len(),
{
    if s.dom().len() > 0 {
        lemma_max_key_exists(s);
        let d = choose|d: Dim| is_max_key(s, d);
        lemma_dot_max::<R>(s, d, b1);
        lemma_dot_max::<R>(s, d, b2);
        lemma_dot_congr::<R>(s.remove(d), b1, b2);
    }
}

/// The inner product with the empty map on the left is zero.
pub proof fn lemma_dot_empty<R: Ring>(b: Map<Dim, R::V>)
    ensures
        map_dot::<R>(Map::<Dim, R::V>::empty(), b) == R::rzero(),
{
    assert(Map::<Dim, R::V>::empty().dom() =~= Set::<Dim>::empty());
}

/// The sum of sparse maps is sparse.
pub proof fn lemma_add_sparse<R: Ring>(a: Map<Dim, R::V>, b: Map<Dim, R::V>)
    requires
        is_sparse::<R>(a),
        is_sparse::<R>(b),
    ensures
        is_sparse::<R>(map_add::<R>(a, b)),
{
    R::lemma_valid_units();
    let s = map_add::<R>(a, b);
    assert(s.dom().subset_of(a.dom().union(b.dom())));
    vstd::set_lib::lemma_len_subset(s.dom(), a.dom().union(b.dom()));
    assert forall|d: Dim| #[trigger] s.contains_key(d) implies R::valid(s[d]) && s[d] != R::rzero() by {
        lemma_coeff_valid::<R>(a, d);
        lemma_coeff_valid::<R>(b, d);
        R::lemma_valid_closed(coeff_of::<R>(a, d), coeff_of::<R>(b, d));
    }
}

/// A scaled sparse map is sparse.
pub proof fn lemma_scale_sparse<R: Ring>(k: R::V, a: Map<Dim, R::V>)
    requires
        R::valid(k),
        is_sparse::<R>(a),
    ensures
        is_sparse::<R>(map_scale::<R>(k, a)),
{
    let s = map_scale::<R>(k, a);
    assert(s.dom().subset_of(a.dom()));
    vstd::set_lib::lemma_len_subset(s.dom(), a.dom());
    assert forall|d: Dim| #[trigger] s.contains_key(d) implies R::valid(s[d]) && s[d] != R::rzero() by {
        R::lemma_valid_closed(k, a[d]);
    }
}

/// The inner product is additive in its first argument.
pub proof fn lemma_dot_add<R: Ring>(a: Map<Dim, R::V>, b: Map<Dim, R::V>, x: Map<Dim, R::V>)
    requires
        is_sparse::<R>(a),
        is_sparse::<R>(b),
        is_sparse::<R>(x),
    ensures
        map_dot::<R>(map_add::<R>(a, b), x) == R::radd(map_dot::<R>(a, x), map_dot::<R>(b, x)),
    decreases a.dom().len(),
{
    R::lemma_valid_units();
    lemma_dot_valid::<R>(b, x);
    if a.dom().len() == 0 {
        assert(a =~= Map::<Dim, R::V>::empty());
        assert forall|d: Dim| b.contains_key(d) implies R::radd(R::rzero(), b[d]) == b[d] by {
            R::lemma_ring_axioms(b[d], R::rzero(), R::rzero());
        }
        assert(map_add::<R>(a, b) =~= b);
        lemma_dot_empty::<R>(x);
        R::lemma_ring_axioms(map_dot::<R>(b, x), R::rzero(), R::rzero());
    } else {
        lemma_max_key_exists(a);
        let m = choose|m: Dim| is_max_key(a, m);
        let a1 = a.remove(m);
        let va = a[m];
        let xm = coeff_of::<R>(x, m);
        lemma_coeff_valid::<R>(x, m);
        assert(a =~= a1.insert(m, va));
        lemma_dot_insert::<R>(a1, m, va, x);
        lemma_dot_add::<R>(a1, if b.contains_key(m) { b.remove(m) } else { b }, x);
        lemma_dot_valid::<R>(a1, x);
        R::lemma_valid_closed(va, xm);
        if b.contains_key(m) {
            let b1 = b.remove(m);
            let vb = b[m];
            assert(b =~= b1.insert(m, vb));
            lemma_dot_insert::<R>(b1, m, vb, x);
            lemma_dot_valid::<R>(b1, x);
            R::lemma_valid_closed(vb, xm);
            lemma_add_sparse::<R>(a1, b1);
            let s1 = map_add::<R>(a1, b1);
            let sv = R::radd(va, vb);
            R::lemma_ring_axioms(va, vb, xm);
            lemma_add_shuffle::<R>(map_dot::<R>(a1, x), map_dot::<R>(b1, x), R::rmul(va, xm), R::rmul(vb, xm));
            if sv == R::rzero() {
                assert(map_add::<R>(a, b) =~= s1);
                R::lemma_ring_axioms(xm, xm, xm);
                R::lemma_valid_closed(map_dot::<R>(a1, x), map_dot::<R>(b1, x));
                R::lemma_ring_axioms(R::radd(map_dot::<R>(a1, x), map_dot::<R>(b1, x)), R::rzero(), R::rzero());
            } else {
                assert(map_add::<R>(a, b) =~= s1.insert(m, sv));
                R::lemma_valid_closed(va, vb);
                lemma_dot_insert::<R>(s1, m, sv, x);
            }
        } else {
            lemma_add_sparse::<R>(a1, b);
            let s1 = map_add::<R>(a1, b);
            R::lemma_ring_axioms(va, R::rzero(), R::rzero());
            assert(map_add::<R>(a, b) =~= s1.insert(m, va));
            lemma_dot_insert::<R>(s1, m, va, x);
            lemma_add_swap::<R>(map_dot::<R>(a1, x), map_dot::<R>(b, x), R::rmul(va, xm));
        }
    }
}

/// Additive inverses are unique: `x + y == 0` gives `y == -x`.
pub proof fn lemma_neg_unique<R: Ring>(x: R::V, y: R::V)
    requires
        R::valid(x),
        R::valid(y),
        R::radd(x, y) == R::rzero(),
    ensures
        y == R::rneg(x),
{
    R::lemma_valid_units();
    R::lemma_valid_closed(x, x);
    R::lemma_ring_axioms(y, x, R::rneg(x));
    R::lemma_ring_axioms(x, y, R::rneg(x));
    R::lemma_ring_axioms(R::rneg(x), R::rzero(), R::rzero());
    R::lemma_ring_axioms(y, R::rzero(), R::rzero());
}

/// `a * (-b) == -(a * b)`, `-x + -y == -(x + y)` and `-0 == 0`.
pub proof fn lemma_neg_facts<R: Ring>(a: R::V, b: R::V)
    requires
        R::valid(a),
        R::valid(b),
    ensures
        R::rmul(a, R::rneg(b)) == R::rneg(R::rmul(a, b)),
        R::radd(R::rneg(a), R::rneg(b)) == R::rneg(R::radd(a, b)),
        R::rneg(R::rzero()) == R::rzero(),
{
    R::lemma_valid_units();
    R::lemma_valid_closed(a, b);
    R::lemma_valid_closed(b, a);
    R::lemma_valid_closed(a, R::rneg(b));
    R::lemma_valid_closed(R::rneg(a), R::rneg(b));
    R::lemma_ring_axioms(a, b, R::rneg(b));
    R::lemma_ring_axioms(b, a, a);
    lemma_neg_unique::<R>(R::rmul(a, b), R::rmul(a, R::rneg(b)));
    R::lemma_ring_axioms(a, R::rneg(a), R::rzero());
    lemma_add_shuffle::<R>(a, b, R::rneg(a), R::rneg(b));
    R::lemma_ring_axioms(R::rzero(), R::rzero(), R::rzero());
    lemma_neg_unique::<R>(R::radd(a, b), R::radd(R::rneg(a), R::rneg(b)));
    R::lemma_valid_closed(R::rzero(), R::rzero());
    R::lemma_ring_axioms(R::rneg(R::rzero()), R::rzero(), R::rzero());
    lemma_neg_unique::<R>(R::rzero(), R::rzero());
}

/// The inner product is homogeneous in its first argument.
pub proof fn lemma_dot_scale<R: Ring>(k: R::V, a: Map<Dim, R::V>, x: Map<Dim, R::V>)
    requires
        R::valid(k),
        is_sparse::<R>(a),
        is_sparse::<R>(x),
    ensures
        map_dot::<R>(map_scale::<R>(k, a), x) == R::rmul(k, map_dot::<R>(a, x)),
    decreases a.dom().len(),
{
    R::lemma_valid_units();
    if a.dom().len() == 0 {
        assert(map_scale::<R>(k, a) =~= Map::<Dim, R::V>::empty());
        assert(a =~= Map::<Dim, R::V>::empty());
        lemma_dot_empty::<R>(x);
        R::lemma_ring_axioms(k, R::rzero(), R::rzero());
    } else {
        lemma_max_key_exists(a);
        let m = choose|m: Dim| is_max_key(a, m);
        let a1 = a.remove(m);
        let va = a[m];
        let xm = coeff_of::<R>(x, m);
        lemma_coeff_valid::<R>(x, m);
        assert(a =~= a1.insert(m, va));
        lemma_dot_insert::<R>(a1, m, va, x);
        lemma_dot_scale::<R>(k, a1, x);
        lemma_dot_valid::<R>(a1, x);
        lemma_scale_sparse::<R>(k, a1);
        R::lemma_valid_closed(va, xm);
        R::lemma_valid_closed(k, va);
        R::lemma_valid_closed(k, map_dot::<R>(a1, x));
        R::lemma_ring_axioms(k, map_dot::<R>(a1, x), R::rmul(va, xm));
        R::lemma_ring_axioms(k, va, xm);
        let kv = R::rmul(k, va);
        if kv == R::rzero() {
            assert(map_scale::<R>(k, a) =~= map_scale::<R>(k, a1));
            R::lemma_ring_axioms(xm, xm, xm);
            R::lemma_ring_axioms(R::rmul(k, map_dot::<R>(a1, x)), R::rzero(), R::rzero());
        } else {
            assert(map_scale::<R>(k, a) =~= map_scale::<R>(k, a1).insert(m, kv));
            lemma_dot_insert::<R>(map_scale::<R>(k, a1), m, kv, x);
        }
    }
}

/// Negating the second argument negates the inner product.
pub proof fn lemma_dot_neg_right<R: Ring>(a: Map<Dim, R::V>, y: Map<Dim, R::V>)
    requires
        is_sparse::<R>(a),
        is_sparse::<R>(y),
    ensures
        map_dot::<R>(a, map_neg::<R>(y)) == R::rneg(map_dot::<R>(a, y)),
    decreases a.dom().len(),
{
    R::lemma_valid_units();
    lemma_neg_facts::<R>(R::rzero(), R::rzero());
    if a.dom().len() == 0 {
        lemma_dot_empty::<R>(y);
        lemma_dot_empty::<R>(map_neg::<R>(y));
        assert(a =~= Map::<Dim, R::V>::empty());
    } else {
        lemma_max_key_exists(a);
        let m = choose|m: Dim| is_max_key(a, m);
        let a1 = a.remove(m);
        let va = a[m];
        let ym = coeff_of::<R>(y, m);
        lemma_coeff_valid::<R>(y, m);
        lemma_dot_max::<R>(a, m, y);
        lemma_dot_max::<R>(a, m, map_neg::<R>(y));
        assert(coeff_of::<R>(map_neg::<R>(y), m) == R::rneg(ym));
        lemma_dot_neg_right::<R>(a1, y);
        lemma_dot_valid::<R>(a1, y);
        lemma_neg_facts::<R>(va, ym);
        R::lemma_valid_closed(va, ym);
        lemma_neg_facts::<R>(map_dot::<R>(a1, y), R::rmul(va, ym));
    }
}

} // verus!
