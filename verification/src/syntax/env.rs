//! De Bruijn environments: persistent random-access stacks.

use vstd::prelude::*;

use std::rc::Rc;

verus! {

/// A complete binary tree whose values are read in preorder.
#[derive(Debug)]
enum Node<T> {
    Leaf(T),
    Branch(T, Rc<Node<T>>, Rc<Node<T>>),
}

/// The values of a tree, in preorder.
spec fn node_seq<T>(n: Node<T>) -> Seq<T>
    decreases n,
{
    match n {
        Node::Leaf(v) => seq![v],
        Node::Branch(v, l, r) => seq![v] + node_seq(*l) + node_seq(*r),
    }
}

/// The tree is complete and holds `size` values.
spec fn node_wf<T>(n: Node<T>, size: nat) -> bool
    decreases n,
{
    match n {
        Node::Leaf(_) => size == 1,
        Node::Branch(_, l, r) => size >= 3 && size % 2 == 1 && node_wf(*l, size / 2) && node_wf(*r, size / 2),
    }
}

proof fn lemma_node_len<T>(n: &Node<T>, size: nat)
    requires
        node_wf(*n, size),
    ensures
        node_seq(*n).len() == size,
    decreases n,
{
    match n {
        Node::Leaf(_) => {},
        Node::Branch(_, l, r) => {
            lemma_node_len(&**l, size / 2);
            lemma_node_len(&**r, size / 2);
        },
    }
}

/// A tree together with its number of values.
#[derive(Debug)]
struct Elt<T> {
    size: usize,
    tree: Rc<Node<T>>,
}

/// The values of a list of trees, tree after tree.
spec fn elts_seq<T>(s: Seq<Elt<T>>) -> Seq<T>
    decreases s.len(),
{
    if s.len() == 0 {
        Seq::empty()
    } else {
        node_seq(*s[0].tree) + elts_seq(s.drop_first())
    }
}

/// Every tree is complete and holds the number of values recorded beside it.
spec fn elts_wf<T>(s: Seq<Elt<T>>) -> bool {
    forall|i: int| 0 <= i < s.len() ==> #[trigger] node_wf(*s[i].tree, s[i].size as nat)
}

proof fn lemma_elts_front<T>(s: Seq<Elt<T>>, k: int)
    requires
        0 <= k < s.len(),
    ensures
        elts_seq(s.subrange(k, s.len() as int)) == node_seq(*s[k].tree) + elts_seq(s.subrange(k + 1, s.len() as int)),
{
    let t = s.subrange(k, s.len() as int);
    assert(t[0] == s[k]);
    assert(t.drop_first() =~= s.subrange(k + 1, s.len() as int));
}

/// A de Bruijn environment -- a persistent, efficient random-access stack.
///
/// Used to traverse quantified formulas, mapping de Bruijn indices to values.
/// Implemented as a skew-binary random access list for O(1) push and O(log n) lookup.
#[derive(Debug)]
pub struct Env<T> {
    elts: Vec<Elt<T>>,
}

impl<T> View for Env<T> {
    type V = Seq<T>;

    /// The bound values, index 0 (the most recent binding) first.
    closed spec fn view(&self) -> Seq<T> {
        elts_seq(self.elts@)
    }
}

impl<T> Clone for Env<T> {
    fn clone(&self) -> (r: Self)
        ensures
            r@ == self@,
    {
        proof {
            use_type_invariant(self);
        }
        let mut elts: Vec<Elt<T>> = Vec::new();
        let mut k: usize = 0;
        while k < self.elts.len()
            invariant
                k <= self.elts@.len(),
                elts@ == self.elts@.subrange(0, k as int),
            decreases self.elts@.len() - k,
        {
            elts.push(Elt { size: self.elts[k].size, tree: self.elts[k].tree.clone() });
            k = k + 1;
        }
        proof {
            assert(elts@ =~= self.elts@);
        }
        Env { elts }
    }
}

impl<T> Env<T> {
    #[verifier::type_invariant]
    spec fn well_formed(self) -> bool {
        elts_wf(self.elts@) && elts_seq(self.elts@).len() <= usize::MAX
    }

    /// Create an empty environment.
    pub fn empty() -> (r: Self)
        ensures
            r@ == Seq::<T>::empty(),
    {
        Env { elts: Vec::new() }
    }

    /// Push a value onto the front (binding de Bruijn index 0).
    pub fn push(&self, val: T) -> (r: Self)
        requires
            self@.len() < usize::MAX,
        ensures
            r@ == seq![val] + self@,
    {
        proof {
            use_type_invariant(self);
        }
        let n = self.elts.len();
        let mut new_elts: Vec<Elt<T>> = Vec::new();
        let start: usize;
        if n >= 2 && self.elts[0].size == self.elts[1].size {
            let s = self.elts[0].size;
            proof {
                assert(node_wf(*self.elts@[0].tree, s as nat));
                assert(node_wf(*self.elts@[1].tree, s as nat));
                lemma_node_len(&*self.elts@[0].tree, s as nat);
                lemma_node_len(&*self.elts@[1].tree, s as nat);
                lemma_elts_front(self.elts@, 0);
                lemma_elts_front(self.elts@, 1);
                assert(self.elts@.subrange(0, n as int) =~= self.elts@);
            }
            let merged = Elt {
                size: 2 * s + 1,
                tree: Rc::new(Node::Branch(val, self.elts[0].tree.clone(), self.elts[1].tree.clone())),
            };
            proof {
                assert(node_wf(*merged.tree, merged.size as nat));
            }
            new_elts.push(merged);
            start = 2;
        } else {
            let leaf = Elt { size: 1, tree: Rc::new(Node::Leaf(val)) };
            new_elts.push(leaf);
            start = 0;
        }
        let ghost first = new_elts@[0];
        let mut k: usize = start;
        while k < n
            invariant
                start <= k <= n,
                n == self.elts@.len(),
                new_elts@ == seq![first] + self.elts@.subrange(start as int, k as int),
            decreases n - k,
        {
            new_elts.push(Elt { size: self.elts[k].size, tree: self.elts[k].tree.clone() });
            proof {
                assert(new_elts@ =~= seq![first] + self.elts@.subrange(start as int, k + 1));
            }
            k = k + 1;
        }
        proof {
            let rest = self.elts@.subrange(start as int, n as int);
            assert(new_elts@[0] == first);
            assert(new_elts@.drop_first() =~= rest);
            if start == 2 {
                assert(elts_seq(new_elts@) =~= seq![val] + self@);
            } else {
                assert(self.elts@.subrange(0, n as int) =~= self.elts@);
                assert(elts_seq(new_elts@) =~= seq![val] + self@);
            }
            assert forall|i: int| 0 <= i < new_elts@.len() implies #[trigger] node_wf(*new_elts@[i].tree, new_elts@[i].size as nat) by {
                if i > 0 {
                    assert(new_elts@[i] == self.elts@[start + i - 1]);
                }
            }
        }
        Env { elts: new_elts }
    }

    /// Look up a de Bruijn index. Returns `None` if out of bounds.
    pub fn get(&self, index: usize) -> (r: Option<&T>)
        ensures
            index < self@.len() ==> r == Some(&self@[index as int]),
            index >= self@.len() ==> r is None,
    {
        proof {
            use_type_invariant(self);
            assert(self.elts@.subrange(0, self.elts@.len() as int) =~= self.elts@);
        }
        let n = self.elts.len();
        let mut idx = index;
        let ghost mut consumed: int = 0;
        let mut k: usize = 0;
        while k < n
            invariant
                k <= n,
                n == self.elts@.len(),
                elts_wf(self.elts@),
                0 <= consumed <= self@.len(),
                consumed + idx == index,
                elts_seq(self.elts@.subrange(k as int, n as int)) == self@.subrange(consumed, self@.len() as int),
            decreases n - k,
        {
            let size = self.elts[k].size;
            proof {
                lemma_elts_front(self.elts@, k as int);
                assert(node_wf(*self.elts@[k as int].tree, size as nat));
                lemma_node_len(&*self.elts@[k as int].tree, size as nat);
            }
            if idx < size {
                let r = find_tree(&*self.elts[k].tree, idx, size);
                proof {
                    let rest = self@.subrange(consumed, self@.len() as int);
                    assert(rest =~= node_seq(*self.elts@[k as int].tree) + elts_seq(self.elts@.subrange(k + 1, n as int)));
                    assert(rest.len() == self@.len() - consumed);
                    assert(rest[idx as int] == node_seq(*self.elts@[k as int].tree)[idx as int]);
                    assert(rest[idx as int] == self@[index as int]);
                }
                return r;
            }
            proof {
                let rest = self@.subrange(consumed, self@.len() as int);
                assert(rest.subrange(size as int, rest.len() as int) =~= self@.subrange(consumed + size, self@.len() as int));
                consumed = consumed + size;
            }
            idx = idx - size;
            k = k + 1;
        }
        proof {
            assert(self.elts@.subrange(n as int, n as int).len() == 0);
        }
        None
    }

    /// Iterate over all values in order (index 0 first).
    pub fn iter(&self) -> (r: EnvIter<'_, T>)
        ensures
            r@ == self@,
    {
        proof {
            use_type_invariant(self);
        }
        let n = self.elts.len();
        let mut pending: Vec<&Node<T>> = Vec::new();
        let mut k: usize = n;
        while k > 0
            invariant
                k <= n,
                n == self.elts@.len(),
                nodes_seq(pending@) == elts_seq(self.elts@.subrange(k as int, n as int)),
            decreases k,
        {
            k = k - 1;
            proof {
                lemma_elts_front(self.elts@, k as int);
            }
            let ghost old_p = pending@;
            pending.insert(0, &*self.elts[k].tree);
            proof {
                assert(pending@.drop_first() =~= old_p);
            }
        }
        proof {
            assert(self.elts@.subrange(0, n as int) =~= self.elts@);
        }
        EnvIter { pending }
    }

    /// Check if the environment is empty.
    pub fn is_empty(&self) -> (r: bool)
        ensures
            r == (self@.len() == 0),
    {
        proof {
            use_type_invariant(self);
            if self.elts@.len() > 0 {
                assert(node_wf(*self.elts@[0].tree, self.elts@[0].size as nat));
                lemma_node_len(&*self.elts@[0].tree, self.elts@[0].size as nat);
            }
        }
        self.elts.len() == 0
    }

    /// Return the number of bindings.
    pub fn len(&self) -> (r: usize)
        ensures
            r == self@.len(),
    {
        proof {
            use_type_invariant(self);
        }
        let n = self.elts.len();
        let mut sum: usize = 0;
        let mut k: usize = n;
        proof {
            assert(self.elts@.subrange(0, n as int) =~= self.elts@);
            assert(self.elts@.subrange(n as int, n as int).len() == 0);
        }
        while k > 0
            invariant
                k <= n,
                n == self.elts@.len(),
                elts_wf(self.elts@),
                elts_seq(self.elts@).len() <= usize::MAX,
                sum == elts_seq(self.elts@.subrange(k as int, n as int)).len(),
                elts_seq(self.elts@.subrange(k as int, n as int)).len() + elts_seq(self.elts@.subrange(0, k as int)).len()
                    == elts_seq(self.elts@).len(),
            decreases k,
        {
            k = k - 1;
            proof {
                lemma_elts_front(self.elts@, k as int);
                assert(node_wf(*self.elts@[k as int].tree, self.elts@[k as int].size as nat));
                lemma_node_len(&*self.elts@[k as int].tree, self.elts@[k as int].size as nat);
                lemma_elts_split(self.elts@, k as int);
            }
            sum = sum + self.elts[k].size;
        }
        proof {
            assert(self.elts@.subrange(0, n as int) =~= self.elts@);
        }
        sum
    }
}

proof fn lemma_elts_split<T>(s: Seq<Elt<T>>, k: int)
    requires
        0 <= k <= s.len(),
    ensures
        elts_seq(s.subrange(k, s.len() as int)).len() + elts_seq(s.subrange(0, k)).len() == elts_seq(s).len(),
    decreases k,
{
    if k == 0 {
        assert(s.subrange(0, s.len() as int) =~= s);
        assert(elts_seq(s.subrange(0, 0)).len() == 0);
    } else {
        lemma_elts_split(s.drop_first(), k - 1);
        assert(s.drop_first().subrange(k - 1, s.len() - 1) =~= s.subrange(k, s.len() as int));
        let p = s.subrange(0, k);
        assert(p[0] == s[0]);
        assert(p.drop_first() =~= s.drop_first().subrange(0, k - 1));
    }
}

/// The value at position `index` (preorder) of a complete tree of `size` values.
fn find_tree<T>(node: &Node<T>, index: usize, size: usize) -> (r: Option<&T>)
    ensures
        node_wf(*node, size as nat) && index < size ==> r == Some(&node_seq(*node)[index as int]),
    decreases node,
{
    match node {
        Node::Leaf(val) => {
            if index == 0 {
                Some(val)
            } else {
                None
            }
        },
        Node::Branch(val, left, right) => {
            if index == 0 {
                Some(val)
            } else {
                let half = size / 2;
                proof {
                    if node_wf(*node, size as nat) {
                        lemma_node_len(&**left, half as nat);
                        lemma_node_len(&**right, half as nat);
                    }
                }
                if index <= half {
                    find_tree(&**left, index - 1, half)
                } else {
                    find_tree(&**right, index - half - 1, half)
                }
            }
        },
    }
}

/// The values of a list of trees, tree after tree.
spec fn nodes_seq<T>(s: Seq<&Node<T>>) -> Seq<T>
    decreases s.len(),
{
    if s.len() == 0 {
        Seq::empty()
    } else {
        node_seq(*s[0]) + nodes_seq(s.drop_first())
    }
}

/// Iterator over environment entries.
#[derive(Debug)]
pub struct EnvIter<'a, T> {
    /// Pending tree nodes to visit (in-order traversal).
    pending: Vec<&'a Node<T>>,
}

impl<'a, T> View for EnvIter<'a, T> {
    type V = Seq<T>;

    /// The values still to come.
    closed spec fn view(&self) -> Seq<T> {
        nodes_seq(self.pending@)
    }
}

impl<'a, T> EnvIter<'a, T> {
    /// The next value, or `None` once every value has been visited.
    pub fn next(&mut self) -> (r: Option<&'a T>)
        ensures
            match r {
                Some(x) => old(self)@.len() > 0 && *x == old(self)@[0] && final(self)@ == old(self)@.drop_first(),
                None => old(self)@.len() == 0 && final(self)@ == old(self)@,
            },
    {
        if self.pending.len() == 0 {
            return None;
        }
        let node = self.pending.remove(0);
        let ghost rest = self.pending@;
        match node {
            Node::Leaf(val) => {
                proof {
                    assert(old(self)@ =~= seq![*val] + nodes_seq(rest));
                    assert(old(self)@.drop_first() =~= nodes_seq(rest));
                }
                Some(val)
            },
            Node::Branch(val, left, right) => {
                self.pending.insert(0, &**right);
                self.pending.insert(0, &**left);
                proof {
                    let p = self.pending@;
                    assert(p.drop_first().drop_first() =~= rest);
                    assert(p[0] == &**left);
                    assert(p.drop_first()[0] == &**right);
                    assert(nodes_seq(p.drop_first()) == node_seq(**right) + nodes_seq(p.drop_first().drop_first()));
                    assert(nodes_seq(p) == node_seq(**left) + nodes_seq(p.drop_first()));
                    assert(nodes_seq(p) =~= node_seq(**left) + (node_seq(**right) + nodes_seq(rest)));
                    assert(old(self)@.drop_first() =~= nodes_seq(p));
                }
                Some(val)
            },
        }
    }

    /// All the remaining values, in the order `next` yields them: for an
    /// iterator from `iter`, index 0 (the most recent binding) first, as
    /// `get(0), get(1), ...` give them.
    pub fn to_vec(self) -> (r: Vec<&'a T>)
        ensures
            r@.len() == self@.len(),
            forall|i: int| 0 <= i < r@.len() ==> *(#[trigger] r@[i]) == self@[i],
    {
        let ghost all = self@;
        let mut it = self;
        let mut out: Vec<&'a T> = Vec::new();
        loop
            invariant
                out@.len() + it@.len() == all.len(),
                it@ == all.skip(out@.len() as int),
                forall|i: int| 0 <= i < out@.len() ==> *(#[trigger] out@[i]) == all[i],
            ensures
                out@.len() == all.len(),
                forall|i: int| 0 <= i < out@.len() ==> *(#[trigger] out@[i]) == all[i],
            decreases it@.len(),
        {
            let ghost k = out@.len() as int;
            match it.next() {
                Some(x) => {
                    proof {
                        assert(all.skip(k)[0] == all[k]);
                        assert(all.skip(k).drop_first() =~= all.skip(k + 1));
                    }
                    out.push(x);
                },
                None => {
                    break;
                },
            }
        }
        out
    }
}

/// What a read gives back of a push: after pushing `v` onto an environment
/// holding `s`, index `0` holds `v` and index `i + 1` holds what index `i`
/// held; the length grows by one.
pub proof fn lemma_push_get<T>(s: Seq<T>, v: T, i: int)
    ensures
        (seq![v] + s).len() == s.len() + 1,
        (seq![v] + s)[0] == v,
        0 <= i < s.len() ==> (seq![v] + s)[i + 1] == s[i],
{
}

/// The values of an environment holding `s` after `vals` are pushed one
/// after another, `vals[0]` first.
pub open spec fn pushed<T>(s: Seq<T>, vals: Seq<T>) -> Seq<T>
    decreases vals.len(),
{
    if vals.len() == 0 {
        s
    } else {
        seq![vals.last()] + pushed(s, vals.drop_last())
    }
}

/// One more push: pushing `x` onto an environment holding `pushed(s, vals)`
/// (which `push` gives as `seq![x] + pushed(s, vals)`) holds
/// `pushed(s, vals.push(x))`, so `n` calls of `push` give `pushed`.
pub proof fn lemma_pushed_step<T>(s: Seq<T>, vals: Seq<T>, x: T)
    ensures
        seq![x] + pushed(s, vals) == pushed(s, vals.push(x)),
{
    assert(vals.push(x).drop_last() =~= vals);
}

/// The stack law: after `n` pushes of `x_0, ..., x_{n-1}` onto an
/// environment holding `s`, `get(k)` for `k < n` gives `x_{n-1-k}`, and
/// `get(n + j)` gives what `get(j)` gave before (`get` reads the view).
pub proof fn lemma_push_stack<T>(s: Seq<T>, vals: Seq<T>)
    ensures
        pushed(s, vals).len() == s.len() + vals.len(),
        forall|k: int| 0 <= k < vals.len() ==> #[trigger] pushed(s, vals)[k] == vals[vals.len() - 1 - k],
        forall|j: int| 0 <= j < s.len() ==> #[trigger] pushed(s, vals)[vals.len() + j] == s[j],
    decreases vals.len(),
{
    if vals.len() > 0 {
        let rest = vals.drop_last();
        lemma_push_stack(s, rest);
        assert forall|k: int| 0 <= k < vals.len() implies #[trigger] pushed(s, vals)[k] == vals[vals.len() - 1 - k] by {
            if k > 0 {
                assert(pushed(s, vals)[k] == pushed(s, rest)[k - 1]);
                assert(rest[rest.len() - 1 - (k - 1)] == vals[vals.len() - 1 - k]);
            }
        }
        assert forall|j: int| 0 <= j < s.len() implies #[trigger] pushed(s, vals)[vals.len() + j] == s[j] by {
            assert(pushed(s, vals)[vals.len() + j] == pushed(s, rest)[rest.len() + j]);
        }
    }
}

/// Walking an iterator over values `s`: after `k` calls of `next`, the
/// next call yields `s[k]` and leaves `s[k + 1..]`, so the calls yield
/// `s[0], s[1], ...` in order (what `get(0), get(1), ...` give).
pub proof fn lemma_iter_order<T>(s: Seq<T>, k: int)
    requires
        0 <= k < s.len(),
    ensures
        s.skip(k).len() > 0,
        s.skip(k)[0] == s[k],
        s.skip(k).drop_first() == s.skip(k + 1),
{
    assert(s.skip(k).drop_first() =~= s.skip(k + 1));
}

} // verus!
