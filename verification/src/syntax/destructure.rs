//! Destructuring expressions of a context: views, operands, symbols, free
//! variables and sizes.

use vstd::prelude::*;

use std::collections::{BTreeMap, BTreeSet};

use super::context::{children_of, is_arith, node_ok, operand_bound, typ_at, visited_ids, Context, VisitedSet};
use super::expr::{
    arith_ids, expr_ids, formula_ids, ids_view, node_key, ArithCmp, ArithTerm, ArithTermView, ArrTerm, ArrTermView, Atom,
    Expr, ExprId, Formula, FormulaView, NodeKey, Proposition, Quantifier, SExprNode,
};
use super::symbol::{Symbol, SymbolSet};
use super::types::{TypArith, TypFo};

verus! {

broadcast use vstd::laws_cmp::group_laws_cmp;

/// Node `j` can be reached from node `i` by following operands.
pub open spec fn reaches(keys: Seq<NodeKey>, i: int, j: int) -> bool
    decreases i, operand_bound(keys, i),
{
    if 0 <= i < keys.len() {
        i == j || reaches_some(keys, children_of(keys[i]), children_of(keys[i]).len() as int, i, j)
    } else {
        false
    }
}

/// Node `j` can be reached from one of the first `n` operands `cs` of node `i`.
pub open spec fn reaches_some(keys: Seq<NodeKey>, cs: Seq<u32>, n: int, i: int, j: int) -> bool
    decreases i, n,
{
    if n <= 0 || n > cs.len() {
        false
    } else {
        (cs[n - 1] < i && reaches(keys, cs[n - 1] as int, j)) || reaches_some(keys, cs, n - 1, i, j)
    }
}

/// Node `j` applies symbol `s`.
pub open spec fn applies(keys: Seq<NodeKey>, j: int, s: u32) -> bool {
    match keys[j] {
        NodeKey::App(x, _) => x == s,
        _ => false,
    }
}

/// The symbols applied in the nodes reachable from `i`.
pub open spec fn symbols_below(keys: Seq<NodeKey>, i: int) -> Set<u32> {
    Set::new(|s: u32| exists|j: int| #[trigger] reaches(keys, i, j) && applies(keys, j, s))
}

/// A node that binds one variable for its body.
pub open spec fn is_binder(n: NodeKey) -> bool {
    n is Exists || n is Forall
}

/// The variable `idx` of type `t` occurs free in node `i` when it is met
/// under `d` binders: a variable node `Var(idx + d, t)` below `i`, counting
/// each quantifier passed on the way down.
pub open spec fn free_at(keys: Seq<NodeKey>, i: int, d: nat, idx: u32, t: TypFo) -> bool
    decreases i, 1int,
{
    if 0 <= i < keys.len() {
        match keys[i] {
            NodeKey::Var(x, u) => x >= d && x - d == idx && u == t,
            NodeKey::Exists(_, _, b) => b < i && free_at(keys, b as int, d + 1, idx, t),
            NodeKey::Forall(_, _, b) => b < i && free_at(keys, b as int, d + 1, idx, t),
            _ => free_some(keys, children_of(keys[i]), children_of(keys[i]).len() as int, i, d, idx, t),
        }
    } else {
        false
    }
}

/// The variable occurs free (under `d` binders) in one of the first `n`
/// operands `cs` of node `i`.
pub open spec fn free_some(keys: Seq<NodeKey>, cs: Seq<u32>, n: int, i: int, d: nat, idx: u32, t: TypFo) -> bool
    decreases i, 0int, n,
{
    if n <= 0 || n > cs.len() {
        false
    } else {
        (cs[n - 1] < i && free_at(keys, cs[n - 1] as int, d, idx, t)) || free_some(keys, cs, n - 1, i, d, idx, t)
    }
}

/// Looking through one more operand.
proof fn lemma_free_some_step(keys: Seq<NodeKey>, cs: Seq<u32>, k: int, i: int, d: nat, idx: u32, t: TypFo)
    requires
        0 <= k < cs.len(),
    ensures
        free_some(keys, cs, k + 1, i, d, idx, t) == ((cs[k] < i && free_at(keys, cs[k] as int, d, idx, t)) || free_some(
            keys,
            cs,
            k,
            i,
            d,
            idx,
            t,
        )),
{
}

/// Looking through more operands keeps what was found.
proof fn lemma_free_some_mono(keys: Seq<NodeKey>, cs: Seq<u32>, n: int, m: int, i: int, d: nat, idx: u32, t: TypFo)
    requires
        0 <= n <= m <= cs.len(),
        free_some(keys, cs, n, i, d, idx, t),
    ensures
        free_some(keys, cs, m, i, d, idx, t),
    decreases m - n,
{
    if n < m {
        lemma_free_some_mono(keys, cs, n, m - 1, i, d, idx, t);
    }
}

/// Reaching through one more operand.
proof fn lemma_reaches_some_step(keys: Seq<NodeKey>, cs: Seq<u32>, k: int, i: int, j: int)
    requires
        0 <= k < cs.len(),
    ensures
        reaches_some(keys, cs, k + 1, i, j) == ((cs[k] < i && reaches(keys, cs[k] as int, j)) || reaches_some(keys, cs, k, i, j)),
{
}

/// `std::collections::BTreeSet::insert` on symbols: the set gains `s`.
/// Symbols are ordered by their derived `Ord`, which orders their indices.
#[verifier::external_body]
fn symbol_set_insert(set: &mut SymbolSet, s: Symbol)
    ensures
        final(set)@ == old(set)@.insert(s),
{
    set.insert(s);
}

/// Every handle of the list is an arithmetic term of `ctx`.
pub open spec fn all_arith_ok<C>(ctx: &Context<C>, ts: Seq<ArithTerm<C>>) -> bool {
    forall|k: int| 0 <= k < ts.len() ==> ctx.arith_ok(#[trigger] ts[k])
}

/// Every handle of the list is a formula of `ctx`.
pub open spec fn all_formula_ok<C>(ctx: &Context<C>, fs: Seq<Formula<C>>) -> bool {
    forall|k: int| 0 <= k < fs.len() ==> ctx.formula_ok(#[trigger] fs[k])
}

/// Every expression of the list belongs to `ctx`.
pub open spec fn all_expr_ok<C>(ctx: &Context<C>, es: Seq<Expr<C>>) -> bool {
    forall|k: int| 0 <= k < es.len() ==> ctx.expr_ok(#[trigger] es[k])
}

/// `v` is the destructured form of the arithmetic term `t`.
pub open spec fn arith_view_of<C>(ctx: &Context<C>, t: ArithTerm<C>, v: ArithTermView<C>) -> bool {
    match (ctx.keys()[t@ as int], v) {
        (NodeKey::Real(n, d), ArithTermView::Real(q)) => q@ == (n, d),
        (NodeKey::App(s, cs), ArithTermView::App(sym, es)) => sym@ == s && expr_ids(es@) == cs && all_expr_ok(ctx, es@),
        (NodeKey::Var(i, ty), ArithTermView::Var(j, ta)) => i == j && ta == (if ty == TypFo::Int {
            TypArith::Int
        } else {
            TypArith::Real
        }),
        (NodeKey::Add(cs), ArithTermView::Add(ts)) => arith_ids(ts@) == cs && all_arith_ok(ctx, ts@),
        (NodeKey::Mul(cs), ArithTermView::Mul(ts)) => arith_ids(ts@) == cs && all_arith_ok(ctx, ts@),
        (NodeKey::Div(a, b), ArithTermView::Div(x, y)) => x@ == a && y@ == b && ctx.arith_ok(x) && ctx.arith_ok(y),
        (NodeKey::Mod(a, b), ArithTermView::Mod(x, y)) => x@ == a && y@ == b && ctx.arith_ok(x) && ctx.arith_ok(y),
        (NodeKey::Floor(a), ArithTermView::Floor(x)) => x@ == a && ctx.arith_ok(x),
        (NodeKey::Neg(a), ArithTermView::Neg(x)) => x@ == a && ctx.arith_ok(x),
        (NodeKey::Select(a, b), ArithTermView::Select(x, y)) => x@ == a && y@ == b && ctx.arr_ok(x) && ctx.arith_ok(y),
        (NodeKey::Ite(c, a, b), ArithTermView::Ite(f, x, y)) => f@ == c && x@ == a && y@ == b && ctx.formula_ok(f) && ctx.arith_ok(x)
            && ctx.arith_ok(y),
        _ => false,
    }
}

/// `v` is the destructured form of the array term `t`.
pub open spec fn arr_view_of<C>(ctx: &Context<C>, t: ArrTerm<C>, v: ArrTermView<C>) -> bool {
    match (ctx.keys()[t@ as int], v) {
        (NodeKey::App(s, cs), ArrTermView::App(sym, es)) => sym@ == s && expr_ids(es@) == cs && all_expr_ok(ctx, es@),
        (NodeKey::Var(i, _), ArrTermView::Var(j)) => i == j,
        (NodeKey::Store(a, b, c), ArrTermView::Store(x, y, z)) => x@ == a && y@ == b && z@ == c && ctx.arr_ok(x) && ctx.arith_ok(y)
            && ctx.arith_ok(z),
        (NodeKey::Ite(c, a, b), ArrTermView::Ite(f, x, y)) => f@ == c && x@ == a && y@ == b && ctx.formula_ok(f) && ctx.arr_ok(x)
            && ctx.arr_ok(y),
        _ => false,
    }
}

/// `v` is the destructured form of the formula `f`.
pub open spec fn formula_view_of<C>(ctx: &Context<C>, f: Formula<C>, v: FormulaView<C>) -> bool {
    match (ctx.keys()[f@ as int], v) {
        (NodeKey::True, FormulaView::True) => true,
        (NodeKey::False, FormulaView::False) => true,
        (NodeKey::And(cs), FormulaView::And(fs)) => formula_ids(fs@) == cs && all_formula_ok(ctx, fs@),
        (NodeKey::Or(cs), FormulaView::Or(fs)) => formula_ids(fs@) == cs && all_formula_ok(ctx, fs@),
        (NodeKey::Not(a), FormulaView::Not(x)) => x@ == a && ctx.formula_ok(x),
        (NodeKey::Exists(n, ty, b), FormulaView::Quantify(q, name, t, x)) => q == Quantifier::Exists && name@ == n && t == ty && x@
            == b && ctx.formula_ok(x),
        (NodeKey::Forall(n, ty, b), FormulaView::Quantify(q, name, t, x)) => q == Quantifier::Forall && name@ == n && t == ty && x@
            == b && ctx.formula_ok(x),
        (NodeKey::Eq(a, b), FormulaView::Atom(Atom::Arith(op, x, y))) => op == ArithCmp::Eq && x@ == a && y@ == b && ctx.arith_ok(
            x,
        ) && ctx.arith_ok(y),
        (NodeKey::Leq(a, b), FormulaView::Atom(Atom::Arith(op, x, y))) => op == ArithCmp::Leq && x@ == a && y@ == b
            && ctx.arith_ok(x) && ctx.arith_ok(y),
        (NodeKey::Lt(a, b), FormulaView::Atom(Atom::Arith(op, x, y))) => op == ArithCmp::Lt && x@ == a && y@ == b && ctx.arith_ok(
            x,
        ) && ctx.arith_ok(y),
        (NodeKey::ArrEq(a, b), FormulaView::Atom(Atom::ArrEq(x, y))) => x@ == a && y@ == b && ctx.arr_ok(x) && ctx.arr_ok(y),
        (NodeKey::App(s, cs), FormulaView::Proposition(Proposition::App(sym, es))) => sym@ == s && expr_ids(es@) == cs
            && all_expr_ok(ctx, es@),
        (NodeKey::Var(i, _), FormulaView::Proposition(Proposition::Var(j))) => i == j,
        (NodeKey::Ite(c, a, b), FormulaView::Ite(x, y, z)) => x@ == c && y@ == a && z@ == b && ctx.formula_ok(x) && ctx.formula_ok(y)
            && ctx.formula_ok(z),
        _ => false,
    }
}

impl<C> Context<C> {
    /// Handles for a list of arithmetic operands.
    fn arith_list(&self, cs: &Vec<ExprId>) -> (r: Vec<ArithTerm<C>>)
        requires
            forall|k: int| 0 <= k < cs@.len() ==> (#[trigger] cs@[k])@ < self.keys().len() && is_arith(self.typ_of(cs@[k]@ as int)),
        ensures
            arith_ids(r@) == ids_view(cs@),
            all_arith_ok(self, r@),
    {
        let mut out: Vec<ArithTerm<C>> = Vec::new();
        let mut k: usize = 0;
        while k < cs.len()
            invariant
                k <= cs@.len(),
                out@.len() == k,
                forall|j: int| 0 <= j < k ==> (#[trigger] out@[j])@ == cs@[j]@,
                forall|j: int| 0 <= j < cs@.len() ==> (#[trigger] cs@[j])@ < self.keys().len() && is_arith(self.typ_of(cs@[j]@ as int)),
            decreases cs@.len() - k,
        {
            out.push(ArithTerm::of_id(cs[k]));
            k = k + 1;
        }
        proof {
            assert(arith_ids(out@) =~= ids_view(cs@));
            assert forall|j: int| 0 <= j < out@.len() implies self.arith_ok(#[trigger] out@[j]) by {
                assert(out@[j]@ == cs@[j]@);
            }
        }
        out
    }

    /// Handles for a list of formula operands.
    fn formula_list(&self, cs: &Vec<ExprId>) -> (r: Vec<Formula<C>>)
        requires
            forall|k: int| 0 <= k < cs@.len() ==> (#[trigger] cs@[k])@ < self.keys().len() && self.typ_of(cs@[k]@ as int) == TypFo::Bool,
        ensures
            formula_ids(r@) == ids_view(cs@),
            all_formula_ok(self, r@),
    {
        let mut out: Vec<Formula<C>> = Vec::new();
        let mut k: usize = 0;
        while k < cs.len()
            invariant
                k <= cs@.len(),
                out@.len() == k,
                forall|j: int| 0 <= j < k ==> (#[trigger] out@[j])@ == cs@[j]@,
                forall|j: int| 0 <= j < cs@.len() ==> (#[trigger] cs@[j])@ < self.keys().len() && self.typ_of(cs@[j]@ as int) == TypFo::Bool,
            decreases cs@.len() - k,
        {
            out.push(Formula::of_id(cs[k]));
            k = k + 1;
        }
        proof {
            assert(formula_ids(out@) =~= ids_view(cs@));
            assert forall|j: int| 0 <= j < out@.len() implies self.formula_ok(#[trigger] out@[j]) by {
                assert(out@[j]@ == cs@[j]@);
            }
        }
        out
    }

    /// Expressions for a list of operands, classified by their types.
    fn expr_list(&self, cs: &Vec<ExprId>) -> (r: Vec<Expr<C>>)
        requires
            self.wf(),
            forall|k: int| 0 <= k < cs@.len() ==> (#[trigger] cs@[k])@ < self.keys().len(),
        ensures
            expr_ids(r@) == ids_view(cs@),
            all_expr_ok(self, r@),
    {
        let mut out: Vec<Expr<C>> = Vec::new();
        let mut k: usize = 0;
        while k < cs.len()
            invariant
                self.wf(),
                k <= cs@.len(),
                out@.len() == k,
                forall|j: int| 0 <= j < k ==> super::expr::expr_id(#[trigger] out@[j]) == cs@[j]@ && self.expr_ok(out@[j]),
                forall|j: int| 0 <= j < cs@.len() ==> (#[trigger] cs@[j])@ < self.keys().len(),
            decreases cs@.len() - k,
        {
            let e = self.id_to_expr_pub(cs[k]);
            out.push(e);
            k = k + 1;
        }
        proof {
            assert(expr_ids(out@) =~= ids_view(cs@));
        }
        out
    }

    /// Destructure an arithmetic term.
    pub fn view_arith_term(&self, t: ArithTerm<C>) -> (r: ArithTermView<C>)
        requires
            self.wf(),
            self.arith_ok(t),
        ensures
            arith_view_of(self, t, r),
    {
        let ghost i = t@ as int;
        let ghost keys = self.keys();
        let ghost syms = self.syms();
        proof {
            self.lemma_wf_node(i);
        }
        let node = self.node(t.node_id());
        let ghost ch = children_of(keys[i]);
        match node {
            SExprNode::Real(q) => ArithTermView::Real(q.clone()),
            SExprNode::App(sym, args) => {
                proof {
                    assert forall|k: int| 0 <= k < args@.len() implies (#[trigger] args@[k])@ < keys.len() by {
                        assert(ch[k] == args@[k]@);
                    }
                }
                ArithTermView::App(*sym, self.expr_list(args))
            },
            SExprNode::Var(idx, typ) => {
                let at = match typ {
                    TypFo::Int => TypArith::Int,
                    _ => TypArith::Real,
                };
                ArithTermView::Var(*idx, at)
            },
            SExprNode::Add(cs) => {
                proof {
                    assert forall|k: int| 0 <= k < cs@.len() implies (#[trigger] cs@[k])@ < keys.len() && is_arith(self.typ_of(cs@[k]@ as int)) by {
                        assert(ch[k] == cs@[k]@);
                        assert(ids_view(cs@)[k] == cs@[k]@);
                    }
                }
                ArithTermView::Add(self.arith_list(cs))
            },
            SExprNode::Mul(cs) => {
                proof {
                    assert forall|k: int| 0 <= k < cs@.len() implies (#[trigger] cs@[k])@ < keys.len() && is_arith(self.typ_of(cs@[k]@ as int)) by {
                        assert(ch[k] == cs@[k]@);
                        assert(ids_view(cs@)[k] == cs@[k]@);
                    }
                }
                ArithTermView::Mul(self.arith_list(cs))
            },
            SExprNode::Div(a, b) => {
                proof {
                    assert(ch[0] < i && ch[1] < i);
                }
                ArithTermView::Div(ArithTerm::of_id(*a), ArithTerm::of_id(*b))
            },
            SExprNode::Mod(a, b) => {
                proof {
                    assert(ch[0] < i && ch[1] < i);
                }
                ArithTermView::Mod(ArithTerm::of_id(*a), ArithTerm::of_id(*b))
            },
            SExprNode::Floor(a) => {
                proof {
                    assert(ch[0] < i);
                }
                ArithTermView::Floor(ArithTerm::of_id(*a))
            },
            SExprNode::Neg(a) => {
                proof {
                    assert(ch[0] < i);
                }
                ArithTermView::Neg(ArithTerm::of_id(*a))
            },
            SExprNode::Select(arr, idx) => {
                proof {
                    assert(ch[0] < i && ch[1] < i);
                }
                ArithTermView::Select(ArrTerm::of_id(*arr), ArithTerm::of_id(*idx))
            },
            SExprNode::Ite(cond, then_, else_) => {
                proof {
                    assert(ch[0] < i && ch[1] < i && ch[2] < i);
                }
                ArithTermView::Ite(Formula::of_id(*cond), ArithTerm::of_id(*then_), ArithTerm::of_id(*else_))
            },
            _ => {
                proof {
                    assert(!is_arith(self.typ_of(i)));
                }
                ArithTermView::Var(0, TypArith::Int)
            },
        }
    }

    /// Destructure an array term.
    pub fn view_arr_term(&self, t: ArrTerm<C>) -> (r: ArrTermView<C>)
        requires
            self.wf(),
            self.arr_ok(t),
        ensures
            arr_view_of(self, t, r),
    {
        let ghost i = t@ as int;
        let ghost keys = self.keys();
        proof {
            self.lemma_wf_node(i);
        }
        let node = self.node(t.node_id());
        let ghost ch = children_of(keys[i]);
        match node {
            SExprNode::App(sym, args) => {
                proof {
                    assert forall|k: int| 0 <= k < args@.len() implies (#[trigger] args@[k])@ < keys.len() by {
                        assert(ch[k] == args@[k]@);
                    }
                }
                ArrTermView::App(*sym, self.expr_list(args))
            },
            SExprNode::Var(idx, _) => ArrTermView::Var(*idx),
            SExprNode::Store(arr, idx, val) => {
                proof {
                    assert(ch[0] < i && ch[1] < i && ch[2] < i);
                }
                ArrTermView::Store(ArrTerm::of_id(*arr), ArithTerm::of_id(*idx), ArithTerm::of_id(*val))
            },
            SExprNode::Ite(cond, then_, else_) => {
                proof {
                    assert(ch[0] < i && ch[1] < i && ch[2] < i);
                }
                ArrTermView::Ite(Formula::of_id(*cond), ArrTerm::of_id(*then_), ArrTerm::of_id(*else_))
            },
            _ => {
                proof {
                    assert(self.typ_of(i) != TypFo::Arr);
                }
                ArrTermView::Var(0)
            },
        }
    }

    /// Destructure a formula.
    pub fn view_formula(&self, f: Formula<C>) -> (r: FormulaView<C>)
        requires
            self.wf(),
            self.formula_ok(f),
        ensures
            formula_view_of(self, f, r),
    {
        let ghost i = f@ as int;
        let ghost keys = self.keys();
        proof {
            self.lemma_wf_node(i);
        }
        let node = self.node(f.node_id());
        let ghost ch = children_of(keys[i]);
        match node {
            SExprNode::True => FormulaView::True,
            SExprNode::False => FormulaView::False,
            SExprNode::And(cs) => {
                proof {
                    assert forall|k: int| 0 <= k < cs@.len() implies (#[trigger] cs@[k])@ < keys.len() && self.typ_of(cs@[k]@ as int)
                        == TypFo::Bool by {
                        assert(ch[k] == cs@[k]@);
                        assert(ids_view(cs@)[k] == cs@[k]@);
                    }
                }
                FormulaView::And(self.formula_list(cs))
            },
            SExprNode::Or(cs) => {
                proof {
                    assert forall|k: int| 0 <= k < cs@.len() implies (#[trigger] cs@[k])@ < keys.len() && self.typ_of(cs@[k]@ as int)
                        == TypFo::Bool by {
                        assert(ch[k] == cs@[k]@);
                        assert(ids_view(cs@)[k] == cs@[k]@);
                    }
                }
                FormulaView::Or(self.formula_list(cs))
            },
            SExprNode::Not(a) => {
                proof {
                    assert(ch[0] < i);
                }
                FormulaView::Not(Formula::of_id(*a))
            },
            SExprNode::Exists(name, typ, body) => {
                proof {
                    assert(ch[0] < i);
                }
                FormulaView::Quantify(Quantifier::Exists, name.clone(), *typ, Formula::of_id(*body))
            },
            SExprNode::Forall(name, typ, body) => {
                proof {
                    assert(ch[0] < i);
                }
                FormulaView::Quantify(Quantifier::Forall, name.clone(), *typ, Formula::of_id(*body))
            },
            SExprNode::Eq(a, b) => {
                proof {
                    assert(ch[0] < i && ch[1] < i);
                }
                FormulaView::Atom(Atom::Arith(ArithCmp::Eq, ArithTerm::of_id(*a), ArithTerm::of_id(*b)))
            },
            SExprNode::Leq(a, b) => {
                proof {
                    assert(ch[0] < i && ch[1] < i);
                }
                FormulaView::Atom(Atom::Arith(ArithCmp::Leq, ArithTerm::of_id(*a), ArithTerm::of_id(*b)))
            },
            SExprNode::Lt(a, b) => {
                proof {
                    assert(ch[0] < i && ch[1] < i);
                }
                FormulaView::Atom(Atom::Arith(ArithCmp::Lt, ArithTerm::of_id(*a), ArithTerm::of_id(*b)))
            },
            SExprNode::ArrEq(a, b) => {
                proof {
                    assert(ch[0] < i && ch[1] < i);
                }
                FormulaView::Atom(Atom::ArrEq(ArrTerm::of_id(*a), ArrTerm::of_id(*b)))
            },
            SExprNode::App(sym, args) => {
                proof {
                    assert forall|k: int| 0 <= k < args@.len() implies (#[trigger] args@[k])@ < keys.len() by {
                        assert(ch[k] == args@[k]@);
                    }
                }
                let exprs = self.expr_list(args);
                FormulaView::Proposition(Proposition::App(*sym, exprs))
            },
            SExprNode::Var(idx, _) => FormulaView::Proposition(Proposition::Var(*idx)),
            SExprNode::Ite(cond, then_, else_) => {
                proof {
                    assert(ch[0] < i && ch[1] < i && ch[2] < i);
                }
                FormulaView::Ite(Formula::of_id(*cond), Formula::of_id(*then_), Formula::of_id(*else_))
            },
            _ => {
                proof {
                    assert(self.typ_of(i) != TypFo::Bool);
                }
                FormulaView::True
            },
        }
    }
}


/// `n`, or `usize::MAX` where `n` exceeds it.
pub open spec fn capped(n: nat) -> int {
    if n > usize::MAX {
        usize::MAX as int
    } else {
        n as int
    }
}

/// A depth-first walk from node `i` with the nodes `vis` already marked: the
/// number of nodes it newly marks and the nodes marked after it. A marked
/// node counts nothing; an unmarked node is marked, then counts one plus the
/// counts of its operands, walked in order.
pub open spec fn walk_count(keys: Seq<NodeKey>, i: u32, vis: Set<u32>) -> (nat, Set<u32>)
    decreases i, 1int, 0int,
{
    if vis.contains(i) {
        (0, vis)
    } else {
        let w = walk_children(keys, i, children_of(keys[i as int]).len() as int, vis.insert(i));
        (1 + w.0, w.1)
    }
}

/// The walk over the first `k` operands of node `p`, in order, starting with
/// the nodes `vis` marked: the sum of their counts and the nodes marked after.
pub open spec fn walk_children(keys: Seq<NodeKey>, p: u32, k: int, vis: Set<u32>) -> (nat, Set<u32>)
    decreases p, 0int, k,
{
    if k <= 0 {
        (0, vis)
    } else {
        let a = walk_children(keys, p, k - 1, vis);
        let c = children_of(keys[p as int])[k - 1];
        if c < p {
            let b = walk_count(keys, c, a.1);
            (a.0 + b.0, b.1)
        } else {
            a
        }
    }
}

impl<C> Context<C> {
    /// The operands of node `id`.
    fn children(&self, id: ExprId) -> (r: Vec<ExprId>)
        requires
            self.wf(),
            id@ < self.keys().len(),
        ensures
            ids_view(r@) == children_of(self.keys()[id@ as int]),
    {
        match self.node(id) {
            SExprNode::Real(_) | SExprNode::True | SExprNode::False | SExprNode::Var(_, _) => {
                proof {
                    assert(ids_view(Seq::<ExprId>::empty()) =~= Seq::<u32>::empty());
                }
                Vec::new()
            },
            SExprNode::Add(cs) | SExprNode::Mul(cs) | SExprNode::And(cs) | SExprNode::Or(cs) => super::expr::copy_ids(cs),
            SExprNode::App(_, cs) => super::expr::copy_ids(cs),
            SExprNode::Div(a, b) | SExprNode::Mod(a, b) | SExprNode::Eq(a, b) | SExprNode::Leq(a, b) | SExprNode::Lt(a, b)
            | SExprNode::ArrEq(a, b) | SExprNode::Select(a, b) => {
                let v = vec![*a, *b];
                proof {
                    assert(ids_view(v@) =~= seq![a@, b@]);
                }
                v
            },
            SExprNode::Floor(a) | SExprNode::Neg(a) | SExprNode::Not(a) => {
                let v = vec![*a];
                proof {
                    assert(ids_view(v@) =~= seq![a@]);
                }
                v
            },
            SExprNode::Exists(_, _, a) | SExprNode::Forall(_, _, a) => {
                let v = vec![*a];
                proof {
                    assert(ids_view(v@) =~= seq![a@]);
                }
                v
            },
            SExprNode::Store(a, b, c) | SExprNode::Ite(a, b, c) => {
                let v = vec![*a, *b, *c];
                proof {
                    assert(ids_view(v@) =~= seq![a@, b@, c@]);
                }
                v
            },
        }
    }

    /// Collect the set of constant symbols that appear in `expr`.
    pub fn symbols(&self, expr: &Expr<C>) -> (r: SymbolSet)
        requires
            self.wf(),
            super::expr::expr_id(*expr) < self.keys().len(),
        ensures
            forall|s: Symbol| #[trigger] r@.contains(s) <==> symbols_below(self.keys(), super::expr::expr_id(*expr) as int).contains(s@),
    {
        let mut result = SymbolSet::new();
        self.symbols_rec(expr.id(), &mut result);
        result
    }

    fn symbols_rec(&self, id: ExprId, result: &mut SymbolSet)
        requires
            self.wf(),
            id@ < self.keys().len(),
        ensures
            forall|s: Symbol| #[trigger] final(result)@.contains(s) <==> (old(result)@.contains(s) || symbols_below(self.keys(), id@ as int).contains(s@)),
        decreases id@,
    {
        let ghost keys = self.keys();
        let ghost i = id@ as int;
        let ghost start = result@;
        proof {
            self.lemma_wf_node(i);
        }
        match self.node(id) {
            SExprNode::App(sym, _) => {
                symbol_set_insert(result, *sym);
                proof {
                    assert forall|s: Symbol| applies(keys, i, s@) <==> s == *sym by {
                        super::symbol::lemma_symbol_index(s, *sym);
                    }
                }
            },
            _ => {},
        }
        let ch = self.children(id);
        let ghost cs = ids_view(ch@);
        let mut k: usize = 0;
        while k < ch.len()
            invariant
                self.wf(),
                keys == self.keys(),
                0 <= i < keys.len(),
                cs == ids_view(ch@),
                cs == children_of(keys[i]),
                node_ok(keys, self.syms(), i),
                i == id@,
                k <= ch@.len(),
                forall|s: Symbol| #[trigger] result@.contains(s) <==> (start.contains(s) || applies(keys, i, s@) || exists|j: int|
                    #[trigger] reaches_some(keys, cs, k as int, i, j) && applies(keys, j, s@)),
            decreases ch@.len() - k,
        {
            proof {
                assert(cs[k as int] == ch@[k as int]@);
                assert(cs[k as int] < i);
            }
            let ghost before = result@;
            self.symbols_rec(ch[k], result);
            proof {
                assert forall|s: Symbol| #[trigger] result@.contains(s) <==> (start.contains(s) || applies(keys, i, s@) || exists|j: int|
                    #[trigger] reaches_some(keys, cs, k + 1, i, j) && applies(keys, j, s@)) by {
                    if result@.contains(s) && !before.contains(s) {
                        let j = choose|j: int| #[trigger] reaches(keys, cs[k as int] as int, j) && applies(keys, j, s@);
                        lemma_reaches_some_step(keys, cs, k as int, i, j);
                    }
                    if before.contains(s) && !start.contains(s) && !applies(keys, i, s@) {
                        let j = choose|j: int| #[trigger] reaches_some(keys, cs, k as int, i, j) && applies(keys, j, s@);
                        lemma_reaches_some_step(keys, cs, k as int, i, j);
                    }
                    if exists|j: int| #[trigger] reaches_some(keys, cs, k + 1, i, j) && applies(keys, j, s@) {
                        let j = choose|j: int| #[trigger] reaches_some(keys, cs, k + 1, i, j) && applies(keys, j, s@);
                        lemma_reaches_some_step(keys, cs, k as int, i, j);
                        if reaches(keys, cs[k as int] as int, j) {
                            assert(symbols_below(keys, cs[k as int] as int).contains(s@));
                        }
                    }
                }
            }
            k = k + 1;
        }
        proof {
            assert forall|s: Symbol| #[trigger] result@.contains(s) <==> (start.contains(s) || symbols_below(keys, i).contains(s@)) by {
                if applies(keys, i, s@) {
                    assert(reaches(keys, i, i));
                }
                if exists|j: int| #[trigger] reaches_some(keys, cs, cs.len() as int, i, j) && applies(keys, j, s@) {
                    let j = choose|j: int| #[trigger] reaches_some(keys, cs, cs.len() as int, i, j) && applies(keys, j, s@);
                    assert(reaches(keys, i, j));
                }
                if symbols_below(keys, i).contains(s@) {
                    let j = choose|j: int| #[trigger] reaches(keys, i, j) && applies(keys, j, s@);
                    if j != i {
                        assert(reaches_some(keys, cs, cs.len() as int, i, j));
                    }
                }
            }
        }
    }

    /// Collect free de Bruijn variable indices and their types: a variable
    /// `idx` met under `d` binders is free when `idx >= d`, and is reported
    /// as `idx - d`. Where one index occurs with several types, the last one
    /// met is kept.
    pub fn free_vars(&self, expr: &Expr<C>) -> (r: BTreeMap<u32, TypFo>)
        requires
            self.wf(),
            super::expr::expr_id(*expr) < self.keys().len(),
        ensures
            forall|idx: u32| #[trigger] r@.contains_key(idx) ==> free_at(self.keys(), super::expr::expr_id(*expr) as int, 0, idx, r@[idx]),
            forall|idx: u32, t: TypFo| #[trigger] free_at(self.keys(), super::expr::expr_id(*expr) as int, 0, idx, t) ==> r@.contains_key(idx),
    {
        let mut result: BTreeMap<u32, TypFo> = BTreeMap::new();
        self.free_vars_rec(expr.id(), 0, &mut result);
        result
    }

    fn free_vars_rec(&self, id: ExprId, depth: u32, result: &mut BTreeMap<u32, TypFo>)
        requires
            self.wf(),
            depth + id@ < self.keys().len(),
        ensures
            forall|idx: u32| #[trigger] final(result)@.contains_key(idx) ==> (old(result)@.contains_key(idx) && final(result)@[idx] == old(
                result,
            )@[idx]) || free_at(self.keys(), id@ as int, depth as nat, idx, final(result)@[idx]),
            forall|idx: u32| #[trigger] old(result)@.contains_key(idx) ==> final(result)@.contains_key(idx),
            forall|idx: u32, t: TypFo| #[trigger] free_at(self.keys(), id@ as int, depth as nat, idx, t) ==> final(result)@.contains_key(idx),
        decreases id@,
    {
        let ghost keys = self.keys();
        let ghost i = id@ as int;
        let ghost start = result@;
        proof {
            self.lemma_wf_node(i);
        }
        match self.node(id) {
            SExprNode::Var(idx, typ) => {
                if *idx >= depth {
                    result.insert(*idx - depth, *typ);
                }
                proof {
                    assert(keys[i] == NodeKey::Var(*idx, *typ));
                    assert forall|x: u32, t: TypFo| #[trigger] free_at(keys, i, depth as nat, x, t) implies result@.contains_key(x) by {
                        assert(x == *idx - depth);
                    }
                }
                return;
            },
            SExprNode::Exists(_, _, b) => {
                proof {
                    assert(children_of(keys[i])[0] == b@);
                }
                self.free_vars_rec(*b, depth + 1, result);
                proof {
                    assert(keys[i] is Exists && keys[i]->Exists_2 == b@);
                    assert forall|x: u32, t: TypFo| #[trigger] free_at(keys, i, depth as nat, x, t) implies result@.contains_key(x) by {
                        assert(free_at(keys, b@ as int, (depth + 1) as nat, x, t));
                    }
                }
                return;
            },
            SExprNode::Forall(_, _, b) => {
                proof {
                    assert(children_of(keys[i])[0] == b@);
                }
                self.free_vars_rec(*b, depth + 1, result);
                proof {
                    assert(keys[i] is Forall && keys[i]->Forall_2 == b@);
                    assert forall|x: u32, t: TypFo| #[trigger] free_at(keys, i, depth as nat, x, t) implies result@.contains_key(x) by {
                        assert(free_at(keys, b@ as int, (depth + 1) as nat, x, t));
                    }
                }
                return;
            },
            _ => {},
        }
        let ch = self.children(id);
        let ghost cs = ids_view(ch@);
        let mut k: usize = 0;
        while k < ch.len()
            invariant
                self.wf(),
                keys == self.keys(),
                0 <= i < keys.len(),
                cs == ids_view(ch@),
                cs == children_of(keys[i]),
                node_ok(keys, self.syms(), i),
                i == id@,
                depth + id@ < keys.len(),
                !is_binder(keys[i]),
                k <= ch@.len(),
                forall|idx: u32| #[trigger] result@.contains_key(idx) ==> (start.contains_key(idx) && result@[idx] == start[idx])
                    || free_at(keys, i, depth as nat, idx, result@[idx]),
                forall|idx: u32| #[trigger] start.contains_key(idx) ==> result@.contains_key(idx),
                forall|idx: u32, t: TypFo| #[trigger] free_some(keys, cs, k as int, i, depth as nat, idx, t) ==> result@.contains_key(idx),
            decreases ch@.len() - k,
        {
            proof {
                assert(cs[k as int] == ch@[k as int]@);
                assert(cs[k as int] < i);
            }
            let ghost before = result@;
            self.free_vars_rec(ch[k], depth, result);
            proof {
                assert forall|idx: u32| #[trigger] result@.contains_key(idx) implies (start.contains_key(idx) && result@[idx] == start[idx])
                    || free_at(keys, i, depth as nat, idx, result@[idx]) by {
                    if !(before.contains_key(idx) && result@[idx] == before[idx]) {
                        lemma_free_some_step(keys, cs, k as int, i, depth as nat, idx, result@[idx]);
                        lemma_free_some_mono(keys, cs, k + 1, cs.len() as int, i, depth as nat, idx, result@[idx]);
                    }
                }
                assert forall|idx: u32, t: TypFo| #[trigger] free_some(keys, cs, k + 1, i, depth as nat, idx, t) implies result@.contains_key(
                    idx,
                ) by {
                    lemma_free_some_step(keys, cs, k as int, i, depth as nat, idx, t);
                }
            }
            k = k + 1;
        }
        proof {
            assert forall|x: u32, t: TypFo| #[trigger] free_at(keys, i, depth as nat, x, t) implies result@.contains_key(x) by {
                assert(free_some(keys, cs, cs.len() as int, i, depth as nat, x, t));
            }
        }
    }

    /// Count the distinct sub-expression nodes of `expr`: a node shared by
    /// several operands is counted once. The count saturates at `usize::MAX`.
    pub fn size(&self, expr: &Expr<C>) -> (r: usize)
        requires
            self.wf(),
            super::expr::expr_id(*expr) < self.keys().len(),
        ensures
            r as int == capped(walk_count(self.keys(), super::expr::expr_id(*expr), Set::<u32>::empty()).0),
    {
        let mut visited = super::context::visited_new_pub();
        self.size_rec(expr.id(), &mut visited)
    }

    fn size_rec(&self, id: ExprId, visited: &mut VisitedSet) -> (r: usize)
        requires
            self.wf(),
            id@ < self.keys().len(),
        ensures
            r as int == capped(walk_count(self.keys(), id@, visited_ids(*old(visited))).0),
            visited_ids(*final(visited)) == walk_count(self.keys(), id@, visited_ids(*old(visited))).1,
        decreases id@,
    {
        let ghost vis_in = visited_ids(*visited);
        if !super::context::visited_insert_pub(visited, id) {
            proof {
                assert(vis_in.insert(id@) =~= vis_in);
            }
            return 0;
        }
        let ghost vis0 = vis_in.insert(id@);
        let ch = self.children(id);
        proof {
            self.lemma_wf_node(id@ as int);
        }
        let mut total: usize = 0;
        let mut k: usize = 0;
        while k < ch.len()
            invariant
                self.wf(),
                k <= ch@.len(),
                ids_view(ch@) == children_of(self.keys()[id@ as int]),
                node_ok(self.keys(), self.syms(), id@ as int),
                id@ < self.keys().len(),
                total as int == capped(walk_children(self.keys(), id@, k as int, vis0).0),
                visited_ids(*visited) == walk_children(self.keys(), id@, k as int, vis0).1,
            decreases ch@.len() - k,
        {
            proof {
                assert(ids_view(ch@)[k as int] == ch@[k as int]@);
                assert(children_of(self.keys()[id@ as int])[k as int] < id@);
            }
            let c = self.size_rec(ch[k], visited);
            total = total.saturating_add(c);
            k = k + 1;
        }
        total.saturating_add(1)
    }
}

proof fn lemma_reaches_some_mono(keys: Seq<NodeKey>, cs: Seq<u32>, n: int, m: int, i: int, j: int)
    requires
        0 <= n <= m <= cs.len(),
        reaches_some(keys, cs, n, i, j),
    ensures
        reaches_some(keys, cs, m, i, j),
    decreases m - n,
{
    if n < m {
        lemma_reaches_some_mono(keys, cs, n, m - 1, i, j);
    }
}

} // verus!
