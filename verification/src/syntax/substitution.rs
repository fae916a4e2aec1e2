//! Rewriting of expressions: negation normal form, de Bruijn shifting and
//! substitution.

use vstd::prelude::*;

use super::context::{children_of, extends, interns, lemma_push_typs, lemma_typ_stable, node_ok, operand_bound, typ_at, Context};
use super::expr::{expr_id, ids_view, node_key, Expr, ExprId, Formula, NodeKey, SExprNode};
use super::symbol::{Symbol, SymbolMap};
use super::types::{Typ, TypFo};

verus! {

// ---------------------------------------------------------------------------
// Sizes
// ---------------------------------------------------------------------------

/// The size of node `i` unfolded into a tree: one for the node, plus the
/// sizes of its operands.
pub open spec fn tree_size(nodes: Seq<NodeKey>, i: int) -> nat
    decreases i, operand_bound(nodes, i),
{
    if 0 <= i < nodes.len() {
        1 + sum_sizes(nodes, children_of(nodes[i]), children_of(nodes[i]).len() as int, i)
    } else {
        1
    }
}

/// The sum of the tree sizes of the first `n` operands in `cs` that come
/// before node `i`.
pub open spec fn sum_sizes(nodes: Seq<NodeKey>, cs: Seq<u32>, n: int, i: int) -> nat
    decreases i, n,
{
    if n <= 0 || n > cs.len() {
        0
    } else {
        (if cs[n - 1] < i {
            tree_size(nodes, cs[n - 1] as int)
        } else {
            0
        }) + sum_sizes(nodes, cs, n - 1, i)
    }
}

proof fn lemma_size_stable(nodes: Seq<NodeKey>, ext: Seq<NodeKey>, i: int)
    requires
        extends(nodes, ext),
        0 <= i < nodes.len(),
    ensures
        tree_size(ext, i) == tree_size(nodes, i),
    decreases i, 1int, 0int,
{
    assert(ext.subrange(0, nodes.len() as int)[i] == ext[i]);
    let cs = children_of(nodes[i]);
    lemma_size_stable_list(nodes, ext, i, cs, cs.len() as int);
}

proof fn lemma_size_stable_list(nodes: Seq<NodeKey>, ext: Seq<NodeKey>, i: int, cs: Seq<u32>, n: int)
    requires
        extends(nodes, ext),
        0 <= i < nodes.len(),
    ensures
        sum_sizes(ext, cs, n, i) == sum_sizes(nodes, cs, n, i),
    decreases i, 0int, n,
{
    if 0 < n <= cs.len() {
        if cs[n - 1] < i {
            lemma_size_stable(nodes, ext, cs[n - 1] as int);
        }
        lemma_size_stable_list(nodes, ext, i, cs, n - 1);
    }
}

/// The size of a node with one operand `c`, and of one with three.
proof fn lemma_size_unfold(nodes: Seq<NodeKey>, i: int)
    requires
        0 <= i < nodes.len(),
        forall|k: int| 0 <= k < children_of(nodes[i]).len() ==> #[trigger] children_of(nodes[i])[k] < i,
    ensures
        children_of(nodes[i]).len() == 1 ==> tree_size(nodes, i) == 1 + tree_size(nodes, children_of(nodes[i])[0] as int),
        children_of(nodes[i]).len() == 3 ==> tree_size(nodes, i) == 1 + tree_size(nodes, children_of(nodes[i])[0] as int)
            + tree_size(nodes, children_of(nodes[i])[1] as int) + tree_size(nodes, children_of(nodes[i])[2] as int),
        tree_size(nodes, i) == 1 + sum_sizes(nodes, children_of(nodes[i]), children_of(nodes[i]).len() as int, i),
{
    let cs = children_of(nodes[i]);
    if cs.len() >= 1 {
        assert(cs[0] < i);
        assert(sum_sizes(nodes, cs, 0, i) == 0);
        assert(sum_sizes(nodes, cs, 1, i) == tree_size(nodes, cs[0] as int));
    }
    if cs.len() == 3 {
        assert(cs[1] < i);
        assert(cs[2] < i);
        assert(sum_sizes(nodes, cs, 2, i) == tree_size(nodes, cs[0] as int) + tree_size(nodes, cs[1] as int));
        assert(sum_sizes(nodes, cs, 3, i) == tree_size(nodes, cs[0] as int) + tree_size(nodes, cs[1] as int) + tree_size(
            nodes,
            cs[2] as int,
        ));
    }
}

/// A prefix of the operands weighs no more than all of them.
proof fn lemma_sum_mono(nodes: Seq<NodeKey>, cs: Seq<u32>, k: int, n: int, i: int)
    requires
        0 <= k <= n <= cs.len(),
    ensures
        sum_sizes(nodes, cs, k, i) <= sum_sizes(nodes, cs, n, i),
    decreases n,
{
    if k < n {
        lemma_sum_mono(nodes, cs, k, n - 1, i);
    }
}

// ---------------------------------------------------------------------------
// Negation normal form
// ---------------------------------------------------------------------------

/// A node that a negation may stand directly above in negation normal form:
/// anything but a connective, a quantifier, a conditional or a comparison.
pub open spec fn is_literal(k: NodeKey) -> bool {
    match k {
        NodeKey::Not(_) => false,
        NodeKey::And(_) => false,
        NodeKey::Or(_) => false,
        NodeKey::Exists(_, _, _) => false,
        NodeKey::Forall(_, _, _) => false,
        NodeKey::Ite(_, _, _) => false,
        NodeKey::Eq(_, _) => false,
        NodeKey::Leq(_, _) => false,
        NodeKey::Lt(_, _) => false,
        _ => true,
    }
}

/// Node `i` is in negation normal form: every negation reachable through
/// connectives, quantifiers and the branches of conditionals stands directly
/// above a literal.
pub open spec fn is_nnf(nodes: Seq<NodeKey>, i: int) -> bool
    decreases i, operand_bound(nodes, i),
{
    if 0 <= i < nodes.len() {
        match nodes[i] {
            NodeKey::Not(a) => a < i && is_literal(nodes[a as int]),
            NodeKey::And(cs) => all_nnf(nodes, cs, cs.len() as int, i),
            NodeKey::Or(cs) => all_nnf(nodes, cs, cs.len() as int, i),
            NodeKey::Exists(_, _, b) => b < i && is_nnf(nodes, b as int),
            NodeKey::Forall(_, _, b) => b < i && is_nnf(nodes, b as int),
            NodeKey::Ite(c, t, e) => c < i && t < i && e < i && is_nnf(nodes, c as int) && is_nnf(nodes, t as int) && is_nnf(
                nodes,
                e as int,
            ),
            _ => true,
        }
    } else {
        false
    }
}

/// The first `n` operands in `cs` come before node `i` and are in negation
/// normal form.
pub open spec fn all_nnf(nodes: Seq<NodeKey>, cs: Seq<u32>, n: int, i: int) -> bool
    decreases i, n,
{
    if n <= 0 || n > cs.len() {
        true
    } else {
        cs[n - 1] < i && is_nnf(nodes, cs[n - 1] as int) && all_nnf(nodes, cs, n - 1, i)
    }
}

proof fn lemma_nnf_stable(nodes: Seq<NodeKey>, ext: Seq<NodeKey>, i: int)
    requires
        extends(nodes, ext),
        0 <= i < nodes.len(),
    ensures
        is_nnf(ext, i) == is_nnf(nodes, i),
    decreases i, 1int, 0int,
{
    assert(ext.subrange(0, nodes.len() as int)[i] == ext[i]);
    match nodes[i] {
        NodeKey::Not(a) => {
            if a < i {
                assert(ext.subrange(0, nodes.len() as int)[a as int] == ext[a as int]);
            }
        },
        NodeKey::And(cs) => {
            lemma_nnf_stable_list(nodes, ext, i, cs, cs.len() as int);
        },
        NodeKey::Or(cs) => {
            lemma_nnf_stable_list(nodes, ext, i, cs, cs.len() as int);
        },
        NodeKey::Exists(_, _, b) => {
            if b < i {
                lemma_nnf_stable(nodes, ext, b as int);
            }
        },
        NodeKey::Forall(_, _, b) => {
            if b < i {
                lemma_nnf_stable(nodes, ext, b as int);
            }
        },
        NodeKey::Ite(c, t, e) => {
            if c < i && t < i && e < i {
                lemma_nnf_stable(nodes, ext, c as int);
                lemma_nnf_stable(nodes, ext, t as int);
                lemma_nnf_stable(nodes, ext, e as int);
            }
        },
        _ => {},
    }
}

proof fn lemma_nnf_stable_list(nodes: Seq<NodeKey>, ext: Seq<NodeKey>, i: int, cs: Seq<u32>, n: int)
    requires
        extends(nodes, ext),
        0 <= i < nodes.len(),
    ensures
        all_nnf(ext, cs, n, i) == all_nnf(nodes, cs, n, i),
    decreases i, 0int, n,
{
    if 0 < n <= cs.len() {
        if cs[n - 1] < i {
            lemma_nnf_stable(nodes, ext, cs[n - 1] as int);
        }
        lemma_nnf_stable_list(nodes, ext, i, cs, n - 1);
    }
}

proof fn lemma_all_nnf(nodes: Seq<NodeKey>, cs: Seq<u32>, n: int, i: int)
    requires
        0 <= n <= cs.len(),
        forall|k: int| 0 <= k < n ==> #[trigger] cs[k] < i && is_nnf(nodes, cs[k] as int),
    ensures
        all_nnf(nodes, cs, n, i),
    decreases n,
{
    if n > 0 {
        assert(cs[n - 1] < i);
        lemma_all_nnf(nodes, cs, n - 1, i);
    }
}

/// Node `r` is the negation normal form of node `i` (of its negation when
/// `neg`), by the rewrite rules: a double negation is dropped; a negated
/// conjunction becomes the disjunction of the negated operands, and the
/// other way round; a negated quantifier becomes the dual quantifier over
/// the negated body; a negated conditional keeps its condition and negates
/// both branches; `not (a <= b)` is `b < a`, `not (a < b)` is `b <= a`,
/// `not (a = b)` is `a < b or b < a`; any other negated formula stays under
/// the negation. Conditions of conditionals are put in negation normal form
/// too, and atoms are kept as they are.
pub open spec fn nnf_rel(keys: Seq<NodeKey>, r: int, i: int, neg: bool) -> bool
    decreases i, 1int,
{
    if 0 <= i < keys.len() && 0 <= r < keys.len() {
        match keys[i] {
            NodeKey::Not(a) => a < i && nnf_rel(keys, r, a as int, !neg),
            NodeKey::And(cs) => match keys[r] {
                NodeKey::And(rs) => !neg && rs.len() == cs.len() && rel_all(keys, rs, cs, cs.len() as int, i, false),
                NodeKey::Or(rs) => neg && rs.len() == cs.len() && rel_all(keys, rs, cs, cs.len() as int, i, true),
                _ => false,
            },
            NodeKey::Or(cs) => match keys[r] {
                NodeKey::Or(rs) => !neg && rs.len() == cs.len() && rel_all(keys, rs, cs, cs.len() as int, i, false),
                NodeKey::And(rs) => neg && rs.len() == cs.len() && rel_all(keys, rs, cs, cs.len() as int, i, true),
                _ => false,
            },
            NodeKey::Exists(n, t, b) => b < i && match keys[r] {
                NodeKey::Exists(n2, t2, rb) => !neg && n2 == n && t2 == t && nnf_rel(keys, rb as int, b as int, false),
                NodeKey::Forall(n2, t2, rb) => neg && n2 == n && t2 == t && nnf_rel(keys, rb as int, b as int, true),
                _ => false,
            },
            NodeKey::Forall(n, t, b) => b < i && match keys[r] {
                NodeKey::Forall(n2, t2, rb) => !neg && n2 == n && t2 == t && nnf_rel(keys, rb as int, b as int, false),
                NodeKey::Exists(n2, t2, rb) => neg && n2 == n && t2 == t && nnf_rel(keys, rb as int, b as int, true),
                _ => false,
            },
            NodeKey::Ite(c, t, e) => c < i && t < i && e < i && match keys[r] {
                NodeKey::Ite(rc, rt, re) => nnf_rel(keys, rc as int, c as int, false) && nnf_rel(keys, rt as int, t as int, neg)
                    && nnf_rel(keys, re as int, e as int, neg),
                _ => false,
            },
            NodeKey::Leq(a, b) => if neg {
                keys[r] == NodeKey::Lt(b, a)
            } else {
                r == i
            },
            NodeKey::Lt(a, b) => if neg {
                keys[r] == NodeKey::Leq(b, a)
            } else {
                r == i
            },
            NodeKey::Eq(a, b) => if neg {
                match keys[r] {
                    NodeKey::Or(rs) => rs.len() == 2 && rs[0] < keys.len() && rs[1] < keys.len() && keys[rs[0] as int]
                        == NodeKey::Lt(a, b) && keys[rs[1] as int] == NodeKey::Lt(b, a),
                    _ => false,
                }
            } else {
                r == i
            },
            _ => if neg {
                keys[r] == NodeKey::Not(i as u32)
            } else {
                r == i
            },
        }
    } else {
        false
    }
}

/// The first `n` of `rs` are the negation normal forms of the first `n` of
/// `cs`, operands of node `i` (negated when `neg`).
pub open spec fn rel_all(keys: Seq<NodeKey>, rs: Seq<u32>, cs: Seq<u32>, n: int, i: int, neg: bool) -> bool
    decreases i, 0int, n,
{
    if n <= 0 || n > cs.len() || n > rs.len() {
        n <= 0
    } else {
        cs[n - 1] < i && nnf_rel(keys, rs[n - 1] as int, cs[n - 1] as int, neg) && rel_all(keys, rs, cs, n - 1, i, neg)
    }
}

/// The relation survives the context growing.
proof fn lemma_rel_stable(nodes: Seq<NodeKey>, ext: Seq<NodeKey>, r: int, i: int, neg: bool)
    requires
        extends(nodes, ext),
        nnf_rel(nodes, r, i, neg),
    ensures
        nnf_rel(ext, r, i, neg),
    decreases i, 1int, 0int,
{
    assert(ext.subrange(0, nodes.len() as int)[i] == ext[i]);
    assert(ext.subrange(0, nodes.len() as int)[r] == ext[r]);
    match nodes[i] {
        NodeKey::Not(a) => {
            lemma_rel_stable(nodes, ext, r, a as int, !neg);
        },
        NodeKey::And(cs) => {
            match nodes[r] {
                NodeKey::And(rs) => lemma_rel_all_stable(nodes, ext, rs, cs, cs.len() as int, i, neg),
                NodeKey::Or(rs) => lemma_rel_all_stable(nodes, ext, rs, cs, cs.len() as int, i, neg),
                _ => {},
            }
        },
        NodeKey::Or(cs) => {
            match nodes[r] {
                NodeKey::And(rs) => lemma_rel_all_stable(nodes, ext, rs, cs, cs.len() as int, i, neg),
                NodeKey::Or(rs) => lemma_rel_all_stable(nodes, ext, rs, cs, cs.len() as int, i, neg),
                _ => {},
            }
        },
        NodeKey::Exists(_, _, b) => {
            match nodes[r] {
                NodeKey::Exists(_, _, rb) => lemma_rel_stable(nodes, ext, rb as int, b as int, false),
                NodeKey::Forall(_, _, rb) => lemma_rel_stable(nodes, ext, rb as int, b as int, true),
                _ => {},
            }
        },
        NodeKey::Forall(_, _, b) => {
            match nodes[r] {
                NodeKey::Exists(_, _, rb) => lemma_rel_stable(nodes, ext, rb as int, b as int, true),
                NodeKey::Forall(_, _, rb) => lemma_rel_stable(nodes, ext, rb as int, b as int, false),
                _ => {},
            }
        },
        NodeKey::Ite(c, t, e) => {
            match nodes[r] {
                NodeKey::Ite(rc, rt, re) => {
                    lemma_rel_stable(nodes, ext, rc as int, c as int, false);
                    lemma_rel_stable(nodes, ext, rt as int, t as int, neg);
                    lemma_rel_stable(nodes, ext, re as int, e as int, neg);
                },
                _ => {},
            }
        },
        NodeKey::Eq(a, b) => {
            if neg {
                match nodes[r] {
                    NodeKey::Or(rs) => {
                        assert(ext.subrange(0, nodes.len() as int)[rs[0] as int] == ext[rs[0] as int]);
                        assert(ext.subrange(0, nodes.len() as int)[rs[1] as int] == ext[rs[1] as int]);
                    },
                    _ => {},
                }
            }
        },
        _ => {},
    }
}

proof fn lemma_rel_all_stable(nodes: Seq<NodeKey>, ext: Seq<NodeKey>, rs: Seq<u32>, cs: Seq<u32>, n: int, i: int, neg: bool)
    requires
        extends(nodes, ext),
        rel_all(nodes, rs, cs, n, i, neg),
    ensures
        rel_all(ext, rs, cs, n, i, neg),
    decreases i, 0int, n,
{
    if 0 < n <= cs.len() && n <= rs.len() {
        lemma_rel_stable(nodes, ext, rs[n - 1] as int, cs[n - 1] as int, neg);
        lemma_rel_all_stable(nodes, ext, rs, cs, n - 1, i, neg);
    }
}

/// The operands related one by one make `rel_all` hold.
proof fn lemma_rel_all(keys: Seq<NodeKey>, rs: Seq<u32>, cs: Seq<u32>, n: int, i: int, neg: bool)
    requires
        0 <= n <= cs.len(),
        n <= rs.len(),
        forall|k: int| 0 <= k < n ==> #[trigger] cs[k] < i && nnf_rel(keys, rs[k] as int, cs[k] as int, neg),
    ensures
        rel_all(keys, rs, cs, n, i, neg),
    decreases n,
{
    if n > 0 {
        assert(cs[n - 1] < i);
        lemma_rel_all(keys, rs, cs, n - 1, i, neg);
    }
}

/// What the rewriting functions keep: `ctx` grew from `old`, is well formed,
/// and `r` is a formula of it in negation normal form.
pub open spec fn nnf_result<C>(old: &Context<C>, ctx: &Context<C>, r: u32) -> bool {
    &&& ctx.wf()
    &&& ctx.grows_from(old)
    &&& r < ctx.keys().len()
    &&& ctx.typ_of(r as int) == TypFo::Bool
    &&& is_nnf(ctx.keys(), r as int)
}

/// A result of an earlier step stays a formula in negation normal form as
/// the context grows further.
proof fn lemma_result_grows<C>(mid: &Context<C>, ctx: &Context<C>, r: u32)
    requires
        ctx.grows_from(mid),
        r < mid.keys().len(),
        mid.typ_of(r as int) == TypFo::Bool,
        is_nnf(mid.keys(), r as int),
    ensures
        r < ctx.keys().len(),
        ctx.typ_of(r as int) == TypFo::Bool,
        is_nnf(ctx.keys(), r as int),
{
    ctx.lemma_grows(mid, r as int);
    lemma_nnf_stable(mid.keys(), ctx.keys(), r as int);
}

/// Intern a formula node whose operands are formulas of the context, and
/// return its id.
fn intern_formula<C>(ctx: &mut Context<C>, node: SExprNode) -> (r: ExprId)
    requires
        old(ctx).wf(),
        old(ctx).room(1),
        forall|k: int|
            0 <= k < children_of(node_key(node)).len() ==> #[trigger] children_of(node_key(node))[k] < old(ctx).keys().len()
                && old(ctx).typ_of(children_of(node_key(node))[k] as int) == TypFo::Bool,
        match node_key(node) {
            NodeKey::Not(_) => true,
            NodeKey::And(_) => true,
            NodeKey::Or(_) => true,
            NodeKey::Exists(_, _, _) => true,
            NodeKey::Forall(_, _, _) => true,
            NodeKey::Ite(_, _, _) => true,
            _ => false,
        },
    ensures
        final(ctx).wf(),
        final(ctx).grows_from(old(ctx)),
        interns(old(ctx).keys(), final(ctx).keys(), node_key(node), r@),
        final(ctx).keys().len() <= old(ctx).keys().len() + 1,
        final(ctx).typ_of(r@ as int) == TypFo::Bool,
        forall|k: int| 0 <= k < children_of(node_key(node)).len() ==> #[trigger] children_of(node_key(node))[k] < r@,
        match node_key(node) {
            NodeKey::Not(a) => a < r@,
            NodeKey::Exists(_, _, b) => b < r@,
            NodeKey::Forall(_, _, b) => b < r@,
            NodeKey::Ite(c, t, e) => c < r@ && t < r@ && e < r@,
            _ => true,
        },
{
    let ghost keys = ctx.keys();
    let ghost key = node_key(node);
    proof {
        lemma_push_typs(keys, ctx.syms(), key);
        let ch = children_of(key);
        assert forall|k: int| 0 <= k < ch.len() implies #[trigger] typ_at(keys.push(key), ctx.syms(), ch[k] as int)
            == TypFo::Bool by {
            assert(ch[k] < keys.len());
        }
        assert(keys.push(key)[keys.len() as int] == key);
        match key {
            NodeKey::Not(a) => {
                assert(ch[0] == a);
            },
            NodeKey::Exists(_, _, b) => {
                assert(ch[0] == b);
            },
            NodeKey::Forall(_, _, b) => {
                assert(ch[0] == b);
            },
            NodeKey::Ite(c, t, e) => {
                assert(ch[0] == c && ch[1] == t && ch[2] == e);
            },
            _ => {},
        }
    }
    let r = ctx.intern_node(node);
    proof {
        ctx.lemma_wf_node(r@ as int);
        let ch = children_of(key);
        assert(ctx.keys()[r@ as int] == key);
        match key {
            NodeKey::Not(a) => {
                assert(ch[0] == a);
            },
            NodeKey::Exists(_, _, b) => {
                assert(ch[0] == b);
            },
            NodeKey::Forall(_, _, b) => {
                assert(ch[0] == b);
            },
            NodeKey::Ite(c, t, e) => {
                assert(ch[0] == c && ch[1] == t && ch[2] == e);
            },
            _ => {},
        }
    }
    r
}

/// Negation normal form of the formula `id`.
#[verifier::spinoff_prover]
#[verifier::rlimit(50)]
fn nnf_rec<C>(ctx: &mut Context<C>, id: ExprId) -> (r: ExprId)
    requires
        old(ctx).wf(),
        id@ < old(ctx).keys().len(),
        old(ctx).typ_of(id@ as int) == TypFo::Bool,
        old(ctx).room(4 * tree_size(old(ctx).keys(), id@ as int)),
    ensures
        nnf_result(old(ctx), final(ctx), r@),
        nnf_rel(final(ctx).keys(), r@ as int, id@ as int, false),
        final(ctx).keys().len() <= old(ctx).keys().len() + 4 * tree_size(old(ctx).keys(), id@ as int),
    decreases id@, 1int,
{
    let ghost keys0 = ctx.keys();
    let ghost i = id@ as int;
    let ghost c0 = *ctx;
    proof {
        ctx.lemma_wf_node(i);
        lemma_size_unfold(keys0, i);
    }
    let node = ctx.node(id).clone();
    match node {
        SExprNode::Not(inner) => {
            proof {
                assert(children_of(keys0[i])[0] == inner@);
            }
            let r = nnf_not(ctx, inner);
            proof {
                lemma_literal_stable(keys0, ctx.keys(), i);
            }
            r
        },
        SExprNode::And(cs) => {
            proof {
                assert(children_of(keys0[i]) == ids_view(cs@));
                assert forall|k: int| 0 <= k < cs@.len() implies #[trigger] cs@[k]@ < i && ctx.typ_of(cs@[k]@ as int)
                    == TypFo::Bool by {
                    assert(ids_view(cs@)[k] == cs@[k]@);
                    assert(children_of(keys0[i])[k] == cs@[k]@);
                }
            }
            let new_cs = nnf_children(ctx, &cs, Ghost(i));
            let ghost mid = *ctx;
            let ghost new_ids = new_cs@;
            let r = intern_formula(ctx, SExprNode::And(new_cs));
            proof {
                crate::syntax::context::lemma_grows_trans(&c0, &mid, ctx);
                lemma_nnf_children_node(&mid, ctx, new_ids, r);
                lemma_conn_rel(&mid, ctx, new_ids, cs@, i, false);
                lemma_literal_stable(keys0, ctx.keys(), i);
            }
            r
        },
        SExprNode::Or(cs) => {
            proof {
                assert(children_of(keys0[i]) == ids_view(cs@));
                assert forall|k: int| 0 <= k < cs@.len() implies #[trigger] cs@[k]@ < i && ctx.typ_of(cs@[k]@ as int)
                    == TypFo::Bool by {
                    assert(ids_view(cs@)[k] == cs@[k]@);
                    assert(children_of(keys0[i])[k] == cs@[k]@);
                }
            }
            let new_cs = nnf_children(ctx, &cs, Ghost(i));
            let ghost mid = *ctx;
            let ghost new_ids = new_cs@;
            let r = intern_formula(ctx, SExprNode::Or(new_cs));
            proof {
                crate::syntax::context::lemma_grows_trans(&c0, &mid, ctx);
                lemma_nnf_children_node(&mid, ctx, new_ids, r);
                lemma_conn_rel(&mid, ctx, new_ids, cs@, i, false);
                lemma_literal_stable(keys0, ctx.keys(), i);
            }
            r
        },
        SExprNode::Exists(name, typ, body) => {
            proof {
                assert(children_of(keys0[i])[0] == body@);
            }
            let body2 = nnf_rec(ctx, body);
            let ghost mid = *ctx;
            let r = intern_formula(ctx, SExprNode::Exists(name, typ, body2));
            proof {
                crate::syntax::context::lemma_grows_trans(&c0, &mid, ctx);
                lemma_result_grows(&mid, ctx, body2@);
                lemma_rel_stable(mid.keys(), ctx.keys(), body2@ as int, body@ as int, false);
                lemma_literal_stable(keys0, ctx.keys(), i);
            }
            r
        },
        SExprNode::Forall(name, typ, body) => {
            proof {
                assert(children_of(keys0[i])[0] == body@);
            }
            let body2 = nnf_rec(ctx, body);
            let ghost mid = *ctx;
            let r = intern_formula(ctx, SExprNode::Forall(name, typ, body2));
            proof {
                crate::syntax::context::lemma_grows_trans(&c0, &mid, ctx);
                lemma_result_grows(&mid, ctx, body2@);
                lemma_rel_stable(mid.keys(), ctx.keys(), body2@ as int, body@ as int, false);
                lemma_literal_stable(keys0, ctx.keys(), i);
            }
            r
        },
        SExprNode::Ite(cond, then_, else_) => {
            let ghost ch = children_of(keys0[i]);
            proof {
                assert(ch[0] == cond@ && ch[1] == then_@ && ch[2] == else_@);
                assert(tree_size(keys0, i) == 1 + tree_size(keys0, cond@ as int) + tree_size(keys0, then_@ as int)
                    + tree_size(keys0, else_@ as int));
                assert(keys0[i] == NodeKey::Ite(cond@, then_@, else_@));
                assert(typ_at(keys0, ctx.syms(), i) == typ_at(keys0, ctx.syms(), then_@ as int));
            }
            let ghost c0 = *ctx;
            let cond2 = nnf_rec(ctx, cond);
            let ghost cc = *ctx;
            proof {
                ctx.lemma_grows(&c0, then_@ as int);
                ctx.lemma_grows(&c0, else_@ as int);
                lemma_size_stable(c0.keys(), ctx.keys(), then_@ as int);
            }
            let then2 = nnf_rec(ctx, then_);
            let ghost c1 = *ctx;
            proof {
                crate::syntax::context::lemma_grows_trans(&c0, &cc, &c1);
                ctx.lemma_grows(&c0, else_@ as int);
                lemma_size_stable(c0.keys(), ctx.keys(), else_@ as int);
                lemma_result_grows(&cc, ctx, cond2@);
            }
            let else2 = nnf_rec(ctx, else_);
            let ghost c2 = *ctx;
            proof {
                crate::syntax::context::lemma_grows_trans(&c0, &c1, &c2);
                crate::syntax::context::lemma_grows_trans(&cc, &c1, &c2);
                lemma_result_grows(&c1, ctx, then2@);
                lemma_result_grows(&cc, ctx, cond2@);
            }
            let r = intern_formula(ctx, SExprNode::Ite(cond2, then2, else2));
            proof {
                crate::syntax::context::lemma_grows_trans(&c0, &c2, ctx);
                crate::syntax::context::lemma_grows_trans(&cc, &c2, ctx);
                crate::syntax::context::lemma_grows_trans(&c1, &c2, ctx);
                lemma_result_grows(&c2, ctx, cond2@);
                lemma_result_grows(&c2, ctx, then2@);
                lemma_result_grows(&c2, ctx, else2@);
                lemma_rel_stable(cc.keys(), ctx.keys(), cond2@ as int, cond@ as int, false);
                lemma_rel_stable(c1.keys(), ctx.keys(), then2@ as int, then_@ as int, false);
                lemma_rel_stable(c2.keys(), ctx.keys(), else2@ as int, else_@ as int, false);
                lemma_literal_stable(keys0, ctx.keys(), i);
            }
            r
        },
        _ => {
            proof {
                assert(is_nnf(keys0, i));
                assert(ctx.keys().subrange(0, keys0.len() as int) =~= keys0);
            }
            id
        },
    }
}

/// Results related one by one to the operands `cs` of node `i`, lifted to a
/// grown context.
proof fn lemma_conn_rel<C>(mid: &Context<C>, ctx: &Context<C>, new_cs: Seq<ExprId>, cs: Seq<ExprId>, i: int, neg: bool)
    requires
        ctx.grows_from(mid),
        new_cs.len() == cs.len(),
        forall|k: int| 0 <= k < cs.len() ==> #[trigger] cs[k]@ < i && nnf_rel(mid.keys(), new_cs[k]@ as int, cs[k]@ as int, neg),
    ensures
        ids_view(new_cs).len() == cs.len(),
        rel_all(ctx.keys(), ids_view(new_cs), ids_view(cs), cs.len() as int, i, neg),
{
    let rs = ids_view(new_cs);
    let ids = ids_view(cs);
    assert forall|k: int| 0 <= k < cs.len() implies #[trigger] ids[k] < i && nnf_rel(ctx.keys(), rs[k] as int, ids[k] as int, neg) by {
        assert(ids[k] == cs[k]@ && rs[k] == new_cs[k]@);
        lemma_rel_stable(mid.keys(), ctx.keys(), new_cs[k]@ as int, cs[k]@ as int, neg);
    }
    lemma_rel_all(ctx.keys(), rs, ids, cs.len() as int, i, neg);
}

/// After interning a connective over results in negation normal form, the
/// new node is one too.
proof fn lemma_nnf_children_node<C>(mid: &Context<C>, ctx: &Context<C>, cs: Seq<ExprId>, r: ExprId)
    requires
        ctx.wf(),
        ctx.grows_from(mid),
        forall|k: int| 0 <= k < cs.len() ==> #[trigger] cs[k]@ < mid.keys().len() && is_nnf(mid.keys(), cs[k]@ as int),
        r@ < ctx.keys().len(),
        ctx.keys()[r@ as int] == NodeKey::And(ids_view(cs)) || ctx.keys()[r@ as int] == NodeKey::Or(ids_view(cs)),
        forall|k: int| 0 <= k < cs.len() ==> #[trigger] ids_view(cs)[k] < r@,
    ensures
        is_nnf(ctx.keys(), r@ as int),
{
    let ids = ids_view(cs);
    assert forall|k: int| 0 <= k < ids.len() implies #[trigger] ids[k] < r@ && is_nnf(ctx.keys(), ids[k] as int) by {
        assert(ids[k] == cs[k]@);
        lemma_nnf_stable(mid.keys(), ctx.keys(), ids[k] as int);
    }
    lemma_all_nnf(ctx.keys(), ids, ids.len() as int, r@ as int);
}

/// Negation normal form of each operand in `cs`, in order.
fn nnf_children<C>(ctx: &mut Context<C>, cs: &Vec<ExprId>, Ghost(parent): Ghost<int>) -> (r: Vec<ExprId>)
    requires
        old(ctx).wf(),
        0 <= parent < old(ctx).keys().len(),
        forall|k: int| 0 <= k < cs@.len() ==> #[trigger] cs@[k]@ < parent && old(ctx).typ_of(cs@[k]@ as int) == TypFo::Bool,
        old(ctx).room(4 * sum_sizes(old(ctx).keys(), ids_view(cs@), cs@.len() as int, parent)),
    ensures
        final(ctx).wf(),
        final(ctx).grows_from(old(ctx)),
        r@.len() == cs@.len(),
        forall|k: int| 0 <= k < r@.len() ==> #[trigger] r@[k]@ < final(ctx).keys().len() && final(ctx).typ_of(r@[k]@ as int)
            == TypFo::Bool && is_nnf(final(ctx).keys(), r@[k]@ as int),
        forall|k: int| 0 <= k < r@.len() ==> #[trigger] nnf_rel(final(ctx).keys(), r@[k]@ as int, cs@[k]@ as int, false),
        final(ctx).keys().len() <= old(ctx).keys().len() + 4 * sum_sizes(old(ctx).keys(), ids_view(cs@), cs@.len() as int, parent),
    decreases parent, 0int,
{
    let ghost c0 = *ctx;
    let ghost ids = ids_view(cs@);
    let mut out: Vec<ExprId> = Vec::new();
    let mut k: usize = 0;
    proof {
        assert(ctx.keys().subrange(0, c0.keys().len() as int) =~= c0.keys());
    }
    while k < cs.len()
        invariant
            k <= cs@.len(),
            ids == ids_view(cs@),
            0 <= parent < c0.keys().len(),
            c0.wf(),
            forall|t: int| 0 <= t < cs@.len() ==> #[trigger] cs@[t]@ < parent && c0.typ_of(cs@[t]@ as int) == TypFo::Bool,
            c0.room(4 * sum_sizes(c0.keys(), ids, cs@.len() as int, parent)),
            ctx.wf(),
            ctx.grows_from(&c0),
            ctx.keys().len() <= c0.keys().len() + 4 * sum_sizes(c0.keys(), ids, k as int, parent),
            out@.len() == k,
            forall|t: int| 0 <= t < k ==> #[trigger] out@[t]@ < ctx.keys().len() && ctx.typ_of(out@[t]@ as int) == TypFo::Bool
                && is_nnf(ctx.keys(), out@[t]@ as int),
            forall|t: int| 0 <= t < k ==> #[trigger] nnf_rel(ctx.keys(), out@[t]@ as int, cs@[t]@ as int, false),
        decreases cs@.len() - k,
    {
        let c = cs[k];
        let ghost before = *ctx;
        proof {
            assert(ids[k as int] == c@);
            assert(sum_sizes(c0.keys(), ids, k + 1, parent) == tree_size(c0.keys(), c@ as int) + sum_sizes(c0.keys(), ids, k as int, parent));
            lemma_sum_mono(c0.keys(), ids, k + 1, cs@.len() as int, parent);
            ctx.lemma_grows(&c0, c@ as int);
            lemma_size_stable(c0.keys(), ctx.keys(), c@ as int);
        }
        let r = nnf_rec(ctx, c);
        proof {
            crate::syntax::context::lemma_grows_trans(&c0, &before, ctx);
            assert forall|t: int| 0 <= t < k implies #[trigger] out@[t]@ < ctx.keys().len() && ctx.typ_of(out@[t]@ as int)
                == TypFo::Bool && is_nnf(ctx.keys(), out@[t]@ as int) by {
                lemma_result_grows(&before, ctx, out@[t]@);
            }
            assert forall|t: int| 0 <= t < k implies #[trigger] nnf_rel(ctx.keys(), out@[t]@ as int, cs@[t]@ as int, false) by {
                lemma_rel_stable(before.keys(), ctx.keys(), out@[t]@ as int, cs@[t]@ as int, false);
            }
        }
        let ghost prev = out@;
        out.push(r);
        proof {
            assert forall|t: int| 0 <= t < k + 1 implies #[trigger] nnf_rel(ctx.keys(), out@[t]@ as int, cs@[t]@ as int, false) by {
                if t < k {
                    assert(out@[t] == prev[t]);
                }
            }
        }
        k = k + 1;
    }
    out
}

/// Negation normal form of the negation of each operand in `cs`, in order;
/// the negation of each operand is interned first.
fn negate_children<C>(ctx: &mut Context<C>, cs: &Vec<ExprId>, Ghost(parent): Ghost<int>) -> (r: Vec<ExprId>)
    requires
        old(ctx).wf(),
        0 <= parent < old(ctx).keys().len(),
        forall|k: int| 0 <= k < cs@.len() ==> #[trigger] cs@[k]@ < parent && old(ctx).typ_of(cs@[k]@ as int) == TypFo::Bool,
        old(ctx).room(4 * sum_sizes(old(ctx).keys(), ids_view(cs@), cs@.len() as int, parent)),
    ensures
        final(ctx).wf(),
        final(ctx).grows_from(old(ctx)),
        r@.len() == cs@.len(),
        forall|k: int| 0 <= k < r@.len() ==> #[trigger] r@[k]@ < final(ctx).keys().len() && final(ctx).typ_of(r@[k]@ as int)
            == TypFo::Bool && is_nnf(final(ctx).keys(), r@[k]@ as int),
        forall|k: int| 0 <= k < r@.len() ==> #[trigger] nnf_rel(final(ctx).keys(), r@[k]@ as int, cs@[k]@ as int, true),
        final(ctx).keys().len() <= old(ctx).keys().len() + 4 * sum_sizes(old(ctx).keys(), ids_view(cs@), cs@.len() as int, parent),
    decreases parent, 0int,
{
    let ghost c0 = *ctx;
    let ghost ids = ids_view(cs@);
    let mut out: Vec<ExprId> = Vec::new();
    let mut k: usize = 0;
    proof {
        assert(ctx.keys().subrange(0, c0.keys().len() as int) =~= c0.keys());
    }
    while k < cs.len()
        invariant
            k <= cs@.len(),
            ids == ids_view(cs@),
            0 <= parent < c0.keys().len(),
            c0.wf(),
            forall|t: int| 0 <= t < cs@.len() ==> #[trigger] cs@[t]@ < parent && c0.typ_of(cs@[t]@ as int) == TypFo::Bool,
            c0.room(4 * sum_sizes(c0.keys(), ids, cs@.len() as int, parent)),
            ctx.wf(),
            ctx.grows_from(&c0),
            ctx.keys().len() <= c0.keys().len() + 4 * sum_sizes(c0.keys(), ids, k as int, parent),
            out@.len() == k,
            forall|t: int| 0 <= t < k ==> #[trigger] out@[t]@ < ctx.keys().len() && ctx.typ_of(out@[t]@ as int) == TypFo::Bool
                && is_nnf(ctx.keys(), out@[t]@ as int),
            forall|t: int| 0 <= t < k ==> #[trigger] nnf_rel(ctx.keys(), out@[t]@ as int, cs@[t]@ as int, true),
        decreases cs@.len() - k,
    {
        let c = cs[k];
        let ghost before = *ctx;
        proof {
            assert(ids[k as int] == c@);
            assert(sum_sizes(c0.keys(), ids, k + 1, parent) == tree_size(c0.keys(), c@ as int) + sum_sizes(c0.keys(), ids, k as int, parent));
            lemma_sum_mono(c0.keys(), ids, k + 1, cs@.len() as int, parent);
            ctx.lemma_grows(&c0, c@ as int);
        }
        let _neg = intern_formula(ctx, SExprNode::Not(c));
        let ghost after_neg = *ctx;
        proof {
            crate::syntax::context::lemma_grows_trans(&c0, &before, ctx);
            ctx.lemma_grows(&c0, c@ as int);
            lemma_size_stable(c0.keys(), ctx.keys(), c@ as int);
        }
        let r = nnf_not(ctx, c);
        proof {
            crate::syntax::context::lemma_grows_trans(&c0, &after_neg, ctx);
            crate::syntax::context::lemma_grows_trans(&before, &after_neg, ctx);
            assert forall|t: int| 0 <= t < k implies #[trigger] out@[t]@ < ctx.keys().len() && ctx.typ_of(out@[t]@ as int)
                == TypFo::Bool && is_nnf(ctx.keys(), out@[t]@ as int) by {
                lemma_result_grows(&before, ctx, out@[t]@);
            }
            assert forall|t: int| 0 <= t < k implies #[trigger] nnf_rel(ctx.keys(), out@[t]@ as int, cs@[t]@ as int, true) by {
                lemma_rel_stable(before.keys(), ctx.keys(), out@[t]@ as int, cs@[t]@ as int, true);
            }
        }
        let ghost prev = out@;
        out.push(r);
        proof {
            assert forall|t: int| 0 <= t < k + 1 implies #[trigger] nnf_rel(ctx.keys(), out@[t]@ as int, cs@[t]@ as int, true) by {
                if t < k {
                    assert(out@[t] == prev[t]);
                }
            }
        }
        k = k + 1;
    }
    out
}

/// Negation normal form of the negation of the formula `inner`: the core
/// step, which pushes the negation inward.
#[verifier::spinoff_prover]
#[verifier::rlimit(100)]
fn nnf_not<C>(ctx: &mut Context<C>, inner: ExprId) -> (r: ExprId)
    requires
        old(ctx).wf(),
        inner@ < old(ctx).keys().len(),
        old(ctx).typ_of(inner@ as int) == TypFo::Bool,
        old(ctx).keys().len() + 4 * tree_size(old(ctx).keys(), inner@ as int) <= u32::MAX + 1,
    ensures
        nnf_result(old(ctx), final(ctx), r@),
        nnf_rel(final(ctx).keys(), r@ as int, inner@ as int, true),
        final(ctx).keys().len() < old(ctx).keys().len() + 4 * tree_size(old(ctx).keys(), inner@ as int),
    decreases inner@, 1int,
{
    let ghost keys0 = ctx.keys();
    let ghost i = inner@ as int;
    let ghost c0 = *ctx;
    proof {
        ctx.lemma_wf_node(i);
        lemma_size_unfold(keys0, i);
    }
    let node = ctx.node(inner).clone();
    match node {
        // not not phi: phi
        SExprNode::Not(phi) => {
            proof {
                assert(children_of(keys0[i])[0] == phi@);
            }
            let r = nnf_rec(ctx, phi);
            proof {
                lemma_literal_stable(keys0, ctx.keys(), i);
            }
            r
        },
        // not (phi and psi): not phi or not psi
        SExprNode::And(cs) => {
            proof {
                assert(children_of(keys0[i]) == ids_view(cs@));
                assert forall|k: int| 0 <= k < cs@.len() implies #[trigger] cs@[k]@ < i && ctx.typ_of(cs@[k]@ as int)
                    == TypFo::Bool by {
                    assert(ids_view(cs@)[k] == cs@[k]@);
                    assert(children_of(keys0[i])[k] == cs@[k]@);
                }
            }
            let negated = negate_children(ctx, &cs, Ghost(i));
            let ghost mid = *ctx;
            let ghost neg_ids = negated@;
            let r = intern_formula(ctx, SExprNode::Or(negated));
            proof {
                crate::syntax::context::lemma_grows_trans(&c0, &mid, ctx);
                lemma_nnf_children_node(&mid, ctx, neg_ids, r);
                lemma_conn_rel(&mid, ctx, neg_ids, cs@, i, true);
                lemma_literal_stable(keys0, ctx.keys(), i);
            }
            r
        },
        // not (phi or psi): not phi and not psi
        SExprNode::Or(cs) => {
            proof {
                assert(children_of(keys0[i]) == ids_view(cs@));
                assert forall|k: int| 0 <= k < cs@.len() implies #[trigger] cs@[k]@ < i && ctx.typ_of(cs@[k]@ as int)
                    == TypFo::Bool by {
                    assert(ids_view(cs@)[k] == cs@[k]@);
                    assert(children_of(keys0[i])[k] == cs@[k]@);
                }
            }
            let negated = negate_children(ctx, &cs, Ghost(i));
            let ghost mid = *ctx;
            let ghost neg_ids = negated@;
            let r = intern_formula(ctx, SExprNode::And(negated));
            proof {
                crate::syntax::context::lemma_grows_trans(&c0, &mid, ctx);
                lemma_nnf_children_node(&mid, ctx, neg_ids, r);
                lemma_conn_rel(&mid, ctx, neg_ids, cs@, i, true);
                lemma_literal_stable(keys0, ctx.keys(), i);
            }
            r
        },
        // not (a <= b): b < a
        SExprNode::Leq(a, b) => {
            let r = intern_comparison(ctx, SExprNode::Lt(b, a));
            proof {
                lemma_literal_stable(keys0, ctx.keys(), i);
            }
            r
        },
        // not (a < b): b <= a
        SExprNode::Lt(a, b) => {
            let r = intern_comparison(ctx, SExprNode::Leq(b, a));
            proof {
                lemma_literal_stable(keys0, ctx.keys(), i);
            }
            r
        },
        // not (a = b): a < b or b < a
        SExprNode::Eq(a, b) => {
            let lt1 = intern_comparison(ctx, SExprNode::Lt(a, b));
            let ghost c1 = *ctx;
            proof {
                ctx.lemma_grows(&c0, a@ as int);
                ctx.lemma_grows(&c0, b@ as int);
            }
            let lt2 = intern_comparison(ctx, SExprNode::Lt(b, a));
            let ghost c2 = *ctx;
            proof {
                crate::syntax::context::lemma_grows_trans(&c0, &c1, &c2);
                lemma_result_grows(&c1, ctx, lt1@);
            }
            let mut both: Vec<ExprId> = Vec::new();
            both.push(lt1);
            both.push(lt2);
            let ghost both_ids = both@;
            let r = intern_formula(ctx, SExprNode::Or(both));
            proof {
                crate::syntax::context::lemma_grows_trans(&c0, &c2, ctx);
                lemma_nnf_children_node(&c2, ctx, both_ids, r);
                lemma_literal_stable(keys0, ctx.keys(), i);
                crate::syntax::context::lemma_grows_trans(&c1, &c2, ctx);
                lemma_literal_stable(c1.keys(), ctx.keys(), lt1@ as int);
                lemma_literal_stable(c2.keys(), ctx.keys(), lt2@ as int);
                assert(ids_view(both_ids) =~= seq![lt1@, lt2@]);
            }
            r
        },
        // not (exists x. phi): forall x. not phi
        SExprNode::Exists(name, typ, body) => {
            proof {
                assert(children_of(keys0[i])[0] == body@);
            }
            let _neg = intern_formula(ctx, SExprNode::Not(body));
            let ghost c1 = *ctx;
            proof {
                ctx.lemma_grows(&c0, body@ as int);
                lemma_size_stable(c0.keys(), ctx.keys(), body@ as int);
            }
            let body2 = nnf_not(ctx, body);
            let ghost c2 = *ctx;
            proof {
                crate::syntax::context::lemma_grows_trans(&c0, &c1, &c2);
            }
            let r = intern_formula(ctx, SExprNode::Forall(name, typ, body2));
            proof {
                crate::syntax::context::lemma_grows_trans(&c0, &c2, ctx);
                lemma_result_grows(&c2, ctx, body2@);
                lemma_rel_stable(c2.keys(), ctx.keys(), body2@ as int, body@ as int, true);
                lemma_literal_stable(keys0, ctx.keys(), i);
            }
            r
        },
        // not (forall x. phi): exists x. not phi
        SExprNode::Forall(name, typ, body) => {
            proof {
                assert(children_of(keys0[i])[0] == body@);
            }
            let _neg = intern_formula(ctx, SExprNode::Not(body));
            let ghost c1 = *ctx;
            proof {
                ctx.lemma_grows(&c0, body@ as int);
                lemma_size_stable(c0.keys(), ctx.keys(), body@ as int);
            }
            let body2 = nnf_not(ctx, body);
            let ghost c2 = *ctx;
            proof {
                crate::syntax::context::lemma_grows_trans(&c0, &c1, &c2);
            }
            let r = intern_formula(ctx, SExprNode::Exists(name, typ, body2));
            proof {
                crate::syntax::context::lemma_grows_trans(&c0, &c2, ctx);
                lemma_result_grows(&c2, ctx, body2@);
                lemma_rel_stable(c2.keys(), ctx.keys(), body2@ as int, body@ as int, true);
                lemma_literal_stable(keys0, ctx.keys(), i);
            }
            r
        },
        // not (if c then t else e): if c then not t else not e
        SExprNode::Ite(cond, then_, else_) => {
            proof {
                assert(children_of(keys0[i])[0] == cond@);
            }
            nnf_not_ite(ctx, inner, cond, then_, else_)
        },
        // anything else stays under the negation
        node => {
            proof {
                assert(node_key(node) == keys0[i]);
                assert(is_literal(keys0[i]));
            }
            let r = intern_formula(ctx, SExprNode::Not(inner));
            proof {
                assert(ctx.keys()[r@ as int] == NodeKey::Not(inner@));
                lemma_literal_stable(keys0, ctx.keys(), i);
            }
            r
        },
    }
}

/// The negation normal form of a negated conditional: the condition in
/// negation normal form, both branches negated.
#[verifier::spinoff_prover]
#[verifier::rlimit(100)]
fn nnf_not_ite<C>(ctx: &mut Context<C>, inner: ExprId, cond: ExprId, then_: ExprId, else_: ExprId) -> (r: ExprId)
    requires
        old(ctx).wf(),
        inner@ < old(ctx).keys().len(),
        old(ctx).typ_of(inner@ as int) == TypFo::Bool,
        old(ctx).keys()[inner@ as int] == NodeKey::Ite(cond@, then_@, else_@),
        old(ctx).keys().len() + 4 * tree_size(old(ctx).keys(), inner@ as int) <= u32::MAX + 1,
    ensures
        nnf_result(old(ctx), final(ctx), r@),
        nnf_rel(final(ctx).keys(), r@ as int, inner@ as int, true),
        final(ctx).keys().len() < old(ctx).keys().len() + 4 * tree_size(old(ctx).keys(), inner@ as int),
    decreases inner@, 0int,
{
    let ghost keys0 = ctx.keys();
    let ghost i = inner@ as int;
    let ghost c0 = *ctx;
    proof {
        ctx.lemma_wf_node(i);
        lemma_size_unfold(keys0, i);
    }
    let ghost ch = children_of(keys0[i]);
    proof {
        assert(ch[0] == cond@ && ch[1] == then_@ && ch[2] == else_@);
        assert(tree_size(keys0, i) == 1 + tree_size(keys0, cond@ as int) + tree_size(keys0, then_@ as int)
            + tree_size(keys0, else_@ as int));
        assert(keys0[i] == NodeKey::Ite(cond@, then_@, else_@));
        assert(typ_at(keys0, ctx.syms(), i) == typ_at(keys0, ctx.syms(), then_@ as int));
    }
    let _neg_then = intern_formula(ctx, SExprNode::Not(then_));
    let ghost c1 = *ctx;
    proof {
        ctx.lemma_grows(&c0, else_@ as int);
    }
    let _neg_else = intern_formula(ctx, SExprNode::Not(else_));
    let ghost c2 = *ctx;
    proof {
        crate::syntax::context::lemma_grows_trans(&c0, &c1, &c2);
        ctx.lemma_grows(&c0, then_@ as int);
        lemma_size_stable(c0.keys(), ctx.keys(), then_@ as int);
    }
    let then2 = nnf_not(ctx, then_);
    let ghost c3 = *ctx;
    proof {
        crate::syntax::context::lemma_grows_trans(&c0, &c2, &c3);
        ctx.lemma_grows(&c0, else_@ as int);
        lemma_size_stable(c0.keys(), ctx.keys(), else_@ as int);
    }
    let else2 = nnf_not(ctx, else_);
    let ghost c4 = *ctx;
    proof {
        crate::syntax::context::lemma_grows_trans(&c0, &c3, &c4);
        lemma_result_grows(&c3, ctx, then2@);
        ctx.lemma_grows(&c0, cond@ as int);
        lemma_size_stable(c0.keys(), ctx.keys(), cond@ as int);
        lemma_rel_stable(c3.keys(), ctx.keys(), then2@ as int, then_@ as int, true);
    }
    let cond2 = nnf_rec(ctx, cond);
    let ghost c5 = *ctx;
    proof {
        crate::syntax::context::lemma_grows_trans(&c0, &c4, &c5);
        crate::syntax::context::lemma_grows_trans(&c3, &c4, &c5);
        lemma_result_grows(&c4, ctx, then2@);
        lemma_result_grows(&c4, ctx, else2@);
        lemma_rel_stable(c4.keys(), ctx.keys(), then2@ as int, then_@ as int, true);
        lemma_rel_stable(c4.keys(), ctx.keys(), else2@ as int, else_@ as int, true);
    }
    let r = intern_formula(ctx, SExprNode::Ite(cond2, then2, else2));
    proof {
        crate::syntax::context::lemma_grows_trans(&c0, &c5, ctx);
        lemma_result_grows(&c5, ctx, then2@);
        lemma_result_grows(&c5, ctx, else2@);
        lemma_result_grows(&c5, ctx, cond2@);
        lemma_rel_stable(c5.keys(), ctx.keys(), then2@ as int, then_@ as int, true);
        lemma_rel_stable(c5.keys(), ctx.keys(), else2@ as int, else_@ as int, true);
        lemma_rel_stable(c5.keys(), ctx.keys(), cond2@ as int, cond@ as int, false);
        lemma_literal_stable(keys0, ctx.keys(), i);
    }
    r
}

proof fn lemma_literal_stable(nodes: Seq<NodeKey>, ext: Seq<NodeKey>, i: int)
    requires
        extends(nodes, ext),
        0 <= i < nodes.len(),
    ensures
        ext[i] == nodes[i],
{
    assert(ext.subrange(0, nodes.len() as int)[i] == ext[i]);
}

/// Intern a comparison of two arithmetic terms of the context, and return
/// its id.
fn intern_comparison<C>(ctx: &mut Context<C>, node: SExprNode) -> (r: ExprId)
    requires
        old(ctx).wf(),
        old(ctx).room(1),
        match node_key(node) {
            NodeKey::Lt(a, b) => a < old(ctx).keys().len() && b < old(ctx).keys().len() && crate::syntax::context::is_arith(
                old(ctx).typ_of(a as int),
            ) && crate::syntax::context::is_arith(old(ctx).typ_of(b as int)),
            NodeKey::Leq(a, b) => a < old(ctx).keys().len() && b < old(ctx).keys().len() && crate::syntax::context::is_arith(
                old(ctx).typ_of(a as int),
            ) && crate::syntax::context::is_arith(old(ctx).typ_of(b as int)),
            _ => false,
        },
    ensures
        nnf_result(old(ctx), final(ctx), r@),
        final(ctx).keys()[r@ as int] == node_key(node),
        final(ctx).keys().len() <= old(ctx).keys().len() + 1,
{
    let ghost keys = ctx.keys();
    let ghost key = node_key(node);
    proof {
        lemma_push_typs(keys, ctx.syms(), key);
        assert(keys.push(key)[keys.len() as int] == key);
        match key {
            NodeKey::Lt(a, b) => {
                assert(typ_at(keys.push(key), ctx.syms(), a as int) == typ_at(keys, ctx.syms(), a as int));
                assert(typ_at(keys.push(key), ctx.syms(), b as int) == typ_at(keys, ctx.syms(), b as int));
                assert(children_of(key) == seq![a, b]);
            },
            NodeKey::Leq(a, b) => {
                assert(typ_at(keys.push(key), ctx.syms(), a as int) == typ_at(keys, ctx.syms(), a as int));
                assert(typ_at(keys.push(key), ctx.syms(), b as int) == typ_at(keys, ctx.syms(), b as int));
                assert(children_of(key) == seq![a, b]);
            },
            _ => {},
        }
    }
    let r = ctx.intern_node(node);
    proof {
        ctx.lemma_wf_node(r@ as int);
        assert(ctx.keys()[r@ as int] == key);
    }
    r
}

/// Convert a formula to negation normal form.
///
/// Pushes negations inward so that `Not` only appears directly above atoms.
/// The result is the formula rewritten by the rules of `nnf_rel`. The context needs room for four nodes per node of the formula
/// unfolded into a tree.
pub fn nnf<C>(ctx: &mut Context<C>, formula: Formula<C>) -> (r: Formula<C>)
    requires
        old(ctx).wf(),
        old(ctx).formula_ok(formula),
        old(ctx).room(4 * tree_size(old(ctx).keys(), formula@ as int)),
    ensures
        final(ctx).wf(),
        final(ctx).grows_from(old(ctx)),
        final(ctx).formula_ok(r),
        is_nnf(final(ctx).keys(), r@ as int),
        nnf_rel(final(ctx).keys(), r@ as int, formula@ as int, false),
{
    let id = nnf_rec(ctx, formula.node_id());
    Formula::of_id(id)
}


// ---------------------------------------------------------------------------
// Rebuilding nodes
// ---------------------------------------------------------------------------

/// A node with its operands left out: what is compared when two nodes are
/// said to have the same constructor and the same non-operand fields.
pub open spec fn head(k: NodeKey) -> NodeKey {
    match k {
        NodeKey::Add(_) => NodeKey::Add(Seq::empty()),
        NodeKey::Mul(_) => NodeKey::Mul(Seq::empty()),
        NodeKey::Div(_, _) => NodeKey::Div(0, 0),
        NodeKey::Mod(_, _) => NodeKey::Mod(0, 0),
        NodeKey::Floor(_) => NodeKey::Floor(0),
        NodeKey::Neg(_) => NodeKey::Neg(0),
        NodeKey::App(s, _) => NodeKey::App(s, Seq::empty()),
        NodeKey::Select(_, _) => NodeKey::Select(0, 0),
        NodeKey::Store(_, _, _) => NodeKey::Store(0, 0, 0),
        NodeKey::And(_) => NodeKey::And(Seq::empty()),
        NodeKey::Or(_) => NodeKey::Or(Seq::empty()),
        NodeKey::Not(_) => NodeKey::Not(0),
        NodeKey::Eq(_, _) => NodeKey::Eq(0, 0),
        NodeKey::Leq(_, _) => NodeKey::Leq(0, 0),
        NodeKey::Lt(_, _) => NodeKey::Lt(0, 0),
        NodeKey::ArrEq(_, _) => NodeKey::ArrEq(0, 0),
        NodeKey::Exists(n, t, _) => NodeKey::Exists(n, t, 0),
        NodeKey::Forall(n, t, _) => NodeKey::Forall(n, t, 0),
        NodeKey::Ite(_, _, _) => NodeKey::Ite(0, 0, 0),
        _ => k,
    }
}

/// The operands of a node, in order.
fn children_ids(node: &SExprNode) -> (r: Vec<ExprId>)
    ensures
        ids_view(r@) == children_of(node_key(*node)),
{
    let mut v: Vec<ExprId> = Vec::new();
    match node {
        SExprNode::Add(cs) | SExprNode::Mul(cs) | SExprNode::And(cs) | SExprNode::Or(cs) => {
            v = super::expr::copy_ids(cs);
        },
        SExprNode::App(_, cs) => {
            v = super::expr::copy_ids(cs);
        },
        SExprNode::Div(a, b) | SExprNode::Mod(a, b) | SExprNode::Eq(a, b) | SExprNode::Leq(a, b) | SExprNode::Lt(a, b)
        | SExprNode::ArrEq(a, b) | SExprNode::Select(a, b) => {
            v.push(*a);
            v.push(*b);
        },
        SExprNode::Floor(a) | SExprNode::Neg(a) | SExprNode::Not(a) => {
            v.push(*a);
        },
        SExprNode::Exists(_, _, a) | SExprNode::Forall(_, _, a) => {
            v.push(*a);
        },
        SExprNode::Store(a, b, c) | SExprNode::Ite(a, b, c) => {
            v.push(*a);
            v.push(*b);
            v.push(*c);
        },
        _ => {},
    }
    proof {
        assert(ids_view(v@) =~= children_of(node_key(*node)));
    }
    v
}

/// `node` with its operands replaced, in order, by `cs`.
fn with_children(node: SExprNode, cs: Vec<ExprId>) -> (r: SExprNode)
    requires
        cs@.len() == children_of(node_key(node)).len(),
    ensures
        head(node_key(r)) == head(node_key(node)),
        children_of(node_key(r)) == ids_view(cs@),
{
    let ghost c = cs@;
    proof {
        assert(c.len() == 3 ==> ids_view(c) =~= seq![c[0]@, c[1]@, c[2]@]);
        assert(c.len() == 2 ==> ids_view(c) =~= seq![c[0]@, c[1]@]);
        assert(c.len() == 1 ==> ids_view(c) =~= seq![c[0]@]);
    }
    match node {
        SExprNode::Add(_) => SExprNode::Add(cs),
        SExprNode::Mul(_) => SExprNode::Mul(cs),
        SExprNode::And(_) => SExprNode::And(cs),
        SExprNode::Or(_) => SExprNode::Or(cs),
        SExprNode::App(s, _) => SExprNode::App(s, cs),
        SExprNode::Div(_, _) => SExprNode::Div(cs[0], cs[1]),
        SExprNode::Mod(_, _) => SExprNode::Mod(cs[0], cs[1]),
        SExprNode::Eq(_, _) => SExprNode::Eq(cs[0], cs[1]),
        SExprNode::Leq(_, _) => SExprNode::Leq(cs[0], cs[1]),
        SExprNode::Lt(_, _) => SExprNode::Lt(cs[0], cs[1]),
        SExprNode::ArrEq(_, _) => SExprNode::ArrEq(cs[0], cs[1]),
        SExprNode::Select(_, _) => SExprNode::Select(cs[0], cs[1]),
        SExprNode::Floor(_) => SExprNode::Floor(cs[0]),
        SExprNode::Neg(_) => SExprNode::Neg(cs[0]),
        SExprNode::Not(_) => SExprNode::Not(cs[0]),
        SExprNode::Exists(n, t, _) => SExprNode::Exists(n, t, cs[0]),
        SExprNode::Forall(n, t, _) => SExprNode::Forall(n, t, cs[0]),
        SExprNode::Store(_, _, _) => SExprNode::Store(cs[0], cs[1], cs[2]),
        SExprNode::Ite(_, _, _) => SExprNode::Ite(cs[0], cs[1], cs[2]),
        other => other,
    }
}

/// Two nodes with the same constructor, non-operand fields and operand
/// sorts have the same sort.
proof fn lemma_typ_by_children(a: Seq<NodeKey>, b: Seq<NodeKey>, syms: Seq<(Seq<char>, Typ)>, i: int, j: int)
    requires
        0 <= i < a.len(),
        0 <= j < b.len(),
        head(a[i]) == head(b[j]),
        children_of(a[i]).len() == children_of(b[j]).len(),
        forall|k: int|
            0 <= k < children_of(a[i]).len() ==> #[trigger] children_of(a[i])[k] < i && children_of(b[j])[k] < j && typ_at(
                b,
                syms,
                children_of(b[j])[k] as int,
            ) == typ_at(a, syms, children_of(a[i])[k] as int),
    ensures
        typ_at(b, syms, j) == typ_at(a, syms, i),
{
    let xs = children_of(a[i]);
    let ys = children_of(b[j]);
    match a[i] {
        NodeKey::Add(_) => {
            lemma_any_real_by_children(a, b, syms, xs, ys, xs.len() as int, i, j);
        },
        NodeKey::Mul(_) => {
            lemma_any_real_by_children(a, b, syms, xs, ys, xs.len() as int, i, j);
        },
        NodeKey::Neg(_) => {
            assert(xs[0] < i);
        },
        NodeKey::Mod(_, _) => {
            assert(xs[0] < i);
        },
        NodeKey::Ite(_, _, _) => {
            assert(xs[1] < i);
        },
        _ => {},
    }
}

proof fn lemma_any_real_by_children(
    a: Seq<NodeKey>,
    b: Seq<NodeKey>,
    syms: Seq<(Seq<char>, Typ)>,
    xs: Seq<u32>,
    ys: Seq<u32>,
    n: int,
    i: int,
    j: int,
)
    requires
        xs.len() == ys.len(),
        0 <= n <= xs.len(),
        forall|k: int|
            0 <= k < xs.len() ==> #[trigger] xs[k] < i && ys[k] < j && typ_at(b, syms, ys[k] as int) == typ_at(
                a,
                syms,
                xs[k] as int,
            ),
    ensures
        crate::syntax::context::any_real(b, syms, ys, n, j) == crate::syntax::context::any_real(a, syms, xs, n, i),
    decreases n,
{
    if n > 0 {
        assert(xs[n - 1] < i);
        lemma_any_real_by_children(a, b, syms, xs, ys, n - 1, i, j);
    }
}

/// A node rebuilt with operands of the same sorts as those of a well-sorted
/// node is well sorted.
proof fn lemma_node_ok_by_children(a: Seq<NodeKey>, b: Seq<NodeKey>, syms: Seq<(Seq<char>, Typ)>, i: int, key: NodeKey)
    requires
        0 <= i < a.len(),
        node_ok(a, syms, i),
        head(a[i]) == head(key),
        children_of(a[i]).len() == children_of(key).len(),
        forall|k: int|
            0 <= k < children_of(a[i]).len() ==> #[trigger] children_of(key)[k] < b.len() && typ_at(
                b.push(key),
                syms,
                children_of(key)[k] as int,
            ) == typ_at(a, syms, children_of(a[i])[k] as int),
    ensures
        node_ok(b.push(key), syms, b.len() as int),
{
    let nb = b.push(key);
    assert(nb[b.len() as int] == key);
    let xs = children_of(a[i]);
    let ys = children_of(key);
    match a[i] {
        NodeKey::Add(_) => {
            assert forall|k: int| 0 <= k < ys.len() implies crate::syntax::context::is_arith(
                #[trigger] typ_at(nb, syms, ys[k] as int),
            ) by {
                assert(typ_at(nb, syms, ys[k] as int) == typ_at(a, syms, xs[k] as int));
            }
        },
        NodeKey::Mul(_) => {
            assert forall|k: int| 0 <= k < ys.len() implies crate::syntax::context::is_arith(
                #[trigger] typ_at(nb, syms, ys[k] as int),
            ) by {
                assert(typ_at(nb, syms, ys[k] as int) == typ_at(a, syms, xs[k] as int));
            }
        },
        NodeKey::And(_) => {
            assert forall|k: int| 0 <= k < ys.len() implies #[trigger] typ_at(nb, syms, ys[k] as int) == TypFo::Bool by {
                assert(typ_at(nb, syms, ys[k] as int) == typ_at(a, syms, xs[k] as int));
            }
        },
        NodeKey::Or(_) => {
            assert forall|k: int| 0 <= k < ys.len() implies #[trigger] typ_at(nb, syms, ys[k] as int) == TypFo::Bool by {
                assert(typ_at(nb, syms, ys[k] as int) == typ_at(a, syms, xs[k] as int));
            }
        },
        _ => {
            if ys.len() >= 1 {
                assert(typ_at(nb, syms, ys[0] as int) == typ_at(a, syms, xs[0] as int));
            }
            if ys.len() >= 2 {
                assert(typ_at(nb, syms, ys[1] as int) == typ_at(a, syms, xs[1] as int));
            }
            if ys.len() >= 3 {
                assert(typ_at(nb, syms, ys[2] as int) == typ_at(a, syms, xs[2] as int));
            }
        },
    }
}

// ---------------------------------------------------------------------------
// De Bruijn index shifting ("decapture")
// ---------------------------------------------------------------------------

/// A variable index shifted by `incr` unless it is bound (below `depth`);
/// the sum is taken modulo 2^32.
pub open spec fn shift_index(v: u32, depth: int, incr: int) -> u32 {
    if v < depth {
        v
    } else {
        (v + incr) as u32
    }
}

/// Node `j` of `b` is node `i` of `a` with its free variables (those at or
/// above `depth`, counting the binders passed) shifted by `incr`.
pub open spec fn shift_rel(a: Seq<NodeKey>, b: Seq<NodeKey>, depth: int, incr: int, i: int, j: int) -> bool
    decreases i, operand_bound(a, i),
{
    if 0 <= i < a.len() && 0 <= j < b.len() {
        match a[i] {
            NodeKey::Var(v, t) => b[j] == NodeKey::Var(shift_index(v, depth, incr), t),
            NodeKey::Exists(n, t, x) => x < i && match b[j] {
                NodeKey::Exists(m, u, y) => m == n && u == t && shift_rel(a, b, depth + 1, incr, x as int, y as int),
                _ => false,
            },
            NodeKey::Forall(n, t, x) => x < i && match b[j] {
                NodeKey::Forall(m, u, y) => m == n && u == t && shift_rel(a, b, depth + 1, incr, x as int, y as int),
                _ => false,
            },
            _ => head(b[j]) == head(a[i]) && children_of(b[j]).len() == children_of(a[i]).len() && shift_all(
                a,
                b,
                depth,
                incr,
                children_of(a[i]),
                children_of(b[j]),
                children_of(a[i]).len() as int,
                i,
            ),
        }
    } else {
        false
    }
}

/// The first `n` operands `ys` in `b` are the operands `xs` (before node `i`)
/// of `a` shifted.
pub open spec fn shift_all(a: Seq<NodeKey>, b: Seq<NodeKey>, depth: int, incr: int, xs: Seq<u32>, ys: Seq<u32>, n: int, i: int) -> bool
    decreases i, n,
{
    if n <= 0 || n > xs.len() || n > ys.len() {
        true
    } else {
        xs[n - 1] < i && shift_rel(a, b, depth, incr, xs[n - 1] as int, ys[n - 1] as int) && shift_all(
            a,
            b,
            depth,
            incr,
            xs,
            ys,
            n - 1,
            i,
        )
    }
}

proof fn lemma_shift_grows(a: Seq<NodeKey>, b: Seq<NodeKey>, b2: Seq<NodeKey>, depth: int, incr: int, i: int, j: int)
    requires
        extends(b, b2),
        shift_rel(a, b, depth, incr, i, j),
    ensures
        shift_rel(a, b2, depth, incr, i, j),
    decreases i, 1int, 0int,
{
    assert(b2.subrange(0, b.len() as int)[j] == b2[j]);
    match a[i] {
        NodeKey::Var(_, _) => {},
        NodeKey::Exists(_, _, x) => {
            match b[j] {
                NodeKey::Exists(_, _, y) => {
                    lemma_shift_grows(a, b, b2, depth + 1, incr, x as int, y as int);
                },
                _ => {},
            }
        },
        NodeKey::Forall(_, _, x) => {
            match b[j] {
                NodeKey::Forall(_, _, y) => {
                    lemma_shift_grows(a, b, b2, depth + 1, incr, x as int, y as int);
                },
                _ => {},
            }
        },
        _ => {
            let xs = children_of(a[i]);
            lemma_shift_all_grows(a, b, b2, depth, incr, xs, children_of(b[j]), xs.len() as int, i);
        },
    }
}

proof fn lemma_shift_all_grows(
    a: Seq<NodeKey>,
    b: Seq<NodeKey>,
    b2: Seq<NodeKey>,
    depth: int,
    incr: int,
    xs: Seq<u32>,
    ys: Seq<u32>,
    n: int,
    i: int,
)
    requires
        extends(b, b2),
        shift_all(a, b, depth, incr, xs, ys, n, i),
    ensures
        shift_all(a, b2, depth, incr, xs, ys, n, i),
    decreases i, 0int, n,
{
    if 0 < n <= xs.len() && n <= ys.len() {
        lemma_shift_grows(a, b, b2, depth, incr, xs[n - 1] as int, ys[n - 1] as int);
        lemma_shift_all_grows(a, b, b2, depth, incr, xs, ys, n - 1, i);
    }
}

proof fn lemma_shift_all_from(a: Seq<NodeKey>, b: Seq<NodeKey>, depth: int, incr: int, xs: Seq<u32>, ys: Seq<u32>, n: int, i: int)
    requires
        xs.len() == ys.len(),
        0 <= n <= xs.len(),
        forall|k: int| 0 <= k < n ==> #[trigger] xs[k] < i && shift_rel(a, b, depth, incr, xs[k] as int, ys[k] as int),
    ensures
        shift_all(a, b, depth, incr, xs, ys, n, i),
    decreases n,
{
    if n > 0 {
        assert(xs[n - 1] < i);
        lemma_shift_all_from(a, b, depth, incr, xs, ys, n - 1, i);
    }
}

/// Shift the free variables of node `id` (those at or above `depth`) by
/// `incr`, keeping the sort of the node.
#[verifier::spinoff_prover]
#[verifier::rlimit(100)]
fn decapture<C>(ctx: &mut Context<C>, depth: u32, incr: i32, id: ExprId) -> (r: ExprId)
    requires
        old(ctx).wf(),
        id@ < old(ctx).keys().len(),
        depth + tree_size(old(ctx).keys(), id@ as int) <= u32::MAX,
        old(ctx).room(tree_size(old(ctx).keys(), id@ as int)),
    ensures
        final(ctx).wf(),
        final(ctx).grows_from(old(ctx)),
        r@ < final(ctx).keys().len(),
        final(ctx).typ_of(r@ as int) == old(ctx).typ_of(id@ as int),
        shift_rel(old(ctx).keys(), final(ctx).keys(), depth as int, incr as int, id@ as int, r@ as int),
        final(ctx).keys().len() <= old(ctx).keys().len() + tree_size(old(ctx).keys(), id@ as int),
    decreases id@, 1int,
{
    let ghost keys0 = ctx.keys();
    let ghost syms = ctx.syms();
    let ghost i = id@ as int;
    let ghost c0 = *ctx;
    proof {
        ctx.lemma_wf_node(i);
        lemma_size_unfold(keys0, i);
    }
    let node = ctx.node(id).clone();
    match node {
        SExprNode::Exists(name, typ, body) => {
            proof {
                assert(children_of(keys0[i])[0] == body@);
            }
            let body2 = decapture(ctx, depth + 1, incr, body);
            let ghost mid = *ctx;
            let ghost key = NodeKey::Exists(name@, typ, body2@);
            proof {
                lemma_push_typs(mid.keys(), syms, key);
                assert(mid.keys().push(key)[mid.keys().len() as int] == key);
            }
            let r = ctx.intern_node(SExprNode::Exists(name, typ, body2));
            proof {
                crate::syntax::context::lemma_grows_trans(&c0, &mid, ctx);
                lemma_shift_grows(keys0, mid.keys(), ctx.keys(), depth + 1, incr as int, body@ as int, body2@ as int);
                assert(ctx.keys()[r@ as int] == key);
            }
            r
        },
        SExprNode::Forall(name, typ, body) => {
            proof {
                assert(children_of(keys0[i])[0] == body@);
            }
            let body2 = decapture(ctx, depth + 1, incr, body);
            let ghost mid = *ctx;
            let ghost key = NodeKey::Forall(name@, typ, body2@);
            proof {
                lemma_push_typs(mid.keys(), syms, key);
                assert(mid.keys().push(key)[mid.keys().len() as int] == key);
            }
            let r = ctx.intern_node(SExprNode::Forall(name, typ, body2));
            proof {
                crate::syntax::context::lemma_grows_trans(&c0, &mid, ctx);
                lemma_shift_grows(keys0, mid.keys(), ctx.keys(), depth + 1, incr as int, body@ as int, body2@ as int);
                assert(ctx.keys()[r@ as int] == key);
            }
            r
        },
        SExprNode::Var(v, typ) => {
            if v < depth {
                proof {
                    assert(ctx.keys().subrange(0, keys0.len() as int) =~= keys0);
                }
                id
            } else {
                let new_v = ((v as i64) + (incr as i64)) as u32;
                let ghost key = NodeKey::Var(new_v, typ);
                proof {
                    assert(keys0.push(key)[keys0.len() as int] == key);
                }
                let r = ctx.intern_node(SExprNode::Var(new_v, typ));
                proof {
                    assert(ctx.keys()[r@ as int] == key);
                }
                r
            }
        },
        node => {
            let cs = children_ids(&node);
            proof {
                assert forall|k: int| 0 <= k < cs@.len() implies #[trigger] cs@[k]@ < i by {
                    assert(ids_view(cs@)[k] == cs@[k]@);
                }
            }
            let new_cs = decapture_children(ctx, depth, incr, &cs, Ghost(i));
            let ghost mid = *ctx;
            let rebuilt = with_children(node, new_cs);
            let ghost key = node_key(rebuilt);
            let ghost ys = ids_view(new_cs@);
            proof {
                let xs = children_of(keys0[i]);
                assert forall|k: int| 0 <= k < xs.len() implies #[trigger] children_of(key)[k] < mid.keys().len() && typ_at(
                    mid.keys().push(key),
                    syms,
                    children_of(key)[k] as int,
                ) == typ_at(keys0, syms, xs[k] as int) by {
                    assert(ys[k] == new_cs@[k]@);
                    assert(xs[k] == cs@[k]@);
                    crate::syntax::context::lemma_push_typs(mid.keys(), syms, key);
                }
                lemma_node_ok_by_children(keys0, mid.keys(), syms, i, key);
            }
            let r = ctx.intern_node(rebuilt);
            proof {
                crate::syntax::context::lemma_grows_trans(&c0, &mid, ctx);
                ctx.lemma_wf_node(r@ as int);
                let xs = children_of(keys0[i]);
                assert(ctx.keys()[r@ as int] == key);
                assert forall|k: int| 0 <= k < xs.len() implies #[trigger] xs[k] < i && shift_rel(
                    keys0,
                    ctx.keys(),
                    depth as int,
                    incr as int,
                    xs[k] as int,
                    ys[k] as int,
                ) by {
                    assert(ys[k] == new_cs@[k]@);
                    assert(xs[k] == cs@[k]@);
                    lemma_shift_grows(keys0, mid.keys(), ctx.keys(), depth as int, incr as int, xs[k] as int, ys[k] as int);
                }
                lemma_shift_all_from(keys0, ctx.keys(), depth as int, incr as int, xs, ys, xs.len() as int, i);
                assert forall|k: int| 0 <= k < xs.len() implies #[trigger] xs[k] < i && children_of(ctx.keys()[r@ as int])[k]
                    < r@ && typ_at(ctx.keys(), syms, children_of(ctx.keys()[r@ as int])[k] as int) == typ_at(
                    keys0,
                    syms,
                    xs[k] as int,
                ) by {
                    assert(ys[k] == new_cs@[k]@);
                    assert(xs[k] == cs@[k]@);
                    ctx.lemma_grows(&mid, ys[k] as int);
                }
                lemma_typ_by_children(keys0, ctx.keys(), syms, i, r@ as int);
            }
            r
        },
    }
}

/// Shift each operand in `cs` of node `parent`.
fn decapture_children<C>(ctx: &mut Context<C>, depth: u32, incr: i32, cs: &Vec<ExprId>, Ghost(parent): Ghost<int>) -> (r: Vec<
    ExprId,
>)
    requires
        old(ctx).wf(),
        0 <= parent < old(ctx).keys().len(),
        forall|k: int| 0 <= k < cs@.len() ==> #[trigger] cs@[k]@ < parent,
        depth + sum_sizes(old(ctx).keys(), ids_view(cs@), cs@.len() as int, parent) <= u32::MAX,
        old(ctx).room(sum_sizes(old(ctx).keys(), ids_view(cs@), cs@.len() as int, parent)),
    ensures
        final(ctx).wf(),
        final(ctx).grows_from(old(ctx)),
        r@.len() == cs@.len(),
        forall|k: int|
            0 <= k < r@.len() ==> #[trigger] r@[k]@ < final(ctx).keys().len() && final(ctx).typ_of(r@[k]@ as int) == old(
                ctx,
            ).typ_of(cs@[k]@ as int) && shift_rel(old(ctx).keys(), final(ctx).keys(), depth as int, incr as int, cs@[k]@ as int, r@[k]@ as int),
        final(ctx).keys().len() <= old(ctx).keys().len() + sum_sizes(old(ctx).keys(), ids_view(cs@), cs@.len() as int, parent),
    decreases parent, 0int,
{
    let ghost c0 = *ctx;
    let ghost ids = ids_view(cs@);
    let mut out: Vec<ExprId> = Vec::new();
    let mut k: usize = 0;
    proof {
        assert(ctx.keys().subrange(0, c0.keys().len() as int) =~= c0.keys());
    }
    while k < cs.len()
        invariant
            k <= cs@.len(),
            ids == ids_view(cs@),
            0 <= parent < c0.keys().len(),
            c0.wf(),
            forall|t: int| 0 <= t < cs@.len() ==> #[trigger] cs@[t]@ < parent,
            depth + sum_sizes(c0.keys(), ids, cs@.len() as int, parent) <= u32::MAX,
            c0.room(sum_sizes(c0.keys(), ids, cs@.len() as int, parent)),
            ctx.wf(),
            ctx.grows_from(&c0),
            ctx.keys().len() <= c0.keys().len() + sum_sizes(c0.keys(), ids, k as int, parent),
            out@.len() == k,
            forall|t: int|
                0 <= t < k ==> #[trigger] out@[t]@ < ctx.keys().len() && ctx.typ_of(out@[t]@ as int) == c0.typ_of(cs@[t]@ as int)
                    && shift_rel(c0.keys(), ctx.keys(), depth as int, incr as int, cs@[t]@ as int, out@[t]@ as int),
        decreases cs@.len() - k,
    {
        let c = cs[k];
        let ghost before = *ctx;
        proof {
            assert(ids[k as int] == c@);
            assert(sum_sizes(c0.keys(), ids, k + 1, parent) == tree_size(c0.keys(), c@ as int) + sum_sizes(c0.keys(), ids, k as int, parent));
            lemma_sum_mono(c0.keys(), ids, k + 1, cs@.len() as int, parent);
            ctx.lemma_grows(&c0, c@ as int);
            lemma_size_stable(c0.keys(), ctx.keys(), c@ as int);
        }
        let r = decapture(ctx, depth, incr, c);
        proof {
            crate::syntax::context::lemma_grows_trans(&c0, &before, ctx);
            lemma_shift_from_grown(&c0, &before, ctx, depth as int, incr as int, c@ as int, r@ as int);
            assert forall|t: int|
                0 <= t < k implies #[trigger] out@[t]@ < ctx.keys().len() && ctx.typ_of(out@[t]@ as int) == c0.typ_of(cs@[t]@ as int)
                && shift_rel(c0.keys(), ctx.keys(), depth as int, incr as int, cs@[t]@ as int, out@[t]@ as int) by {
                ctx.lemma_grows(&before, out@[t]@ as int);
                lemma_shift_grows(c0.keys(), before.keys(), ctx.keys(), depth as int, incr as int, cs@[t]@ as int, out@[t]@ as int);
            }
        }
        out.push(r);
        k = k + 1;
    }
    out
}

/// A shift computed from a grown context is a shift of the node in the
/// context it grew from.
proof fn lemma_shift_from_grown<C>(c0: &Context<C>, c1: &Context<C>, c2: &Context<C>, depth: int, incr: int, i: int, j: int)
    requires
        c1.grows_from(c0),
        0 <= i < c0.keys().len(),
        shift_rel(c1.keys(), c2.keys(), depth, incr, i, j),
    ensures
        shift_rel(c0.keys(), c2.keys(), depth, incr, i, j),
{
    lemma_shift_source(c0.keys(), c1.keys(), c2.keys(), depth, incr, i, j);
}

proof fn lemma_shift_source(a: Seq<NodeKey>, a2: Seq<NodeKey>, b: Seq<NodeKey>, depth: int, incr: int, i: int, j: int)
    requires
        extends(a, a2),
        0 <= i < a.len(),
        shift_rel(a2, b, depth, incr, i, j),
    ensures
        shift_rel(a, b, depth, incr, i, j),
    decreases i, 1int, 0int,
{
    assert(a2.subrange(0, a.len() as int)[i] == a2[i]);
    match a[i] {
        NodeKey::Var(_, _) => {},
        NodeKey::Exists(_, _, x) => {
            match b[j] {
                NodeKey::Exists(_, _, y) => {
                    lemma_shift_source(a, a2, b, depth + 1, incr, x as int, y as int);
                },
                _ => {},
            }
        },
        NodeKey::Forall(_, _, x) => {
            match b[j] {
                NodeKey::Forall(_, _, y) => {
                    lemma_shift_source(a, a2, b, depth + 1, incr, x as int, y as int);
                },
                _ => {},
            }
        },
        _ => {
            let xs = children_of(a[i]);
            lemma_shift_all_source(a, a2, b, depth, incr, xs, children_of(b[j]), xs.len() as int, i);
        },
    }
}

proof fn lemma_shift_all_source(
    a: Seq<NodeKey>,
    a2: Seq<NodeKey>,
    b: Seq<NodeKey>,
    depth: int,
    incr: int,
    xs: Seq<u32>,
    ys: Seq<u32>,
    n: int,
    i: int,
)
    requires
        extends(a, a2),
        0 <= i < a.len(),
        shift_all(a2, b, depth, incr, xs, ys, n, i),
    ensures
        shift_all(a, b, depth, incr, xs, ys, n, i),
    decreases i, 0int, n,
{
    if 0 < n <= xs.len() && n <= ys.len() {
        lemma_shift_source(a, a2, b, depth, incr, xs[n - 1] as int, ys[n - 1] as int);
        lemma_shift_all_source(a, a2, b, depth, incr, xs, ys, n - 1, i);
    }
}


// ---------------------------------------------------------------------------
// Substitution
// ---------------------------------------------------------------------------

/// How a substitution treats the leaves of an expression: which leaves it
/// replaces, and by what.
pub trait Replacer<C> {
    /// The ids that may replace the leaf `k` met under `d` binders, or
    /// `None` when `k` is kept.
    spec fn repl(&self, k: NodeKey, d: int) -> Option<Set<u32>>;

    /// Every call the replacer makes is allowed.
    spec fn callable(&self) -> bool;

    /// Only variables and applications are replaced.
    proof fn lemma_leaves(&self, k: NodeKey, d: int)
        ensures
            self.repl(k, d) is Some ==> (k is Var || k is App),
    ;

    /// The replacement for the leaf `node` under `depth` binders, if it is
    /// replaced.
    fn replace(&self, node: &SExprNode, depth: u32) -> (r: Option<Expr<C>>)
        requires
            self.callable(),
        ensures
            match r {
                Some(e) => self.repl(node_key(*node), depth as int) is Some && self.repl(
                    node_key(*node),
                    depth as int,
                )->0.contains(expr_id(e)),
                None => self.repl(node_key(*node), depth as int) is None,
            },
    ;
}

/// The sort a leaf has: the declared sort of a variable, the result sort of
/// an application.
pub open spec fn leaf_typ(syms: Seq<(Seq<char>, Typ)>, k: NodeKey) -> TypFo {
    match k {
        NodeKey::Var(_, t) => t,
        NodeKey::App(s, _) => crate::syntax::context::codomain(syms[s as int].1),
        _ => TypFo::Int,
    }
}

/// Every replacement the replacer may give is a node of `ctx` of the sort of
/// the leaf it replaces, of tree size at most `b`.
pub open spec fn replacer_ok<C, R: Replacer<C>>(rep: R, ctx: &Context<C>, b: nat) -> bool {
    forall|k: NodeKey, d: int, e: u32|
        #![trigger rep.repl(k, d)->0.contains(e)]
        rep.repl(k, d) is Some && rep.repl(k, d)->0.contains(e) ==> e < ctx.keys().len() && typ_at(ctx.keys(), ctx.syms(), e as int)
            == leaf_typ(ctx.syms(), k) && tree_size(ctx.keys(), e as int) <= b
}

/// Node `j` of `b` is node `i` of `a` with each leaf that `rep` replaces
/// (under the binders passed, counted from `depth`) replaced by one of its
/// replacements, shifted under those binders.
pub open spec fn subst_rel<C, R: Replacer<C>>(rep: R, a: Seq<NodeKey>, b: Seq<NodeKey>, depth: int, i: int, j: int) -> bool
    decreases i, operand_bound(a, i),
{
    if 0 <= i < a.len() && 0 <= j < b.len() {
        match rep.repl(a[i], depth) {
            Some(es) => exists|e: u32| #[trigger] es.contains(e) && e < a.len() && shift_rel(a, b, 0, depth, e as int, j),
            None => match a[i] {
                NodeKey::Exists(n, t, x) => x < i && match b[j] {
                    NodeKey::Exists(m, u, y) => m == n && u == t && subst_rel(rep, a, b, depth + 1, x as int, y as int),
                    _ => false,
                },
                NodeKey::Forall(n, t, x) => x < i && match b[j] {
                    NodeKey::Forall(m, u, y) => m == n && u == t && subst_rel(rep, a, b, depth + 1, x as int, y as int),
                    _ => false,
                },
                _ => head(b[j]) == head(a[i]) && children_of(b[j]).len() == children_of(a[i]).len() && subst_all(
                    rep,
                    a,
                    b,
                    depth,
                    children_of(a[i]),
                    children_of(b[j]),
                    children_of(a[i]).len() as int,
                    i,
                ),
            },
        }
    } else {
        false
    }
}

/// The first `n` operands `ys` in `b` are the operands `xs` (before node `i`)
/// of `a`, substituted.
pub open spec fn subst_all<C, R: Replacer<C>>(
    rep: R,
    a: Seq<NodeKey>,
    b: Seq<NodeKey>,
    depth: int,
    xs: Seq<u32>,
    ys: Seq<u32>,
    n: int,
    i: int,
) -> bool
    decreases i, n,
{
    if n <= 0 || n > xs.len() || n > ys.len() {
        true
    } else {
        xs[n - 1] < i && subst_rel(rep, a, b, depth, xs[n - 1] as int, ys[n - 1] as int) && subst_all(
            rep,
            a,
            b,
            depth,
            xs,
            ys,
            n - 1,
            i,
        )
    }
}

proof fn lemma_subst_grows<C, R: Replacer<C>>(rep: R, a: Seq<NodeKey>, b: Seq<NodeKey>, b2: Seq<NodeKey>, depth: int, i: int, j: int)
    requires
        extends(b, b2),
        subst_rel(rep, a, b, depth, i, j),
    ensures
        subst_rel(rep, a, b2, depth, i, j),
    decreases i, 1int, 0int,
{
    assert(b2.subrange(0, b.len() as int)[j] == b2[j]);
    match rep.repl(a[i], depth) {
        Some(es) => {
            let e = choose|e: u32| #[trigger] es.contains(e) && e < a.len() && shift_rel(a, b, 0, depth, e as int, j);
            lemma_shift_grows(a, b, b2, 0, depth, e as int, j);
        },
        None => {
            match a[i] {
                NodeKey::Exists(_, _, x) => {
                    match b[j] {
                        NodeKey::Exists(_, _, y) => {
                            lemma_subst_grows(rep, a, b, b2, depth + 1, x as int, y as int);
                        },
                        _ => {},
                    }
                },
                NodeKey::Forall(_, _, x) => {
                    match b[j] {
                        NodeKey::Forall(_, _, y) => {
                            lemma_subst_grows(rep, a, b, b2, depth + 1, x as int, y as int);
                        },
                        _ => {},
                    }
                },
                _ => {
                    let xs = children_of(a[i]);
                    lemma_subst_all_grows(rep, a, b, b2, depth, xs, children_of(b[j]), xs.len() as int, i);
                },
            }
        },
    }
}

proof fn lemma_subst_all_grows<C, R: Replacer<C>>(
    rep: R,
    a: Seq<NodeKey>,
    b: Seq<NodeKey>,
    b2: Seq<NodeKey>,
    depth: int,
    xs: Seq<u32>,
    ys: Seq<u32>,
    n: int,
    i: int,
)
    requires
        extends(b, b2),
        subst_all(rep, a, b, depth, xs, ys, n, i),
    ensures
        subst_all(rep, a, b2, depth, xs, ys, n, i),
    decreases i, 0int, n,
{
    if 0 < n <= xs.len() && n <= ys.len() {
        lemma_subst_grows(rep, a, b, b2, depth, xs[n - 1] as int, ys[n - 1] as int);
        lemma_subst_all_grows(rep, a, b, b2, depth, xs, ys, n - 1, i);
    }
}

proof fn lemma_subst_source<C, R: Replacer<C>>(rep: R, a: Seq<NodeKey>, a2: Seq<NodeKey>, b: Seq<NodeKey>, depth: int, i: int, j: int)
    requires
        extends(a, a2),
        0 <= i < a.len(),
        subst_rel(rep, a2, b, depth, i, j),
        forall|k: NodeKey, d: int, e: u32|
            #![trigger rep.repl(k, d)->0.contains(e)]
            rep.repl(k, d) is Some && rep.repl(k, d)->0.contains(e) ==> e < a.len(),
    ensures
        subst_rel(rep, a, b, depth, i, j),
    decreases i, 1int, 0int,
{
    assert(a2.subrange(0, a.len() as int)[i] == a2[i]);
    match rep.repl(a[i], depth) {
        Some(es) => {
            let e = choose|e: u32| #[trigger] es.contains(e) && e < a2.len() && shift_rel(a2, b, 0, depth, e as int, j);
            assert(rep.repl(a[i], depth)->0.contains(e));
            lemma_shift_source(a, a2, b, 0, depth, e as int, j);
        },
        None => {
            match a[i] {
                NodeKey::Exists(_, _, x) => {
                    match b[j] {
                        NodeKey::Exists(_, _, y) => {
                            lemma_subst_source(rep, a, a2, b, depth + 1, x as int, y as int);
                        },
                        _ => {},
                    }
                },
                NodeKey::Forall(_, _, x) => {
                    match b[j] {
                        NodeKey::Forall(_, _, y) => {
                            lemma_subst_source(rep, a, a2, b, depth + 1, x as int, y as int);
                        },
                        _ => {},
                    }
                },
                _ => {
                    let xs = children_of(a[i]);
                    lemma_subst_all_source(rep, a, a2, b, depth, xs, children_of(b[j]), xs.len() as int, i);
                },
            }
        },
    }
}

proof fn lemma_subst_all_source<C, R: Replacer<C>>(
    rep: R,
    a: Seq<NodeKey>,
    a2: Seq<NodeKey>,
    b: Seq<NodeKey>,
    depth: int,
    xs: Seq<u32>,
    ys: Seq<u32>,
    n: int,
    i: int,
)
    requires
        extends(a, a2),
        0 <= i < a.len(),
        subst_all(rep, a2, b, depth, xs, ys, n, i),
        forall|k: NodeKey, d: int, e: u32|
            #![trigger rep.repl(k, d)->0.contains(e)]
            rep.repl(k, d) is Some && rep.repl(k, d)->0.contains(e) ==> e < a.len(),
    ensures
        subst_all(rep, a, b, depth, xs, ys, n, i),
    decreases i, 0int, n,
{
    if 0 < n <= xs.len() && n <= ys.len() {
        lemma_subst_source(rep, a, a2, b, depth, xs[n - 1] as int, ys[n - 1] as int);
        lemma_subst_all_source(rep, a, a2, b, depth, xs, ys, n - 1, i);
    }
}

proof fn lemma_subst_all_from<C, R: Replacer<C>>(
    rep: R,
    a: Seq<NodeKey>,
    b: Seq<NodeKey>,
    depth: int,
    xs: Seq<u32>,
    ys: Seq<u32>,
    n: int,
    i: int,
)
    requires
        xs.len() == ys.len(),
        0 <= n <= xs.len(),
        forall|k: int| 0 <= k < n ==> #[trigger] xs[k] < i && subst_rel(rep, a, b, depth, xs[k] as int, ys[k] as int),
    ensures
        subst_all(rep, a, b, depth, xs, ys, n, i),
    decreases n,
{
    if n > 0 {
        assert(xs[n - 1] < i);
        lemma_subst_all_from(rep, a, b, depth, xs, ys, n - 1, i);
    }
}

/// The replacer's results stay valid as the context grows.
proof fn lemma_replacer_grows<C, R: Replacer<C>>(rep: R, c0: &Context<C>, c1: &Context<C>, b: nat)
    requires
        c1.grows_from(c0),
        replacer_ok(rep, c0, b),
    ensures
        replacer_ok(rep, c1, b),
{
    assert forall|k: NodeKey, d: int, e: u32|
        #![trigger rep.repl(k, d)->0.contains(e)]
        rep.repl(k, d) is Some && rep.repl(k, d)->0.contains(e) implies e < c1.keys().len() && typ_at(c1.keys(), c1.syms(), e as int)
        == leaf_typ(c1.syms(), k) && tree_size(c1.keys(), e as int) <= b by {
        c1.lemma_grows(c0, e as int);
        lemma_size_stable(c0.keys(), c1.keys(), e as int);
    }
}

/// Substitute the leaves that `rep` replaces in node `id`, met under
/// `depth` binders; each replacement is shifted under those binders.
#[verifier::spinoff_prover]
#[verifier::rlimit(100)]
fn subst_rec<C, R: Replacer<C>>(ctx: &mut Context<C>, rep: &R, Ghost(b): Ghost<nat>, depth: u32, id: ExprId) -> (r: ExprId)
    requires
        old(ctx).wf(),
        id@ < old(ctx).keys().len(),
        rep.callable(),
        replacer_ok(*rep, old(ctx), b),
        depth + tree_size(old(ctx).keys(), id@ as int) <= i32::MAX,
        old(ctx).room(tree_size(old(ctx).keys(), id@ as int) * (b + 1)),
    ensures
        final(ctx).wf(),
        final(ctx).grows_from(old(ctx)),
        r@ < final(ctx).keys().len(),
        final(ctx).typ_of(r@ as int) == old(ctx).typ_of(id@ as int),
        subst_rel(*rep, old(ctx).keys(), final(ctx).keys(), depth as int, id@ as int, r@ as int),
        final(ctx).keys().len() <= old(ctx).keys().len() + tree_size(old(ctx).keys(), id@ as int) * (b + 1),
    decreases id@, 1int,
{
    let ghost keys0 = ctx.keys();
    let ghost syms = ctx.syms();
    let ghost i = id@ as int;
    let ghost c0 = *ctx;
    let ghost ts = tree_size(keys0, i);
    proof {
        ctx.lemma_wf_node(i);
        lemma_size_unfold(keys0, i);
        assert(ts * (b + 1) >= b + 1) by (nonlinear_arith)
            requires
                ts >= 1,
        ;
        assert(ts * (b + 1) == (ts - 1) * (b + 1) + (b + 1)) by (nonlinear_arith);
    }
    let node = ctx.node(id).clone();
    match rep.replace(&node, depth) {
        Some(e) => {
            let ghost es = rep.repl(keys0[i], depth as int)->0;
            proof {
                assert(es.contains(expr_id(e)));
                rep.lemma_leaves(keys0[i], depth as int);
                assert(typ_at(keys0, syms, i) == leaf_typ(syms, keys0[i]));
            }
            let r = decapture(ctx, 0, depth as i32, e.id());
            proof {
                assert(es.contains(expr_id(e)) && expr_id(e) < keys0.len() && shift_rel(keys0, ctx.keys(), 0, depth as int, expr_id(e) as int, r@ as int));
            }
            r
        },
        None => {
            match node {
                SExprNode::Exists(name, typ, body) => {
                    proof {
                        assert(children_of(keys0[i])[0] == body@);
                        assert((ts - 1) * (b + 1) <= ts * (b + 1)) by (nonlinear_arith);
                        assert(tree_size(keys0, body@ as int) * (b + 1) == (ts - 1) * (b + 1));
                    }
                    let body2 = subst_rec(ctx, rep, Ghost(b), depth + 1, body);
                    let ghost mid = *ctx;
                    let ghost key = NodeKey::Exists(name@, typ, body2@);
                    proof {
                        lemma_push_typs(mid.keys(), syms, key);
                        assert(mid.keys().push(key)[mid.keys().len() as int] == key);
                    }
                    let r = ctx.intern_node(SExprNode::Exists(name, typ, body2));
                    proof {
                        crate::syntax::context::lemma_grows_trans(&c0, &mid, ctx);
                        lemma_subst_grows(*rep, keys0, mid.keys(), ctx.keys(), depth + 1, body@ as int, body2@ as int);
                        assert(ctx.keys()[r@ as int] == key);
                        assert(ts * (b + 1) == (ts - 1) * (b + 1) + (b + 1)) by (nonlinear_arith);
                    }
                    r
                },
                SExprNode::Forall(name, typ, body) => {
                    proof {
                        assert(children_of(keys0[i])[0] == body@);
                        assert((ts - 1) * (b + 1) <= ts * (b + 1)) by (nonlinear_arith);
                        assert(tree_size(keys0, body@ as int) * (b + 1) == (ts - 1) * (b + 1));
                    }
                    let body2 = subst_rec(ctx, rep, Ghost(b), depth + 1, body);
                    let ghost mid = *ctx;
                    let ghost key = NodeKey::Forall(name@, typ, body2@);
                    proof {
                        lemma_push_typs(mid.keys(), syms, key);
                        assert(mid.keys().push(key)[mid.keys().len() as int] == key);
                    }
                    let r = ctx.intern_node(SExprNode::Forall(name, typ, body2));
                    proof {
                        crate::syntax::context::lemma_grows_trans(&c0, &mid, ctx);
                        lemma_subst_grows(*rep, keys0, mid.keys(), ctx.keys(), depth + 1, body@ as int, body2@ as int);
                        assert(ctx.keys()[r@ as int] == key);
                        assert(ts * (b + 1) == (ts - 1) * (b + 1) + (b + 1)) by (nonlinear_arith);
                    }
                    r
                },
                node => {
                    let cs = children_ids(&node);
                    proof {
                        assert forall|k: int| 0 <= k < cs@.len() implies #[trigger] cs@[k]@ < i by {
                            assert(ids_view(cs@)[k] == cs@[k]@);
                        }
                        assert((ts - 1) * (b + 1) <= ts * (b + 1)) by (nonlinear_arith);
                    }
                    let new_cs = subst_children(ctx, rep, Ghost(b), depth, &cs, Ghost(i));
                    let ghost mid = *ctx;
                    let rebuilt = with_children(node, new_cs);
                    let ghost key = node_key(rebuilt);
                    let ghost ys = ids_view(new_cs@);
                    proof {
                        let xs = children_of(keys0[i]);
                        assert forall|k: int| 0 <= k < xs.len() implies #[trigger] children_of(key)[k] < mid.keys().len() && typ_at(
                            mid.keys().push(key),
                            syms,
                            children_of(key)[k] as int,
                        ) == typ_at(keys0, syms, xs[k] as int) by {
                            assert(ys[k] == new_cs@[k]@);
                            assert(xs[k] == cs@[k]@);
                            crate::syntax::context::lemma_push_typs(mid.keys(), syms, key);
                        }
                        lemma_node_ok_by_children(keys0, mid.keys(), syms, i, key);
                    }
                    let r = ctx.intern_node(rebuilt);
                    proof {
                        crate::syntax::context::lemma_grows_trans(&c0, &mid, ctx);
                        ctx.lemma_wf_node(r@ as int);
                        let xs = children_of(keys0[i]);
                        assert(ctx.keys()[r@ as int] == key);
                        assert forall|k: int| 0 <= k < xs.len() implies #[trigger] xs[k] < i && subst_rel(
                            *rep,
                            keys0,
                            ctx.keys(),
                            depth as int,
                            xs[k] as int,
                            ys[k] as int,
                        ) by {
                            assert(ys[k] == new_cs@[k]@);
                            assert(xs[k] == cs@[k]@);
                            lemma_subst_grows(*rep, keys0, mid.keys(), ctx.keys(), depth as int, xs[k] as int, ys[k] as int);
                        }
                        lemma_subst_all_from(*rep, keys0, ctx.keys(), depth as int, xs, ys, xs.len() as int, i);
                        assert forall|k: int| 0 <= k < xs.len() implies #[trigger] xs[k] < i && children_of(ctx.keys()[r@ as int])[k]
                            < r@ && typ_at(ctx.keys(), syms, children_of(ctx.keys()[r@ as int])[k] as int) == typ_at(
                            keys0,
                            syms,
                            xs[k] as int,
                        ) by {
                            assert(ys[k] == new_cs@[k]@);
                            assert(xs[k] == cs@[k]@);
                            ctx.lemma_grows(&mid, ys[k] as int);
                        }
                        lemma_typ_by_children(keys0, ctx.keys(), syms, i, r@ as int);
                        assert(ts * (b + 1) == (ts - 1) * (b + 1) + (b + 1)) by (nonlinear_arith);
                    }
                    r
                },
            }
        },
    }
}

/// Substitute in each operand in `cs` of node `parent`.
fn subst_children<C, R: Replacer<C>>(
    ctx: &mut Context<C>,
    rep: &R,
    Ghost(b): Ghost<nat>,
    depth: u32,
    cs: &Vec<ExprId>,
    Ghost(parent): Ghost<int>,
) -> (r: Vec<ExprId>)
    requires
        old(ctx).wf(),
        0 <= parent < old(ctx).keys().len(),
        forall|k: int| 0 <= k < cs@.len() ==> #[trigger] cs@[k]@ < parent,
        rep.callable(),
        replacer_ok(*rep, old(ctx), b),
        depth + sum_sizes(old(ctx).keys(), ids_view(cs@), cs@.len() as int, parent) <= i32::MAX,
        old(ctx).room(sum_sizes(old(ctx).keys(), ids_view(cs@), cs@.len() as int, parent) * (b + 1)),
    ensures
        final(ctx).wf(),
        final(ctx).grows_from(old(ctx)),
        r@.len() == cs@.len(),
        forall|k: int|
            0 <= k < r@.len() ==> #[trigger] r@[k]@ < final(ctx).keys().len() && final(ctx).typ_of(r@[k]@ as int) == old(
                ctx,
            ).typ_of(cs@[k]@ as int) && subst_rel(*rep, old(ctx).keys(), final(ctx).keys(), depth as int, cs@[k]@ as int, r@[k]@ as int),
        final(ctx).keys().len() <= old(ctx).keys().len() + sum_sizes(old(ctx).keys(), ids_view(cs@), cs@.len() as int, parent) * (b
            + 1),
    decreases parent, 0int,
{
    let ghost c0 = *ctx;
    let ghost ids = ids_view(cs@);
    let ghost total = sum_sizes(c0.keys(), ids, cs@.len() as int, parent);
    let mut out: Vec<ExprId> = Vec::new();
    let mut k: usize = 0;
    proof {
        assert(ctx.keys().subrange(0, c0.keys().len() as int) =~= c0.keys());
    }
    while k < cs.len()
        invariant
            k <= cs@.len(),
            ids == ids_view(cs@),
            total == sum_sizes(c0.keys(), ids, cs@.len() as int, parent),
            0 <= parent < c0.keys().len(),
            c0.wf(),
            forall|t: int| 0 <= t < cs@.len() ==> #[trigger] cs@[t]@ < parent,
            rep.callable(),
            replacer_ok(*rep, &c0, b),
            depth + total <= i32::MAX,
            c0.room(total * (b + 1)),
            ctx.wf(),
            ctx.grows_from(&c0),
            ctx.keys().len() <= c0.keys().len() + sum_sizes(c0.keys(), ids, k as int, parent) * (b + 1),
            out@.len() == k,
            forall|t: int|
                0 <= t < k ==> #[trigger] out@[t]@ < ctx.keys().len() && ctx.typ_of(out@[t]@ as int) == c0.typ_of(cs@[t]@ as int)
                    && subst_rel(*rep, c0.keys(), ctx.keys(), depth as int, cs@[t]@ as int, out@[t]@ as int),
        decreases cs@.len() - k,
    {
        let c = cs[k];
        let ghost before = *ctx;
        let ghost sk = sum_sizes(c0.keys(), ids, k as int, parent);
        let ghost sk1 = sum_sizes(c0.keys(), ids, k + 1, parent);
        proof {
            assert(ids[k as int] == c@);
            assert(sk1 == tree_size(c0.keys(), c@ as int) + sk);
            lemma_sum_mono(c0.keys(), ids, k + 1, cs@.len() as int, parent);
            assert(sk1 * (b + 1) == sk * (b + 1) + tree_size(c0.keys(), c@ as int) * (b + 1)) by (nonlinear_arith)
                requires
                    sk1 == tree_size(c0.keys(), c@ as int) + sk,
            ;
            assert(sk1 * (b + 1) <= total * (b + 1)) by (nonlinear_arith)
                requires
                    sk1 <= total,
            ;
            ctx.lemma_grows(&c0, c@ as int);
            lemma_size_stable(c0.keys(), ctx.keys(), c@ as int);
            lemma_replacer_grows(*rep, &c0, ctx, b);
        }
        let r = subst_rec(ctx, rep, Ghost(b), depth, c);
        proof {
            crate::syntax::context::lemma_grows_trans(&c0, &before, ctx);
            lemma_subst_source(*rep, c0.keys(), before.keys(), ctx.keys(), depth as int, c@ as int, r@ as int);
            assert forall|t: int|
                0 <= t < k implies #[trigger] out@[t]@ < ctx.keys().len() && ctx.typ_of(out@[t]@ as int) == c0.typ_of(cs@[t]@ as int)
                && subst_rel(*rep, c0.keys(), ctx.keys(), depth as int, cs@[t]@ as int, out@[t]@ as int) by {
                ctx.lemma_grows(&before, out@[t]@ as int);
                lemma_subst_grows(*rep, c0.keys(), before.keys(), ctx.keys(), depth as int, cs@[t]@ as int, out@[t]@ as int);
            }
        }
        out.push(r);
        k = k + 1;
    }
    out
}


/// Replaces each free de Bruijn variable `v` of sort `t`, met under `d`
/// binders, by `f(v - d, t)`.
pub struct VarReplacer<'a, F> {
    pub f: &'a F,
}

/// The replacer of free variables by `f`.
pub open spec fn var_replacer<'a, F>(f: &'a F) -> VarReplacer<'a, F> {
    VarReplacer { f }
}

impl<'a, C, F: Fn(u32, TypFo) -> Expr<C>> Replacer<C> for VarReplacer<'a, F> {
    open spec fn repl(&self, k: NodeKey, d: int) -> Option<Set<u32>> {
        match k {
            NodeKey::Var(v, t) => if v >= d {
                Some(
                    Set::new(
                        |e: u32| exists|x: Expr<C>| #[trigger] call_ensures(self.f, ((v - d) as u32, t), x) && expr_id(x) == e,
                    ),
                )
            } else {
                None
            },
            _ => None,
        }
    }

    open spec fn callable(&self) -> bool {
        forall|v: u32, t: TypFo| #[trigger] self.f.requires((v, t))
    }

    proof fn lemma_leaves(&self, k: NodeKey, d: int) {
    }

    fn replace(&self, node: &SExprNode, depth: u32) -> (r: Option<Expr<C>>) {
        match node {
            SExprNode::Var(v, typ) => {
                if *v >= depth {
                    let f = self.f;
                    let e = f(*v - depth, *typ);
                    proof {
                        let es = self.repl(node_key(*node), depth as int)->0;
                        assert(call_ensures(self.f, ((*v - depth) as u32, *typ), e));
                        assert(es.contains(expr_id(e)));
                    }
                    Some(e)
                } else {
                    None
                }
            },
            _ => None,
        }
    }
}

/// What `substitute` does at a variable: a variable `#v` of sort `t` met
/// under `d` binders is free when `v >= d`, and is then replaced by what `f`
/// gives for `v - d`, its index counted from outside the whole expression,
/// shifted under the `d` binders; a variable bound inside (`v < d`) is kept.
pub proof fn lemma_substitute_var<'a, C, F: Fn(u32, TypFo) -> Expr<C>>(
    f: &'a F,
    a: Seq<NodeKey>,
    b: Seq<NodeKey>,
    d: int,
    i: int,
    j: int,
)
    requires
        subst_rel(var_replacer(f), a, b, d, i, j),
        a[i] is Var,
    ensures
        ({
            let (v, t) = (a[i]->Var_0, a[i]->Var_1);
            &&& v >= d ==> exists|x: Expr<C>|
                #[trigger] call_ensures(*f, ((v - d) as u32, t), x) && expr_id(x) < a.len() && shift_rel(
                    a,
                    b,
                    0,
                    d,
                    expr_id(x) as int,
                    j,
                )
            &&& v < d ==> b[j] == NodeKey::Var(v, t)
        }),
{
    let rep = var_replacer(f);
    let v = a[i]->Var_0;
    let t = a[i]->Var_1;
    if v >= d {
        let es = rep.repl(a[i], d)->0;
        let e = choose|e: u32| #[trigger] es.contains(e) && e < a.len() && shift_rel(a, b, 0, d, e as int, j);
        let x = choose|x: Expr<C>| #[trigger] call_ensures(rep.f, ((v - d) as u32, t), x) && expr_id(x) == e;
        assert(call_ensures(*f, ((v - d) as u32, t), x));
    } else {
        assert(children_of(b[j]).len() == 0);
    }
}

/// What `substitute` does at a binder: the quantifier, its variable's name
/// and sort are kept, and its body is substituted one binder deeper.
pub proof fn lemma_substitute_binder<'a, C, F: Fn(u32, TypFo) -> Expr<C>>(
    f: &'a F,
    a: Seq<NodeKey>,
    b: Seq<NodeKey>,
    d: int,
    i: int,
    j: int,
)
    requires
        subst_rel(var_replacer(f), a, b, d, i, j),
        a[i] is Exists || a[i] is Forall,
    ensures
        a[i] matches NodeKey::Exists(n, t, x) ==> (b[j] matches NodeKey::Exists(m, u, y) && m == n && u == t
            && subst_rel(var_replacer(f), a, b, d + 1, x as int, y as int)),
        a[i] matches NodeKey::Forall(n, t, x) ==> (b[j] matches NodeKey::Forall(m, u, y) && m == n && u == t
            && subst_rel(var_replacer(f), a, b, d + 1, x as int, y as int)),
{
}

/// Replaces each constant, a symbol applied to no argument, by `f` of the
/// symbol.
pub struct ConstReplacer<'a, G> {
    pub f: &'a G,
}

/// The replacer of constants by `f`.
pub open spec fn const_replacer<'a, G>(f: &'a G) -> ConstReplacer<'a, G> {
    ConstReplacer { f }
}

impl<'a, C, G: Fn(Symbol) -> Expr<C>> Replacer<C> for ConstReplacer<'a, G> {
    open spec fn repl(&self, k: NodeKey, d: int) -> Option<Set<u32>> {
        match k {
            NodeKey::App(s, cs) => if cs.len() == 0 {
                Some(
                    Set::new(
                        |e: u32| exists|sym: Symbol, x: Expr<C>| sym@ == s && #[trigger] call_ensures(self.f, (sym,), x) && expr_id(x) == e,
                    ),
                )
            } else {
                None
            },
            _ => None,
        }
    }

    open spec fn callable(&self) -> bool {
        forall|s: Symbol| #[trigger] self.f.requires((s,))
    }

    proof fn lemma_leaves(&self, k: NodeKey, d: int) {
    }

    fn replace(&self, node: &SExprNode, depth: u32) -> (r: Option<Expr<C>>) {
        match node {
            SExprNode::App(sym, args) => {
                if args.len() == 0 {
                    let f = self.f;
                    let e = f(*sym);
                    proof {
                        let es = self.repl(node_key(*node), depth as int)->0;
                        assert(call_ensures(self.f, (*sym,), e));
                        assert(es.contains(expr_id(e)));
                    }
                    Some(e)
                } else {
                    None
                }
            },
            _ => None,
        }
    }
}

/// Replaces each constant in the domain of `map` by its value there.
pub struct MapReplacer<'a, C> {
    pub map: &'a SymbolMap<Expr<C>>,
}

/// The replacer of the constants in the domain of `map`.
pub open spec fn map_replacer<'a, C>(map: &'a SymbolMap<Expr<C>>) -> MapReplacer<'a, C> {
    MapReplacer { map }
}

/// `std::collections::BTreeMap::get` on a symbol map: the value stored for
/// `s`, if there is one. Symbols are ordered by their derived `Ord`, which
/// orders their indices.
#[verifier::external_body]
fn symbol_map_get<'a, C>(map: &'a SymbolMap<Expr<C>>, s: &Symbol) -> (r: Option<&'a Expr<C>>)
    ensures
        match r {
            Some(v) => map@.contains_key(*s) && map@[*s] == *v,
            None => !map@.contains_key(*s),
        },
{
    map.get(s)
}

impl<'a, C> Replacer<C> for MapReplacer<'a, C> {
    open spec fn repl(&self, k: NodeKey, d: int) -> Option<Set<u32>> {
        match k {
            NodeKey::App(s, cs) => if cs.len() == 0 && exists|sym: Symbol| #[trigger] self.map@.contains_key(sym) && sym@ == s {
                Some(Set::new(|e: u32| exists|sym: Symbol| #[trigger] self.map@.contains_key(sym) && sym@ == s && expr_id(self.map@[sym]) == e))
            } else {
                None
            },
            _ => None,
        }
    }

    open spec fn callable(&self) -> bool {
        true
    }

    proof fn lemma_leaves(&self, k: NodeKey, d: int) {
    }

    fn replace(&self, node: &SExprNode, depth: u32) -> (r: Option<Expr<C>>) {
        match node {
            SExprNode::App(sym, args) => {
                if args.len() == 0 {
                    match symbol_map_get(self.map, sym) {
                        Some(e) => {
                            proof {
                                let es = self.repl(node_key(*node), depth as int)->0;
                                assert(self.map@.contains_key(*sym));
                                assert(es.contains(expr_id(*e)));
                            }
                            Some(*e)
                        },
                        None => {
                            proof {
                                assert forall|s2: Symbol| #[trigger] self.map@.contains_key(s2) implies s2@ != sym@ by {
                                    crate::syntax::symbol::lemma_symbol_index(s2, *sym);
                                }
                            }
                            None
                        },
                    }
                } else {
                    None
                }
            },
            _ => None,
        }
    }
}

/// Shifting at a variable: a variable bound inside the shifted expression
/// (below `depth`) is kept, a free one has its index raised by `incr`.
pub proof fn lemma_shift_var(a: Seq<NodeKey>, b: Seq<NodeKey>, depth: int, incr: int, i: int, j: int)
    requires
        shift_rel(a, b, depth, incr, i, j),
        a[i] is Var,
    ensures
        b[j] is Var,
        b[j]->Var_1 == a[i]->Var_1,
        a[i]->Var_0 < depth ==> b[j] == a[i],
        a[i]->Var_0 >= depth && a[i]->Var_0 + incr <= u32::MAX && a[i]->Var_0 + incr >= 0 ==> b[j]->Var_0 == a[i]->Var_0 + incr,
{
}

/// What `substitute_const` does at a constant: a symbol `s` applied to no
/// argument is replaced by what `f` gives for `s`, shifted under the `d`
/// binders it sits under.
pub proof fn lemma_substitute_const_leaf<'a, C, G: Fn(Symbol) -> Expr<C>>(
    f: &'a G,
    a: Seq<NodeKey>,
    b: Seq<NodeKey>,
    d: int,
    i: int,
    j: int,
)
    requires
        subst_rel(const_replacer(f), a, b, d, i, j),
        a[i] matches NodeKey::App(_, cs) && cs.len() == 0,
    ensures
        exists|sym: Symbol, x: Expr<C>|
            sym@ == a[i]->App_0 && #[trigger] call_ensures(*f, (sym,), x) && expr_id(x) < a.len() && shift_rel(
                a,
                b,
                0,
                d,
                expr_id(x) as int,
                j,
            ),
{
    let rep = const_replacer(f);
    let s = a[i]->App_0;
    let es = rep.repl(a[i], d)->0;
    let e = choose|e: u32| #[trigger] es.contains(e) && e < a.len() && shift_rel(a, b, 0, d, e as int, j);
    let (sym, x) = choose|sym: Symbol, x: Expr<C>| sym@ == s && #[trigger] call_ensures(rep.f, (sym,), x) && expr_id(x) == e;
    assert(call_ensures(*f, (sym,), x));
}

/// What `substitute_map` does at a constant: a symbol applied to no argument
/// that the map holds is replaced by its entry, shifted under the `d`
/// binders it sits under; one the map lacks is kept.
pub proof fn lemma_substitute_map_leaf<'a, C>(map: &'a SymbolMap<Expr<C>>, a: Seq<NodeKey>, b: Seq<NodeKey>, d: int, i: int, j: int)
    requires
        subst_rel(map_replacer(map), a, b, d, i, j),
        a[i] matches NodeKey::App(_, cs) && cs.len() == 0,
    ensures
        forall|sym: Symbol|
            #[trigger] map@.contains_key(sym) && sym@ == a[i]->App_0 ==> expr_id(map@[sym]) < a.len() && shift_rel(
                a,
                b,
                0,
                d,
                expr_id(map@[sym]) as int,
                j,
            ),
        (forall|sym: Symbol| #[trigger] map@.contains_key(sym) ==> sym@ != a[i]->App_0) ==> b[j] == a[i],
{
    let rep = map_replacer(map);
    let s = a[i]->App_0;
    if exists|sym: Symbol| #[trigger] map@.contains_key(sym) && sym@ == s {
        let es = rep.repl(a[i], d)->0;
        let e = choose|e: u32| #[trigger] es.contains(e) && e < a.len() && shift_rel(a, b, 0, d, e as int, j);
        let sym0 = choose|sym: Symbol| #[trigger] map@.contains_key(sym) && sym@ == s && expr_id(map@[sym]) == e;
        assert forall|sym: Symbol| #[trigger] map@.contains_key(sym) && sym@ == s implies expr_id(map@[sym]) < a.len()
            && shift_rel(a, b, 0, d, expr_id(map@[sym]) as int, j) by {
            super::symbol::lemma_symbol_index(sym, sym0);
        }
    } else {
        assert(children_of(b[j]).len() == 0);
        assert(b[j]->App_1 =~= Seq::<u32>::empty());
        assert(a[i]->App_1 =~= Seq::<u32>::empty());
    }
}

/// Replace each free de Bruijn variable `i` of type `typ` with
/// `subst(i, typ)`.
///
/// Capture is avoided by shifting the substituted expression under binders.
/// Each expression `subst` gives must be one of the context, of the type of
/// the variable it replaces; the context needs room for the result.
pub fn substitute<C, F: Fn(u32, TypFo) -> Expr<C>>(ctx: &mut Context<C>, subst: &F, expr: Expr<C>) -> (r: Expr<C>)
    requires
        old(ctx).wf(),
        old(ctx).expr_ok(expr),
        forall|v: u32, t: TypFo| #[trigger] subst.requires((v, t)),
        tree_size(old(ctx).keys(), expr_id(expr) as int) <= i32::MAX,
        exists|b: nat|
            replacer_ok(var_replacer(subst), old(ctx), b) && #[trigger] old(ctx).room(
                tree_size(old(ctx).keys(), expr_id(expr) as int) * (b + 1),
            ),
    ensures
        final(ctx).wf(),
        final(ctx).grows_from(old(ctx)),
        final(ctx).expr_ok(r),
        final(ctx).typ_of(expr_id(r) as int) == old(ctx).typ_of(expr_id(expr) as int),
        subst_rel(var_replacer(subst), old(ctx).keys(), final(ctx).keys(), 0, expr_id(expr) as int, expr_id(r) as int),
{
    let ghost b = choose|b: nat|
        replacer_ok(var_replacer(subst), old(ctx), b) && #[trigger] old(ctx).room(
            tree_size(old(ctx).keys(), expr_id(expr) as int) * (b + 1),
        );
    let rep = VarReplacer { f: subst };
    let id = subst_rec(ctx, &rep, Ghost(b), 0, expr.id());
    ctx.id_to_expr_pub(id)
}

/// Replace each occurrence of a constant symbol `s` (nullary application)
/// with `subst(s)`.
///
/// Function applications (non-nullary) are not affected. Capture is avoided.
/// Each expression `subst` gives must be one of the context, of the type of
/// the constant it replaces; the context needs room for the result.
pub fn substitute_const<C, G: Fn(Symbol) -> Expr<C>>(ctx: &mut Context<C>, subst: &G, expr: Expr<C>) -> (r: Expr<C>)
    requires
        old(ctx).wf(),
        old(ctx).expr_ok(expr),
        forall|s: Symbol| #[trigger] subst.requires((s,)),
        tree_size(old(ctx).keys(), expr_id(expr) as int) <= i32::MAX,
        exists|b: nat|
            replacer_ok(const_replacer(subst), old(ctx), b) && #[trigger] old(ctx).room(
                tree_size(old(ctx).keys(), expr_id(expr) as int) * (b + 1),
            ),
    ensures
        final(ctx).wf(),
        final(ctx).grows_from(old(ctx)),
        final(ctx).expr_ok(r),
        final(ctx).typ_of(expr_id(r) as int) == old(ctx).typ_of(expr_id(expr) as int),
        subst_rel(const_replacer(subst), old(ctx).keys(), final(ctx).keys(), 0, expr_id(expr) as int, expr_id(r) as int),
{
    let ghost b = choose|b: nat|
        replacer_ok(const_replacer(subst), old(ctx), b) && #[trigger] old(ctx).room(
            tree_size(old(ctx).keys(), expr_id(expr) as int) * (b + 1),
        );
    let rep = ConstReplacer { f: subst };
    let id = subst_rec(ctx, &rep, Ghost(b), 0, expr.id());
    ctx.id_to_expr_pub(id)
}

/// Replace each constant symbol in `map`'s domain with the corresponding
/// expression.
///
/// Symbols not in the map are left unchanged. Each value of the map must be
/// an expression of the context, of the type of the constant it replaces;
/// the context needs room for the result.
pub fn substitute_map<C>(ctx: &mut Context<C>, map: &SymbolMap<Expr<C>>, expr: Expr<C>) -> (r: Expr<C>)
    requires
        old(ctx).wf(),
        old(ctx).expr_ok(expr),
        tree_size(old(ctx).keys(), expr_id(expr) as int) <= i32::MAX,
        exists|b: nat|
            replacer_ok(map_replacer(map), old(ctx), b) && #[trigger] old(ctx).room(
                tree_size(old(ctx).keys(), expr_id(expr) as int) * (b + 1),
            ),
    ensures
        final(ctx).wf(),
        final(ctx).grows_from(old(ctx)),
        final(ctx).expr_ok(r),
        final(ctx).typ_of(expr_id(r) as int) == old(ctx).typ_of(expr_id(expr) as int),
        subst_rel(map_replacer(map), old(ctx).keys(), final(ctx).keys(), 0, expr_id(expr) as int, expr_id(r) as int),
{
    let ghost b = choose|b: nat|
        replacer_ok(map_replacer(map), old(ctx), b) && #[trigger] old(ctx).room(
            tree_size(old(ctx).keys(), expr_id(expr) as int) * (b + 1),
        );
    let rep = MapReplacer { map };
    let id = subst_rec(ctx, &rep, Ghost(b), 0, expr.id());
    ctx.id_to_expr_pub(id)
}

// ---------------------------------------------------------------------------
// Rewriting with user functions
// ---------------------------------------------------------------------------

/// A context grows from itself.
proof fn lemma_grows_self<C>(c: &Context<C>)
    ensures
        c.grows_from(c),
{
    assert(c.keys().subrange(0, c.keys().len() as int) =~= c.keys());
}

/// Two nodes with the same constructor and non-operand fields and the same
/// operands are the same node.
proof fn lemma_head_children(a: NodeKey, b: NodeKey)
    requires
        head(a) == head(b),
        children_of(a) == children_of(b),
    ensures
        a == b,
{
    match a {
        NodeKey::Div(x, y) => { assert(children_of(a)[0] == x && children_of(a)[1] == y); },
        NodeKey::Mod(x, y) => { assert(children_of(a)[0] == x && children_of(a)[1] == y); },
        NodeKey::Eq(x, y) => { assert(children_of(a)[0] == x && children_of(a)[1] == y); },
        NodeKey::Leq(x, y) => { assert(children_of(a)[0] == x && children_of(a)[1] == y); },
        NodeKey::Lt(x, y) => { assert(children_of(a)[0] == x && children_of(a)[1] == y); },
        NodeKey::ArrEq(x, y) => { assert(children_of(a)[0] == x && children_of(a)[1] == y); },
        NodeKey::Select(x, y) => { assert(children_of(a)[0] == x && children_of(a)[1] == y); },
        NodeKey::Floor(x) => { assert(children_of(a)[0] == x); },
        NodeKey::Neg(x) => { assert(children_of(a)[0] == x); },
        NodeKey::Not(x) => { assert(children_of(a)[0] == x); },
        NodeKey::Exists(_, _, x) => { assert(children_of(a)[0] == x); },
        NodeKey::Forall(_, _, x) => { assert(children_of(a)[0] == x); },
        NodeKey::Store(x, y, z) => { assert(children_of(a)[0] == x && children_of(a)[1] == y && children_of(a)[2] == z); },
        NodeKey::Ite(x, y, z) => { assert(children_of(a)[0] == x && children_of(a)[1] == y && children_of(a)[2] == z); },
        _ => {},
    }
    match b {
        NodeKey::Div(x, y) => { assert(children_of(b)[0] == x && children_of(b)[1] == y); },
        NodeKey::Mod(x, y) => { assert(children_of(b)[0] == x && children_of(b)[1] == y); },
        NodeKey::Eq(x, y) => { assert(children_of(b)[0] == x && children_of(b)[1] == y); },
        NodeKey::Leq(x, y) => { assert(children_of(b)[0] == x && children_of(b)[1] == y); },
        NodeKey::Lt(x, y) => { assert(children_of(b)[0] == x && children_of(b)[1] == y); },
        NodeKey::ArrEq(x, y) => { assert(children_of(b)[0] == x && children_of(b)[1] == y); },
        NodeKey::Select(x, y) => { assert(children_of(b)[0] == x && children_of(b)[1] == y); },
        NodeKey::Floor(x) => { assert(children_of(b)[0] == x); },
        NodeKey::Neg(x) => { assert(children_of(b)[0] == x); },
        NodeKey::Not(x) => { assert(children_of(b)[0] == x); },
        NodeKey::Exists(_, _, x) => { assert(children_of(b)[0] == x); },
        NodeKey::Forall(_, _, x) => { assert(children_of(b)[0] == x); },
        NodeKey::Store(x, y, z) => { assert(children_of(b)[0] == x && children_of(b)[1] == y && children_of(b)[2] == z); },
        NodeKey::Ite(x, y, z) => { assert(children_of(b)[0] == x && children_of(b)[1] == y && children_of(b)[2] == z); },
        _ => {},
    }
}

/// Room for `2g + 1` nodes per node of a tree of size `ts`.
pub open spec fn budget(ts: nat, g: nat) -> nat {
    ts * (2 * g + 1)
}

/// Rewrite node `id`: `down` on the way down, then each operand of what it
/// gives, then `up` on the rebuilt node.
#[verifier::spinoff_prover]
#[verifier::rlimit(80)]
fn rewrite_rec<C, D: Fn(&mut Context<C>, Expr<C>) -> Expr<C>, U: Fn(&mut Context<C>, Expr<C>) -> Expr<C>>(
    ctx: &mut Context<C>,
    down: Option<&D>,
    up: Option<&U>,
    id: ExprId,
) -> (r: ExprId)
    requires
        old(ctx).wf(),
        id@ < old(ctx).keys().len(),
        exists|g: nat| {
            &&& old(ctx).room(budget(tree_size(old(ctx).keys(), id@ as int), g))
            &&& down matches Some(f) ==> forall|c: &mut Context<C>, e: Expr<C>| #[trigger] f.requires((c, e)) <== c.wf()
                && c.expr_ok(e) && c.room(g)
            &&& down matches Some(f) ==> forall|c: &mut Context<C>, e: Expr<C>, t: Expr<C>| #[trigger] call_ensures(f, (c, e), t)
                ==> final(c).wf() && final(c).grows_from(&*c) && final(c).expr_ok(t) && final(c).typ_of(expr_id(t) as int) == c.typ_of(
                expr_id(e) as int) && final(c).keys().len() <= c.keys().len() + g && tree_size(final(c).keys(), expr_id(t) as int) <= tree_size(c.keys(), expr_id(e) as int)
            &&& up matches Some(f) ==> forall|c: &mut Context<C>, e: Expr<C>| #[trigger] f.requires((c, e)) <== c.wf()
                && c.expr_ok(e) && c.room(g)
            &&& up matches Some(f) ==> forall|c: &mut Context<C>, e: Expr<C>, t: Expr<C>| #[trigger] call_ensures(f, (c, e), t)
                ==> final(c).wf() && final(c).grows_from(&*c) && final(c).expr_ok(t) && final(c).typ_of(expr_id(t) as int) == c.typ_of(
                expr_id(e) as int) && final(c).keys().len() <= c.keys().len() + g
        },
    ensures
        final(ctx).wf(),
        final(ctx).grows_from(old(ctx)),
        r@ < final(ctx).keys().len(),
        final(ctx).typ_of(r@ as int) == old(ctx).typ_of(id@ as int),
        forall|g: nat| {
            &&& old(ctx).room(budget(tree_size(old(ctx).keys(), id@ as int), g))
            &&& down matches Some(f) ==> forall|c: &mut Context<C>, e: Expr<C>| #[trigger] f.requires((c, e)) <== c.wf()
                && c.expr_ok(e) && c.room(g)
            &&& down matches Some(f) ==> forall|c: &mut Context<C>, e: Expr<C>, t: Expr<C>| #[trigger] call_ensures(f, (c, e), t)
                ==> final(c).wf() && final(c).grows_from(&*c) && final(c).expr_ok(t) && final(c).typ_of(expr_id(t) as int) == c.typ_of(
                expr_id(e) as int) && final(c).keys().len() <= c.keys().len() + g && tree_size(final(c).keys(), expr_id(t) as int) <= tree_size(c.keys(), expr_id(e) as int)
            &&& up matches Some(f) ==> forall|c: &mut Context<C>, e: Expr<C>| #[trigger] f.requires((c, e)) <== c.wf()
                && c.expr_ok(e) && c.room(g)
            &&& up matches Some(f) ==> forall|c: &mut Context<C>, e: Expr<C>, t: Expr<C>| #[trigger] call_ensures(f, (c, e), t)
                ==> final(c).wf() && final(c).grows_from(&*c) && final(c).expr_ok(t) && final(c).typ_of(expr_id(t) as int) == c.typ_of(
                expr_id(e) as int) && final(c).keys().len() <= c.keys().len() + g
        } ==> final(ctx).keys().len() <= old(ctx).keys().len() + budget(tree_size(old(ctx).keys(), id@ as int), g),
        down is None && up is None ==> r@ == id@ && final(ctx).keys() == old(ctx).keys(),
    decreases tree_size(old(ctx).keys(), id@ as int), 1int,
{
    let ghost keys0 = ctx.keys();
    let ghost syms = ctx.syms();
    let ghost c0 = *ctx;
    let ghost ts = tree_size(keys0, id@ as int);
    let ghost g = choose|g: nat| {
        &&& c0.room(budget(ts, g))
        &&& down matches Some(f) ==> forall|c: &mut Context<C>, e: Expr<C>| #[trigger] f.requires((c, e)) <== c.wf()
            && c.expr_ok(e) && c.room(g)
        &&& down matches Some(f) ==> forall|c: &mut Context<C>, e: Expr<C>, t: Expr<C>| #[trigger] call_ensures(f, (c, e), t)
            ==> final(c).wf() && final(c).grows_from(&*c) && final(c).expr_ok(t) && final(c).typ_of(expr_id(t) as int) == c.typ_of(
            expr_id(e) as int) && final(c).keys().len() <= c.keys().len() + g && tree_size(final(c).keys(), expr_id(t) as int) <= tree_size(c.keys(), expr_id(e) as int)
        &&& up matches Some(f) ==> forall|c: &mut Context<C>, e: Expr<C>| #[trigger] f.requires((c, e)) <== c.wf()
            && c.expr_ok(e) && c.room(g)
        &&& up matches Some(f) ==> forall|c: &mut Context<C>, e: Expr<C>, t: Expr<C>| #[trigger] call_ensures(f, (c, e), t)
            ==> final(c).wf() && final(c).grows_from(&*c) && final(c).expr_ok(t) && final(c).typ_of(expr_id(t) as int) == c.typ_of(
            expr_id(e) as int) && final(c).keys().len() <= c.keys().len() + g
    };
    proof {
        ctx.lemma_wf_node(id@ as int);
        lemma_size_unfold(keys0, id@ as int);
        lemma_budget(ts, g);
        lemma_grows_self(ctx);
    }
    let e = ctx.id_to_expr_pub(id);
    let d = match down {
        Some(f) => {
            let t = f(ctx, e);
            t.id()
        },
        None => id,
    };
    let ghost c1 = *ctx;
    let ghost di = d@ as int;
    let ghost tsd = tree_size(c1.keys(), di);
    proof {
        ctx.lemma_wf_node(di);
        lemma_size_unfold(c1.keys(), di);
        if down is None {
            assert(tsd == ts);
        }
        assert(tsd <= ts);
        lemma_budget(tsd, g);
        lemma_budget_mono((tsd - 1) as nat, (ts - 1) as nat, g);
    }
    let node = ctx.node(d).clone();
    let cs = children_ids(&node);
    let ghost xs = children_of(c1.keys()[di]);
    let ghost total = sum_sizes(c1.keys(), xs, xs.len() as int, di);
    proof {
        assert forall|k: int| 0 <= k < cs@.len() implies #[trigger] cs@[k]@ < di by {
            assert(ids_view(cs@)[k] == cs@[k]@);
        }
        assert(ids_view(cs@) == xs);
        assert(total == tsd - 1);
        assert(c1.room(budget(total, g)));
        assert(sum_sizes(ctx.keys(), ids_view(cs@), cs@.len() as int, di) < ts);
    }
    let new_cs = rewrite_children(ctx, down, up, &cs, Ghost(di));
    let ghost mid = *ctx;
    let rebuilt = with_children(node, new_cs);
    let ghost key = node_key(rebuilt);
    let ghost ys = ids_view(new_cs@);
    proof {
        crate::syntax::context::lemma_grows_trans(&c0, &c1, &mid);
        assert forall|k: int| 0 <= k < xs.len() implies #[trigger] children_of(key)[k] < mid.keys().len() && typ_at(
            mid.keys().push(key),
            syms,
            children_of(key)[k] as int,
        ) == typ_at(c1.keys(), syms, xs[k] as int) by {
            assert(ys[k] == new_cs@[k]@);
            assert(xs[k] == cs@[k]@);
            crate::syntax::context::lemma_push_typs(mid.keys(), syms, key);
        }
        lemma_node_ok_by_children(c1.keys(), mid.keys(), syms, di, key);
        assert(mid.keys().len() <= c1.keys().len() + budget(total, g));
    }
    let r1 = ctx.intern_node(rebuilt);
    let ghost c2 = *ctx;
    proof {
        crate::syntax::context::lemma_grows_trans(&c0, &mid, ctx);
        crate::syntax::context::lemma_grows_trans(&c1, &mid, ctx);
        ctx.lemma_wf_node(r1@ as int);
        assert(ctx.keys()[r1@ as int] == key);
        assert forall|k: int| 0 <= k < xs.len() implies #[trigger] xs[k] < di && children_of(ctx.keys()[r1@ as int])[k] < r1@
            && typ_at(ctx.keys(), syms, children_of(ctx.keys()[r1@ as int])[k] as int) == typ_at(c1.keys(), syms, xs[k] as int) by {
            assert(ys[k] == new_cs@[k]@);
            assert(xs[k] == cs@[k]@);
            ctx.lemma_grows(&mid, ys[k] as int);
        }
        lemma_typ_by_children(c1.keys(), ctx.keys(), syms, di, r1@ as int);
        ctx.lemma_grows(&c0, id@ as int);
        ctx.lemma_grows(&c1, di);
        if down is None && up is None {
            assert(ys =~= xs) by {
                assert forall|k: int| 0 <= k < xs.len() implies ys[k] == xs[k] by {
                    assert(ys[k] == new_cs@[k]@);
                    assert(xs[k] == cs@[k]@);
                }
            }
            lemma_head_children(key, c1.keys()[di]);
            assert(c1.keys() == keys0);
            assert(mid.keys() == keys0);
            assert(keys0[di] == key);
            assert(keys0.contains(key));
            assert(c2.keys() == keys0);
            ctx.lemma_hash_consing(r1@ as int, di);
            assert(r1@ == id@);
        }
    }
    let e2 = ctx.id_to_expr_pub(r1);
    let r = match up {
        Some(f) => {
            let t = f(ctx, e2);
            t.id()
        },
        None => r1,
    };
    proof {
        if up is None {
            lemma_grows_self(ctx);
        }
        crate::syntax::context::lemma_grows_trans(&c0, &c2, ctx);
        assert forall|g2: nat| {
            &&& c0.room(budget(ts, g2))
            &&& down matches Some(f) ==> forall|c: &mut Context<C>, e: Expr<C>| #[trigger] f.requires((c, e)) <== c.wf()
                && c.expr_ok(e) && c.room(g2)
            &&& down matches Some(f) ==> forall|c: &mut Context<C>, e: Expr<C>, t: Expr<C>| #[trigger] call_ensures(f, (c, e), t)
                ==> final(c).wf() && final(c).grows_from(&*c) && final(c).expr_ok(t) && final(c).typ_of(expr_id(t) as int) == c.typ_of(
                expr_id(e) as int) && final(c).keys().len() <= c.keys().len() + g2 && tree_size(final(c).keys(), expr_id(t) as int) <= tree_size(c.keys(), expr_id(e) as int)
            &&& up matches Some(f) ==> forall|c: &mut Context<C>, e: Expr<C>| #[trigger] f.requires((c, e)) <== c.wf()
                && c.expr_ok(e) && c.room(g2)
            &&& up matches Some(f) ==> forall|c: &mut Context<C>, e: Expr<C>, t: Expr<C>| #[trigger] call_ensures(f, (c, e), t)
                ==> final(c).wf() && final(c).grows_from(&*c) && final(c).expr_ok(t) && final(c).typ_of(expr_id(t) as int) == c.typ_of(
                expr_id(e) as int) && final(c).keys().len() <= c.keys().len() + g2
        } implies ctx.keys().len() <= c0.keys().len() + budget(ts, g2) by {
            lemma_budget(ts, g2);
            lemma_budget(tsd, g2);
            lemma_budget_mono((tsd - 1) as nat, (ts - 1) as nat, g2);
            assert(c1.keys().len() <= c0.keys().len() + g2);
            assert(c1.room(budget(total, g2)));
            assert(mid.keys().len() <= c1.keys().len() + budget(total, g2));
            assert(ctx.keys().len() <= c2.keys().len() + g2);
        }
    }
    r
}

/// `ts * (2g + 1)` unfolded one node.
proof fn lemma_budget(ts: nat, g: nat)
    ensures
        budget(ts, g) == ts * (2 * g + 1),
        ts >= 1 ==> budget(ts, g) == budget((ts - 1) as nat, g) + 2 * g + 1,
{
    if ts >= 1 {
        assert(ts * (2 * g + 1) == (ts - 1) * (2 * g + 1) + (2 * g + 1)) by (nonlinear_arith);
    }
}

/// The budget grows with the size.
proof fn lemma_budget_mono(a: nat, b: nat, g: nat)
    requires
        a <= b,
    ensures
        budget(a, g) <= budget(b, g),
{
    assert(a * (2 * g + 1) <= b * (2 * g + 1)) by (nonlinear_arith)
        requires
            a <= b,
    ;
}

/// The budgets of a list of operands add up.
proof fn lemma_budget_add(a: nat, b: nat, g: nat)
    ensures
        budget(a + b, g) == budget(a, g) + budget(b, g),
{
    assert((a + b) * (2 * g + 1) == a * (2 * g + 1) + b * (2 * g + 1)) by (nonlinear_arith);
}

/// Rewrite each operand in `cs` of node `parent`, in order.
fn rewrite_children<C, D: Fn(&mut Context<C>, Expr<C>) -> Expr<C>, U: Fn(&mut Context<C>, Expr<C>) -> Expr<C>>(
    ctx: &mut Context<C>,
    down: Option<&D>,
    up: Option<&U>,
    cs: &Vec<ExprId>,
    Ghost(parent): Ghost<int>,
) -> (r: Vec<ExprId>)
    requires
        old(ctx).wf(),
        0 <= parent < old(ctx).keys().len(),
        forall|k: int| 0 <= k < cs@.len() ==> #[trigger] cs@[k]@ < parent,
        exists|g: nat| {
            &&& old(ctx).room(budget(sum_sizes(old(ctx).keys(), ids_view(cs@), cs@.len() as int, parent), g))
            &&& down matches Some(f) ==> forall|c: &mut Context<C>, e: Expr<C>| #[trigger] f.requires((c, e)) <== c.wf()
                && c.expr_ok(e) && c.room(g)
            &&& down matches Some(f) ==> forall|c: &mut Context<C>, e: Expr<C>, t: Expr<C>| #[trigger] call_ensures(f, (c, e), t)
                ==> final(c).wf() && final(c).grows_from(&*c) && final(c).expr_ok(t) && final(c).typ_of(expr_id(t) as int) == c.typ_of(
                expr_id(e) as int) && final(c).keys().len() <= c.keys().len() + g && tree_size(final(c).keys(), expr_id(t) as int) <= tree_size(c.keys(), expr_id(e) as int)
            &&& up matches Some(f) ==> forall|c: &mut Context<C>, e: Expr<C>| #[trigger] f.requires((c, e)) <== c.wf()
                && c.expr_ok(e) && c.room(g)
            &&& up matches Some(f) ==> forall|c: &mut Context<C>, e: Expr<C>, t: Expr<C>| #[trigger] call_ensures(f, (c, e), t)
                ==> final(c).wf() && final(c).grows_from(&*c) && final(c).expr_ok(t) && final(c).typ_of(expr_id(t) as int) == c.typ_of(
                expr_id(e) as int) && final(c).keys().len() <= c.keys().len() + g
        },
    ensures
        final(ctx).wf(),
        final(ctx).grows_from(old(ctx)),
        r@.len() == cs@.len(),
        forall|k: int|
            0 <= k < r@.len() ==> #[trigger] r@[k]@ < final(ctx).keys().len() && final(ctx).typ_of(r@[k]@ as int) == old(
                ctx,
            ).typ_of(cs@[k]@ as int) && (down is None && up is None ==> r@[k]@ == cs@[k]@),
        forall|g: nat| {
            &&& old(ctx).room(budget(sum_sizes(old(ctx).keys(), ids_view(cs@), cs@.len() as int, parent), g))
            &&& down matches Some(f) ==> forall|c: &mut Context<C>, e: Expr<C>| #[trigger] f.requires((c, e)) <== c.wf()
                && c.expr_ok(e) && c.room(g)
            &&& down matches Some(f) ==> forall|c: &mut Context<C>, e: Expr<C>, t: Expr<C>| #[trigger] call_ensures(f, (c, e), t)
                ==> final(c).wf() && final(c).grows_from(&*c) && final(c).expr_ok(t) && final(c).typ_of(expr_id(t) as int) == c.typ_of(
                expr_id(e) as int) && final(c).keys().len() <= c.keys().len() + g && tree_size(final(c).keys(), expr_id(t) as int) <= tree_size(c.keys(), expr_id(e) as int)
            &&& up matches Some(f) ==> forall|c: &mut Context<C>, e: Expr<C>| #[trigger] f.requires((c, e)) <== c.wf()
                && c.expr_ok(e) && c.room(g)
            &&& up matches Some(f) ==> forall|c: &mut Context<C>, e: Expr<C>, t: Expr<C>| #[trigger] call_ensures(f, (c, e), t)
                ==> final(c).wf() && final(c).grows_from(&*c) && final(c).expr_ok(t) && final(c).typ_of(expr_id(t) as int) == c.typ_of(
                expr_id(e) as int) && final(c).keys().len() <= c.keys().len() + g
        } ==> final(ctx).keys().len() <= old(ctx).keys().len() + budget(sum_sizes(old(ctx).keys(), ids_view(cs@), cs@.len() as int, parent), g),
        down is None && up is None ==> final(ctx).keys() == old(ctx).keys(),
    decreases sum_sizes(old(ctx).keys(), ids_view(cs@), cs@.len() as int, parent), 2int,
{
    let ghost c0 = *ctx;
    let ghost ids = ids_view(cs@);
    let ghost total = sum_sizes(c0.keys(), ids, cs@.len() as int, parent);
    let ghost g = choose|g: nat| {
        &&& c0.room(budget(total, g))
        &&& down matches Some(f) ==> forall|c: &mut Context<C>, e: Expr<C>| #[trigger] f.requires((c, e)) <== c.wf()
            && c.expr_ok(e) && c.room(g)
        &&& down matches Some(f) ==> forall|c: &mut Context<C>, e: Expr<C>, t: Expr<C>| #[trigger] call_ensures(f, (c, e), t)
            ==> final(c).wf() && final(c).grows_from(&*c) && final(c).expr_ok(t) && final(c).typ_of(expr_id(t) as int) == c.typ_of(
            expr_id(e) as int) && final(c).keys().len() <= c.keys().len() + g && tree_size(final(c).keys(), expr_id(t) as int) <= tree_size(c.keys(), expr_id(e) as int)
        &&& up matches Some(f) ==> forall|c: &mut Context<C>, e: Expr<C>| #[trigger] f.requires((c, e)) <== c.wf()
            && c.expr_ok(e) && c.room(g)
        &&& up matches Some(f) ==> forall|c: &mut Context<C>, e: Expr<C>, t: Expr<C>| #[trigger] call_ensures(f, (c, e), t)
            ==> final(c).wf() && final(c).grows_from(&*c) && final(c).expr_ok(t) && final(c).typ_of(expr_id(t) as int) == c.typ_of(
            expr_id(e) as int) && final(c).keys().len() <= c.keys().len() + g
    };
    let mut out: Vec<ExprId> = Vec::new();
    let mut k: usize = 0;
    proof {
        lemma_grows_self(ctx);
    }
    while k < cs.len()
        invariant
            k <= cs@.len(),
            ids == ids_view(cs@),
            c0 == *old(ctx),
            total == sum_sizes(c0.keys(), ids, cs@.len() as int, parent),
            0 <= parent < c0.keys().len(),
            c0.wf(),
            forall|t: int| 0 <= t < cs@.len() ==> #[trigger] cs@[t]@ < parent,
            c0.room(budget(total, g)),
            down matches Some(f) ==> forall|c: &mut Context<C>, e: Expr<C>| #[trigger] f.requires((c, e)) <== c.wf()
                && c.expr_ok(e) && c.room(g),
            down matches Some(f) ==> forall|c: &mut Context<C>, e: Expr<C>, t: Expr<C>| #[trigger] call_ensures(f, (c, e), t)
                ==> final(c).wf() && final(c).grows_from(&*c) && final(c).expr_ok(t) && final(c).typ_of(expr_id(t) as int) == c.typ_of(
                expr_id(e) as int) && final(c).keys().len() <= c.keys().len() + g && tree_size(final(c).keys(), expr_id(t) as int) <= tree_size(c.keys(), expr_id(e) as int),
            up matches Some(f) ==> forall|c: &mut Context<C>, e: Expr<C>| #[trigger] f.requires((c, e)) <== c.wf()
                && c.expr_ok(e) && c.room(g),
            up matches Some(f) ==> forall|c: &mut Context<C>, e: Expr<C>, t: Expr<C>| #[trigger] call_ensures(f, (c, e), t)
                ==> final(c).wf() && final(c).grows_from(&*c) && final(c).expr_ok(t) && final(c).typ_of(expr_id(t) as int) == c.typ_of(
                expr_id(e) as int) && final(c).keys().len() <= c.keys().len() + g,
            ctx.wf(),
            ctx.grows_from(&c0),
            forall|g2: nat| {
                &&& c0.room(budget(total, g2))
                &&& down matches Some(f) ==> forall|c: &mut Context<C>, e: Expr<C>| #[trigger] f.requires((c, e)) <== c.wf()
                    && c.expr_ok(e) && c.room(g2)
                &&& down matches Some(f) ==> forall|c: &mut Context<C>, e: Expr<C>, t: Expr<C>| #[trigger] call_ensures(f, (c, e), t)
                    ==> final(c).wf() && final(c).grows_from(&*c) && final(c).expr_ok(t) && final(c).typ_of(expr_id(t) as int) == c.typ_of(
                    expr_id(e) as int) && final(c).keys().len() <= c.keys().len() + g2 && tree_size(final(c).keys(), expr_id(t) as int) <= tree_size(c.keys(), expr_id(e) as int)
                &&& up matches Some(f) ==> forall|c: &mut Context<C>, e: Expr<C>| #[trigger] f.requires((c, e)) <== c.wf()
                    && c.expr_ok(e) && c.room(g2)
                &&& up matches Some(f) ==> forall|c: &mut Context<C>, e: Expr<C>, t: Expr<C>| #[trigger] call_ensures(f, (c, e), t)
                    ==> final(c).wf() && final(c).grows_from(&*c) && final(c).expr_ok(t) && final(c).typ_of(expr_id(t) as int) == c.typ_of(
                    expr_id(e) as int) && final(c).keys().len() <= c.keys().len() + g2
            } ==> ctx.keys().len() <= c0.keys().len() + budget(sum_sizes(c0.keys(), ids, k as int, parent), g2),
            down is None && up is None ==> ctx.keys() == c0.keys(),
            out@.len() == k,
            forall|t: int|
                0 <= t < k ==> #[trigger] out@[t]@ < ctx.keys().len() && ctx.typ_of(out@[t]@ as int) == c0.typ_of(cs@[t]@ as int)
                    && (down is None && up is None ==> out@[t]@ == cs@[t]@),
        decreases cs@.len() - k,
    {
        let c = cs[k];
        let ghost before = *ctx;
        let ghost sk = sum_sizes(c0.keys(), ids, k as int, parent);
        let ghost sk1 = sum_sizes(c0.keys(), ids, k + 1, parent);
        let ghost tc = tree_size(c0.keys(), c@ as int);
        proof {
            assert(ids[k as int] == c@);
            assert(sk1 == tc + sk);
            lemma_sum_mono(c0.keys(), ids, k + 1, cs@.len() as int, parent);
            lemma_budget_add(tc, sk, g);
            lemma_budget_mono(sk1, total, g);
            ctx.lemma_grows(&c0, c@ as int);
            lemma_size_stable(c0.keys(), ctx.keys(), c@ as int);
            assert(ctx.room(budget(tree_size(ctx.keys(), c@ as int), g)));
            assert(tree_size(ctx.keys(), c@ as int) <= total);
        }
        let r = rewrite_rec(ctx, down, up, c);
        proof {
            crate::syntax::context::lemma_grows_trans(&c0, &before, ctx);
            assert forall|t: int|
                0 <= t < k implies #[trigger] out@[t]@ < ctx.keys().len() && ctx.typ_of(out@[t]@ as int) == c0.typ_of(cs@[t]@ as int)
                && (down is None && up is None ==> out@[t]@ == cs@[t]@) by {
                ctx.lemma_grows(&before, out@[t]@ as int);
            }
            assert forall|g2: nat| {
                &&& c0.room(budget(total, g2))
                &&& down matches Some(f) ==> forall|c: &mut Context<C>, e: Expr<C>| #[trigger] f.requires((c, e)) <== c.wf()
                    && c.expr_ok(e) && c.room(g2)
                &&& down matches Some(f) ==> forall|c: &mut Context<C>, e: Expr<C>, t: Expr<C>| #[trigger] call_ensures(f, (c, e), t)
                    ==> final(c).wf() && final(c).grows_from(&*c) && final(c).expr_ok(t) && final(c).typ_of(expr_id(t) as int) == c.typ_of(
                    expr_id(e) as int) && final(c).keys().len() <= c.keys().len() + g2 && tree_size(final(c).keys(), expr_id(t) as int) <= tree_size(c.keys(), expr_id(e) as int)
                &&& up matches Some(f) ==> forall|c: &mut Context<C>, e: Expr<C>| #[trigger] f.requires((c, e)) <== c.wf()
                    && c.expr_ok(e) && c.room(g2)
                &&& up matches Some(f) ==> forall|c: &mut Context<C>, e: Expr<C>, t: Expr<C>| #[trigger] call_ensures(f, (c, e), t)
                    ==> final(c).wf() && final(c).grows_from(&*c) && final(c).expr_ok(t) && final(c).typ_of(expr_id(t) as int) == c.typ_of(
                    expr_id(e) as int) && final(c).keys().len() <= c.keys().len() + g2
            } implies ctx.keys().len() <= c0.keys().len() + budget(sk1, g2) by {
                lemma_budget_add(tc, sk, g2);
                lemma_budget_mono(sk1, total, g2);
                assert(before.keys().len() <= c0.keys().len() + budget(sk, g2));
                assert(before.room(budget(tree_size(before.keys(), c@ as int), g2)));
                assert(ctx.keys().len() <= before.keys().len() + budget(tree_size(before.keys(), c@ as int), g2));
            }
        }
        let ghost prev = out@;
        out.push(r);
        proof {
            assert forall|t: int|
                0 <= t < k + 1 implies #[trigger] out@[t]@ < ctx.keys().len() && ctx.typ_of(out@[t]@ as int) == c0.typ_of(cs@[t]@ as int)
                && (down is None && up is None ==> out@[t]@ == cs@[t]@) by {
                if t < k {
                    assert(out@[t] == prev[t]);
                }
            }
        }
        k = k + 1;
    }
    out
}

/// Rewrite an expression, applying `down` to each node before its operands
/// are rewritten and `up` to each node after (each when given). The
/// functions must keep the context well formed, add at most `g` nodes per
/// call, keep sorts, and `down` must not make an expression larger
/// unfolded into a tree; the context needs room for `2g + 1` nodes per
/// node of the expression unfolded into a tree. With neither function
/// given, the expression comes back unchanged.
pub fn rewrite<C, D: Fn(&mut Context<C>, Expr<C>) -> Expr<C>, U: Fn(&mut Context<C>, Expr<C>) -> Expr<C>>(
    ctx: &mut Context<C>,
    down: Option<&D>,
    up: Option<&U>,
    expr: Expr<C>,
) -> (r: Expr<C>)
    requires
        old(ctx).wf(),
        old(ctx).expr_ok(expr),
        exists|g: nat| {
            &&& old(ctx).room(budget(tree_size(old(ctx).keys(), expr_id(expr) as int), g))
            &&& down matches Some(f) ==> forall|c: &mut Context<C>, e: Expr<C>| #[trigger] f.requires((c, e)) <== c.wf()
                && c.expr_ok(e) && c.room(g)
            &&& down matches Some(f) ==> forall|c: &mut Context<C>, e: Expr<C>, t: Expr<C>| #[trigger] call_ensures(f, (c, e), t)
                ==> final(c).wf() && final(c).grows_from(&*c) && final(c).expr_ok(t) && final(c).typ_of(expr_id(t) as int) == c.typ_of(
                expr_id(e) as int) && final(c).keys().len() <= c.keys().len() + g && tree_size(final(c).keys(), expr_id(t) as int) <= tree_size(c.keys(), expr_id(e) as int)
            &&& up matches Some(f) ==> forall|c: &mut Context<C>, e: Expr<C>| #[trigger] f.requires((c, e)) <== c.wf()
                && c.expr_ok(e) && c.room(g)
            &&& up matches Some(f) ==> forall|c: &mut Context<C>, e: Expr<C>, t: Expr<C>| #[trigger] call_ensures(f, (c, e), t)
                ==> final(c).wf() && final(c).grows_from(&*c) && final(c).expr_ok(t) && final(c).typ_of(expr_id(t) as int) == c.typ_of(
                expr_id(e) as int) && final(c).keys().len() <= c.keys().len() + g
        },
    ensures
        final(ctx).wf(),
        final(ctx).grows_from(old(ctx)),
        final(ctx).expr_ok(r),
        final(ctx).typ_of(expr_id(r) as int) == old(ctx).typ_of(expr_id(expr) as int),
        down is None && up is None ==> expr_id(r) == expr_id(expr) && final(ctx).keys() == old(ctx).keys(),
{
    let id = rewrite_rec(ctx, down, up, expr.id());
    ctx.id_to_expr_pub(id)
}

} // verus!
