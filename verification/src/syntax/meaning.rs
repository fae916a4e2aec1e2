//! The truth value of a formula under an interpretation, and the law that
//! negation normal form keeps it.

use vstd::prelude::*;

use super::context::{children_of, Context};
use super::expr::NodeKey;
use super::substitution::{nnf_rel, rel_all};
use super::types::TypFo;

verus! {

/// `x <= y` for rationals `(numerator, denominator)`, compared by cross
/// multiplication.
pub open spec fn val_le(x: (int, int), y: (int, int)) -> bool {
    x.0 * y.1 <= y.0 * x.1
}

/// `x < y` for rationals, compared by cross multiplication.
pub open spec fn val_lt(x: (int, int), y: (int, int)) -> bool {
    x.0 * y.1 < y.0 * x.1
}

/// `x = y` for rationals, compared by cross multiplication.
pub open spec fn val_eq(x: (int, int), y: (int, int)) -> bool {
    x.0 * y.1 == y.0 * x.1
}

/// The truth value of formula node `i` under an interpretation.
///
/// `env` holds the values of the bound variables, innermost first; `term`
/// gives each arithmetic term its rational value under those values, and
/// `atom` each other atom (a Boolean variable or application, an array
/// equality) its truth value; `dom` says which values a variable of a sort
/// ranges over. Connectives, comparisons, quantifiers and conditionals have
/// their usual meaning.
pub open spec fn holds<V>(
    keys: Seq<NodeKey>,
    i: int,
    env: Seq<V>,
    term: spec_fn(Seq<V>, int) -> (int, int),
    atom: spec_fn(Seq<V>, int) -> bool,
    dom: spec_fn(TypFo, V) -> bool,
) -> bool
    decreases i, 1int, 0int,
{
    if 0 <= i < keys.len() {
        match keys[i] {
            NodeKey::True => true,
            NodeKey::False => false,
            NodeKey::Not(a) => a < i && !holds(keys, a as int, env, term, atom, dom),
            NodeKey::And(cs) => holds_all(keys, cs, cs.len() as int, i, env, term, atom, dom),
            NodeKey::Or(cs) => holds_any(keys, cs, cs.len() as int, i, env, term, atom, dom),
            NodeKey::Leq(a, b) => val_le(term(env, a as int), term(env, b as int)),
            NodeKey::Lt(a, b) => val_lt(term(env, a as int), term(env, b as int)),
            NodeKey::Eq(a, b) => val_eq(term(env, a as int), term(env, b as int)),
            NodeKey::Exists(_, t, b) => b < i && exists|v: V|
                #![trigger dom(t, v)]
                dom(t, v) && holds(keys, b as int, seq![v] + env, term, atom, dom),
            NodeKey::Forall(_, t, b) => b < i && forall|v: V|
                #![trigger dom(t, v)]
                dom(t, v) ==> holds(keys, b as int, seq![v] + env, term, atom, dom),
            NodeKey::Ite(c, t, e) => c < i && t < i && e < i && if holds(keys, c as int, env, term, atom, dom) {
                holds(keys, t as int, env, term, atom, dom)
            } else {
                holds(keys, e as int, env, term, atom, dom)
            },
            _ => atom(env, i),
        }
    } else {
        false
    }
}

/// All of the first `n` operands `cs` of node `i` hold.
pub open spec fn holds_all<V>(
    keys: Seq<NodeKey>,
    cs: Seq<u32>,
    n: int,
    i: int,
    env: Seq<V>,
    term: spec_fn(Seq<V>, int) -> (int, int),
    atom: spec_fn(Seq<V>, int) -> bool,
    dom: spec_fn(TypFo, V) -> bool,
) -> bool
    decreases i, 0int, n,
{
    if n <= 0 || n > cs.len() {
        true
    } else {
        cs[n - 1] < i && holds(keys, cs[n - 1] as int, env, term, atom, dom) && holds_all(keys, cs, n - 1, i, env, term, atom, dom)
    }
}

/// Some of the first `n` operands `cs` of node `i` holds.
pub open spec fn holds_any<V>(
    keys: Seq<NodeKey>,
    cs: Seq<u32>,
    n: int,
    i: int,
    env: Seq<V>,
    term: spec_fn(Seq<V>, int) -> (int, int),
    atom: spec_fn(Seq<V>, int) -> bool,
    dom: spec_fn(TypFo, V) -> bool,
) -> bool
    decreases i, 0int, n,
{
    if n <= 0 || n > cs.len() {
        false
    } else {
        (cs[n - 1] < i && holds(keys, cs[n - 1] as int, env, term, atom, dom)) || holds_any(
            keys,
            cs,
            n - 1,
            i,
            env,
            term,
            atom,
            dom,
        )
    }
}

/// Negation normal form keeps the meaning of a formula: when node `r` is
/// the negation normal form of node `i` (of its negation when `neg`), `r`
/// holds under an interpretation exactly when `i` does (does not, when
/// `neg`), under every interpretation of the terms, the atoms and the bound
/// variables.
pub proof fn lemma_nnf_keeps_truth<C, V>(
    ctx: &Context<C>,
    r: int,
    i: int,
    neg: bool,
    env: Seq<V>,
    term: spec_fn(Seq<V>, int) -> (int, int),
    atom: spec_fn(Seq<V>, int) -> bool,
    dom: spec_fn(TypFo, V) -> bool,
)
    requires
        ctx.wf(),
        nnf_rel(ctx.keys(), r, i, neg),
    ensures
        holds(ctx.keys(), r, env, term, atom, dom) == (holds(ctx.keys(), i, env, term, atom, dom) != neg),
    decreases i, 1int, 0int,
{
    let keys = ctx.keys();
    ctx.lemma_wf_node(r);
    ctx.lemma_wf_node(i);
    match keys[i] {
        NodeKey::Not(a) => {
            lemma_nnf_keeps_truth(ctx, r, a as int, !neg, env, term, atom, dom);
        },
        NodeKey::And(cs) => {
            let rs = children_of(keys[r]);
            assert forall|k: int| 0 <= k < rs.len() implies #[trigger] rs[k] < r by {}
            lemma_rel_all_truth(ctx, rs, cs, cs.len() as int, r, i, neg, env, term, atom, dom);
        },
        NodeKey::Or(cs) => {
            let rs = children_of(keys[r]);
            assert forall|k: int| 0 <= k < rs.len() implies #[trigger] rs[k] < r by {}
            lemma_rel_all_truth(ctx, rs, cs, cs.len() as int, r, i, neg, env, term, atom, dom);
        },
        NodeKey::Exists(n, t, b) => {
            let rb = children_of(keys[r])[0];
            assert(rb < r);
            assert forall|v: V| #[trigger] dom(t, v) implies holds(keys, rb as int, seq![v] + env, term, atom, dom) == (holds(
                keys,
                b as int,
                seq![v] + env,
                term,
                atom,
                dom,
            ) != neg) by {
                lemma_nnf_keeps_truth(ctx, rb as int, b as int, neg, seq![v] + env, term, atom, dom);
            }
        },
        NodeKey::Forall(n, t, b) => {
            let rb = children_of(keys[r])[0];
            assert(rb < r);
            assert forall|v: V| #[trigger] dom(t, v) implies holds(keys, rb as int, seq![v] + env, term, atom, dom) == (holds(
                keys,
                b as int,
                seq![v] + env,
                term,
                atom,
                dom,
            ) != neg) by {
                lemma_nnf_keeps_truth(ctx, rb as int, b as int, neg, seq![v] + env, term, atom, dom);
            }
        },
        NodeKey::Ite(c, t, e) => {
            let rc = children_of(keys[r])[0];
            let rt = children_of(keys[r])[1];
            let re = children_of(keys[r])[2];
            assert(rc < r && rt < r && re < r);
            lemma_nnf_keeps_truth(ctx, rc as int, c as int, false, env, term, atom, dom);
            lemma_nnf_keeps_truth(ctx, rt as int, t as int, neg, env, term, atom, dom);
            lemma_nnf_keeps_truth(ctx, re as int, e as int, neg, env, term, atom, dom);
        },
        NodeKey::Eq(a, b) => {
            if neg {
                let rs = keys[r]->Or_0;
                assert(children_of(keys[r])[0] == rs[0] && children_of(keys[r])[1] == rs[1]);
                assert(rs[0] < r && rs[1] < r);
                assert(holds_any(keys, rs, 0, r, env, term, atom, dom) == false);
                let x = term(env, a as int);
                let y = term(env, b as int);
                assert(holds(keys, rs[0] as int, env, term, atom, dom) == val_lt(x, y));
                assert(holds(keys, rs[1] as int, env, term, atom, dom) == val_lt(y, x));
                assert(holds_any(keys, rs, 1, r, env, term, atom, dom) == val_lt(x, y));
                assert(holds_any(keys, rs, 2, r, env, term, atom, dom) == (val_lt(x, y) || val_lt(y, x)));
                assert(holds(keys, i, env, term, atom, dom) == val_eq(x, y));
            }
        },
        NodeKey::Leq(a, b) => {},
        NodeKey::Lt(a, b) => {},
        _ => {
            if neg {
                assert(children_of(keys[r])[0] == i);
            }
        },
    }
}

/// The operand-wise part of [`lemma_nnf_keeps_truth`]: when the first `n`
/// of `rs` (operands of `r`) are the negation normal forms of the first `n`
/// of `cs` (operands of `i`), negated when `neg`, then all (some) of them
/// hold exactly when all (some) of `cs` hold, or, when `neg`, when not some
/// (not all) of `cs` hold.
proof fn lemma_rel_all_truth<C, V>(
    ctx: &Context<C>,
    rs: Seq<u32>,
    cs: Seq<u32>,
    n: int,
    r: int,
    i: int,
    neg: bool,
    env: Seq<V>,
    term: spec_fn(Seq<V>, int) -> (int, int),
    atom: spec_fn(Seq<V>, int) -> bool,
    dom: spec_fn(TypFo, V) -> bool,
)
    requires
        ctx.wf(),
        0 <= n <= cs.len(),
        n <= rs.len(),
        rel_all(ctx.keys(), rs, cs, n, i, neg),
        forall|k: int| 0 <= k < n ==> #[trigger] rs[k] < r,
    ensures
        holds_all(ctx.keys(), rs, n, r, env, term, atom, dom) == if neg {
            !holds_any(ctx.keys(), cs, n, i, env, term, atom, dom)
        } else {
            holds_all(ctx.keys(), cs, n, i, env, term, atom, dom)
        },
        holds_any(ctx.keys(), rs, n, r, env, term, atom, dom) == if neg {
            !holds_all(ctx.keys(), cs, n, i, env, term, atom, dom)
        } else {
            holds_any(ctx.keys(), cs, n, i, env, term, atom, dom)
        },
    decreases i, 0int, n,
{
    if n > 0 {
        assert(rs[n - 1] < r);
        lemma_nnf_keeps_truth(ctx, rs[n - 1] as int, cs[n - 1] as int, neg, env, term, atom, dom);
        lemma_rel_all_truth(ctx, rs, cs, n - 1, r, i, neg, env, term, atom, dom);
    }
}

} // verus!
