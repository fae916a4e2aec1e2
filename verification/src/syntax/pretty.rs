//! Context-aware pretty-printing of expressions.
//!
//! Handles do not carry their context, so [`Context::display`] renders an
//! expression against the context that holds it.
//!
//! Output uses ASCII infix notation:
//!   - boolean: `&&`, `||`, `!`, quantifiers `forall x : t. ...`
//!   - arithmetic: `+`, `*`, `-`, `/`, `mod`, `floor(...)`
//!   - relations: `=`, `<`, `<=`
//!   - arrays: `a[i]`, `a[i := v]`
//!   - if-then-else: `(if c then t else e)`
//!
//! Bound de Bruijn variables are printed using the binder's name; free
//! variables print as `#<index>`.

use vstd::prelude::*;

use crate::num::zz::{int_to_decimal, nat_to_decimal};
use crate::num::ZZ;

use super::context::{children_of, operand_bound, Context};
use super::expr::{expr_id, Expr, ExprId, NodeKey, SExprNode};
use super::types::{typ_fo_name, Typ};

verus! {

// ---------------------------------------------------------------------------
// What is printed
// ---------------------------------------------------------------------------

/// A rational `n/d` in lowest terms: `n` when `d` is one.
pub open spec fn rat_text(n: int, d: int) -> Seq<char> {
    if d == 1 {
        int_to_decimal(n)
    } else {
        int_to_decimal(n) + seq!['/'] + int_to_decimal(d)
    }
}

/// De Bruijn variable `v` under the binder names `env` (innermost last):
/// the name of its binder, or `#v` when it is free.
pub open spec fn var_text(env: Seq<Seq<char>>, v: u32) -> Seq<char> {
    if v < env.len() {
        env[env.len() - 1 - v]
    } else {
        seq!['#'] + nat_to_decimal(v as nat)
    }
}

/// `(` + `s` + `)`.
pub open spec fn parens(s: Seq<char>) -> Seq<char> {
    seq!['('] + s + seq![')']
}

/// The rendering of node `i` under the binder names `env`.
pub open spec fn show(keys: Seq<NodeKey>, syms: Seq<(Seq<char>, Typ)>, env: Seq<Seq<char>>, i: int) -> Seq<char>
    decreases i, operand_bound(keys, i),
{
    if 0 <= i < keys.len() {
        match keys[i] {
            NodeKey::Real(n, d) => rat_text(n, d),
            NodeKey::Add(cs) => parens(show_list(keys, syms, env, cs, cs.len() as int, i, seq![' ', '+', ' '])),
            NodeKey::Mul(cs) => parens(show_list(keys, syms, env, cs, cs.len() as int, i, seq![' ', '*', ' '])),
            NodeKey::Div(a, b) => parens(
                show_child(keys, syms, env, a, i) + seq![' ', '/', ' '] + show_child(keys, syms, env, b, i),
            ),
            NodeKey::Mod(a, b) => parens(
                show_child(keys, syms, env, a, i) + seq![' ', 'm', 'o', 'd', ' '] + show_child(keys, syms, env, b, i),
            ),
            NodeKey::Floor(a) => seq!['f', 'l', 'o', 'o', 'r'] + parens(show_child(keys, syms, env, a, i)),
            NodeKey::Neg(a) => seq!['-'] + show_child(keys, syms, env, a, i),
            NodeKey::Var(v, _) => var_text(env, v),
            NodeKey::App(s, cs) => if cs.len() == 0 {
                syms[s as int].0
            } else {
                syms[s as int].0 + parens(show_list(keys, syms, env, cs, cs.len() as int, i, seq![',', ' ']))
            },
            NodeKey::Select(a, b) => show_child(keys, syms, env, a, i) + seq!['['] + show_child(keys, syms, env, b, i)
                + seq![']'],
            NodeKey::Store(a, b, c) => show_child(keys, syms, env, a, i) + seq!['['] + show_child(keys, syms, env, b, i)
                + seq![' ', ':', '=', ' '] + show_child(keys, syms, env, c, i) + seq![']'],
            NodeKey::True => seq!['t', 'r', 'u', 'e'],
            NodeKey::False => seq!['f', 'a', 'l', 's', 'e'],
            NodeKey::And(cs) => if cs.len() == 0 {
                seq!['t', 'r', 'u', 'e']
            } else {
                parens(show_list(keys, syms, env, cs, cs.len() as int, i, seq![' ', '&', '&', ' ']))
            },
            NodeKey::Or(cs) => if cs.len() == 0 {
                seq!['f', 'a', 'l', 's', 'e']
            } else {
                parens(show_list(keys, syms, env, cs, cs.len() as int, i, seq![' ', '|', '|', ' ']))
            },
            NodeKey::Not(a) => seq!['!'] + show_child(keys, syms, env, a, i),
            NodeKey::Eq(a, b) => parens(
                show_child(keys, syms, env, a, i) + seq![' ', '=', ' '] + show_child(keys, syms, env, b, i),
            ),
            NodeKey::Leq(a, b) => parens(
                show_child(keys, syms, env, a, i) + seq![' ', '<', '=', ' '] + show_child(keys, syms, env, b, i),
            ),
            NodeKey::Lt(a, b) => parens(
                show_child(keys, syms, env, a, i) + seq![' ', '<', ' '] + show_child(keys, syms, env, b, i),
            ),
            NodeKey::ArrEq(a, b) => parens(
                show_child(keys, syms, env, a, i) + seq![' ', '=', ' '] + show_child(keys, syms, env, b, i),
            ),
            NodeKey::Exists(name, t, b) => parens(
                seq!['e', 'x', 'i', 's', 't', 's', ' '] + name + seq![' ', ':', ' '] + typ_fo_name(t) + seq!['.', ' ']
                    + show_child(keys, syms, env.push(name), b, i),
            ),
            NodeKey::Forall(name, t, b) => parens(
                seq!['f', 'o', 'r', 'a', 'l', 'l', ' '] + name + seq![' ', ':', ' '] + typ_fo_name(t) + seq!['.', ' ']
                    + show_child(keys, syms, env.push(name), b, i),
            ),
            NodeKey::Ite(c, t, e) => parens(
                seq!['i', 'f', ' '] + show_child(keys, syms, env, c, i) + seq![' ', 't', 'h', 'e', 'n', ' ']
                    + show_child(keys, syms, env, t, i) + seq![' ', 'e', 'l', 's', 'e', ' '] + show_child(
                    keys,
                    syms,
                    env,
                    e,
                    i,
                ),
            ),
        }
    } else {
        Seq::empty()
    }
}

/// The rendering of operand `a` of node `i` (nothing if `a` does not come
/// before `i`).
pub open spec fn show_child(keys: Seq<NodeKey>, syms: Seq<(Seq<char>, Typ)>, env: Seq<Seq<char>>, a: u32, i: int) -> Seq<
    char,
>
    decreases i, 0int,
{
    if a < i {
        show(keys, syms, env, a as int)
    } else {
        Seq::empty()
    }
}

/// The renderings of the first `n` operands in `cs` of node `i`, separated
/// by `sep`.
pub open spec fn show_list(
    keys: Seq<NodeKey>,
    syms: Seq<(Seq<char>, Typ)>,
    env: Seq<Seq<char>>,
    cs: Seq<u32>,
    n: int,
    i: int,
    sep: Seq<char>,
) -> Seq<char>
    decreases i, n,
{
    if n <= 0 || n > cs.len() {
        Seq::empty()
    } else if n == 1 {
        show_child(keys, syms, env, cs[0], i)
    } else {
        show_list(keys, syms, env, cs, n - 1, i, sep) + sep + show_child(keys, syms, env, cs[n - 1], i)
    }
}

/// The binder names of an environment of strings.
pub open spec fn env_view(env: Seq<String>) -> Seq<Seq<char>> {
    env.map_values(|s: String| s@)
}

// ---------------------------------------------------------------------------
// Printing
// ---------------------------------------------------------------------------

/// Append the rendering of de Bruijn variable `v`.
fn fmt_var(env: &Vec<String>, v: u32, out: &mut String)
    ensures
        final(out)@ == old(out)@ + var_text(env_view(env@), v),
{
    if (v as usize) < env.len() {
        let j = env.len() - 1 - v as usize;
        out.append(env[j].as_str());
        proof {
            assert(env_view(env@)[j as int] == env@[j as int]@);
        }
    } else {
        proof {
            reveal_strlit("#");
        }
        out.append("#");
        let digits = ZZ::of_i64(v as i64).to_string();
        out.append(digits.as_str());
    }
}

/// Append the rendering of operand `a` of node `parent`.
fn fmt_child<C>(ctx: &Context<C>, env: &mut Vec<String>, a: ExprId, Ghost(parent): Ghost<int>, out: &mut String)
    requires
        ctx.wf(),
        a@ < parent < ctx.keys().len(),
    ensures
        final(out)@ == old(out)@ + show_child(ctx.keys(), ctx.syms(), env_view(old(env)@), a@, parent),
        final(env)@ == old(env)@,
    decreases parent, 0int,
{
    fmt_node(ctx, env, a, out);
}

/// Append the renderings of the operands `cs` of node `parent`, separated
/// by `sep`.
fn fmt_list<C>(ctx: &Context<C>, env: &mut Vec<String>, cs: &Vec<ExprId>, sep: &str, Ghost(parent): Ghost<int>, out: &mut String)
    requires
        ctx.wf(),
        0 <= parent < ctx.keys().len(),
        forall|k: int| 0 <= k < cs@.len() ==> #[trigger] cs@[k]@ < parent,
    ensures
        final(out)@ == old(out)@ + show_list(
            ctx.keys(),
            ctx.syms(),
            env_view(old(env)@),
            super::expr::ids_view(cs@),
            cs@.len() as int,
            parent,
            sep@,
        ),
        final(env)@ == old(env)@,
    decreases parent, 1int,
{
    let ghost ids = super::expr::ids_view(cs@);
    let ghost e = env_view(env@);
    let ghost start = out@;
    let ghost env_start = env@;
    let mut k: usize = 0;
    while k < cs.len()
        invariant
            env@ == env_start,
            ctx.wf(),
            0 <= parent < ctx.keys().len(),
            forall|t: int| 0 <= t < cs@.len() ==> #[trigger] cs@[t]@ < parent,
            ids == super::expr::ids_view(cs@),
            k <= cs@.len(),
            env_view(env@) == e,
            out@ == start + show_list(ctx.keys(), ctx.syms(), e, ids, k as int, parent, sep@),
        decreases cs@.len() - k,
    {
        let ghost before = out@;
        let ghost env0 = env@;
        if k > 0 {
            out.append(sep);
        }
        let ghost mid = out@;
        proof {
            assert(ids[k as int] == cs@[k as int]@);
        }
        fmt_child(ctx, env, cs[k], Ghost(parent), out);
        proof {
            assert(env@ == env0);
            if k == 0 {
                assert(show_list(ctx.keys(), ctx.syms(), e, ids, 1, parent, sep@) == show_child(ctx.keys(), ctx.syms(), e, ids[0], parent));
                assert(out@ =~= start + show_list(ctx.keys(), ctx.syms(), e, ids, 1, parent, sep@));
            } else {
                assert(show_list(ctx.keys(), ctx.syms(), e, ids, k + 1, parent, sep@) == show_list(
                    ctx.keys(),
                    ctx.syms(),
                    e,
                    ids,
                    k as int,
                    parent,
                    sep@,
                ) + sep@ + show_child(ctx.keys(), ctx.syms(), e, ids[k as int], parent));
                assert(out@ =~= start + show_list(ctx.keys(), ctx.syms(), e, ids, k + 1, parent, sep@));
            }
        }
        k = k + 1;
    }
}

/// Append `(a op b)` for operands `a` and `b` of node `parent`.
fn fmt_binop<C>(ctx: &Context<C>, env: &mut Vec<String>, a: ExprId, op: &str, b: ExprId, Ghost(parent): Ghost<int>, out: &mut String)
    requires
        ctx.wf(),
        a@ < parent < ctx.keys().len(),
        b@ < parent,
    ensures
        final(out)@ == old(out)@ + parens(
            show_child(ctx.keys(), ctx.syms(), env_view(old(env)@), a@, parent) + op@ + show_child(
                ctx.keys(),
                ctx.syms(),
                env_view(old(env)@),
                b@,
                parent,
            ),
        ),
        final(env)@ == old(env)@,
    decreases parent, 1int,
{
    proof {
        reveal_strlit("(");
        reveal_strlit(")");
    }
    out.append("(");
    fmt_child(ctx, env, a, Ghost(parent), out);
    out.append(op);
    fmt_child(ctx, env, b, Ghost(parent), out);
    out.append(")");
    proof {
        assert(final(out)@ =~= old(out)@ + parens(
            show_child(ctx.keys(), ctx.syms(), env_view(old(env)@), a@, parent) + op@ + show_child(
                ctx.keys(),
                ctx.syms(),
                env_view(old(env)@),
                b@,
                parent,
            ),
        ));
    }
}

/// Append the rendering of node `id` under the binder names `env`.
#[verifier::spinoff_prover]
#[verifier::rlimit(100)]
fn fmt_node<C>(ctx: &Context<C>, env: &mut Vec<String>, id: ExprId, out: &mut String)
    requires
        ctx.wf(),
        id@ < ctx.keys().len(),
    ensures
        final(out)@ == old(out)@ + show(ctx.keys(), ctx.syms(), env_view(old(env)@), id@ as int),
        final(env)@ == old(env)@,
    decreases id@, 2int,
{
    let ghost keys = ctx.keys();
    let ghost syms = ctx.syms();
    let ghost i = id@ as int;
    let ghost e = env_view(env@);
    let ghost start = out@;
    proof {
        ctx.lemma_wf_node(i);
    }
    let node = ctx.node(id);
    proof {
        assert(keys[i] == super::expr::node_key(*node));
    }
    match node {
        SExprNode::Real(q) => {
            let s = q.to_string();
            out.append(s.as_str());
            proof {
                assert(out@ =~= start + show(keys, syms, e, i));
            }
        },
        SExprNode::Add(cs) => {
            proof {
                reveal_strlit("(");
                reveal_strlit(")");
                reveal_strlit(" + ");
                assert forall|k: int| 0 <= k < cs@.len() implies #[trigger] cs@[k]@ < i by {
                    assert(children_of(keys[i])[k] == cs@[k]@);
                }
            }
            let ghost s0 = out@;
            out.append("(");
            let ghost s1 = out@;
            fmt_list(ctx, env, cs, " + ", Ghost(i), out);
            let ghost s2 = out@;
            out.append(")");
            proof {
                let ids = super::expr::ids_view(cs@);
                assert(keys[i] == NodeKey::Add(ids));
                assert(" + "@ == seq![' ', '+', ' ']);
                assert(s1 == s0 + seq!['(']);
                assert(s2 == s1 + show_list(keys, syms, e, ids, ids.len() as int, i, seq![' ', '+', ' ']));
                assert(show(keys, syms, e, i) == parens(show_list(keys, syms, e, ids, ids.len() as int, i, seq![' ', '+', ' '])));
                assert(out@ =~= start + show(keys, syms, e, i));
            }
        },
        SExprNode::Mul(cs) => {
            proof {
                reveal_strlit("(");
                reveal_strlit(")");
                reveal_strlit(" * ");
                assert forall|k: int| 0 <= k < cs@.len() implies #[trigger] cs@[k]@ < i by {
                    assert(children_of(keys[i])[k] == cs@[k]@);
                }
            }
            let ghost s0 = out@;
            out.append("(");
            let ghost s1 = out@;
            fmt_list(ctx, env, cs, " * ", Ghost(i), out);
            let ghost s2 = out@;
            out.append(")");
            proof {
                let ids = super::expr::ids_view(cs@);
                assert(" * "@ == seq![' ', '*', ' ']);
                assert(s1 == s0 + seq!['(']);
                assert(s2 == s1 + show_list(keys, syms, e, ids, ids.len() as int, i, seq![' ', '*', ' ']));
            }
            proof {
                assert(out@ =~= start + show(keys, syms, e, i));
            }
        },
        SExprNode::Div(a, b) => {
            proof {
                reveal_strlit(" / ");
                assert(children_of(keys[i])[0] == a@ && children_of(keys[i])[1] == b@);
            }
            fmt_binop(ctx, env, *a, " / ", *b, Ghost(i), out);
            proof {
                assert(out@ =~= start + show(keys, syms, e, i));
            }
        },
        SExprNode::Mod(a, b) => {
            proof {
                reveal_strlit(" mod ");
                assert(children_of(keys[i])[0] == a@ && children_of(keys[i])[1] == b@);
            }
            fmt_binop(ctx, env, *a, " mod ", *b, Ghost(i), out);
            proof {
                assert(out@ =~= start + show(keys, syms, e, i));
            }
        },
        SExprNode::Floor(a) => {
            proof {
                reveal_strlit("floor(");
                reveal_strlit(")");
                assert(children_of(keys[i])[0] == a@);
            }
            out.append("floor(");
            fmt_child(ctx, env, *a, Ghost(i), out);
            out.append(")");
            proof {
                assert(out@ =~= start + show(keys, syms, e, i));
            }
        },
        SExprNode::Neg(a) => {
            proof {
                reveal_strlit("-");
                assert(children_of(keys[i])[0] == a@);
            }
            out.append("-");
            fmt_child(ctx, env, *a, Ghost(i), out);
            proof {
                assert(out@ =~= start + show(keys, syms, e, i));
            }
        },
        SExprNode::Var(v, _) => {
            fmt_var(env, *v, out);
            proof {
                assert(out@ =~= start + show(keys, syms, e, i));
            }
        },
        SExprNode::App(sym, args) => {
            proof {
                reveal_strlit("(");
                reveal_strlit(")");
                reveal_strlit(", ");
                assert forall|k: int| 0 <= k < args@.len() implies #[trigger] args@[k]@ < i by {
                    assert(children_of(keys[i])[k] == args@[k]@);
                }
            }
            out.append(ctx.show_symbol(*sym));
            if args.len() > 0 {
                let ghost s0 = out@;
                out.append("(");
                let ghost s1 = out@;
                fmt_list(ctx, env, args, ", ", Ghost(i), out);
                let ghost s2 = out@;
                out.append(")");
                proof {
                    let ids = super::expr::ids_view(args@);
                    assert(", "@ == seq![',', ' ']);
                    assert(s1 == s0 + seq!['(']);
                    assert(s2 == s1 + show_list(keys, syms, e, ids, ids.len() as int, i, seq![',', ' ']));
                    assert(out@ == s0 + parens(show_list(keys, syms, e, ids, ids.len() as int, i, seq![',', ' '])));
                }
            }
            proof {
                assert(out@ =~= start + show(keys, syms, e, i));
            }
        },
        SExprNode::Select(a, b) => {
            proof {
                reveal_strlit("[");
                reveal_strlit("]");
                assert(children_of(keys[i])[0] == a@ && children_of(keys[i])[1] == b@);
            }
            fmt_child(ctx, env, *a, Ghost(i), out);
            out.append("[");
            fmt_child(ctx, env, *b, Ghost(i), out);
            out.append("]");
            proof {
                assert(out@ =~= start + show(keys, syms, e, i));
            }
        },
        SExprNode::Store(a, b, c) => {
            proof {
                reveal_strlit("[");
                reveal_strlit(" := ");
                reveal_strlit("]");
                assert(children_of(keys[i])[0] == a@ && children_of(keys[i])[1] == b@ && children_of(keys[i])[2] == c@);
            }
            fmt_child(ctx, env, *a, Ghost(i), out);
            out.append("[");
            fmt_child(ctx, env, *b, Ghost(i), out);
            out.append(" := ");
            fmt_child(ctx, env, *c, Ghost(i), out);
            out.append("]");
            proof {
                assert(out@ =~= start + show(keys, syms, e, i));
            }
        },
        SExprNode::True => {
            proof {
                reveal_strlit("true");
            }
            out.append("true");
            proof {
                assert(out@ =~= start + show(keys, syms, e, i));
            }
        },
        SExprNode::False => {
            proof {
                reveal_strlit("false");
            }
            out.append("false");
            proof {
                assert(out@ =~= start + show(keys, syms, e, i));
            }
        },
        SExprNode::And(cs) => {
            proof {
                reveal_strlit("true");
                reveal_strlit("(");
                reveal_strlit(")");
                reveal_strlit(" && ");
                assert forall|k: int| 0 <= k < cs@.len() implies #[trigger] cs@[k]@ < i by {
                    assert(children_of(keys[i])[k] == cs@[k]@);
                }
            }
            if cs.len() == 0 {
                out.append("true");
            } else {
                let ghost s0 = out@;
                out.append("(");
                let ghost s1 = out@;
                fmt_list(ctx, env, cs, " && ", Ghost(i), out);
                let ghost s2 = out@;
                out.append(")");
                proof {
                    let ids = super::expr::ids_view(cs@);
                    assert(" && "@ == seq![' ', '&', '&', ' ']);
                    assert(s1 == s0 + seq!['(']);
                    assert(s2 == s1 + show_list(keys, syms, e, ids, ids.len() as int, i, seq![' ', '&', '&', ' ']));
                    assert(out@ == s0 + parens(show_list(keys, syms, e, ids, ids.len() as int, i, seq![' ', '&', '&', ' '])));
                }
            }
            proof {
                assert(out@ =~= start + show(keys, syms, e, i));
            }
        },
        SExprNode::Or(cs) => {
            proof {
                reveal_strlit("false");
                reveal_strlit("(");
                reveal_strlit(")");
                reveal_strlit(" || ");
                assert forall|k: int| 0 <= k < cs@.len() implies #[trigger] cs@[k]@ < i by {
                    assert(children_of(keys[i])[k] == cs@[k]@);
                }
            }
            if cs.len() == 0 {
                out.append("false");
            } else {
                let ghost s0 = out@;
                out.append("(");
                let ghost s1 = out@;
                fmt_list(ctx, env, cs, " || ", Ghost(i), out);
                let ghost s2 = out@;
                out.append(")");
                proof {
                    let ids = super::expr::ids_view(cs@);
                    assert(" || "@ == seq![' ', '|', '|', ' ']);
                    assert(s1 == s0 + seq!['(']);
                    assert(s2 == s1 + show_list(keys, syms, e, ids, ids.len() as int, i, seq![' ', '|', '|', ' ']));
                    assert(out@ == s0 + parens(show_list(keys, syms, e, ids, ids.len() as int, i, seq![' ', '|', '|', ' '])));
                }
            }
            proof {
                assert(out@ =~= start + show(keys, syms, e, i));
            }
        },
        SExprNode::Not(a) => {
            proof {
                reveal_strlit("!");
                assert(children_of(keys[i])[0] == a@);
            }
            out.append("!");
            fmt_child(ctx, env, *a, Ghost(i), out);
            proof {
                assert(out@ =~= start + show(keys, syms, e, i));
            }
        },
        SExprNode::Eq(a, b) => {
            proof {
                reveal_strlit(" = ");
                assert(children_of(keys[i])[0] == a@ && children_of(keys[i])[1] == b@);
            }
            fmt_binop(ctx, env, *a, " = ", *b, Ghost(i), out);
            proof {
                assert(out@ =~= start + show(keys, syms, e, i));
            }
        },
        SExprNode::Leq(a, b) => {
            proof {
                reveal_strlit(" <= ");
                assert(children_of(keys[i])[0] == a@ && children_of(keys[i])[1] == b@);
            }
            fmt_binop(ctx, env, *a, " <= ", *b, Ghost(i), out);
            proof {
                assert(out@ =~= start + show(keys, syms, e, i));
            }
        },
        SExprNode::Lt(a, b) => {
            proof {
                reveal_strlit(" < ");
                assert(children_of(keys[i])[0] == a@ && children_of(keys[i])[1] == b@);
            }
            fmt_binop(ctx, env, *a, " < ", *b, Ghost(i), out);
            proof {
                assert(out@ =~= start + show(keys, syms, e, i));
            }
        },
        SExprNode::ArrEq(a, b) => {
            proof {
                reveal_strlit(" = ");
                assert(children_of(keys[i])[0] == a@ && children_of(keys[i])[1] == b@);
            }
            fmt_binop(ctx, env, *a, " = ", *b, Ghost(i), out);
            proof {
                assert(out@ =~= start + show(keys, syms, e, i));
            }
        },
        SExprNode::Exists(name, typ, body) => {
            proof {
                reveal_strlit("(exists ");
                assert(children_of(keys[i])[0] == body@);
            }
            out.append("(exists ");
            fmt_quantified(ctx, env, name, *typ, *body, Ghost(i), out);
            proof {
                assert(out@ =~= start + show(keys, syms, e, i));
            }
        },
        SExprNode::Forall(name, typ, body) => {
            proof {
                reveal_strlit("(forall ");
                assert(children_of(keys[i])[0] == body@);
            }
            out.append("(forall ");
            fmt_quantified(ctx, env, name, *typ, *body, Ghost(i), out);
            proof {
                assert(out@ =~= start + show(keys, syms, e, i));
            }
        },
        SExprNode::Ite(c, t, f) => {
            proof {
                reveal_strlit("(if ");
                reveal_strlit(" then ");
                reveal_strlit(" else ");
                reveal_strlit(")");
                assert(children_of(keys[i])[0] == c@ && children_of(keys[i])[1] == t@ && children_of(keys[i])[2] == f@);
            }
            out.append("(if ");
            fmt_child(ctx, env, *c, Ghost(i), out);
            out.append(" then ");
            fmt_child(ctx, env, *t, Ghost(i), out);
            out.append(" else ");
            fmt_child(ctx, env, *f, Ghost(i), out);
            out.append(")");
            proof {
                assert(out@ =~= start + show(keys, syms, e, i));
            }
        },
    }
}

/// Append `name : typ. body)` for a quantifier over `body`, operand of node
/// `parent`, with `name` bound while the body is printed.
fn fmt_quantified<C>(
    ctx: &Context<C>,
    env: &mut Vec<String>,
    name: &String,
    typ: super::types::TypFo,
    body: ExprId,
    Ghost(parent): Ghost<int>,
    out: &mut String,
)
    requires
        ctx.wf(),
        body@ < parent < ctx.keys().len(),
    ensures
        final(out)@ == old(out)@ + name@ + seq![' ', ':', ' '] + typ_fo_name(typ) + seq!['.', ' '] + show_child(
            ctx.keys(),
            ctx.syms(),
            env_view(old(env)@).push(name@),
            body@,
            parent,
        ) + seq![')'],
        final(env)@ == old(env)@,
    decreases parent, 1int,
{
    proof {
        reveal_strlit(" : ");
        reveal_strlit(". ");
        reveal_strlit(")");
    }
    out.append(name.as_str());
    out.append(" : ");
    let t = typ.to_string();
    out.append(t.as_str());
    out.append(". ");
    let ghost env0 = env@;
    env.push(name.clone());
    proof {
        assert(env_view(env@) =~= env_view(env0).push(name@));
    }
    fmt_child(ctx, env, body, Ghost(parent), out);
    env.pop();
    proof {
        assert(env@ =~= env0);
    }
    out.append(")");
}

/// A negation is printed as a minus sign followed by its operand, so a
/// negated term never prints like the term itself: its rendering is one
/// character longer and begins with `-`.
pub proof fn lemma_show_neg(keys: Seq<NodeKey>, syms: Seq<(Seq<char>, Typ)>, env: Seq<Seq<char>>, i: int)
    requires
        0 <= i < keys.len(),
        keys[i] is Neg,
        keys[i]->Neg_0 < i,
    ensures
        ({
            let a = keys[i]->Neg_0 as int;
            &&& show(keys, syms, env, i).len() == show(keys, syms, env, a).len() + 1
            &&& show(keys, syms, env, i)[0] == '-'
            &&& show(keys, syms, env, i).subrange(1, show(keys, syms, env, i).len() as int) == show(keys, syms, env, a)
            &&& show(keys, syms, env, i) != show(keys, syms, env, a)
        }),
{
    let a = keys[i]->Neg_0 as int;
    let s = show(keys, syms, env, i);
    assert(s == seq!['-'] + show(keys, syms, env, a));
    assert(s.subrange(1, s.len() as int) =~= show(keys, syms, env, a));
}

/// The binder names under which operand `a` of a node with key `k` is
/// printed: one more name under a quantifier.
pub open spec fn operand_env(k: NodeKey, env: Seq<Seq<char>>) -> Seq<Seq<char>> {
    match k {
        NodeKey::Exists(name, _, _) | NodeKey::Forall(name, _, _) => env.push(name),
        _ => env,
    }
}

/// Each of the first `n` operands is printed in full inside the list.
proof fn lemma_show_list_longer(
    keys: Seq<NodeKey>,
    syms: Seq<(Seq<char>, Typ)>,
    env: Seq<Seq<char>>,
    cs: Seq<u32>,
    n: int,
    i: int,
    sep: Seq<char>,
    k: int,
)
    requires
        0 <= k < n <= cs.len(),
    ensures
        show_list(keys, syms, env, cs, n, i, sep).len() >= show_child(keys, syms, env, cs[k], i).len(),
    decreases n,
{
    if n > 1 && k < n - 1 {
        lemma_show_list_longer(keys, syms, env, cs, n - 1, i, sep, k);
    }
}

/// A compound expression prints strictly longer than each of its operands:
/// no constructor is printed as just one of its operands, so that, for
/// instance, `x` and `-x`, `x` and `!x`, `x` and `floor(x)` never print the
/// same.
pub proof fn lemma_show_longer_than_operand(
    keys: Seq<NodeKey>,
    syms: Seq<(Seq<char>, Typ)>,
    env: Seq<Seq<char>>,
    i: int,
    k: int,
)
    requires
        0 <= i < keys.len(),
        0 <= k < children_of(keys[i]).len(),
        forall|j: int| 0 <= j < children_of(keys[i]).len() ==> #[trigger] children_of(keys[i])[j] < i,
    ensures
        show(keys, syms, env, i).len() > show(keys, syms, operand_env(keys[i], env), children_of(keys[i])[k] as int).len(),
{
    let a = children_of(keys[i])[k];
    assert(a < i);
    match keys[i] {
        NodeKey::Add(cs) => {
            lemma_show_list_longer(keys, syms, env, cs, cs.len() as int, i, seq![' ', '+', ' '], k);
        },
        NodeKey::Mul(cs) => {
            lemma_show_list_longer(keys, syms, env, cs, cs.len() as int, i, seq![' ', '*', ' '], k);
        },
        NodeKey::And(cs) => {
            lemma_show_list_longer(keys, syms, env, cs, cs.len() as int, i, seq![' ', '&', '&', ' '], k);
        },
        NodeKey::Or(cs) => {
            lemma_show_list_longer(keys, syms, env, cs, cs.len() as int, i, seq![' ', '|', '|', ' '], k);
        },
        NodeKey::App(sy, cs) => {
            lemma_show_list_longer(keys, syms, env, cs, cs.len() as int, i, seq![',', ' '], k);
        },
        NodeKey::Select(x, y) => {
            if k == 0 {
                assert(a == x);
            } else {
                assert(a == y);
            }
        },
        NodeKey::Store(x, y, z) => {
            if k == 0 {
                assert(a == x);
            } else if k == 1 {
                assert(a == y);
            } else {
                assert(a == z);
            }
        },
        NodeKey::Ite(x, y, z) => {
            if k == 0 {
                assert(a == x);
            } else if k == 1 {
                assert(a == y);
            } else {
                assert(a == z);
            }
        },
        NodeKey::Div(x, y) | NodeKey::Mod(x, y) | NodeKey::Eq(x, y) | NodeKey::Leq(x, y) | NodeKey::Lt(x, y)
        | NodeKey::ArrEq(x, y) => {
            if k == 0 {
                assert(a == x);
            } else {
                assert(a == y);
            }
        },
        _ => {},
    }
}

impl<C> Context<C> {
    /// Render `e` against this context, in ASCII infix notation.
    pub fn display(&self, e: Expr<C>) -> (r: String)
        requires
            self.wf(),
            self.expr_ok(e),
        ensures
            r@ == show(self.keys(), self.syms(), Seq::empty(), expr_id(e) as int),
    {
        let mut env: Vec<String> = Vec::new();
        let mut out = String::new();
        proof {
            assert(env_view(env@) =~= Seq::<Seq<char>>::empty());
        }
        fmt_node(self, &mut env, e.id(), &mut out);
        out
    }
}

} // verus!
