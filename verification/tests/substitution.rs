use srk::syntax::context::Context;
use srk::syntax::expr::{Expr, FormulaView};
use srk::syntax::substitution::{nnf, rewrite, substitute, substitute_const, substitute_map};
use srk::syntax::symbol::SymbolMap;
use srk::syntax::types::{Typ, TypFo};

#[derive(Debug, PartialEq, Eq)]
enum TestCtx {}

#[test]
fn nnf_pushes_negation_through_connectives() {
    let mut ctx = Context::<TestCtx>::new();
    let one = ctx.mk_int(1);
    let two = ctx.mk_int(2);
    let lt = ctx.mk_lt(one, two);
    let leq = ctx.mk_leq(one, two);
    let both = ctx.mk_and(&[lt, leq]);
    let negated = ctx.mk_not(both);
    let result = nnf(&mut ctx, negated);
    // not (1 < 2 and 1 <= 2) = (2 <= 1 or 2 < 1)
    assert_eq!(ctx.display(result.into()), "((2 <= 1) || (2 < 1))");
}

#[test]
fn nnf_of_negated_equality_and_quantifier() {
    let mut ctx = Context::<TestCtx>::new();
    let v = ctx.mk_var(0, TypFo::Int);
    let zero = ctx.mk_zero();
    if let Expr::ArithTerm(x) = v {
        let eq = ctx.mk_eq(x, zero);
        let q = ctx.mk_exists("x", TypFo::Int, eq);
        let not_q = ctx.mk_not(q);
        let result = nnf(&mut ctx, not_q);
        assert_eq!(ctx.display(result.into()), "(forall x : int. ((x < 0) || (0 < x)))");
    } else {
        panic!("expected an arithmetic variable");
    }
}

#[test]
fn nnf_double_negation_and_atoms() {
    let mut ctx = Context::<TestCtx>::new();
    let p = ctx.mk_symbol("p", Typ::Bool);
    let pc = match ctx.mk_const(p) {
        Expr::Formula(f) => f,
        _ => panic!("expected a formula"),
    };
    let np = ctx.mk_not(pc);
    let nnp = ctx.mk_not(np);
    assert_eq!(nnf(&mut ctx, nnp), pc);
    let t = ctx.mk_true();
    let ite = ctx.mk_formula_ite(t, pc, np);
    let not_ite = ctx.mk_not(ite);
    let result = nnf(&mut ctx, not_ite);
    assert_eq!(ctx.view_formula(result), FormulaView::Ite(t, np, pc));
    // A formula already in negation normal form is unchanged.
    assert_eq!(nnf(&mut ctx, np), np);
}

#[test]
fn substitute_replaces_free_variables_and_shifts_under_binders() {
    let mut ctx = Context::<TestCtx>::new();
    let a = ctx.mk_symbol("a", Typ::Int);
    let a_const = ctx.mk_const(a);
    let v0 = ctx.mk_var(0, TypFo::Int);
    let v1 = ctx.mk_var(1, TypFo::Int);
    if let (Expr::ArithTerm(x0), Expr::ArithTerm(x1)) = (v0, v1) {
        // exists y. y < #1: the bound #0 stays, the free #1 (free #0) is replaced.
        let body = ctx.mk_lt(x0, x1);
        let q = ctx.mk_exists("y", TypFo::Int, body);
        let result = substitute(&mut ctx, &|_i: u32, _t: TypFo| a_const, q.into());
        assert_eq!(ctx.display(result), "(exists y : int. (y < a))");
        // A replacement with a free variable is shifted under the binder.
        let w = ctx.mk_var(3, TypFo::Int);
        let shifted = substitute(&mut ctx, &|_i: u32, _t: TypFo| w, q.into());
        assert_eq!(ctx.display(shifted), "(exists y : int. (y < #4))");
    } else {
        panic!("expected arithmetic variables");
    }
}

#[test]
fn substitute_const_and_map() {
    let mut ctx = Context::<TestCtx>::new();
    let x = ctx.mk_symbol("x", Typ::Int);
    let y = ctx.mk_symbol("y", Typ::Int);
    let f = ctx.mk_symbol("f", Typ::Fun(vec![TypFo::Int], TypFo::Int));
    let xc = ctx.mk_const(x);
    let yc = ctx.mk_const(y);
    let fx = ctx.mk_app(f, &[xc]);
    let seven = ctx.mk_int(7);
    let seven_e: Expr<TestCtx> = seven.into();
    let replaced = substitute_const(&mut ctx, &|_s| seven_e, fx);
    assert_eq!(ctx.display(replaced), "f(7)");
    let mut map: SymbolMap<Expr<TestCtx>> = SymbolMap::new();
    map.insert(x, yc);
    if let (Expr::ArithTerm(xt), Expr::ArithTerm(yt)) = (xc, yc) {
        let sum = ctx.mk_add(&[xt, yt]);
        let result = substitute_map(&mut ctx, &map, sum.into());
        assert_eq!(ctx.display(result), "(y + y)");
    } else {
        panic!("expected arithmetic constants");
    }
}

#[test]
fn nnf_normalises_conditions_of_conditionals() {
    let mut ctx = Context::<TestCtx>::new();
    let p = ctx.mk_symbol("p", Typ::Bool);
    let pc = match ctx.mk_const(p) {
        Expr::Formula(f) => f,
        _ => panic!("expected a formula"),
    };
    let np = ctx.mk_not(pc);
    let nnp = ctx.mk_not(np);
    let ite = ctx.mk_formula_ite(nnp, pc, np);
    let not_ite = ctx.mk_not(ite);
    let result = nnf(&mut ctx, not_ite);
    assert_eq!(ctx.view_formula(result), FormulaView::Ite(pc, np, pc));
}

type Rw = fn(&mut Context<TestCtx>, Expr<TestCtx>) -> Expr<TestCtx>;

#[test]
fn rewrite_without_functions_gives_the_expression_back() {
    let mut ctx = Context::<TestCtx>::new();
    let a = ctx.mk_int(3);
    let b = ctx.mk_int(1);
    let s = ctx.mk_add(&[a, b]);
    let r = rewrite(&mut ctx, None::<&Rw>, None::<&Rw>, Expr::ArithTerm(s));
    assert_eq!(r, Expr::ArithTerm(s));
}

#[test]
fn rewrite_applies_up_after_the_operands() {
    let mut ctx = Context::<TestCtx>::new();
    let three = ctx.mk_int(3);
    let one = ctx.mk_int(1);
    let s = ctx.mk_add(&[three, one]);
    let up = |c: &mut Context<TestCtx>, e: Expr<TestCtx>| -> Expr<TestCtx> {
        let t = c.mk_int(3);
        if e == Expr::ArithTerm(t) {
            Expr::ArithTerm(c.mk_int(4))
        } else {
            e
        }
    };
    let r = rewrite(&mut ctx, None::<&Rw>, Some(&up), Expr::ArithTerm(s));
    let four = ctx.mk_int(4);
    let expected = ctx.mk_add(&[four, one]);
    assert_eq!(r, Expr::ArithTerm(expected));
}
