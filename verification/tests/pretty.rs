use srk::syntax::context::Context;
use srk::syntax::expr::Expr;
use srk::syntax::types::{Typ, TypArith, TypFo};

#[derive(Debug, PartialEq, Eq)]
enum TestCtx {}

#[test]
fn test_display_arith_basic() {
    let mut ctx = Context::<TestCtx>::new();
    let a = ctx.mk_int(2);
    let b = ctx.mk_int(3);
    let sum = ctx.mk_add(&[a, b]);
    assert_eq!(format!("{}", ctx.display(sum.into())), "(2 + 3)");
}

#[test]
fn test_display_named_const_and_app() {
    let mut ctx = Context::<TestCtx>::new();
    let x = ctx.mk_symbol("x", Typ::Int);
    let f = ctx.mk_symbol("f", Typ::Fun(vec![TypFo::Int], TypFo::Int));
    let x_const = ctx.mk_const(x);
    let app = ctx.mk_app(f, &[x_const]);
    assert_eq!(format!("{}", ctx.display(app)), "f(x)");
}

#[test]
fn test_display_formula_relations() {
    let mut ctx = Context::<TestCtx>::new();
    let one = ctx.mk_int(1);
    let two = ctx.mk_int(2);
    let lt = ctx.mk_lt(one, two);
    let leq = ctx.mk_leq(one, two);
    let eq = ctx.mk_eq(one, two);
    assert_eq!(format!("{}", ctx.display(lt.into())), "(1 < 2)");
    assert_eq!(format!("{}", ctx.display(leq.into())), "(1 <= 2)");
    assert_eq!(format!("{}", ctx.display(eq.into())), "(1 = 2)");
}

#[test]
fn test_display_and_or_not() {
    let mut ctx = Context::<TestCtx>::new();
    let t = ctx.mk_true();
    let fls = ctx.mk_false();
    let and = ctx.mk_and(&[t, fls]);
    let or = ctx.mk_or(&[t, fls]);
    let not_t = ctx.mk_not(t);
    assert_eq!(format!("{}", ctx.display(and.into())), "(true && false)");
    assert_eq!(format!("{}", ctx.display(or.into())), "(true || false)");
    assert_eq!(format!("{}", ctx.display(not_t.into())), "!true");
}

#[test]
fn test_display_quantifier_uses_bound_name() {
    let mut ctx = Context::<TestCtx>::new();
    let v0 = ctx.mk_var(0, TypFo::Int);
    let one = ctx.mk_int(1);
    // Build (v0 < 1) where v0 is the de Bruijn var, then bind it.
    if let Expr::ArithTerm(v) = v0 {
        let body = ctx.mk_lt(v, one);
        let quant = ctx.mk_forall("x", TypFo::Int, body);
        assert_eq!(
            format!("{}", ctx.display(quant.into())),
            "(forall x : int. (x < 1))"
        );
    } else {
        panic!("expected ArithTerm");
    }
}

#[test]
fn test_display_array_select_store() {
    let mut ctx = Context::<TestCtx>::new();
    let a_sym = ctx.mk_symbol("a", Typ::Arr);
    let arr = match ctx.mk_const(a_sym) {
        Expr::ArrTerm(a) => a,
        _ => panic!("expected ArrTerm"),
    };
    let i = ctx.mk_int(0);
    let v = ctx.mk_int(7);
    let sel = ctx.mk_select(arr, i);
    let stored = ctx.mk_store(arr, i, v);
    assert_eq!(format!("{}", ctx.display(sel.into())), "a[0]");
    assert_eq!(format!("{}", ctx.display(stored.into())), "a[0 := 7]");
}

#[test]
fn test_display_free_var() {
    let mut ctx = Context::<TestCtx>::new();
    let v = ctx.mk_var(2, TypFo::Int);
    assert_eq!(format!("{}", ctx.display(v)), "#2");
}

#[test]
fn display_rationals_ite_and_nested_binders() {
    let mut ctx = Context::<TestCtx>::new();
    let half = ctx.mk_real(srk::num::QQ::of_frac(-1, 2));
    let x = ctx.mk_var(1, TypFo::Real);
    let y = ctx.mk_var(0, TypFo::Real);
    if let (Expr::ArithTerm(x), Expr::ArithTerm(y)) = (x, y) {
        let le = ctx.mk_leq(x, y);
        let inner = ctx.mk_exists("b", TypFo::Real, le);
        let outer = ctx.mk_forall("a", TypFo::Real, inner);
        assert_eq!(
            format!("{}", ctx.display(outer.into())),
            "(forall a : real. (exists b : real. (a <= b)))"
        );
        let t = ctx.mk_true();
        let ite = ctx.mk_arith_ite(t, half, x);
        assert_eq!(format!("{}", ctx.display(ite.into())), "(if true then -1/2 else #1)");
        let fl = ctx.mk_floor(half);
        let m = ctx.mk_mod(fl, y);
        assert_eq!(format!("{}", ctx.display(m.into())), "(floor(-1/2) mod #0)");
    } else {
        panic!("expected arithmetic variables");
    }
    let empty_or = ctx_or_empty(&mut ctx);
    assert_eq!(ctx.display(empty_or.into()), "false");
}

fn ctx_or_empty(ctx: &mut Context<TestCtx>) -> srk::syntax::expr::Formula<TestCtx> {
    ctx.mk_or(&[])
}

#[test]
fn type_names() {
    assert_eq!(TypFo::Arr.to_string(), "array");
    assert_eq!(TypArith::Real.to_string(), "real");
    assert_eq!(Typ::Fun(vec![TypFo::Int, TypFo::Bool], TypFo::Real).to_string(), "(int * bool -> real)");
    assert_eq!(Typ::Bool.to_string(), "bool");
}
