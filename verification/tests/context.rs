use srk::syntax::context::Context;
use srk::syntax::expr::{ArithCmp, ArithTermView, Atom, Expr, FormulaView};
use srk::syntax::types::{Typ, TypFo};

#[derive(Debug, PartialEq, Eq)]
enum TestCtx {}

#[test]
fn test_hash_consing() {
    let mut ctx = Context::<TestCtx>::new();
    let a = ctx.mk_int(42);
    let b = ctx.mk_int(42);
    assert_eq!(a, b, "same literal should yield same handle");
}

#[test]
fn test_hash_consing_compound() {
    let mut ctx = Context::<TestCtx>::new();
    let x = ctx.mk_int(1);
    let y = ctx.mk_int(2);
    let sum1 = ctx.mk_add(&[x, y]);
    let sum2 = ctx.mk_add(&[x, y]);
    assert_eq!(sum1, sum2, "same structure should yield same handle");
}

#[test]
fn test_mk_and_or_empty() {
    let mut ctx = Context::<TestCtx>::new();
    let t = ctx.mk_true();
    let f = ctx.mk_false();
    assert_eq!(ctx.mk_and(&[]), t);
    assert_eq!(ctx.mk_or(&[]), f);
}

#[test]
fn test_view_arith_roundtrip() {
    let mut ctx = Context::<TestCtx>::new();
    let a = ctx.mk_int(3);
    let b = ctx.mk_int(5);
    let sum = ctx.mk_add(&[a, b]);
    let view = ctx.view_arith_term(sum);
    assert_eq!(view, ArithTermView::Add(vec![a, b]));
}

#[test]
fn test_view_formula_roundtrip() {
    let mut ctx = Context::<TestCtx>::new();
    let x = ctx.mk_int(1);
    let y = ctx.mk_int(2);
    let eq = ctx.mk_eq(x, y);
    let view = ctx.view_formula(eq);
    assert_eq!(view, FormulaView::Atom(Atom::Arith(ArithCmp::Eq, x, y)));
}

#[test]
fn test_symbols_collection() {
    let mut ctx = Context::<TestCtx>::new();
    let s = ctx.mk_symbol("x", Typ::Real);
    let x = ctx.mk_const(s);
    let syms = ctx.symbols(&x);
    assert!(syms.contains(&s));
}

#[test]
fn test_named_symbol() {
    let mut ctx = Context::<TestCtx>::new();
    let result = ctx.register_named_symbol("x", Typ::Int);
    assert!(result.is_ok());
    let sym = ctx.get_named_symbol("x");
    assert!(sym.is_some());
    if let Some(s) = sym {
        assert_eq!(ctx.symbol_name(s), Some("x"));
    }

    // Duplicate should fail
    let dup = ctx.register_named_symbol("x", Typ::Int);
    assert!(dup.is_err());
}

#[test]
fn mk_and_single_and_flat_structure() {
    let mut ctx = Context::<TestCtx>::new();
    let t = ctx.mk_true();
    assert_eq!(ctx.mk_and(&[t]), t);
    assert_eq!(ctx.mk_or(&[t]), t);
    let one = ctx.mk_one();
    let zero = ctx.mk_zero();
    let lt = ctx.mk_lt(zero, one);
    let both = ctx.mk_and(&[lt, t]);
    assert_eq!(ctx.view_formula(both), FormulaView::And(vec![lt, t]));
}

#[test]
fn mk_sub_and_neg_views() {
    let mut ctx = Context::<TestCtx>::new();
    let a = ctx.mk_int(3);
    let b = ctx.mk_int(5);
    let d = ctx.mk_sub(a, b);
    let nb = ctx.mk_neg(b);
    assert_eq!(ctx.view_arith_term(d), ArithTermView::Add(vec![a, nb]));
    assert_eq!(ctx.view_arith_term(nb), ArithTermView::Neg(b));
}

#[test]
fn typing_of_terms_and_symbols() {
    let mut ctx = Context::<TestCtx>::new();
    let f = ctx.mk_symbol("f", Typ::Fun(vec![TypFo::Int], TypFo::Bool));
    let x = ctx.mk_int(4);
    let app = ctx.mk_app(f, &[Expr::ArithTerm(x)]);
    assert_eq!(ctx.expr_typ(&app), TypFo::Bool);
    assert_eq!(ctx.show_symbol(f), "f");
    let g = ctx.dup_symbol(f);
    assert_ne!(g, f);
    assert_eq!(ctx.show_symbol(g), "f");
    let v = ctx.mk_var(0, TypFo::Real);
    assert_eq!(ctx.expr_typ(&v), TypFo::Real);
    assert!(!ctx.is_registered_name("f"));
    assert_eq!(ctx.size(&app), 2);
}

#[test]
fn free_vars_shifts_under_binders() {
    let mut ctx = Context::<TestCtx>::new();
    let v0 = ctx.mk_var(0, TypFo::Int);
    let v1 = ctx.mk_var(1, TypFo::Int);
    if let (Expr::ArithTerm(a), Expr::ArithTerm(b)) = (v0, v1) {
        let body = ctx.mk_lt(a, b);
        let q = ctx.mk_exists("x", TypFo::Int, body);
        let fv = ctx.free_vars(&Expr::Formula(q));
        // Variable 0 is bound by the quantifier; variable 1 is free and is
        // reported as 0 outside it.
        let keys: Vec<u32> = fv.keys().copied().collect();
        assert_eq!(keys, vec![0]);
        assert_eq!(fv.get(&0), Some(&TypFo::Int));
        let free = ctx.free_vars(&Expr::ArithTerm(b));
        assert_eq!(free.keys().copied().collect::<Vec<u32>>(), vec![1]);
    } else {
        panic!("expected arithmetic variables");
    }
}

#[test]
fn size_counts_a_shared_node_once() {
    let mut ctx = Context::<TestCtx>::new();
    let x = ctx.mk_int(4);
    let s = ctx.mk_add(&[x, x]);
    assert_eq!(ctx.size(&Expr::ArithTerm(s)), 2);
    assert_eq!(ctx.size(&Expr::ArithTerm(x)), 1);
}

#[test]
fn symbol_name_is_none_for_an_ordinary_symbol_sharing_a_name() {
    let mut ctx = Context::<TestCtx>::new();
    let r = ctx.register_named_symbol("x", Typ::Int).unwrap();
    let s = ctx.mk_symbol("x", Typ::Int);
    assert_eq!(ctx.symbol_name(r), Some("x"));
    assert_eq!(ctx.symbol_name(s), None);
}

#[test]
fn idiv_truncates_toward_zero() {
    let mut ctx = Context::<TestCtx>::new();
    let a = ctx.mk_int(-7);
    let b = ctx.mk_int(2);
    let q = ctx.mk_idiv(a, b);
    assert!(matches!(ctx.view_arith_term(q), ArithTermView::Ite(..)));
    let d = ctx.mk_div(a, b);
    let t = ctx.mk_truncate(d);
    assert_eq!(q, t);
}
