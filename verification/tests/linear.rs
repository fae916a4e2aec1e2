use srk::linear::vector_space;
use srk::linear::vector_space::{
    basis, diff, dimension, empty, equal, intersect, is_empty, matrix_of, mem, of_matrix, simplify, standard_basis,
    subspace, sum,
};
use srk::linear::{
    const_linterm, const_of_linterm, dim_of_sym, divide_left, divide_right, evaluate_affine,
    evaluate_linterm, intersect_rowspace, jordan_chain, linterm_of, linterm_size, nullspace,
    of_linterm, pushout, solve, sym_of_dim, term_of_vec, Nonlinear, QQMatrix, QQVector, CONST_DIM,
};
use srk::num::QQ;
use srk::syntax::context::Context;
use srk::syntax::expr::{ArithTerm, Expr};
use srk::syntax::symbol::Symbol;
use srk::syntax::types::Typ;

fn qq(n: i64) -> QQ {
    QQ::of_i64(n)
}

#[derive(Debug, PartialEq, Eq)]
enum TestCtx {}

#[test]
fn affine_const_round_trip() {
    let v = const_linterm(qq(7));
    assert_eq!(const_of_linterm(&v), Some(qq(7)));
    assert_eq!(linterm_size(&v), 1);
}

#[test]
fn dim_sym_round_trip() {
    let mut ctx = Context::<TestCtx>::new();
    let s = ctx.mk_symbol("x", Typ::Real);
    let d = dim_of_sym(s);
    assert_eq!(sym_of_dim(d), Some(s));
    assert_eq!(sym_of_dim(CONST_DIM), None);
}

fn arith_const<C>(ctx: &mut Context<C>, sym: Symbol) -> ArithTerm<C> {
    let Expr::ArithTerm(t) = ctx.mk_const(sym) else {
        panic!("expected ArithTerm for arithmetic symbol");
    };
    t
}

#[test]
fn linterm_of_basic() {
    let mut ctx = Context::<TestCtx>::new();
    let x_sym = ctx.mk_symbol("x", Typ::Real);
    let y_sym = ctx.mk_symbol("y", Typ::Real);
    let x = arith_const(&mut ctx, x_sym);
    let y = arith_const(&mut ctx, y_sym);
    let two = ctx.mk_real(qq(2));
    let three = ctx.mk_real(qq(3));
    // 2*x + 3*y + 7
    let two_x = ctx.mk_mul(&[two, x]);
    let three_y = ctx.mk_mul(&[three, y]);
    let seven = ctx.mk_real(qq(7));
    let term = ctx.mk_add(&[two_x, three_y, seven]);

    let v = linterm_of(&ctx, term).expect("affine term");
    assert_eq!(v.coeff(dim_of_sym(x_sym)), qq(2));
    assert_eq!(v.coeff(dim_of_sym(y_sym)), qq(3));
    assert_eq!(v.coeff(CONST_DIM), qq(7));
}

#[test]
fn linterm_of_nonlinear() {
    let mut ctx = Context::<TestCtx>::new();
    let x_sym = ctx.mk_symbol("x", Typ::Real);
    let x = arith_const(&mut ctx, x_sym);
    let xx = ctx.mk_mul(&[x, x]); // x * x — nonlinear
    assert_eq!(linterm_of(&ctx, xx), Err(Nonlinear));
}

#[test]
fn linterm_of_division_and_negation() {
    let mut ctx = Context::<TestCtx>::new();
    let x_sym = ctx.mk_symbol("x", Typ::Real);
    let x = arith_const(&mut ctx, x_sym);
    let two = ctx.mk_real(qq(2));
    let half_x = ctx.mk_div(x, two);
    let neg = ctx.mk_neg(half_x);
    let v = linterm_of(&ctx, neg).expect("affine term");
    assert_eq!(v.coeff(dim_of_sym(x_sym)), QQ::of_frac(-1, 2));
    assert_eq!(linterm_size(&v), 1);
    let by_x = ctx.mk_div(two, x);
    assert_eq!(linterm_of(&ctx, by_x), Err(Nonlinear));
}

#[test]
fn solve_basic() {
    // [[1,2],[3,5]] * x = [4,11]  =>  x = [2,1]
    let a = QQMatrix::of_dense(&[vec![qq(1), qq(2)], vec![qq(3), qq(5)]]);
    let b = QQVector::of_term(qq(4), 0).add_term(qq(11), 1);
    let x = solve(&a, &b).expect("system has a solution");
    assert_eq!(x.coeff(0), qq(2));
    assert_eq!(x.coeff(1), qq(1));
    assert_eq!(a.vector_right_mul(&x), b);
}

#[test]
fn solve_no_solution() {
    // [[1,1],[2,2]] * x = [1, 5] is inconsistent.
    let a = QQMatrix::of_dense(&[vec![qq(1), qq(1)], vec![qq(2), qq(2)]]);
    let b = QQVector::of_term(qq(1), 0).add_term(qq(5), 1);
    assert!(solve(&a, &b).is_none());
}

#[test]
fn nullspace_basic() {
    // [[1,1,-1]] has nullspace { (x, y, x+y) }: basis (1,0,1) and (0,1,1)
    let a = QQMatrix::of_dense(&[vec![qq(1), qq(1), qq(-1)]]);
    let basis = nullspace(a.clone(), &[0, 1, 2]);
    for v in &basis {
        let av = a.vector_right_mul(v);
        assert!(av.is_zero(), "expected null vector, got {av:?}");
    }
    assert_eq!(basis.len(), 2);
}

#[test]
fn divide_right_basic() {
    // a*b^-1 when b is invertible.
    let a = QQMatrix::of_dense(&[vec![qq(2), qq(0)], vec![qq(0), qq(3)]]);
    let b = QQMatrix::of_dense(&[vec![qq(1), qq(0)], vec![qq(0), qq(1)]]);
    let c = divide_right(&a, &b).expect("b is invertible");
    assert_eq!(c.mul(&b), a);
}

#[test]
fn divide_left_and_singular_divisor() {
    let a = QQMatrix::of_dense(&[vec![qq(2), qq(4)], vec![qq(6), qq(8)]]);
    let b = QQMatrix::of_dense(&[vec![qq(2), qq(0)], vec![qq(0), qq(2)]]);
    let c = divide_left(&a, &b).expect("b is invertible");
    assert_eq!(b.mul(&c), a);
    let singular = QQMatrix::of_dense(&[vec![qq(1), qq(1)], vec![qq(1), qq(1)]]);
    let target = QQMatrix::of_dense(&[vec![qq(1), qq(0)], vec![qq(0), qq(1)]]);
    assert!(divide_right(&target, &singular).is_none());
}

#[test]
fn jordan_chain_of_nilpotent() {
    // a = [[0,1],[0,0]], lambda = 0, row vectors: e0 * a = e1, e1 * a = 0.
    let a = QQMatrix::of_dense(&[vec![qq(0), qq(1)], vec![qq(0), qq(0)]]);
    let chain = jordan_chain(&a, &QQ::zero(), QQVector::of_term(qq(1), 0));
    assert_eq!(chain.len(), 2);
    assert_eq!(chain[0], QQVector::of_term(qq(1), 0));
    assert_eq!(chain[1], QQVector::of_term(qq(1), 1));
}

#[test]
fn vector_space_intersection() {
    // u: span{(1,0)}, v: span{(1,1)} -> intersect = {0}
    let u = vec![QQVector::of_term(qq(1), 0)];
    let v = vec![QQVector::of_term(qq(1), 0).add_term(qq(1), 1)];
    let inter = intersect(&u, &v);
    assert!(inter.is_empty() || inter.iter().all(|x| x.is_zero()));

    // u: span{(1,0), (0,1)}, v: span{(1,1)} -> intersect = v
    let u2 = vec![QQVector::of_term(qq(1), 0), QQVector::of_term(qq(1), 1)];
    let v2 = vec![QQVector::of_term(qq(1), 0).add_term(qq(1), 1)];
    let inter2 = intersect(&u2, &v2);
    assert!(equal(&inter2, &v2));
}

#[test]
fn vector_space_simplify() {
    // (2, 0), (1, 1) -> simplifies to (1, 0), (0, 1)
    let basis = vec![
        QQVector::of_term(qq(2), 0),
        QQVector::of_term(qq(1), 0).add_term(qq(1), 1),
    ];
    let simp = simplify(&basis);
    assert_eq!(simp.len(), 2);
    let e0 = QQVector::of_term(qq(1), 0);
    let e1 = QQVector::of_term(qq(1), 1);
    assert!(mem(&simp, &e0));
    assert!(mem(&simp, &e1));
}

#[test]
fn vector_space_scale_integer() {
    let v = QQVector::of_term(QQ::of_frac(1, 2), 0).add_term(QQ::of_frac(1, 3), 1);
    let scaled = vector_space::scale_integer(&[v]);
    assert_eq!(scaled.len(), 1);
    let s = &scaled[0];
    assert_eq!(s.coeff(0), qq(3));
    assert_eq!(s.coeff(1), qq(2));
}

#[test]
fn vector_space_sum_basis_diff() {
    let e0 = QQVector::of_term(qq(1), 0);
    let e1 = QQVector::of_term(qq(1), 1);
    let d = QQVector::of_term(qq(1), 0).add_term(qq(1), 1);
    let s = sum(&[e0.clone(), e1.clone()], &[d.clone()]);
    assert_eq!(s.len(), 2);
    assert_eq!(s[0], d);
    let b = basis(&[e0.clone(), d.clone(), e1.clone()]);
    assert_eq!(b.len(), 2);
    let w = diff(&[e0.clone(), e1.clone()], &[d.clone()]);
    assert_eq!(w.len(), 1);
    assert!(subspace(&[d.clone()], &[e0.clone(), e1.clone()]));
    assert!(!subspace(&[e0.clone()], &[d.clone()]));
    assert_eq!(standard_basis(3).len(), 3);
    assert_eq!(standard_basis(2)[1], e1);
    assert!(is_empty(&empty()));
    assert_eq!(dimension(&[e0.clone(), e1.clone()]), 2);
    let m = matrix_of(&[e0.clone(), d.clone()]);
    assert_eq!(m.entry(1, 1), qq(1));
    assert_eq!(of_matrix(&m).len(), 2);
}

#[test]
fn evaluate_linterm_and_affine() {
    // 2*x + 3*y + 7 with x = 5, y = -1: 10 - 3 + 7 = 14.
    let mut ctx = Context::<TestCtx>::new();
    let x = ctx.mk_symbol("x", Typ::Real);
    let y = ctx.mk_symbol("y", Typ::Real);
    let v = QQVector::of_term(qq(2), dim_of_sym(x))
        .add_term(qq(3), dim_of_sym(y))
        .add_term(qq(7), CONST_DIM);
    let value = evaluate_linterm(|s: Symbol| if s == x { qq(5) } else { qq(-1) }, &v);
    assert_eq!(value, qq(14));
    let affine = evaluate_affine(|d| if d == 0 { qq(5) } else { qq(-1) }, &v);
    assert_eq!(affine, qq(14));
    // A negative dimension other than the constant one is scaled by evaluate_affine.
    let w = QQVector::of_term(qq(4), -3);
    assert_eq!(evaluate_affine(|_d| qq(2), &w), qq(8));
    assert_eq!(evaluate_linterm(|_s: Symbol| qq(2), &w), qq(4));
}

#[test]
fn of_linterm_round_trips_through_linterm_of() {
    let mut ctx = Context::<TestCtx>::new();
    let x = ctx.mk_symbol("x", Typ::Real);
    let y = ctx.mk_symbol("y", Typ::Int);
    let v = QQVector::of_term(QQ::of_frac(1, 2), dim_of_sym(x))
        .add_term(qq(1), dim_of_sym(y))
        .add_term(qq(-4), CONST_DIM);
    let t = of_linterm(&mut ctx, &v);
    assert_eq!(ctx.display(t.into()), "(-4 + (1/2 * x) + y)");
    assert_eq!(linterm_of(&ctx, t), Ok(v));
    let zero = of_linterm(&mut ctx, &QQVector::zero());
    assert_eq!(ctx.display(zero.into()), "0");
}

#[test]
fn intersect_rowspace_rows_agree() {
    // rowspace(a) = span{(1,0),(0,1)}, rowspace(b) = span{(1,1)}.
    let a = QQMatrix::of_dense(&[vec![qq(1), qq(0)], vec![qq(0), qq(1)]]);
    let b = QQMatrix::of_dense(&[vec![qq(1), qq(1)]]);
    let (c, d) = intersect_rowspace(&a, &b);
    assert_eq!(c.mul(&a), d.mul(&b));
    assert_eq!(c.nb_rows(), 1);
}

#[test]
fn term_of_vec_builds_products() {
    let mut ctx = Context::<TestCtx>::new();
    let v = QQVector::of_term(qq(2), 0).add_term(qq(3), 1);
    let t = term_of_vec(&mut ctx, |c: &mut Context<TestCtx>, d: i32| c.mk_int(d as i64 + 10), &v);
    assert_eq!(ctx.display(t.into()), "((2 * 10) + (3 * 11))");
}

#[test]
fn pushout_rows_agree() {
    let a = QQMatrix::of_dense(&[vec![qq(1), qq(2)]]);
    let b = QQMatrix::of_dense(&[vec![qq(2), qq(4)]]);
    let (c, d) = pushout(&a, &b);
    assert_eq!(c.mul(&a), d.mul(&b));
    assert_eq!(c.nb_rows(), 1);
}

#[test]
fn simplify_gives_reduced_echelon_form() {
    let basis = vec![
        QQVector::of_term(qq(2), 0).add_term(qq(4), 2),
        QQVector::of_term(qq(1), 0).add_term(qq(1), 1),
        QQVector::of_term(qq(3), 0).add_term(qq(1), 1).add_term(qq(4), 2),
    ];
    let simp = simplify(&basis);
    // The third vector is the sum of the first two, so it vanishes.
    assert_eq!(simp.len(), 2);
    assert_eq!(simp[0], QQVector::of_term(qq(1), 0).add_term(qq(2), 2));
    assert_eq!(simp[1], QQVector::of_term(qq(1), 1).add_term(qq(-2), 2));
}

#[test]
fn solve_dependent_consistent_system() {
    // [[1,1],[2,2]] * x = [1, 2] has solutions although the rows are dependent.
    let a = QQMatrix::of_dense(&[vec![qq(1), qq(1)], vec![qq(2), qq(2)]]);
    let b = QQVector::of_term(qq(1), 0).add_term(qq(2), 1);
    let x = solve(&a, &b).expect("consistent system");
    assert_eq!(a.vector_right_mul(&x), b);
}

#[test]
fn nullspace_vectors_and_span() {
    // [[1,1,-1]]: the pivot is column 0, so x0 = -x1 + x2; the free
    // dimensions 1 and 2 give (-1,1,0) and (1,0,1).
    let a = QQMatrix::of_dense(&[vec![qq(1), qq(1), qq(-1)]]);
    let basis = nullspace(a.clone(), &[0, 1, 2]);
    let v1 = QQVector::of_term(qq(-1), 0).add_term(qq(1), 1);
    let v2 = QQVector::of_term(qq(1), 0).add_term(qq(1), 2);
    assert_eq!(basis, vec![v1.clone(), v2.clone()]);
    // (1,1,2) is in the null space: it is 1 * v1 + 2 * v2.
    let x = QQVector::of_term(qq(1), 0).add_term(qq(1), 1).add_term(qq(2), 2);
    assert!(a.vector_right_mul(&x).is_zero());
    assert_eq!(v1.add(&v2.scalar_mul(&qq(2))), x);
    // Restricted to dimension 1, only the first free vector is returned.
    assert_eq!(nullspace(a, &[1]), vec![v1]);
}

#[test]
fn nullspace_of_invertible_matrix_is_empty() {
    let a = QQMatrix::of_dense(&[vec![qq(1), qq(2)], vec![qq(3), qq(4)]]);
    assert!(nullspace(a, &[0, 1]).is_empty());
}

#[test]
fn pushout_is_universal() {
    // A = identity on two rows, B = [[1, 1]]: c*A = d*B forces c = (k, k), d = (k).
    let a = QQMatrix::of_dense(&[vec![qq(1), qq(0)], vec![qq(0), qq(1)]]);
    let b = QQMatrix::of_dense(&[vec![qq(1), qq(1)]]);
    let (c, d) = pushout(&a, &b);
    assert_eq!(c.mul(&a), d.mul(&b));
    let cc = QQVector::of_term(qq(3), 0).add_term(qq(3), 1);
    let dd = QQVector::of_term(qq(3), 0);
    assert_eq!(a.vector_left_mul(&cc), b.vector_left_mul(&dd));
    let u = solve(&c.transpose(), &cc).expect("c is a combination of the rows of C");
    assert_eq!(c.vector_left_mul(&u), cc);
    assert_eq!(d.vector_left_mul(&u), dd);
}

#[test]
fn intersection_is_spanned_in_echelon_form() {
    // span{e0, e1} and span{e1, e2} meet in span{e1}: one vector, one at its pivot.
    let u = vec![QQVector::of_term(qq(1), 0), QQVector::of_term(qq(1), 1)];
    let v = vec![QQVector::of_term(qq(1), 1), QQVector::of_term(qq(1), 2)];
    let inter = intersect(&u, &v);
    assert_eq!(inter.len(), 1);
    assert_eq!(inter[0], QQVector::of_term(qq(1), 1));

    // Two spanning sets of the plane meet in the whole plane.
    let u2 = vec![QQVector::of_term(qq(1), 0), QQVector::of_term(qq(1), 1)];
    let v2 = vec![
        QQVector::of_term(qq(1), 0).add_term(qq(1), 1),
        QQVector::of_term(qq(1), 0).add_term(qq(-1), 1),
    ];
    let inter2 = intersect(&u2, &v2);
    assert_eq!(inter2.len(), 2);
    assert!(equal(&inter2, &u2));
}
