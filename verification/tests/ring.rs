use srk::algebra::AbelianGroup;
use srk::matrix::Matrix;
use srk::num::QQ;
use srk::ring::Vector;

fn qq(n: i64) -> QQ {
    QQ::of_i64(n)
}

#[test]
fn vector_basic() {
    let u: Vector<QQ> = Vector::of_term(qq(2), 0).add_term(qq(3), 1);
    let v: Vector<QQ> = Vector::of_term(qq(5), 1);
    assert_eq!(u.coeff(0), qq(2));
    assert_eq!(u.coeff(1), qq(3));
    assert_eq!(u.add(&v).coeff(1), qq(8));
    assert_eq!(u.sub(&v).coeff(1), QQ::of_i64(-2));
    assert!(u.sub(&u).is_zero());
}

#[test]
fn vector_abelian_group_default_sub() {
    let u: Vector<QQ> = Vector::of_term(qq(2), 0).add_term(qq(3), 1);
    let v: Vector<QQ> = Vector::of_term(qq(5), 1);
    assert_eq!(<Vector<QQ> as AbelianGroup>::sub(&u, &v), u.sub(&v));
}

#[test]
fn vector_zero_suppression() {
    let u: Vector<QQ> = Vector::of_term(qq(2), 0).add_term(QQ::of_i64(-2), 0);
    assert!(u.is_zero());
    assert_eq!(u.len(), 0);

    let v: Vector<QQ> = Vector::of_term(qq(2), 0).set(0, QQ::zero());
    assert!(v.is_zero());
}

#[test]
fn vector_scalar_mul_and_dot() {
    let u: Vector<QQ> = Vector::of_term(qq(2), 0).add_term(qq(3), 1);
    let v: Vector<QQ> = Vector::of_term(qq(4), 0).add_term(qq(5), 1);
    assert_eq!(u.scalar_mul(&qq(2)).coeff(0), qq(4));
    assert!(u.scalar_mul(&QQ::zero()).is_zero());
    assert_eq!(u.dot(&v), qq(2 * 4 + 3 * 5));
}

#[test]
fn vector_pivot_and_pop_min() {
    let u: Vector<QQ> = Vector::of_term(qq(2), 0).add_term(qq(3), 1);
    let (c, rest) = u.clone().pivot(1);
    assert_eq!(c, qq(3));
    assert_eq!(rest.coeff(1), QQ::zero());
    assert_eq!(rest.coeff(0), qq(2));

    let ((d, c), rest) = u.pop_min().expect("non-zero vector should pop");
    assert_eq!(d, 0);
    assert_eq!(c, qq(2));
    assert_eq!(rest.coeff(1), qq(3));
}

#[test]
fn vector_interlace_deinterlace() {
    let u: Vector<QQ> = Vector::of_term(qq(1), 0).add_term(qq(2), 1);
    let v: Vector<QQ> = Vector::of_term(qq(3), 0).add_term(qq(4), 1);
    let w = u.interlace(&v);
    assert_eq!(w.coeff(0), qq(1));
    assert_eq!(w.coeff(1), qq(3));
    assert_eq!(w.coeff(2), qq(2));
    assert_eq!(w.coeff(3), qq(4));
    let (a, b) = w.deinterlace();
    assert_eq!(a, u);
    assert_eq!(b, v);
}

#[test]
fn matrix_identity_and_entry() {
    let m: Matrix<QQ> = Matrix::identity(&[0, 1, 2]);
    assert_eq!(m.entry(0, 0), qq(1));
    assert_eq!(m.entry(1, 1), qq(1));
    assert_eq!(m.entry(0, 1), QQ::zero());
    assert_eq!(m.nb_rows(), 3);
    assert_eq!(m.nb_columns(), 3);
}

#[test]
fn matrix_add_and_scalar_mul() {
    let a: Matrix<QQ> = Matrix::of_dense(&[vec![qq(1), qq(2)], vec![qq(3), qq(4)]]);
    let b: Matrix<QQ> = Matrix::of_dense(&[vec![qq(5), qq(6)], vec![qq(7), qq(8)]]);
    let sum = a.add(&b);
    assert_eq!(sum.entry(0, 0), qq(6));
    assert_eq!(sum.entry(1, 1), qq(12));
    let scaled = a.scalar_mul(&qq(2));
    assert_eq!(scaled.entry(0, 0), qq(2));
    assert_eq!(scaled.entry(1, 1), qq(8));
}

#[test]
fn matrix_mul_and_transpose() {
    // [[1,2],[3,4]] * [[2,0],[1,2]] = [[4,4],[10,8]]
    let a: Matrix<QQ> = Matrix::of_dense(&[vec![qq(1), qq(2)], vec![qq(3), qq(4)]]);
    let b: Matrix<QQ> = Matrix::of_dense(&[vec![qq(2), qq(0)], vec![qq(1), qq(2)]]);
    let p = a.mul(&b);
    assert_eq!(p.entry(0, 0), qq(4));
    assert_eq!(p.entry(0, 1), qq(4));
    assert_eq!(p.entry(1, 0), qq(10));
    assert_eq!(p.entry(1, 1), qq(8));

    let t = a.transpose();
    assert_eq!(t.entry(0, 1), qq(3));
    assert_eq!(t.entry(1, 0), qq(2));
    assert_eq!(t.transpose(), a);
}

#[test]
fn matrix_vector_mul() {
    let a: Matrix<QQ> = Matrix::of_dense(&[vec![qq(1), qq(2)], vec![qq(3), qq(4)]]);
    let v: Vector<QQ> = Vector::of_term(qq(5), 0).add_term(qq(6), 1);
    // a*v = [1*5+2*6, 3*5+4*6] = [17, 39]
    let av = a.vector_right_mul(&v);
    assert_eq!(av.coeff(0), qq(17));
    assert_eq!(av.coeff(1), qq(39));
    // v^T * a = [5*1+6*3, 5*2+6*4] = [23, 34]
    let va = a.vector_left_mul(&v);
    assert_eq!(va.coeff(0), qq(23));
    assert_eq!(va.coeff(1), qq(34));
}

#[test]
fn matrix_pivot_column() {
    let a: Matrix<QQ> = Matrix::of_dense(&[vec![qq(1), qq(2)], vec![qq(3), qq(4)]]);
    let (col, rest) = a.pivot_column(1);
    assert_eq!(col.coeff(0), qq(2));
    assert_eq!(col.coeff(1), qq(4));
    assert_eq!(rest.entry(0, 1), QQ::zero());
    assert_eq!(rest.entry(0, 0), qq(1));
    assert_eq!(rest.entry(1, 0), qq(3));
}

#[test]
fn matrix_interlace_columns() {
    let a: Matrix<QQ> = Matrix::of_dense(&[vec![qq(1), qq(2)]]);
    let b: Matrix<QQ> = Matrix::of_dense(&[vec![qq(3), qq(4)]]);
    let c = a.interlace_columns(&b);
    // row 0 should be: a0, b0, a1, b1 = 1, 3, 2, 4
    assert_eq!(c.entry(0, 0), qq(1));
    assert_eq!(c.entry(0, 1), qq(3));
    assert_eq!(c.entry(0, 2), qq(2));
    assert_eq!(c.entry(0, 3), qq(4));
}

#[test]
fn vector_map_merge_and_equal() {
    let u: Vector<QQ> = Vector::of_term(qq(1), 0).add_term(qq(2), 3);
    let doubled = u.clone().map(|_d, c| c.mul(&qq(2)));
    assert_eq!(doubled.coeff(3), qq(4));
    let killed = u.clone().map(|d, c| if d == 0 { QQ::zero() } else { c });
    assert_eq!(killed.len(), 1);
    let v: Vector<QQ> = Vector::of_term(qq(5), 3);
    let m = u.clone().merge(v, |_d, a, b| a.add(&b));
    assert_eq!(m.coeff(3), qq(7));
    assert!(u.equal(&u.clone()));
    assert!(!u.equal(&doubled));
    assert_eq!(u.min_support(), Some((0, qq(1))));
    assert_eq!(u.iter(), vec![(0, qq(1)), (3, qq(2))]);
}

#[test]
fn matrix_rows_columns_and_pow() {
    let a: Matrix<QQ> = Matrix::of_dense(&[vec![qq(1), qq(1)], vec![qq(0), qq(1)]]);
    let a3 = a.pow(3);
    assert_eq!(a3.entry(0, 1), qq(3));
    assert_eq!(a3.entry(1, 1), qq(1));
    assert_eq!(a.pow(0), Matrix::identity(&[0, 1]));
    assert_eq!(a.row(0).coeff(1), qq(1));
    assert_eq!(a.column(1).coeff(0), qq(1));
    let rows: Vec<i32> = a.row_set().into_iter().collect();
    assert_eq!(rows, vec![0, 1]);
    let cols: Vec<i32> = a.column_set().into_iter().collect();
    assert_eq!(cols, vec![0, 1]);
    assert_eq!(a.dense_of(2, 2), vec![vec![qq(1), qq(1)], vec![qq(0), qq(1)]]);
    assert_eq!(a.entries().len(), 3);
    assert!(Matrix::<QQ>::zero().is_zero());
    let b = Matrix::<QQ>::zero().add_entry(2, 5, qq(4)).add_row(1, Vector::of_term(qq(1), 0));
    assert_eq!(b.entry(2, 5), qq(4));
    assert_eq!(b.min_row().map(|(i, _)| i), Some(1));
    let (r, rest) = b.pivot(2);
    assert_eq!(r.coeff(5), qq(4));
    assert_eq!(rest.nb_rows(), 1);
    let c = Matrix::<QQ>::of_rows(vec![Vector::of_term(qq(1), 1), Vector::zero()]);
    assert_eq!(c.nb_rows(), 1);
    assert_eq!(c.entry(0, 1), qq(1));
    let d = Matrix::<QQ>::zero().add_column(3, Vector::of_term(qq(2), 1));
    assert_eq!(d.entry(1, 3), qq(2));
    let mapped = a.clone().map_rows(|row| row.scalar_mul(&qq(3)));
    assert_eq!(mapped.entry(0, 1), qq(3));
}

#[test]
fn vector_and_matrix_rendering() {
    let u: Vector<QQ> = Vector::of_term(qq(2), 0).add_term(QQ::of_frac(-1, 3), 4);
    assert_eq!(u.to_string(), "[0:2, 4:-1/3]");
    assert_eq!(Vector::<QQ>::zero().to_string(), "[]");
    let a: Matrix<QQ> = Matrix::of_dense(&[vec![qq(1), qq(0)], vec![qq(3), qq(4)]]);
    assert_eq!(a.to_string(), "row 0: [1, 0]\nrow 1: [3, 4]\n");
    assert_eq!(Matrix::<QQ>::zero().to_string(), "0");
}

#[test]
fn vector_from_entries_adds_terms_in_turn() {
    let v: Vector<QQ> = Vector::from_entries(vec![(0, QQ::of_i64(1)), (1, QQ::of_i64(2)), (0, QQ::of_i64(-1)), (1, QQ::of_i64(3))]);
    assert_eq!(v, Vector::of_term(QQ::of_i64(5), 1));
}

#[test]
fn matrix_identity_sets_a_repeated_position_once() {
    let m: Matrix<QQ> = Matrix::identity(&[0, 1, 0]);
    assert_eq!(m.entry(0, 0), qq(1));
    assert_eq!(m.entry(1, 1), qq(1));
    assert_eq!(m.nb_rows(), 2);
}

#[test]
fn vector_negation_is_an_involution_and_cancels() {
    let u: Vector<QQ> = Vector::of_term(qq(3), 0).add_term(qq(-2), 4);
    assert_eq!(u.negate().negate(), u);
    assert!(u.add(&u.negate()).is_zero());
    assert_eq!(u.negate().coeff(4), qq(2));
}

#[test]
fn dense_round_trip() {
    let rows = vec![vec![qq(1), qq(0), qq(2)], vec![qq(0), qq(0), qq(0)]];
    let m: Matrix<QQ> = Matrix::of_dense(&rows);
    assert_eq!(m.dense_of(2, 3), rows);
}

#[test]
fn matrix_powers_add() {
    let m: Matrix<QQ> = Matrix::of_dense(&[vec![qq(1), qq(2)], vec![qq(0), qq(3)]]);
    assert_eq!(m.pow(1), m);
    assert_eq!(m.pow(5), m.pow(2).mul(&m.pow(3)));
    assert_eq!(m.pow(2), m.pow(0).mul(&m.pow(2)));
}
