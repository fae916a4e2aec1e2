use srk::algebra::Ring;
use srk::num::{QQ, ZZ};

fn ring_axioms<R: Ring + std::fmt::Debug>(a: &R, b: &R, c: &R) {
    let zero = R::zero();
    let one = R::one();
    assert!(R::equal(&R::add(a, &zero), a));
    assert!(R::equal(&R::mul(a, &one), a));
    assert!(R::equal(
        &R::add(&R::add(a, b), c),
        &R::add(a, &R::add(b, c))
    ));
    assert!(R::is_zero(&R::add(a, &R::negate(a))));
}

#[test]
fn zz_ring_axioms() {
    ring_axioms(&ZZ::of_i64(2), &ZZ::of_i64(3), &ZZ::of_i64(5));
}

#[test]
fn qq_ring_axioms() {
    ring_axioms(&QQ::of_frac(1, 2), &QQ::of_frac(3, 4), &QQ::of_frac(-5, 6));
}

#[test]
fn ring_sub_and_copy() {
    let a = QQ::of_frac(1, 2);
    let b = QQ::of_frac(1, 3);
    assert!(<QQ as Ring>::equal(&<QQ as Ring>::sub(&a, &b), &QQ::of_frac(1, 6)));
    assert_eq!(<ZZ as Ring>::copy(&ZZ::of_i64(9)), ZZ::of_i64(9));
}
