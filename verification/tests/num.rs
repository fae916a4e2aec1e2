use srk::num::{QQ, ZZ};

#[test]
fn num_impl_test_zz_basic() {
    let a = ZZ::of_i64(10);
    let b = ZZ::of_i64(3);
    assert_eq!(a.add(&b), ZZ::of_i64(13));
    assert_eq!(a.mul(&b), ZZ::of_i64(30));
    assert_eq!(a.sub(&b), ZZ::of_i64(7));
    assert_eq!(a.div(&b), ZZ::of_i64(3));
    assert_eq!(a.modulo(&b), ZZ::of_i64(1));
}

#[test]
fn num_impl_test_zz_smtlib2_division() {
    // SMTLIB2: -7 div 3 = -3, -7 mod 3 = 2 (0 <= r < |b|)
    let a = ZZ::of_i64(-7);
    let b = ZZ::of_i64(3);
    assert_eq!(a.div(&b), ZZ::of_i64(-3));
    assert_eq!(a.modulo(&b), ZZ::of_i64(2));
}

#[test]
fn num_impl_test_qq_basic() {
    let half = QQ::of_frac(1, 2);
    let third = QQ::of_frac(1, 3);
    assert_eq!(half.add(&third), QQ::of_frac(5, 6));
    assert_eq!(half.mul(&third), QQ::of_frac(1, 6));
    assert_eq!(half.floor(), ZZ::of_i64(0));
    assert_eq!(half.ceiling(), ZZ::of_i64(1));
}

#[test]
fn num_impl_test_qq_display() {
    assert_eq!(QQ::of_i64(5).to_string(), "5");
    assert_eq!(QQ::of_frac(3, 4).to_string(), "3/4");
}

#[test]
fn num_impl_test_qq_negative_floor_ceil() {
    let neg = QQ::of_frac(-7, 2); // -3.5
    assert_eq!(neg.floor(), ZZ::of_i64(-4));
    assert_eq!(neg.ceiling(), ZZ::of_i64(-3));
}

#[test]
fn rug_impl_test_zz_basic() {
    let a = ZZ::of_i64(10);
    let b = ZZ::of_i64(3);
    assert_eq!(a.add(&b), ZZ::of_i64(13));
    assert_eq!(a.mul(&b), ZZ::of_i64(30));
    assert_eq!(a.sub(&b), ZZ::of_i64(7));
    assert_eq!(a.div(&b), ZZ::of_i64(3));
    assert_eq!(a.modulo(&b), ZZ::of_i64(1));
}

#[test]
fn rug_impl_test_zz_smtlib2_division() {
    let a = ZZ::of_i64(-7);
    let b = ZZ::of_i64(3);
    assert_eq!(a.div(&b), ZZ::of_i64(-3));
    assert_eq!(a.modulo(&b), ZZ::of_i64(2));
}

#[test]
fn rug_impl_test_qq_basic() {
    let half = QQ::of_frac(1, 2);
    let third = QQ::of_frac(1, 3);
    assert_eq!(half.add(&third), QQ::of_frac(5, 6));
    assert_eq!(half.mul(&third), QQ::of_frac(1, 6));
    assert_eq!(half.floor(), ZZ::of_i64(0));
    assert_eq!(half.ceiling(), ZZ::of_i64(1));
}

#[test]
fn rug_impl_test_qq_display() {
    assert_eq!(QQ::of_i64(5).to_string(), "5");
    assert_eq!(QQ::of_frac(3, 4).to_string(), "3/4");
}

#[test]
fn rug_impl_test_qq_negative_floor_ceil() {
    let neg = QQ::of_frac(-7, 2);
    assert_eq!(neg.floor(), ZZ::of_i64(-4));
    assert_eq!(neg.ceiling(), ZZ::of_i64(-3));
}

#[test]
fn zz_division_by_negative_divisor() {
    // Euclidean: 7 = (-3) * (-2) + 1 and 0 <= 1 < 3.
    let a = ZZ::of_i64(7);
    let b = ZZ::of_i64(-3);
    assert_eq!(a.div(&b), ZZ::of_i64(-2));
    assert_eq!(a.modulo(&b), ZZ::of_i64(1));
    let c = ZZ::of_i64(-7);
    assert_eq!(c.div(&b), ZZ::of_i64(3));
    assert_eq!(c.modulo(&b), ZZ::of_i64(2));
}

#[test]
fn zz_gcd_lcm_and_strings() {
    let a = ZZ::of_i64(-12);
    let b = ZZ::of_i64(18);
    assert_eq!(a.gcd(&b), ZZ::of_i64(6));
    assert_eq!(a.lcm(&b), ZZ::of_i64(36));
    assert_eq!(a.to_string(), "-12");
    assert_eq!(ZZ::of_string("123456789012345678901234567890").map(|z| z.to_string()),
        Some("123456789012345678901234567890".to_string()));
    assert_eq!(ZZ::of_string("12x"), None);
    assert_eq!(a.to_i64(), Some(-12));
    assert_eq!(a.abs(), ZZ::of_i64(12));
    assert!(a.is_negative() && !a.is_positive() && !a.is_zero());
    assert!(a.leq(&b));
    assert_eq!(a.min(&b), a);
    assert_eq!(a.max(&b), b);
}

#[test]
fn qq_normalises_and_divides() {
    let q = QQ::of_frac(6, -4);
    assert_eq!(q.numerator(), ZZ::of_i64(-3));
    assert_eq!(q.denominator(), ZZ::of_i64(2));
    assert_eq!(q.to_string(), "-3/2");
    assert_eq!(q.inverse(), QQ::of_frac(-2, 3));
    assert_eq!(QQ::of_i64(1).div(&QQ::of_i64(4)), QQ::of_frac(1, 4));
    assert_eq!(QQ::of_i64(7).idiv(&QQ::of_i64(2)), ZZ::of_i64(3));
    assert!(QQ::of_frac(4, 2).is_integer());
    assert_eq!(QQ::of_frac(4, 2).to_zz(), Some(ZZ::of_i64(2)));
    assert_eq!(QQ::of_frac(1, 2).to_zz(), None);
    assert_eq!(QQ::of_frac(2, 3).exp(2), QQ::of_frac(4, 9));
    assert!(QQ::of_frac(1, 3).lt(&QQ::of_frac(1, 2)));
    assert_eq!(QQ::of_frac(-1, 2).abs(), QQ::of_frac(1, 2));
}

#[test]
fn qq_of_string_reads_fractions_and_integers() {
    assert_eq!(QQ::of_string("3/4"), Some(QQ::of_frac(3, 4)));
    assert_eq!(QQ::of_string(" 6 / -8 "), Some(QQ::of_frac(-3, 4)));
    assert_eq!(QQ::of_string("-7"), Some(QQ::of_i64(-7)));
    assert_eq!(QQ::of_string("x/2"), None);
    assert_eq!(QQ::of_string("1/y"), None);
    assert_eq!(QQ::of_string("abc"), None);
}

#[test]
fn qq_of_string_checked_rejects_zero_denominator() {
    assert_eq!(QQ::of_string_checked("1/0"), None);
    assert_eq!(QQ::of_string_checked("4/6"), Some(QQ::of_frac(2, 3)));
    assert_eq!(QQ::of_string_checked("12"), Some(QQ::of_i64(12)));
}

#[test]
fn zz_of_string_takes_signs_and_separators() {
    assert_eq!(ZZ::of_string("1_000"), Some(ZZ::of_i64(1000)));
    assert_eq!(ZZ::of_string("+5"), Some(ZZ::of_i64(5)));
    assert_eq!(ZZ::of_string("-42"), Some(ZZ::of_i64(-42)));
    assert_eq!(ZZ::of_string("-0"), Some(ZZ::of_i64(0)));
    assert_eq!(ZZ::of_string("007"), Some(ZZ::of_i64(7)));
    assert_eq!(ZZ::of_string("_1"), None);
    assert_eq!(ZZ::of_string("-+5"), None);
    assert_eq!(ZZ::of_string("++5"), None);
    assert_eq!(ZZ::of_string("-"), None);
    assert_eq!(ZZ::of_string(""), None);
    assert_eq!(ZZ::of_string(" 5"), None);
}

#[test]
fn zz_values_keep_the_shortest_encoding() {
    assert_eq!(ZZ::of_i64(128).sub(&ZZ::of_i64(1)), ZZ::of_i64(127));
    assert_eq!(ZZ::of_i64(-129).add(&ZZ::of_i64(1)), ZZ::of_i64(-128));
    assert_eq!(ZZ::of_i64(256).negate(), ZZ::of_i64(-256));
    assert_eq!(ZZ::of_string("-0"), Some(ZZ::zero()));
}
