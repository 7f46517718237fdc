use fri::errors::FriError;
use fri::poly::Polynomial;

#[test]
fn evaluate_constant_and_linear() {
    let p = Polynomial::new(vec![7]);
    assert_eq!(p.evaluate(0), Ok(7));
    assert_eq!(p.evaluate(100), Ok(7));
    let q = Polynomial::new(vec![1, 2]);
    assert_eq!(q.evaluate(3), Ok(7));
    assert_eq!(q.evaluate(-3), Ok(-5));
}

#[test]
fn evaluate_quadratic_exact_values() {
    let p = Polynomial::new(vec![1, 2, 3]);
    assert_eq!(p.evaluate(0), Ok(1));
    assert_eq!(p.evaluate(1), Ok(6));
    assert_eq!(p.evaluate(2), Ok(17));
    assert_eq!(p.evaluate(-2), Ok(9));
    assert_eq!(p.evaluate(3), Ok(34));
}

#[test]
fn evaluate_empty_polynomial_is_zero() {
    let p = Polynomial::new(vec![]);
    assert_eq!(p.coefficient_count(), 0);
    assert_eq!(p.evaluate(5), Ok(0));
}

#[test]
fn evaluate_overflow_is_reported() {
    let p = Polynomial::new(vec![i64::MAX, i64::MAX]);
    assert_eq!(p.evaluate(2), Err(FriError::ArithmeticOverflow));
    assert_eq!(p.evaluate(0), Ok(i64::MAX));
}

#[test]
fn add_pads_shorter_operand_with_zeros() {
    let a = Polynomial::new(vec![1, 2]);
    let b = Polynomial::new(vec![3, 4, 5]);
    let sum = a.add(&b).unwrap();
    assert_eq!(sum, Polynomial::new(vec![4, 6, 5]));
    assert_eq!(sum.coefficient_count(), 3);
    let sum2 = b.add(&a).unwrap();
    assert_eq!(sum2, Polynomial::new(vec![4, 6, 5]));
}

#[test]
fn add_overflow_is_reported() {
    let a = Polynomial::new(vec![i64::MAX]);
    let b = Polynomial::new(vec![1]);
    assert_eq!(a.add(&b), Err(FriError::ArithmeticOverflow));
}

#[test]
fn equality_is_literal_on_coefficients() {
    let a = Polynomial::new(vec![1, 2, 0]);
    let b = Polynomial::new(vec![1, 2]);
    // no trailing-zero trimming: lengths differ, so the values differ
    assert!(a != b);
    assert_eq!(a, Polynomial::new(vec![1, 2, 0]));
    assert!(Polynomial::new(vec![]) == Polynomial::new(vec![]));
}

#[test]
fn coefficient_accessors() {
    let p = Polynomial::new(vec![9, -4, 0, 2]);
    assert_eq!(p.coefficient_count(), 4);
    assert_eq!(p.coefficient(0), 9);
    assert_eq!(p.coefficient(1), -4);
    assert_eq!(p.coefficient(3), 2);
}

#[test]
fn format_full_polynomial() {
    let p = Polynomial::new(vec![1, 2, 3]);
    assert_eq!(p.format(), "1 + 2x^1 + 3x^2");
}

#[test]
fn format_negative_terms() {
    let p = Polynomial::new(vec![-1, -2]);
    assert_eq!(p.format(), "-1 - 2x^1");
}

#[test]
fn format_skips_zero_terms_and_unit_magnitudes() {
    assert_eq!(Polynomial::new(vec![0, 1]).format(), "x^1");
    assert_eq!(Polynomial::new(vec![10, 0, -7]).format(), "10 - 7x^2");
    assert_eq!(Polynomial::new(vec![1, 1]).format(), "1 + x^1");
    assert_eq!(Polynomial::new(vec![0]).format(), "");
    assert_eq!(Polynomial::new(vec![]).format(), "");
}

#[test]
fn format_leading_negative_power_term() {
    // a negative non-constant first term still gets its " - " separator
    assert_eq!(Polynomial::new(vec![0, -1]).format(), " - x^1");
    assert_eq!(Polynomial::new(vec![0, 0, -12]).format(), " - 12x^2");
}

#[test]
fn format_large_magnitudes() {
    assert_eq!(
        Polynomial::new(vec![i64::MIN]).format(),
        format!("{}", i64::MIN)
    );
    assert_eq!(Polynomial::new(vec![0, i64::MAX]).format(), format!("{}x^1", i64::MAX));
}
