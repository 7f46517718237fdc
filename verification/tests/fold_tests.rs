use fri::errors::FriError;
use fri::fold::{fold_polynomial, recursively_fold_polynomials};
use fri::poly::Polynomial;

#[test]
fn fold_combines_even_and_scaled_odd_coefficients() {
    // 1 + 2x + 3x^2 + 4x^3: even [1, 3], odd [2, 4]
    let p = Polynomial::new(vec![1, 2, 3, 4]);
    let folded = fold_polynomial(&p, 5).unwrap();
    assert_eq!(folded, Polynomial::new(vec![1 + 5 * 2, 3 + 5 * 4]));
}

#[test]
fn fold_odd_length_input() {
    let p = Polynomial::new(vec![1, 2, 3]);
    let folded = fold_polynomial(&p, 1).unwrap();
    assert_eq!(folded, Polynomial::new(vec![3, 3]));
}

#[test]
fn fold_halves_coefficient_count() {
    // coefficient-count n > 1 folds to ceil(n / 2)
    for n in 2..20usize {
        let p = Polynomial::new(vec![1; n]);
        let folded = fold_polynomial(&p, 3).unwrap();
        assert_eq!(folded.coefficient_count(), (n + 1) / 2);
    }
}

#[test]
fn fold_overflow_is_reported() {
    let p = Polynomial::new(vec![0, i64::MAX]);
    assert_eq!(fold_polynomial(&p, 2), Err(FriError::ArithmeticOverflow));
    let q = Polynomial::new(vec![i64::MAX, 1, i64::MAX]);
    // even [MAX, MAX] + odd [1]: MAX + 1 overflows in the addition
    assert_eq!(fold_polynomial(&q, 1), Err(FriError::ArithmeticOverflow));
}

#[test]
fn recursive_fold_layer_counts_are_log2_ceil_plus_one() {
    // n coefficients give exactly ceil(log2(n)) + 1 layers
    let cases: Vec<(usize, usize)> = vec![
        (1, 1),
        (2, 2),
        (3, 3),
        (4, 3),
        (5, 4),
        (8, 4),
        (9, 5),
        (16, 5),
        (17, 6),
    ];
    for (n, expected_layers) in cases {
        let p = Polynomial::new(vec![1; n]);
        let layers = recursively_fold_polynomials(p, 1).unwrap();
        assert_eq!(layers.len(), expected_layers);
        assert_eq!(layers[0].coefficient_count(), n);
        assert_eq!(layers[layers.len() - 1].coefficient_count(), 1);
    }
}

#[test]
fn recursive_fold_records_every_intermediate_polynomial() {
    let p = Polynomial::new(vec![1, 2, 3]);
    let layers = recursively_fold_polynomials(p, 1).unwrap();
    assert_eq!(
        layers,
        vec![
            Polynomial::new(vec![1, 2, 3]),
            Polynomial::new(vec![3, 3]),
            Polynomial::new(vec![6]),
        ]
    );
}

#[test]
fn recursive_fold_of_a_constant_is_a_single_layer() {
    let layers = recursively_fold_polynomials(Polynomial::new(vec![7]), 9).unwrap();
    assert_eq!(layers, vec![Polynomial::new(vec![7])]);
    let empty_layers = recursively_fold_polynomials(Polynomial::new(vec![]), 9).unwrap();
    assert_eq!(empty_layers.len(), 1);
    assert_eq!(empty_layers[0].coefficient_count(), 0);
}

#[test]
fn recursive_fold_overflow_is_reported() {
    let p = Polynomial::new(vec![i64::MAX, 1, i64::MAX]);
    assert_eq!(
        recursively_fold_polynomials(p, 1),
        Err(FriError::ArithmeticOverflow)
    );
}

#[test]
fn folding_identity_at_concrete_points() {
    // p(x) == p_even(x^2) + x * p_odd(x^2)
    let p = Polynomial::new(vec![1, 2, 3, 4]);
    let even = Polynomial::new(vec![1, 3]);
    let odd = Polynomial::new(vec![2, 4]);
    for x in [-5i64, -1, 0, 1, 2, 3, 7] {
        let lhs = p.evaluate(x).unwrap();
        let rhs = even.evaluate(x * x).unwrap() + x * odd.evaluate(x * x).unwrap();
        assert_eq!(lhs, rhs);
    }
}

#[test]
fn fold_consistency_equation_at_a_concrete_point() {
    // fold(p, beta)(x^2) == (p(x) + p(-x)) / 2 + beta * (p(x) - p(-x)) / (2x)
    let p = Polynomial::new(vec![1, 2, 3, 4]);
    let beta = 5i64;
    let x = 3i64;
    let folded = fold_polynomial(&p, beta).unwrap();
    let a = p.evaluate(x).unwrap();
    let b = p.evaluate(-x).unwrap();
    let expected = (a + b) / 2 + beta * (a - b) / (2 * x);
    assert_eq!((a + b) % 2, 0);
    assert_eq!((beta * (a - b)) % (2 * x), 0);
    assert_eq!(folded.evaluate(x * x).unwrap(), expected);
}
