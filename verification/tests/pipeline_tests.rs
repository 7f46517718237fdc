use fri::check::check_layers;
use fri::errors::FriError;
use fri::fold::recursively_fold_polynomials;
use fri::layers::create_layers;
use fri::poly::Polynomial;
use fri::table::EvalTable;

#[test]
fn naive_query() {
    let beta = 1;
    let poly = Polynomial::new(vec![1, 2, 3]);
    let poly_by_layer = recursively_fold_polynomials(poly, beta).unwrap();

    let layer_evals = create_layers(&vec![1, 2, 3], poly_by_layer).unwrap();

    let query = 2;
    check_layers(&layer_evals, query, beta).unwrap();
}

#[test]
fn reference_scenario_layer_tables() {
    // coefficients [1, 2, 3], beta = 1, sample points {1, 2, 3}
    let layers = recursively_fold_polynomials(Polynomial::new(vec![1, 2, 3]), 1).unwrap();
    let tables = create_layers(&vec![1, 2, 3], layers).unwrap();
    assert_eq!(tables.len(), 3);

    // layer 0: 1 + 2x + 3x^2 at each point and its negation
    assert_eq!(tables[0].get(1), Some(6));
    assert_eq!(tables[0].get(-1), Some(2));
    assert_eq!(tables[0].get(2), Some(17));
    assert_eq!(tables[0].get(-2), Some(9));
    assert_eq!(tables[0].get(3), Some(34));
    assert_eq!(tables[0].get(-3), Some(22));

    // layer 1: 3 + 3x at the squared points
    assert_eq!(tables[1].get(1), Some(6));
    assert_eq!(tables[1].get(-1), Some(0));
    assert_eq!(tables[1].get(4), Some(15));
    assert_eq!(tables[1].get(-4), Some(-9));
    assert_eq!(tables[1].get(9), Some(30));
    assert_eq!(tables[1].get(-9), Some(-24));

    // layer 2: the constant, the same value at every recorded point
    for key in [1i64, -1, 16, -16, 81, -81] {
        assert_eq!(tables[2].get(key), Some(6));
    }
    assert!(tables[2].has_unique_value());
    assert_eq!(tables[2].get(5), None);

    // the consistency check passes at query 2 with a unique terminal
    assert_eq!(check_layers(&tables, 2, 1), Ok(()));
}

#[test]
fn rerunning_the_pipeline_is_deterministic() {
    let run = || {
        let layers = recursively_fold_polynomials(Polynomial::new(vec![4, -2, 7, 1, 3]), 2)
            .unwrap();
        let tables = create_layers(&vec![1, 2, 3], layers.clone()).unwrap();
        (layers, tables)
    };
    let (layers1, tables1) = run();
    let (layers2, tables2) = run();
    assert_eq!(layers1, layers2);
    assert_eq!(tables1.len(), tables2.len());
    for (t1, t2) in tables1.iter().zip(tables2.iter()) {
        for key in [-3i64, -2, -1, 0, 1, 2, 3, 4, 9, 16, 81, 6561] {
            assert_eq!(t1.get(key), t2.get(key));
        }
    }
    assert_eq!(
        check_layers(&tables1, 2, 2),
        check_layers(&tables2, 2, 2)
    );
}

#[test]
fn colliding_sample_points_record_one_consistent_value() {
    // 2 and -2 derive the same key pair at every layer; the value is a
    // function of the key, so the tables stay consistent and the check
    // still passes
    let layers = recursively_fold_polynomials(Polynomial::new(vec![1, 2, 3]), 1).unwrap();
    let tables = create_layers(&vec![2, -2], layers).unwrap();
    assert_eq!(tables[0].get(2), Some(17));
    assert_eq!(tables[0].get(-2), Some(9));
    assert_eq!(tables[1].get(4), Some(15));
    assert_eq!(tables[2].get(16), Some(6));
    assert_eq!(check_layers(&tables, 2, 1), Ok(()));
}

#[test]
fn create_layers_without_sample_points_yields_no_tables() {
    let layers = recursively_fold_polynomials(Polynomial::new(vec![1, 2, 3]), 1).unwrap();
    let tables = create_layers(&vec![], layers).unwrap();
    assert_eq!(tables.len(), 0);
}

#[test]
fn create_layers_overflow_is_reported() {
    let layers = recursively_fold_polynomials(Polynomial::new(vec![1, 2, 3]), 1).unwrap();
    assert!(matches!(
        create_layers(&vec![i64::MAX], layers),
        Err(FriError::ArithmeticOverflow)
    ));
}

#[test]
fn check_reports_lookup_miss_when_coverage_is_too_narrow() {
    let layers = recursively_fold_polynomials(Polynomial::new(vec![1, 2, 3]), 1).unwrap();
    // sample points {1} never produce the query chain of 2
    let tables = create_layers(&vec![1], layers).unwrap();
    assert_eq!(check_layers(&tables, 2, 1), Err(FriError::LookupMiss));
}

#[test]
fn check_reports_consistency_violation() {
    let mut t0 = EvalTable::new();
    t0.insert(2, 11).unwrap();
    t0.insert(-2, 7).unwrap();
    let mut t1 = EvalTable::new();
    // the folding identity demands (11 + 7) / 2 + (11 - 7) / 4 == 10
    t1.insert(4, 5).unwrap();
    let tables = vec![t0, t1];
    assert_eq!(
        check_layers(&tables, 2, 1),
        Err(FriError::ConsistencyViolation)
    );
}

#[test]
fn check_passes_on_consistent_hand_built_tables() {
    let mut t0 = EvalTable::new();
    t0.insert(2, 11).unwrap();
    t0.insert(-2, 7).unwrap();
    let mut t1 = EvalTable::new();
    t1.insert(4, 10).unwrap();
    let tables = vec![t0, t1];
    assert_eq!(check_layers(&tables, 2, 1), Ok(()));
}

#[test]
fn check_reports_inexact_division() {
    let mut t0 = EvalTable::new();
    // 2 does not divide 1 + 0
    t0.insert(2, 1).unwrap();
    t0.insert(-2, 0).unwrap();
    let mut t1 = EvalTable::new();
    t1.insert(4, 0).unwrap();
    let tables = vec![t0, t1];
    assert_eq!(check_layers(&tables, 2, 1), Err(FriError::InexactDivision));
}

#[test]
fn check_refuses_a_zero_query_divisor() {
    let mut t0 = EvalTable::new();
    t0.insert(0, 5).unwrap();
    let mut t1 = EvalTable::new();
    t1.insert(0, 5).unwrap();
    let tables = vec![t0, t1];
    // the divisor 2 * 0 makes the equation unverifiable
    assert_eq!(check_layers(&tables, 0, 1), Err(FriError::InexactDivision));
}

#[test]
fn check_reports_non_unique_terminal() {
    let mut t0 = EvalTable::new();
    t0.insert(1, 1).unwrap();
    t0.insert(2, 2).unwrap();
    let tables = vec![t0];
    assert_eq!(
        check_layers(&tables, 5, 1),
        Err(FriError::NonUniqueTerminal)
    );
}

#[test]
fn check_reports_empty_terminal_as_non_unique() {
    let tables = vec![EvalTable::new()];
    assert_eq!(
        check_layers(&tables, 5, 1),
        Err(FriError::NonUniqueTerminal)
    );
}

#[test]
fn check_reports_overflow_on_an_unrepresentable_chain() {
    let mut t0 = EvalTable::new();
    let big = 1i64 << 32;
    t0.insert(big, 0).unwrap();
    t0.insert(-big, 0).unwrap();
    let mut t1 = EvalTable::new();
    t1.insert(1, 1).unwrap();
    let tables = vec![t0, t1];
    // big^2 does not fit an i64
    assert_eq!(
        check_layers(&tables, big, 1),
        Err(FriError::ArithmeticOverflow)
    );
}

#[test]
fn table_insert_detects_conflicting_evaluations() {
    let mut t = EvalTable::new();
    assert_eq!(t.insert(1, 2), Ok(()));
    // rebinding to the same value is not a conflict
    assert_eq!(t.insert(1, 2), Ok(()));
    assert_eq!(t.insert(1, 3), Err(FriError::ConflictingEvaluation));
    assert_eq!(t.get(1), Some(2));
    assert_eq!(t.get(3), None);
}

#[test]
fn table_unique_value_detection() {
    let mut t = EvalTable::new();
    assert!(!t.has_unique_value());
    t.insert(1, 9).unwrap();
    assert!(t.has_unique_value());
    t.insert(-4, 9).unwrap();
    assert!(t.has_unique_value());
    t.insert(5, 8).unwrap();
    assert!(!t.has_unique_value());
}
