use lau_penrose_v2::matrix::CorrelationMatrix;

#[test]
fn test_matrix_set_get() {
    let mut m: CorrelationMatrix<f64> = CorrelationMatrix::new(vec!["a".into(), "b".into(), "c".into()], 0.0);
    m.set("a", "b", 0.9);
    assert!((m.get("a", "b").unwrap() - 0.9).abs() < 1e-10);
    assert!((m.get("b", "a").unwrap() - 0.9).abs() < 1e-10);
    assert_eq!(m.get("a", "c").unwrap(), 0.0);
}

#[test]
fn test_matrix_get_missing() {
    let m: CorrelationMatrix<f64> = CorrelationMatrix::new(vec!["a".into()], 0.0);
    assert!(m.get("a", "z").is_none());
}

#[test]
fn matrix_new_is_square_and_filled() {
    let m = CorrelationMatrix::new(vec!["a".into(), "b".into()], 0.5);
    assert_eq!(m.values, vec![vec![0.5, 0.5], vec![0.5, 0.5]]);
}

#[test]
fn matrix_set_with_missing_room_changes_nothing() {
    let mut m = CorrelationMatrix::new(vec!["a".into(), "b".into()], 0.0);
    m.set("a", "z", 0.7);
    assert_eq!(m.values, vec![vec![0.0, 0.0], vec![0.0, 0.0]]);
}

#[test]
fn matrix_set_touches_only_the_pair() {
    let mut m = CorrelationMatrix::new(vec!["a".into(), "b".into(), "c".into()], 0.0);
    m.set("b", "c", -0.4);
    assert_eq!(m.get("c", "b"), Some(-0.4));
    assert_eq!(m.get("a", "b"), Some(0.0));
    assert_eq!(m.get("a", "c"), Some(0.0));
    assert_eq!(m.get("b", "b"), Some(0.0));
}

#[test]
fn matrix_set_diagonal() {
    let mut m = CorrelationMatrix::new(vec!["a".into(), "b".into()], 0.0);
    m.set("a", "a", 1.0);
    assert_eq!(m.get("a", "a"), Some(1.0));
    assert_eq!(m.get("b", "b"), Some(0.0));
}

#[test]
fn matrix_duplicate_room_uses_first_position() {
    let mut m = CorrelationMatrix::new(vec!["a".into(), "b".into(), "a".into()], 0.0);
    m.set("a", "b", 0.3);
    assert_eq!(m.values[0][1], 0.3);
    assert_eq!(m.values[1][0], 0.3);
    assert_eq!(m.values[2][1], 0.0);
}

#[test]
fn matrix_get_on_both_missing() {
    let m: CorrelationMatrix<f64> = CorrelationMatrix::new(vec![], 0.0);
    assert_eq!(m.get("x", "y"), None);
}
