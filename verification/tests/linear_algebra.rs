use fountain_engine::algebra::finite_field::GF256;
use fountain_engine::algebra::linear_algebra::{LinearSys, Matrix};

#[test]
fn test_simple_linear_system() {
    let field = GF256::default();

    let mut a = vec![vec![1, 1], vec![2, 1]];

    let x = vec![vec![3, 7, 19], vec![5, 6, 20]];

    let mut b = Matrix::multiply(&field, &a, &x);
    let result = LinearSys::lin_solve(&field, &mut a, &mut b);
    assert!(result.is_ok());

    assert_eq!(b, x);
}

#[test]
fn test_singular_matrix() {
    let field = GF256::default();

    let mut a = vec![vec![1, 1], vec![1, 1]];
    let mut b = vec![vec![3], vec![5]];

    let result = LinearSys::lin_solve(&field, &mut a, &mut b);
    assert!(result.is_err());
}
