use prancing_pony::matrix::Matrix;

#[test]
fn test_new() {
    let matrix = Matrix::new(2, 2);
    assert_eq!(matrix.values(), vec![None, None, None, None]);
}

#[test]
fn test_is_in_bounds() {
    let matrix = Matrix::new(3, 3);
    assert!(matrix.is_in_bounds((0, 0)));
    assert!(matrix.is_in_bounds((2, 2)));
    assert!(!matrix.is_in_bounds((3, 3)));
    assert!(!matrix.is_in_bounds((-1, -1)));
}

#[test]
fn test_get() {
    let mut matrix = Matrix::new(2, 2);
    matrix.set((0, 0), 1);
    assert_eq!(matrix.get((0, 0)), Some(1));
    assert_eq!(matrix.get((1, 1)), None);
}

#[test]
fn test_reset() {
    let mut matrix = Matrix::new(2, 2);
    matrix.set((0, 0), 1);
    matrix.reset((0, 0));
    assert_eq!(matrix.get((0, 0)), None);
}

#[test]
fn set_stores_row_major() {
    let mut matrix = Matrix::new(3, 2);
    matrix.set((2, 1), 7);
    matrix.set((1, 0), 0);
    assert_eq!(matrix.values(), vec![None, Some(0), None, None, None, Some(7)]);
}

#[test]
fn bounds_of_rectangular_board() {
    let matrix = Matrix::new(3, 2);
    assert!(matrix.is_in_bounds((2, 1)));
    assert!(!matrix.is_in_bounds((1, 2)));
    assert!(!matrix.is_in_bounds((3, 0)));
    assert!(!matrix.is_in_bounds((0, -1)));
}

#[test]
fn empty_matrix_has_no_cells() {
    let matrix = Matrix::new(0, 5);
    assert_eq!(matrix.values(), Vec::<Option<u8>>::new());
    assert!(!matrix.is_in_bounds((0, 0)));
}
