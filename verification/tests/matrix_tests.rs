use hodge_belief::matrix::{select, Matrix};

#[test]
fn test_matrix_identity() {
    let m = Matrix::identity(3, 0.0f64, 1.0);
    assert!((m.get(0, 0) - 1.0).abs() < 1e-10);
    assert!((m.get(1, 1) - 1.0).abs() < 1e-10);
    assert!((m.get(0, 1)).abs() < 1e-10);
}

#[test]
fn test_matrix_transpose() {
    let m = Matrix::from_row_slice(2, 3, &[1.0f64, 2.0, 3.0, 4.0, 5.0, 6.0]);
    let t = m.transpose();
    assert_eq!(t.rows, 3);
    assert_eq!(t.cols, 2);
    assert!((t.get(0, 1) - 4.0).abs() < 1e-10);
}

#[test]
fn transpose_moves_every_entry() {
    let m = Matrix::from_row_slice(2, 3, &[1i64, 2, 3, 4, 5, 6]);
    let t = m.transpose();
    assert_eq!(t.data, vec![1, 4, 2, 5, 3, 6]);
    let back = t.transpose();
    assert_eq!(back.rows, 2);
    assert_eq!(back.cols, 3);
    assert_eq!(back.data, m.data);
}

#[test]
fn transpose_of_empty_shapes() {
    let m: Matrix<i64> = Matrix::from_row_slice(0, 4, &[]);
    let t = m.transpose();
    assert_eq!((t.rows, t.cols), (4, 0));
    assert!(t.data.is_empty());
}

#[test]
fn zeros_fills_every_cell() {
    let m = Matrix::zeros(2, 3, 0i64);
    assert_eq!(m.rows, 2);
    assert_eq!(m.cols, 3);
    assert_eq!(m.data, vec![0; 6]);
    let e = Matrix::zeros(0, 5, 7u8);
    assert!(e.data.is_empty());
}

#[test]
fn identity_entries() {
    let m = Matrix::identity(3, 0i64, 1);
    assert_eq!(m.data, vec![1, 0, 0, 0, 1, 0, 0, 0, 1]);
    let e = Matrix::identity(0, 0i64, 1);
    assert!(e.data.is_empty());
}

#[test]
fn from_diag_places_values_on_the_diagonal() {
    let m = Matrix::from_diag(&[2.5, -1.0, 4.0], 0.0);
    assert_eq!((m.rows, m.cols), (3, 3));
    assert_eq!(m.data, vec![2.5, 0.0, 0.0, 0.0, -1.0, 0.0, 0.0, 0.0, 4.0]);
}

#[test]
fn from_row_slice_copies_data() {
    let data = [1i64, 2, 3];
    let m = Matrix::from_row_slice(3, 1, &data);
    assert_eq!(m.data, vec![1, 2, 3]);
    assert_eq!((m.rows, m.cols), (3, 1));
}

#[test]
fn get_and_set_use_row_major_positions() {
    let mut m = Matrix::zeros(2, 3, 0i64);
    m.set(1, 2, 9);
    m.set(0, 1, -4);
    assert_eq!(m.get(1, 2), 9);
    assert_eq!(m.get(0, 1), -4);
    assert_eq!(m.data, vec![0, -4, 0, 0, 0, 9]);
}

#[test]
fn column_reads_top_to_bottom() {
    let m = Matrix::from_row_slice(3, 2, &[1i64, 2, 3, 4, 5, 6]);
    assert_eq!(m.column(0), vec![1, 3, 5]);
    assert_eq!(m.column(1), vec![2, 4, 6]);
}

#[test]
fn diagonal_of_square_and_rectangular() {
    let m = Matrix::from_row_slice(2, 2, &[1i64, 2, 3, 4]);
    assert_eq!(m.diagonal(), vec![1, 4]);
    let r = Matrix::from_row_slice(2, 3, &[1i64, 2, 3, 4, 5, 6]);
    assert_eq!(r.diagonal(), vec![1, 5]);
    let t = Matrix::from_row_slice(3, 1, &[7i64, 8, 9]);
    assert_eq!(t.diagonal(), vec![7]);
}

#[test]
fn select_columns_reorders() {
    let m = Matrix::from_row_slice(2, 3, &[1i64, 2, 3, 4, 5, 6]);
    let s = m.select_columns(&[2, 0, 1]);
    assert_eq!((s.rows, s.cols), (2, 3));
    assert_eq!(s.data, vec![3, 1, 2, 6, 4, 5]);
    let dup = m.select_columns(&[1, 1]);
    assert_eq!(dup.data, vec![2, 2, 5, 5]);
}

#[test]
fn select_picks_by_index() {
    assert_eq!(select(&[10i64, 20, 30], &[2, 0, 1]), vec![30, 10, 20]);
    assert_eq!(select(&[1.5, 2.5], &[]), Vec::<f64>::new());
}
