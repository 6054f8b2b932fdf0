use vision_ai::matrix::Matrix;

#[test]
fn test_transpose() {
    let a = Matrix::from_flat(1, 3, vec![1.0, 2.0, 3.0]);
    let t = a.transpose();
    assert_eq!(t.rows, 3);
    assert_eq!(t.cols, 1);
    assert_eq!(t.data, vec![1.0, 2.0, 3.0]);
}

#[test]
fn matrix_transpose_square() {
    let m = Matrix::from_flat(2, 2, vec![1.0, 2.0, 3.0, 4.0]);
    let t = m.transpose();
    assert_eq!(t.data, vec![1.0, 3.0, 2.0, 4.0]);
}

#[test]
fn matrix_transpose_rectangular() {
    let m = Matrix::from_flat(2, 3, vec![1.0, 2.0, 3.0, 4.0, 5.0, 6.0]);
    let t = m.transpose();
    assert_eq!(t.rows, 3);
    assert_eq!(t.cols, 2);
    assert_eq!(t.data, vec![1.0, 4.0, 2.0, 5.0, 3.0, 6.0]);
}

#[test]
fn matrix_double_transpose_is_identity() {
    let m = Matrix::from_flat(2, 3, vec![1.0, 2.0, 3.0, 4.0, 5.0, 6.0]);
    let tt = m.transpose().transpose();
    assert_eq!(tt.data, m.data);
}

#[test]
fn transpose_of_empty_matrix() {
    let m: Matrix<i32> = Matrix::from_flat(0, 4, vec![]);
    let t = m.transpose();
    assert_eq!((t.rows, t.cols), (4, 0));
    assert!(t.data.is_empty());
}

#[test]
fn transpose_integers_three_by_two() {
    let m = Matrix::from_flat(3, 2, vec![1, 2, 3, 4, 5, 6]);
    let t = m.transpose();
    assert_eq!(t.data, vec![1, 3, 5, 2, 4, 6]);
    assert_eq!(t.transpose().data, m.data);
}

#[test]
fn from_flat_keeps_fields() {
    let m = Matrix::from_flat(2, 2, vec![7u8, 8, 9, 10]);
    assert_eq!(m.rows, 2);
    assert_eq!(m.cols, 2);
    assert_eq!(m.data, vec![7, 8, 9, 10]);
}

#[test]
fn transpose_ignores_extra_storage() {
    let m = Matrix { rows: 2, cols: 2, data: vec![1, 2, 3, 4, 99, 100] };
    let t = m.transpose();
    assert_eq!((t.rows, t.cols), (2, 2));
    assert_eq!(t.data, vec![1, 3, 2, 4]);
}
