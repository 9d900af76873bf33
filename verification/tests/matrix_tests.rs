use lau_spectral_graph_agent::DenseMatrix;

#[test]
fn test_identity() {
    let m = DenseMatrix::identity(3, 0.0, 1.0);
    for i in 0..3 {
        for j in 0..3 {
            assert_eq!(m.get(i, j), m.get(j, i));
        }
    }
    assert_eq!(m.get(0, 0), 1.0);
    assert_eq!(m.get(1, 2), 0.0);
}

#[test]
fn zeros_has_the_requested_shape() {
    let m = DenseMatrix::zeros(2, 3, 0.0);
    assert_eq!(m.rows, 2);
    assert_eq!(m.cols, 3);
    assert_eq!(m.data, vec![vec![0.0; 3]; 2]);
}

#[test]
fn from_vec_takes_columns_from_first_row() {
    let m = DenseMatrix::from_vec(vec![vec![1.0, 2.0], vec![3.0, 4.0]]);
    assert_eq!(m.rows, 2);
    assert_eq!(m.cols, 2);
    assert_eq!(m.get(1, 0), 3.0);
    let e: DenseMatrix<f64> = DenseMatrix::from_vec(vec![]);
    assert_eq!(e.rows, 0);
    assert_eq!(e.cols, 0);
}

#[test]
fn set_overwrites_one_entry() {
    let mut m = DenseMatrix::zeros(2, 2, 0.0);
    m.set(0, 1, 7.0);
    assert_eq!(m.data, vec![vec![0.0, 7.0], vec![0.0, 0.0]]);
}

#[test]
fn transpose_swaps_indices_and_twice_is_identity() {
    let m = DenseMatrix::from_vec(vec![vec![1, 2, 3], vec![4, 5, 6]]);
    let t = m.transpose();
    assert_eq!(t.rows, 3);
    assert_eq!(t.cols, 2);
    assert_eq!(t.data, vec![vec![1, 4], vec![2, 5], vec![3, 6]]);
    let tt = t.transpose();
    assert_eq!(tt.rows, 2);
    assert_eq!(tt.cols, 3);
    assert_eq!(tt.data, m.data);
}
