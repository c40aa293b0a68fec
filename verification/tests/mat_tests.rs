use densemat::linalg::{Mat, MatBuf};

fn accepts_mat_ref<T>(mat: &Mat<T>) -> usize {
    mat.len()
}

#[test]
fn matrix_eq() {
    let src: &[i64] = &[1, 2, 3, 4, 5, 6];
    let mat = Mat::new(src, 2, 3);
    let mat_ref = &mat;
    let mat_buf = mat.to_owned();
    assert_eq!(mat_ref, mat_ref);
    assert_eq!(mat_buf, mat_buf);
    assert_eq!(mat_ref, &mat_buf);
    assert_eq!(*mat_ref, mat_buf);
    assert_eq!(&mat_buf, mat_ref);
    assert_eq!(mat_buf, *mat_ref);
}

#[test]
fn matrix_as_ref() {
    let src: &[i64] = &[1, 2, 3, 4, 5, 6];
    let mat = Mat::new(src, 2, 3);
    let mat_buf = mat.to_owned();
    assert_eq!(accepts_mat_ref(&mat), 6);
    assert_eq!(accepts_mat_ref(&mat_buf.as_mat()), 6);
}

#[test]
fn matrix_shape_and_access() {
    let src: &[i64] = &[1, 2, 3, 4, 5, 6];
    let mat = Mat::new(src, 2, 3);
    assert_eq!(mat.nrows(), 2);
    assert_eq!(mat.ncols(), 3);
    assert_eq!(mat.shape(), [2, 3]);
    assert_eq!(*mat.at(0, 0).unwrap(), 1);
    assert_eq!(*mat.at(1, 2).unwrap(), 6);
    assert_eq!(mat.row(1).unwrap(), &[4, 5, 6]);
    assert_eq!(mat.as_slice(), src);
}

#[test]
fn matbuf_transpose_general() {
    let mut m = MatBuf::from_vec(vec![1i64, 2, 3, 4, 5, 6]);
    m.reshape([2, 3]);
    m.transpose();
    assert_eq!(m.nrows(), 3);
    assert_eq!(m.ncols(), 2);
    assert_eq!(*m.at(0, 1).unwrap(), 4);
    assert_eq!(*m.at(2, 0).unwrap(), 3);
    // The transposed matrix equals the materialized transpose.
    let mut t = MatBuf::from_vec(vec![1i64, 4, 2, 5, 3, 6]);
    t.reshape([3, 2]);
    assert_eq!(m, t);
    // Transposing twice restores the original.
    m.transpose();
    let mut orig = MatBuf::from_vec(vec![1i64, 2, 3, 4, 5, 6]);
    orig.reshape([2, 3]);
    assert_eq!(m, orig);
}

#[test]
fn matbuf_transpose_vector() {
    // The degenerate case: a row vector is re-addressed, not flagged.
    let mut v = MatBuf::from_vec(vec![3i64, 4]);
    assert_eq!(v.shape(), [2, 1]);
    v.transpose();
    assert_eq!(v.shape(), [1, 2]);
    assert!(!v.transposed);
    assert_eq!(*v.at(0, 1).unwrap(), 4);
    v.transpose();
    assert_eq!(v.shape(), [2, 1]);
    assert_eq!(*v.at(1, 0).unwrap(), 4);
}

#[test]
fn matbuf_row_of_transposed_is_refused() {
    let mut m = MatBuf::from_vec(vec![1i64, 2, 3, 4, 5, 6]);
    m.reshape([2, 3]);
    m.transpose();
    let v = m.as_mat();
    assert!(matches!(
        v.row(0),
        Err(densemat::Error::UnsupportedOnTransposedView)
    ));
}

#[test]
fn matbuf_out_of_bounds() {
    // A 2 x 2 matrix has no row 2.
    let mut m = MatBuf::from_vec(vec![1i64, 2, 3, 4]);
    m.reshape([2, 2]);
    assert!(matches!(m.at(2, 0), Err(densemat::Error::IndexOutOfBounds)));
    assert!(matches!(m.at(0, 2), Err(densemat::Error::IndexOutOfBounds)));
    assert!(m.at(1, 1).is_ok());
}

#[test]
fn matbuf_set_and_get() {
    let mut m = MatBuf::new_filled(0i64, [2, 2]);
    m.set(0, 1, 7).unwrap();
    assert_eq!(*m.at(0, 1).unwrap(), 7);
    assert_eq!(*m.at(1, 1).unwrap(), 0);
    assert!(matches!(
        m.set(5, 0, 1),
        Err(densemat::Error::IndexOutOfBounds)
    ));
}

#[test]
fn matbuf_new_filled() {
    let m = MatBuf::new_filled(9i64, [3, 2]);
    assert_eq!(m.len(), 6);
    for i in 0..3 {
        for j in 0..2 {
            assert_eq!(*m.at(i, j).unwrap(), 9);
        }
    }
}

#[test]
fn matbuf_from_array_rank() {
    let a = densemat::array::ArrayBuf::from_vec(vec![1i64, 2, 3, 4]);
    // A one-dimensional array is not a matrix.
    assert!(matches!(
        MatBuf::from_array(a),
        Err(densemat::Error::InvalidRank)
    ));
    let mut b = densemat::array::ArrayBuf::from_vec(vec![1i64, 2, 3, 4]);
    b.reshape(densemat::array::Shape::from_dims(vec![2, 2]), 0);
    let m = MatBuf::from_array(b).unwrap();
    assert_eq!(m.shape(), [2, 2]);
    assert_eq!(*m.at(1, 0).unwrap(), 3);
}
