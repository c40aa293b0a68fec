use densemat::array::{ArrayBuf, Shape};
use densemat::Error;

#[test]
fn shape_len_is_extent_product() {
    let s = Shape::from_dims(vec![2, 3, 4]);
    assert_eq!(s.len(), 24);
    assert_eq!(s.ndim(), 3);
    assert_eq!(s.len_of(1), 3);
    assert_eq!(Shape::new().len(), 0);
    assert_eq!(Shape::from_dims(vec![5, 0, 7]).len(), 0);
    assert_eq!(s.into_inner(), vec![2, 3, 4]);
}

#[test]
fn shape_checked_len_overflow() {
    let s = Shape::from_dims(vec![usize::MAX, 2]);
    assert_eq!(s.checked_len(), None);
    assert_eq!(Shape::from_dims(vec![usize::MAX, 2, 0]).checked_len(), Some(0));
}

#[test]
fn shape_index_row_major() {
    let s = Shape::from_dims(vec![2, 3]);
    assert_eq!(s.index(&[0, 0]).unwrap(), 0);
    assert_eq!(s.index(&[0, 2]).unwrap(), 2);
    assert_eq!(s.index(&[1, 0]).unwrap(), 3);
    assert_eq!(s.index(&[1, 2]).unwrap(), 5);
    let t = Shape::from_dims(vec![2, 3, 4]);
    assert_eq!(t.index(&[1, 2, 3]).unwrap(), 1 * 12 + 2 * 4 + 3);
}

#[test]
fn shape_index_is_injective_over_valid_tuples() {
    // Every valid tuple of a 2 x 3 shape gets its own offset in [0, 6).
    let s = Shape::from_dims(vec![2, 3]);
    let mut seen = vec![false; 6];
    for i in 0..2 {
        for j in 0..3 {
            let off = s.index(&[i, j]).unwrap();
            assert!(off < 6);
            assert!(!seen[off]);
            seen[off] = true;
        }
    }
}

#[test]
fn shape_index_errors() {
    let s = Shape::from_dims(vec![2, 3]);
    assert_eq!(
        s.index(&[1]).unwrap_err(),
        Error::DimensionMismatch { expected: 2, actual: 1 }
    );
    assert_eq!(s.index(&[2, 0]).unwrap_err(), Error::IndexOutOfBounds);
    assert_eq!(s.index(&[0, 3]).unwrap_err(), Error::IndexOutOfBounds);
}

#[test]
fn array_buf_basics() {
    let a: ArrayBuf<i64> = ArrayBuf::new();
    assert!(a.is_empty());
    assert_eq!(a.ndim(), 0);
    let b = ArrayBuf::from_vec(vec![1i64, 2, 3]);
    assert_eq!(b.len(), 3);
    assert_eq!(b.ndim(), 1);
    assert_eq!(b.as_slice(), &[1, 2, 3]);
    assert_eq!(b.shape().len_of(0), 3);
}

#[test]
fn array_buf_truncate() {
    let mut a = ArrayBuf::from_vec(vec![1i64, 2, 3, 4, 5, 6]);
    a.truncate(Shape::from_dims(vec![2, 2])).unwrap();
    assert_eq!(a.as_slice(), &[1, 2, 3, 4]);
    assert_eq!(a.ndim(), 2);
    // Truncating to the same shape again changes nothing.
    a.truncate(Shape::from_dims(vec![2, 2])).unwrap();
    assert_eq!(a.as_slice(), &[1, 2, 3, 4]);
    // Truncate is shrink-only.
    assert_eq!(
        a.truncate(Shape::from_dims(vec![5])).unwrap_err(),
        Error::ShapeGrowthNotAllowed
    );
    assert_eq!(a.as_slice(), &[1, 2, 3, 4]);
}

#[test]
fn array_buf_reshape_round_trip() {
    let mut a = ArrayBuf::from_vec(vec![1i64, 2, 3]);
    a.reshape(Shape::from_dims(vec![2, 3]), 0);
    assert_eq!(a.len(), 6);
    assert_eq!(a.as_slice(), &[1, 2, 3, 0, 0, 0]);
    // Reshaping back to a shape of the original length restores the length.
    a.reshape(Shape::from_dims(vec![3]), 0);
    assert_eq!(a.len(), 3);
    assert_eq!(a.as_slice(), &[1, 2, 3]);
}

#[test]
fn array_buf_reshape_with_generator() {
    let mut a = ArrayBuf::from_vec(vec![1i64, 2]);
    a.reshape_with(Shape::from_dims(vec![5]), || 7);
    assert_eq!(a.as_slice(), &[1, 2, 7, 7, 7]);
    a.reshape_with(Shape::from_dims(vec![1]), || 9);
    assert_eq!(a.as_slice(), &[1]);
}
