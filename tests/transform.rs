use uiua_shape::algebra::matrix_mul_shape_of;
use uiua_shape::array::{Array, MapKeys};
use uiua_shape::error::ArrayError;
use uiua_shape::reshape::derive_shape;
use uiua_shape::value::Value;

fn bytes(shape: Vec<usize>, data: Vec<u8>) -> Array<u8> {
    Array::new(shape, data)
}

fn offsets(data: Vec<isize>) -> Array<isize> {
    let n = data.len();
    Array::new(vec![n], data)
}

#[test]
fn reshape_exact_keeps_order() {
    let mut a = bytes(vec![2, 3], vec![1, 2, 3, 4, 5, 6]);
    a.reshape(&[Ok(3), Ok(2)], None).unwrap();
    assert_eq!(a.shape, vec![3, 2]);
    assert_eq!(a.data, vec![1, 2, 3, 4, 5, 6]);
}

#[test]
fn reshape_round_trip() {
    let mut a = bytes(vec![2, 3], vec![1, 2, 3, 4, 5, 6]);
    a.reshape(&[Ok(6)], Some(0)).unwrap();
    a.reshape(&[Ok(2), Ok(3)], Some(0)).unwrap();
    assert_eq!(a.shape, vec![2, 3]);
    assert_eq!(a.data, vec![1, 2, 3, 4, 5, 6]);
}

#[test]
fn reshape_tiles_without_fill() {
    let mut a = bytes(vec![3], vec![1, 2, 3]);
    a.reshape(&[Ok(2), Ok(4)], None).unwrap();
    assert_eq!(a.data, vec![1, 2, 3, 1, 2, 3, 1, 2]);
}

#[test]
fn reshape_extends_with_fill() {
    let mut a = bytes(vec![3], vec![1, 2, 3]);
    a.reshape(&[Ok(5)], Some(9)).unwrap();
    assert_eq!(a.data, vec![1, 2, 3, 9, 9]);
}

#[test]
fn reshape_truncates() {
    let mut a = bytes(vec![5], vec![1, 2, 3, 4, 5]);
    a.reshape(&[Ok(2)], None).unwrap();
    assert_eq!(a.shape, vec![2]);
    assert_eq!(a.data, vec![1, 2]);
}

#[test]
fn reshape_negative_reverses_axis() {
    let mut a = bytes(vec![4], vec![1, 2, 3, 4]);
    a.reshape(&[Ok(2), Ok(-2)], None).unwrap();
    assert_eq!(a.shape, vec![2, 2]);
    assert_eq!(a.data, vec![2, 1, 4, 3]);
}

#[test]
fn reshape_inferred_floor_and_ceil() {
    let mut a = bytes(vec![7], vec![1, 2, 3, 4, 5, 6, 7]);
    a.reshape(&[Err(false), Ok(2)], None).unwrap();
    assert_eq!(a.shape, vec![3, 2]);
    let mut b = bytes(vec![7], vec![1, 2, 3, 4, 5, 6, 7]);
    b.reshape(&[Err(false), Ok(2)], Some(0)).unwrap();
    assert_eq!(b.shape, vec![4, 2]);
    assert_eq!(b.data, vec![1, 2, 3, 4, 5, 6, 7, 0]);
}

#[test]
fn reshape_errors() {
    let mut a = bytes(vec![4], vec![1, 2, 3, 4]);
    assert_eq!(a.reshape(&[Err(false), Err(false)], None), Err(ArrayError::InvalidDimension));
    assert_eq!(a.reshape(&[Err(false), Ok(0)], None), Err(ArrayError::InvalidDimension));
    let mut e = bytes(vec![0], vec![]);
    assert_eq!(e.reshape(&[Ok(3)], None), Err(ArrayError::MissingFill));
    assert_eq!(a.shape, vec![4]);
}

#[test]
fn reshape_keeps_keys_only_with_same_rows() {
    let keys = || Some(MapKeys { keys: Box::new(Value::Byte(bytes(vec![2], vec![7, 8]))) });
    let mut a = bytes(vec![2, 2], vec![1, 2, 3, 4]);
    a.meta.map_keys = keys();
    a.reshape(&[Ok(2), Ok(2)], None).unwrap();
    assert!(a.meta.map_keys.is_some());
    a.reshape(&[Ok(4)], None).unwrap();
    assert!(a.meta.map_keys.is_none());
}

#[test]
fn derive_shape_values() {
    assert_eq!(derive_shape(10, &[Ok(2), Err(false)], false), Ok(vec![2, 5]));
    assert_eq!(derive_shape(10, &[Ok(3), Err(true)], true), Ok(vec![3, -4]));
    assert_eq!(derive_shape(10, &[Ok(3), Err(false), Ok(1)], false), Ok(vec![3, 3, 1]));
}

#[test]
fn reshape_scalar_replicates() {
    let mut a = bytes(vec![2], vec![1, 2]);
    a.reshape_scalar(Ok(3));
    assert_eq!(a.shape, vec![3, 2]);
    assert_eq!(a.data, vec![1, 2, 1, 2, 1, 2]);
    let mut b = bytes(vec![2], vec![1, 2]);
    b.reshape_scalar(Ok(-2));
    assert_eq!(b.shape, vec![2, 2]);
    assert_eq!(b.data, vec![2, 1, 2, 1]);
    let mut c = bytes(vec![2], vec![1, 2]);
    c.reshape_scalar(Ok(0));
    assert_eq!(c.shape, vec![0, 2]);
    assert!(c.data.is_empty());
}

#[test]
fn rerank_merges_and_pads() {
    let mut a = bytes(vec![2, 3, 4], (0..24).collect());
    a.rerank(2).unwrap();
    assert_eq!(a.shape, vec![6, 4]);
    let mut f = bytes(vec![2, 3, 4], (0..24).collect());
    f.rerank(1).unwrap();
    assert_eq!(f.shape, vec![24]);
    let mut z = bytes(vec![2, 3], (0..6).collect());
    z.rerank(0).unwrap();
    assert_eq!(z.shape, vec![6]);
    let mut b = bytes(vec![2, 3], (0..6).collect());
    b.rerank(3).unwrap();
    assert_eq!(b.shape, vec![1, 2, 3]);
    let mut same = bytes(vec![2, 3], (0..6).collect());
    same.rerank(2).unwrap();
    assert_eq!(same.shape, vec![2, 3]);
    let mut c = bytes(vec![2, 3, 4], (0..24).collect());
    c.rerank(-2).unwrap();
    assert_eq!(c.shape, vec![6, 4]);
    let mut d = bytes(vec![2], vec![1, 2]);
    assert_eq!(d.rerank(-2), Err(ArrayError::InvalidDimension));
    assert_eq!(d.shape, vec![2]);
}

#[test]
fn undo_reshape_checks_count() {
    let mut a = bytes(vec![6], (0..6).collect());
    assert_eq!(a.undo_reshape(&vec![2, 3]), Ok(()));
    assert_eq!(a.shape, vec![2, 3]);
    assert_eq!(a.undo_reshape(&vec![4]), Err(ArrayError::ShapeMismatch));
}

#[test]
fn rotate_first_axis() {
    let mut a = bytes(vec![5], vec![1, 2, 3, 4, 5]);
    a.rotate(&offsets(vec![2]), None).unwrap();
    assert_eq!(a.data, vec![3, 4, 5, 1, 2]);
    let mut b = bytes(vec![5], vec![1, 2, 3, 4, 5]);
    b.rotate(&offsets(vec![-1]), None).unwrap();
    assert_eq!(b.data, vec![5, 1, 2, 3, 4]);
}

#[test]
fn rotate_two_axes() {
    let mut a = bytes(vec![2, 3], vec![1, 2, 3, 4, 5, 6]);
    a.rotate(&offsets(vec![1, 1]), None).unwrap();
    assert_eq!(a.data, vec![5, 6, 4, 2, 3, 1]);
}

#[test]
fn rotate_round_trip() {
    let orig = vec![1u8, 2, 3, 4, 5, 6, 7, 8, 9, 10, 11, 12];
    let mut a = bytes(vec![3, 4], orig.clone());
    a.rotate(&offsets(vec![2, -5]), None).unwrap();
    assert_ne!(a.data, orig);
    a.rotate(&offsets(vec![-2, 5]), None).unwrap();
    assert_eq!(a.data, orig);
}

#[test]
fn rotate_with_fill_shifts() {
    let mut a = bytes(vec![5], vec![1, 2, 3, 4, 5]);
    a.meta.flags.boolean = true;
    a.rotate(&offsets(vec![2]), Some(0)).unwrap();
    assert_eq!(a.data, vec![3, 4, 5, 0, 0]);
    assert!(!a.meta.flags.boolean);
    let mut b = bytes(vec![5], vec![1, 2, 3, 4, 5]);
    b.rotate(&offsets(vec![-7]), Some(0)).unwrap();
    assert_eq!(b.data, vec![0, 0, 0, 0, 0]);
}

#[test]
fn rotate_errors() {
    let mut a = bytes(vec![3], vec![1, 2, 3]);
    assert_eq!(a.rotate(&offsets(vec![1, 1]), None), Err(ArrayError::ShapeMismatch));
    let by = Array::new(vec![1, 1], vec![1isize]);
    assert_eq!(a.rotate(&by, None), Err(ArrayError::ShapeMismatch));
    let mut e = bytes(vec![0], vec![]);
    assert_eq!(e.rotate(&offsets(vec![1]), None), Ok(()));
}

#[test]
fn windows_count() {
    let a = bytes(vec![10], (0..10).collect());
    let w = a.windows(&[3]).unwrap();
    assert_eq!(w.shape, vec![8, 3]);
    assert_eq!(&w.data[0..6], &[0, 1, 2, 1, 2, 3]);
    assert_eq!(&w.data[21..24], &[7, 8, 9]);
    let big = a.windows(&[11]).unwrap();
    assert_eq!(big.shape, vec![0, 11]);
    assert!(big.data.is_empty());
}

#[test]
fn windows_two_dimensional() {
    let a = bytes(vec![3, 3], (1..10).collect());
    let w = a.windows(&[2, 2]).unwrap();
    assert_eq!(w.shape, vec![2, 2, 2, 2]);
    assert_eq!(&w.data[0..4], &[1, 2, 4, 5]);
    assert_eq!(&w.data[12..16], &[5, 6, 8, 9]);
    let rows = a.windows(&[2]).unwrap();
    assert_eq!(rows.shape, vec![2, 2, 3]);
    assert_eq!(rows.data, vec![1, 2, 3, 4, 5, 6, 4, 5, 6, 7, 8, 9]);
}

#[test]
fn windows_negative_size() {
    let a = bytes(vec![4], vec![1, 2, 3, 4]);
    let w = a.windows(&[-2]).unwrap();
    assert_eq!(w.shape, vec![2, 3]);
    assert_eq!(w.data, vec![1, 2, 3, 2, 3, 4]);
}

#[test]
fn windows_errors() {
    let a = bytes(vec![4], vec![1, 2, 3, 4]);
    assert!(matches!(a.windows(&[0]), Err(ArrayError::InvalidDimension)));
    assert!(matches!(a.windows(&[1, 1]), Err(ArrayError::ShapeMismatch)));
}

#[test]
fn matrix_shape() {
    assert_eq!(matrix_mul_shape_of(&vec![2, 3], &vec![3, 3]), Ok(vec![2, 3]));
    assert_eq!(matrix_mul_shape_of(&vec![100, 4], &vec![4, 4]), Ok(vec![100, 4]));
    assert_eq!(matrix_mul_shape_of(&vec![2, 3], &vec![4, 2]), Err(ArrayError::ShapeMismatch));
}
