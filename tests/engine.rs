use uiua_shape::array::{Array, MapKeys};
use uiua_shape::error::ArrayError;
use uiua_shape::value::{Fills, Value};

fn bytes(shape: Vec<usize>, data: Vec<u8>) -> Array<u8> {
    Array::new(shape, data)
}

fn list(data: Vec<u8>) -> Array<u8> {
    let n = data.len();
    Array::new(vec![n], data)
}

fn no_fills() -> Fills {
    Fills { byte: None, ch: None, counts: None }
}

#[test]
fn mask_numbers_matches() {
    let m = list(vec![1, 2]).mask(&list(vec![1, 2, 1, 2, 2, 1, 2])).unwrap();
    assert_eq!(m.shape, vec![7]);
    assert_eq!(m.data, vec![1, 1, 2, 2, 0, 3, 3]);
}

#[test]
fn mask_skips_overlaps() {
    let m = list(vec![1, 1]).mask(&list(vec![1, 1, 1])).unwrap();
    assert_eq!(m.data, vec![1, 1, 0]);
}

#[test]
fn mask_too_big_or_deep() {
    let m = list(vec![1, 1, 1]).mask(&list(vec![1, 1])).unwrap();
    assert_eq!(m.data, vec![0, 0]);
    let deep = bytes(vec![1, 1], vec![1]);
    assert!(matches!(deep.mask(&list(vec![1])), Err(ArrayError::ShapeMismatch)));
}

#[test]
fn coordinate_lower_rank() {
    let hay = bytes(vec![2, 2], vec![1, 2, 3, 4]);
    let c = list(vec![3, 4]).coordinate(&hay).unwrap();
    assert!(c.shape.is_empty());
    assert_eq!(c.data, vec![1]);
    let hay3 = bytes(vec![2, 2, 2], (1..9).collect());
    let c = list(vec![5, 6]).coordinate(&hay3).unwrap();
    assert_eq!(c.shape, vec![2]);
    assert_eq!(c.data, vec![1, 0]);
    let missing = list(vec![9, 9]).coordinate(&hay3).unwrap();
    assert_eq!(missing.data, vec![2, 2]);
}

#[test]
fn coordinate_equal_rank() {
    let hay = bytes(vec![2, 2], vec![1, 2, 3, 4]);
    let c = bytes(vec![1, 2], vec![3, 4]).coordinate(&hay).unwrap();
    assert_eq!(c.shape, vec![1, 1]);
    assert_eq!(c.data, vec![1]);
}

#[test]
fn rotate_depth_per_row() {
    let mut a = bytes(vec![2, 3], vec![1, 2, 3, 4, 5, 6]);
    let by = Array::new(vec![2, 1], vec![1isize, 2]);
    a.rotate_depth(&by, 1, 1, None).unwrap();
    assert_eq!(a.data, vec![2, 3, 1, 6, 4, 5]);
}

#[test]
fn rotate_depth_broadcasts_offsets() {
    let mut a = bytes(vec![2, 3], vec![1, 2, 3, 4, 5, 6]);
    let by = Array::new(vec![], vec![1isize]);
    a.rotate_depth(&by, 1, 0, None).unwrap();
    assert_eq!(a.shape, vec![2, 3]);
    assert_eq!(a.data, vec![2, 3, 1, 5, 6, 4]);
}

#[test]
fn rotate_depth_prefix_mismatch() {
    let mut a = bytes(vec![2, 3], vec![1, 2, 3, 4, 5, 6]);
    let by = Array::new(vec![3, 1], vec![1isize, 1, 1]);
    assert_eq!(a.rotate_depth(&by, 1, 1, None), Err(ArrayError::ShapeMismatch));
}

#[test]
fn rotate_moves_map_keys() {
    let mut a = list(vec![1, 2, 3]);
    a.meta.map_keys = Some(MapKeys { keys: Box::new(Value::Byte(list(vec![7, 8, 9]))) });
    let by = Array::new(vec![1], vec![1isize]);
    a.rotate(&by, None).unwrap();
    assert_eq!(a.data, vec![2, 3, 1]);
    match a.meta.map_keys.as_ref().map(|k| &*k.keys) {
        Some(Value::Byte(k)) => assert_eq!(k.data, vec![8, 9, 7]),
        _ => panic!("map keys lost"),
    }
}

#[test]
fn value_search_needs_same_kind() {
    let b = Value::Byte(list(vec![1, 2]));
    let c = Value::Char(Array::new(vec![2], vec!['a', 'b']));
    assert!(matches!(b.member(&c), Err(ArrayError::ShapeMismatch)));
    assert!(matches!(b.index_of(&c), Err(ArrayError::ShapeMismatch)));
    let hay = Value::Byte(list(vec![2, 1, 2]));
    assert_eq!(b.member(&hay).unwrap().data, vec![1, 1]);
    assert_eq!(b.index_of(&hay).unwrap().data, vec![1, 0]);
    assert_eq!(b.progressive_index_of(&hay).unwrap().data, vec![1, 0]);
}

#[test]
fn value_keep_and_rerank() {
    let v = Value::Byte(list(vec![1, 2, 3]));
    let kept = Value::keep(&vec![2], true, v, &no_fills()).unwrap();
    match &kept {
        Value::Byte(a) => assert_eq!(a.data, vec![1, 1, 2, 2, 3, 3]),
        _ => panic!("kind changed"),
    }
    let mut r = Value::Byte(bytes(vec![2, 3], vec![0; 6]));
    r.rerank(0).unwrap();
    match &r {
        Value::Byte(a) => assert_eq!(a.shape, vec![6]),
        _ => panic!("kind changed"),
    }
}

#[test]
fn value_reshape_and_windows() {
    let mut v = Value::Char(Array::new(vec![4], vec!['a', 'b', 'c', 'd']));
    v.reshape(&[Ok(2), Ok(2)], &no_fills()).unwrap();
    assert_eq!(v.shape_string(), "2×2 @");
    let w = v.windows(&[1]).unwrap();
    assert_eq!(w.shape_string(), "2×1×2 @");
}

#[test]
fn value_find_and_mask() {
    let p = Value::Byte(list(vec![2]));
    let h = Value::Byte(list(vec![1, 2, 2]));
    assert_eq!(p.find(&h, &no_fills()).unwrap().data, vec![0, 1, 1]);
    assert_eq!(p.mask(&h).unwrap().data, vec![0, 1, 2]);
}

#[test]
fn value_reshape_errors_and_keys() {
    let mut v = Value::Byte(list(vec![1, 2, 3, 4]));
    assert_eq!(v.reshape(&[Err(false), Ok(0)], &no_fills()), Err(ArrayError::InvalidDimension));
    let mut e = Value::Byte(bytes(vec![0], vec![]));
    assert_eq!(e.reshape(&[Ok(2)], &no_fills()), Err(ArrayError::MissingFill));
    let filled = Fills { byte: Some(7), ch: None, counts: None };
    assert_eq!(e.reshape(&[Ok(2)], &filled), Ok(()));
    match &e {
        Value::Byte(a) => assert_eq!(a.data, vec![7, 7]),
        _ => panic!("kind changed"),
    }
}
