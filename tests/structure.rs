use uiua_shape::array::{Array, ArrayMeta, MapKeys, PersistentMeta};
use uiua_shape::error::ArrayError;
use uiua_shape::value::Value;

fn bytes(shape: Vec<usize>, data: Vec<u8>) -> Array<u8> {
    Array::new(shape, data)
}

#[test]
fn row_accessors() {
    let a = bytes(vec![2, 3], vec![1, 2, 3, 4, 5, 6]);
    assert_eq!(a.row_count(), 2);
    assert_eq!(a.row_len(), 3);
    assert_eq!(a.rank(), 2);
    assert_eq!(a.element_count(), 6);
    assert_eq!(a.row_slice(1), vec![4, 5, 6]);
    let r = a.row(0);
    assert_eq!(r.shape, vec![3]);
    assert_eq!(r.data, vec![1, 2, 3]);
    let rows = a.rows();
    assert_eq!(rows.len(), 2);
    assert_eq!(rows[1].data, vec![4, 5, 6]);
}

#[test]
fn scalar_row_is_itself() {
    let s = Array::scalar(7u8);
    assert_eq!(s.row_count(), 1);
    assert_eq!(s.row_len(), 1);
    assert_eq!(s.as_scalar(), Some(7));
    assert_eq!(s.row(0).data, vec![7]);
}

#[test]
fn pop_row_takes_last() {
    let mut a = bytes(vec![3, 2], vec![1, 2, 3, 4, 5, 6]);
    let last = a.pop_row().unwrap();
    assert_eq!(last.data, vec![5, 6]);
    assert_eq!(a.shape, vec![2, 2]);
    assert_eq!(a.data, vec![1, 2, 3, 4]);
    let mut e = bytes(vec![0, 2], vec![]);
    assert!(e.pop_row().is_none());
}

#[test]
fn first_dim_zero_empties() {
    let a = bytes(vec![3, 2], vec![1, 2, 3, 4, 5, 6]);
    let z = a.first_dim_zero();
    assert_eq!(z.shape, vec![0, 2]);
    assert!(z.data.is_empty());
}

#[test]
fn persistent_meta_xor() {
    let a = PersistentMeta { label: Some("a".to_string()), map_keys: None };
    let b = PersistentMeta { label: Some("b".to_string()), map_keys: None };
    let c = PersistentMeta { label: None, map_keys: None };
    let x = PersistentMeta::xor_all(vec![a, c]);
    assert_eq!(x.label, Some("a".to_string()));
    let a = PersistentMeta { label: Some("a".to_string()), map_keys: None };
    let y = PersistentMeta::xor_all(vec![a, b]);
    assert!(y.label.is_none());
    let p = PersistentMeta { label: Some("p".to_string()), map_keys: None };
    let q = PersistentMeta::empty();
    assert_eq!(p.xor(q).label, Some("p".to_string()));
}

#[test]
fn combine_meta_drops_keys_and_odd_handles() {
    let mut a = bytes(vec![2], vec![1, 2]);
    a.meta.flags.boolean = true;
    a.meta.handle_kind = Some(3);
    a.meta.map_keys = Some(MapKeys { keys: Box::new(Value::Byte(bytes(vec![2], vec![9, 8]))) });
    let mut other = ArrayMeta::empty();
    other.handle_kind = Some(4);
    a.combine_meta(&other);
    assert!(!a.meta.flags.boolean);
    assert!(a.meta.map_keys.is_none());
    assert!(a.meta.handle_kind.is_none());
}

#[test]
fn keep_boolean_filters_rows() {
    let a = bytes(vec![4, 2], vec![1, 2, 3, 4, 5, 6, 7, 8]);
    let k = a.list_keep(&[1, 0, 1, 0], None).unwrap();
    assert_eq!(k.shape, vec![2, 2]);
    assert_eq!(k.data, vec![1, 2, 5, 6]);
}

#[test]
fn keep_replicates_rows() {
    let a = bytes(vec![3], vec![1, 2, 3]);
    let k = a.list_keep(&[2, 0, 3], None).unwrap();
    assert_eq!(k.shape, vec![5]);
    assert_eq!(k.data, vec![1, 1, 3, 3, 3]);
}

#[test]
fn keep_cycles_fill_counts() {
    let a = bytes(vec![5], vec![1, 2, 3, 4, 5]);
    let fill = vec![0, 2];
    let k = a.list_keep(&[1], Some(&fill)).unwrap();
    assert_eq!(k.data, vec![1, 3, 3, 5, 5]);
    assert_eq!(k.shape, vec![5]);
}

#[test]
fn keep_errors() {
    let a = bytes(vec![2], vec![1, 2]);
    assert!(matches!(a.list_keep(&[1, 1, 1], None), Err(ArrayError::ShapeMismatch)));
    let a = bytes(vec![2], vec![1, 2]);
    assert!(matches!(a.list_keep(&[1], None), Err(ArrayError::MissingFill)));
    let a = bytes(vec![2], vec![1, 2]);
    let empty: Vec<usize> = vec![];
    assert!(matches!(a.list_keep(&[1], Some(&empty)), Err(ArrayError::MissingFill)));
}

#[test]
fn keep_drops_map_keys() {
    let mut a = bytes(vec![2], vec![1, 2]);
    a.meta.map_keys = Some(MapKeys { keys: Box::new(Value::Byte(bytes(vec![2], vec![9, 8]))) });
    let k = a.list_keep(&[1, 1], None).unwrap();
    assert!(k.meta.map_keys.is_none());
}

#[test]
fn scalar_keep_repeats() {
    let s = Array::scalar(4u8);
    let k = s.scalar_keep(3);
    assert_eq!(k.shape, vec![3]);
    assert_eq!(k.data, vec![4, 4, 4]);
    let a = bytes(vec![2, 2], vec![1, 2, 3, 4]);
    let k = a.scalar_keep(2);
    assert_eq!(k.shape, vec![4, 2]);
    assert_eq!(k.data, vec![1, 2, 1, 2, 3, 4, 3, 4]);
    let a = bytes(vec![2], vec![1, 2]);
    let k = a.scalar_keep(0);
    assert_eq!(k.shape, vec![0]);
    assert!(k.data.is_empty());
}

#[test]
fn keep_then_undo_restores() {
    let a = bytes(vec![4, 2], vec![1, 2, 3, 4, 5, 6, 7, 8]);
    let counts = [1usize, 0, 0, 1];
    let kept = bytes(vec![4, 2], a.data.clone()).list_keep(&counts, None).unwrap();
    assert_eq!(kept.data, vec![1, 2, 7, 8]);
    let back = kept.undo_keep(&counts, a).unwrap();
    assert_eq!(back.shape, vec![4, 2]);
    assert_eq!(back.data, vec![1, 2, 3, 4, 5, 6, 7, 8]);
}

#[test]
fn undo_keep_uses_changed_rows() {
    let into = bytes(vec![3], vec![1, 2, 3]);
    let changed = bytes(vec![2], vec![10, 30]);
    let back = changed.undo_keep(&[1, 0, 1], into).unwrap();
    assert_eq!(back.data, vec![10, 2, 30]);
}

#[test]
fn undo_keep_errors() {
    let into = bytes(vec![3], vec![1, 2, 3]);
    let kept = bytes(vec![1], vec![1]);
    assert!(matches!(kept.undo_keep(&[2, 0, 1], into), Err(ArrayError::UnsupportedInverse)));
    let into = bytes(vec![3], vec![1, 2, 3]);
    let kept = bytes(vec![1], vec![1]);
    assert!(matches!(kept.undo_keep(&[1, 0, 1], into), Err(ArrayError::UnsupportedInverse)));
    let into = bytes(vec![2, 2], vec![1, 2, 3, 4]);
    let kept = bytes(vec![1, 3], vec![1, 2, 3]);
    assert!(matches!(kept.undo_keep(&[1, 0], into), Err(ArrayError::UnsupportedInverse)));
}
