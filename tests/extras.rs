use uiua_shape::array::Array;
use uiua_shape::error::ArrayError;
use uiua_shape::grid_fmt::{boxed_scalar, pad_grid_center, FormatShape, GridFmt, GridFmtParams};
use uiua_shape::value::Value;

fn bytes(shape: Vec<usize>, data: Vec<u8>) -> Array<u8> {
    Array::new(shape, data)
}

#[test]
fn undo_rerank_restores_shape() {
    let mut a = bytes(vec![2, 3, 4], (0..24).collect());
    a.rerank(2).unwrap();
    assert_eq!(a.shape, vec![6, 4]);
    a.undo_rerank(2, &vec![2, 3, 4]);
    assert_eq!(a.shape, vec![2, 3, 4]);
    let mut p = bytes(vec![2, 3], (0..6).collect());
    p.rerank(4).unwrap();
    assert_eq!(p.shape, vec![1, 1, 2, 3]);
    p.undo_rerank(4, &vec![2, 3]);
    assert_eq!(p.shape, vec![2, 3]);
    let mut b = bytes(vec![2, 3, 4], (0..24).collect());
    b.rerank(-2).unwrap();
    assert_eq!(b.shape, vec![6, 4]);
    b.undo_rerank(-2, &vec![2, 3, 4]);
    assert_eq!(b.shape, vec![2, 3, 4]);
    let mut c = bytes(vec![6], (0..6).collect());
    c.undo_rerank(0, &vec![5, 5]);
    assert_eq!(c.shape, vec![6]);
}

#[test]
fn depth_row_cells() {
    let a = bytes(vec![2, 2, 2], (0..8).collect());
    let r = a.depth_row(1, 3);
    assert_eq!(r.shape, vec![2]);
    assert_eq!(r.data, vec![6, 7]);
    let whole = a.depth_row(5, 0);
    assert_eq!(whole.shape, vec![2, 2, 2]);
}

#[test]
fn scalars_and_defaults() {
    assert_eq!(Array::scalar(3u8).into_scalar().ok(), Some(3));
    assert!(bytes(vec![1], vec![3]).into_scalar().is_err());
    let d: Array<u8> = Array::default();
    assert_eq!(d.shape, vec![0]);
    assert!(d.data.is_empty());
}

#[test]
fn scalar_grids() {
    let plain = GridFmtParams { boxed: false, label: false };
    let boxed = GridFmtParams { boxed: true, label: false };
    assert_eq!(7u8.fmt_grid(plain), vec![vec!['7']]);
    assert_eq!(42u8.fmt_grid(boxed), vec![vec!['□', '4', '2']]);
    assert_eq!('a'.fmt_grid(plain), vec![vec!['@', 'a']]);
    assert_eq!('a'.fmt_grid(boxed), vec![vec!['⌞', 'a']]);
    assert_eq!(120u8.grid_string(false), "120");
    assert_eq!('\n'.grid_string(false), "@\\n");
    assert_eq!(boxed_scalar(true), vec!['□']);
    assert!(boxed_scalar(false).is_empty());
}

#[test]
fn grid_centering() {
    let mut g = vec![vec!['1', '2']];
    pad_grid_center(5, 3, true, &mut g);
    assert_eq!(
        g,
        vec![vec![' '; 5], vec![' ', ' ', ' ', '1', '2'], vec![' '; 5]]
    );
    let mut h = vec![vec!['a', 'b']];
    pad_grid_center(5, 1, false, &mut h);
    assert_eq!(h, vec![vec![' ', 'a', 'b', ' ', ' ']]);
    let mut b = vec![vec!['⟦', 'x']];
    pad_grid_center(4, 1, true, &mut b);
    assert_eq!(b, vec![vec!['⟦', 'x', ' ', ' ']]);
    let mut t = vec![vec!['a', 'b', 'c'], vec!['d'], vec!['e']];
    pad_grid_center(2, 2, false, &mut t);
    assert_eq!(t, vec![vec!['a', 'b'], vec!['d', ' ']]);
}

#[test]
fn value_undo_keep() {
    let into = Value::Byte(bytes(vec![3], vec![1, 2, 3]));
    let kept = Value::Byte(bytes(vec![1], vec![9]));
    match kept.undo_keep(&vec![0, 1, 0], into) {
        Ok(Value::Byte(a)) => assert_eq!(a.data, vec![1, 9, 3]),
        _ => panic!("undo failed"),
    }
    let into = Value::Byte(bytes(vec![1], vec![1]));
    let other = Value::Char(Array::new(vec![1], vec!['x']));
    assert!(matches!(other.undo_keep(&vec![1], into), Err(ArrayError::ShapeMismatch)));
}

#[test]
fn value_undo_reshape() {
    let mut v = Value::Byte(bytes(vec![6], (0..6).collect()));
    assert_eq!(v.undo_reshape(&vec![3, 2]), Ok(()));
    assert_eq!(v.shape_string(), "3×2 ℝ");
    assert_eq!(v.undo_reshape(&vec![4]), Err(ArrayError::ShapeMismatch));
}

#[test]
fn shape_text_for_messages() {
    assert_eq!(FormatShape(vec![2, 3]).text(), "[2 × 3]");
    assert_eq!(FormatShape(vec![]).text(), "[]");
    assert_eq!(FormatShape(vec![10]).text(), "[10]");
}

#[test]
fn list_and_bool_constructors() {
    let l = Array::from_list(vec![4u8, 5, 6]);
    assert_eq!(l.shape, vec![3]);
    let b = Array::from_bools(vec![true, false, true]);
    assert_eq!(b.data, vec![1, 0, 1]);
    let s = Array::from_bool(true);
    assert!(s.shape.is_empty());
    assert_eq!(s.data, vec![1]);
    assert!(s.meta.flags.is_boolean());
}

#[test]
fn row_shaped_slices_chunks() {
    let a = bytes(vec![7], (0..7).collect());
    let parts = a.row_shaped_slices(&vec![3]);
    assert_eq!(parts.len(), 2);
    assert_eq!(parts[1].data, vec![3, 4, 5]);
    assert_eq!(parts[0].shape, vec![3]);
}
