use uiua_shape::array::{Array, MapKeys, WILDCARD_CHAR};
use uiua_shape::error::ArrayError;
use uiua_shape::grid_fmt::{format_char_inner, pad_grid_min};
use uiua_shape::value::Value;

fn bytes(shape: Vec<usize>, data: Vec<u8>) -> Array<u8> {
    Array::new(shape, data)
}

fn list(data: Vec<u8>) -> Array<u8> {
    let n = data.len();
    Array::new(vec![n], data)
}

#[test]
fn find_one_dimensional() {
    let f = list(vec![1, 2]).find(&list(vec![1, 1, 2, 1, 2]), None);
    assert_eq!(f.shape, vec![5]);
    assert_eq!(f.data, vec![0, 1, 0, 1, 0]);
    assert!(f.meta.flags.boolean);
}

#[test]
fn find_two_dimensional() {
    let pat = bytes(vec![2, 2], vec![1, 2, 3, 4]);
    let hay = bytes(vec![3, 3], vec![1, 2, 0, 3, 4, 1, 0, 3, 4]);
    let f = pat.find(&hay, None);
    assert_eq!(f.shape, vec![3, 3]);
    assert_eq!(f.data, vec![1, 0, 0, 0, 0, 0, 0, 0, 0]);
}

#[test]
fn find_larger_pattern() {
    let f = list(vec![1, 2, 3]).find(&list(vec![1, 2]), None);
    assert_eq!(f.data, vec![0, 0]);
    let g = list(vec![1, 2, 0]).find(&list(vec![1, 2]), Some(0));
    assert_eq!(g.shape, vec![3]);
    assert_eq!(g.data, vec![1, 0, 0]);
}

#[test]
fn find_char_wildcard() {
    let pat: Array<char> = Array::new(vec![2], vec!['a', WILDCARD_CHAR]);
    let hay: Array<char> = Array::new(vec![4], vec!['a', 'b', 'a', 'c']);
    assert_eq!(pat.find(&hay, None).data, vec![1, 0, 1, 0]);
}

#[test]
fn member_rows() {
    let needle = bytes(vec![3, 2], vec![1, 2, 5, 6, 3, 4]);
    let hay = bytes(vec![2, 2], vec![3, 4, 1, 2]);
    let m = needle.member(&hay).unwrap();
    assert!(m.meta.flags.boolean);
    assert_eq!(m.shape, vec![3]);
    assert_eq!(m.data, vec![1, 0, 1]);
    let i = needle.index_of(&hay).unwrap();
    assert_eq!(i.data, vec![1, 2, 0]);
    for r in 0..3 {
        assert_eq!(m.data[r] == 1, i.data[r] != hay.row_count());
    }
}

#[test]
fn member_lower_rank() {
    let needle = list(vec![3, 4]);
    let hay = bytes(vec![2, 2], vec![1, 2, 3, 4]);
    let m = needle.member(&hay).unwrap();
    assert!(m.shape.is_empty());
    assert_eq!(m.data, vec![1]);
    assert_eq!(needle.index_of(&hay).unwrap().data, vec![1]);
    let bad = list(vec![1, 2, 3]);
    assert!(matches!(bad.member(&hay), Err(ArrayError::ShapeMismatch)));
}

#[test]
fn member_higher_rank() {
    let needle = bytes(vec![2, 2], vec![1, 9, 9, 3]);
    let hay = list(vec![1, 2, 3]);
    let m = needle.member(&hay).unwrap();
    assert_eq!(m.shape, vec![2, 2]);
    assert_eq!(m.data, vec![1, 0, 0, 1]);
}

#[test]
fn progressive_index_consumes() {
    let needle = list(vec![5, 5]);
    let hay = list(vec![5, 5, 5]);
    assert_eq!(needle.progressive_index_of(&hay).unwrap().data, vec![0, 1]);
    assert_eq!(needle.index_of(&hay).unwrap().data, vec![0, 0]);
    let more = list(vec![5, 5, 5, 5]);
    assert_eq!(more.progressive_index_of(&hay).unwrap().data, vec![0, 1, 2, 3]);
}

#[test]
fn index_of_missing_is_row_count() {
    let needle = list(vec![7]);
    let hay = list(vec![1, 2, 3]);
    assert_eq!(needle.index_of(&hay).unwrap().data, vec![3]);
}

#[test]
fn shape_strings() {
    let a = bytes(vec![2, 3], vec![0; 6]);
    assert_eq!(a.shape_string(), "2×3 ℝ");
    let s: Array<char> = Array::scalar('x');
    assert_eq!(s.shape_string(), "@");
    let v = Value::Byte(bytes(vec![12], vec![0; 12]));
    assert_eq!(v.shape_string(), "12 ℝ");
    let mut m = bytes(vec![2], vec![1, 2]);
    let keys: Array<char> = Array::new(vec![2, 3], vec!['a'; 6]);
    m.meta.map_keys = Some(MapKeys { keys: Box::new(Value::Char(keys)) });
    assert_eq!(m.shape_string(), "2×3 @ → 2 ℝ");
}

#[test]
fn char_formatting() {
    assert_eq!(format_char_inner('a'), "a");
    assert_eq!(format_char_inner('\n'), "\\n");
    assert_eq!(format_char_inner('\''), "'");
    assert_eq!(format_char_inner('"'), "\"");
    assert_eq!(format_char_inner('\u{1}'), "\\x01");
    assert_eq!(format_char_inner('\u{10FFFF}'), "_");
    assert_eq!(format_char_inner(WILDCARD_CHAR), "�");
}

#[test]
fn grid_padding() {
    let mut g = vec![vec!['a', 'b', 'c'], vec!['d']];
    pad_grid_min(2, 3, &mut g);
    assert_eq!(g, vec![vec![' ', ' '], vec!['a', 'b'], vec![' ', 'd']]);
}
