//! The array data model: a shape, a row-major buffer and metadata.
use vstd::prelude::*;

use crate::shape::{lemma_product_split, lemma_sub_fits, product, product_range, shape_fits};
use crate::value::Value;

verus! {

/// A character that compares equal to every character.
pub const WILDCARD_CHAR: char = '\u{E000}';

/// Element types of arrays: plain copyable values with a comparison that
/// may treat some values as wildcards.
pub trait ArrayValue: Copy + Sized {
    /// Whether two elements count as equal when searching.
    spec fn matches(self, other: Self) -> bool;

    /// Compares two elements.
    fn array_eq(&self, other: &Self) -> (r: bool)
        ensures
            r == self.matches(*other),
    ;

    /// A glyph naming the element kind.
    spec fn symbol_spec() -> char;

    /// A glyph naming the element kind.
    fn symbol() -> (r: char)
        ensures
            r == Self::symbol_spec(),
    ;
}

impl ArrayValue for u8 {
    open spec fn matches(self, other: Self) -> bool {
        self == other
    }

    fn array_eq(&self, other: &Self) -> (r: bool) {
        *self == *other
    }

    open spec fn symbol_spec() -> char {
        'ℝ'
    }

    fn symbol() -> (r: char) {
        'ℝ'
    }
}

impl ArrayValue for isize {
    open spec fn matches(self, other: Self) -> bool {
        self == other
    }

    fn array_eq(&self, other: &Self) -> (r: bool) {
        *self == *other
    }

    open spec fn symbol_spec() -> char {
        'ℝ'
    }

    fn symbol() -> (r: char) {
        'ℝ'
    }
}

impl ArrayValue for usize {
    open spec fn matches(self, other: Self) -> bool {
        self == other
    }

    fn array_eq(&self, other: &Self) -> (r: bool) {
        *self == *other
    }

    open spec fn symbol_spec() -> char {
        'ℝ'
    }

    fn symbol() -> (r: char) {
        'ℝ'
    }
}

impl ArrayValue for char {
    open spec fn matches(self, other: Self) -> bool {
        self == WILDCARD_CHAR || other == WILDCARD_CHAR || self == other
    }

    fn array_eq(&self, other: &Self) -> (r: bool) {
        *self == WILDCARD_CHAR || *other == WILDCARD_CHAR || *self == *other
    }

    open spec fn symbol_spec() -> char {
        '@'
    }

    fn symbol() -> (r: char) {
        '@'
    }
}

/// Two sequences of elements have equal length and match element by element.
pub open spec fn seq_matches<T: ArrayValue>(a: Seq<T>, b: Seq<T>) -> bool {
    a.len() == b.len() && forall|i: int| 0 <= i < a.len() ==> #[trigger] a[i].matches(b[i])
}

/// Compares two rows element by element.
pub fn slices_match<T: ArrayValue>(a: &[T], b: &[T]) -> (r: bool)
    ensures
        r == seq_matches(a@, b@),
{
    if a.len() != b.len() {
        return false;
    }
    let mut i: usize = 0;
    while i < a.len()
        invariant
            a@.len() == b@.len(),
            i <= a@.len(),
            forall|j: int| 0 <= j < i ==> #[trigger] a@[j].matches(b@[j]),
        decreases a@.len() - i,
    {
        if !a[i].array_eq(&b[i]) {
            return false;
        }
        i = i + 1;
    }
    true
}

/// Markers that let later operations take faster paths.
#[derive(Debug, Clone, Copy, PartialEq, Eq, Structural)]
pub struct ArrayFlags {
    /// Every element is 0 or 1.
    pub boolean: bool,
    /// The array was made from a boolean literal.
    pub boolean_literal: bool,
}

impl ArrayFlags {
    /// No flags set.
    pub fn none() -> (r: Self)
        ensures
            !r.boolean && !r.boolean_literal,
    {
        ArrayFlags { boolean: false, boolean_literal: false }
    }

    /// Whether the array is boolean.
    pub fn is_boolean(self) -> (r: bool)
        ensures
            r == self.boolean,
    {
        self.boolean
    }

    /// Clears all flags.
    pub fn reset(&mut self)
        ensures
            !final(self).boolean && !final(self).boolean_literal,
    {
        self.boolean = false;
        self.boolean_literal = false;
    }
}

/// Keys that make an array an associative map: row `i` of the keys belongs to
/// row `i` of the array.
pub struct MapKeys {
    pub keys: Box<Value>,
}

/// Metadata that travels with an array.
pub struct ArrayMeta {
    /// The label.
    pub label: Option<String>,
    /// Flags for the array.
    pub flags: ArrayFlags,
    /// The keys of a map array.
    pub map_keys: Option<MapKeys>,
    /// Tag of the outside handle the array stands for; never copied to a
    /// changed array.
    pub handle_kind: Option<u64>,
}

impl ArrayMeta {
    /// Metadata with nothing set.
    pub fn empty() -> (r: Self)
        ensures
            r.label is None,
            r.map_keys is None,
            r.handle_kind is None,
            !r.flags.boolean && !r.flags.boolean_literal,
    {
        ArrayMeta { label: None, flags: ArrayFlags::none(), map_keys: None, handle_kind: None }
    }
}

/// The metadata that may outlive an operation: label and map keys.
pub struct PersistentMeta {
    pub label: Option<String>,
    pub map_keys: Option<MapKeys>,
}

/// Exactly one of two options, if exactly one is set.
pub fn option_xor<A>(a: Option<A>, b: Option<A>) -> (r: Option<A>)
    ensures
        r is Some <==> (a is Some) != (b is Some),
        a is Some && b is None ==> r == a,
        a is None && b is Some ==> r == b,
{
    match (a, b) {
        (Some(x), None) => Some(x),
        (None, Some(y)) => Some(y),
        _ => None,
    }
}

impl PersistentMeta {
    /// Metadata with nothing set.
    pub fn empty() -> (r: Self)
        ensures
            r.label is None,
            r.map_keys is None,
    {
        PersistentMeta { label: None, map_keys: None }
    }

    /// Keeps each part that exactly one of the two has.
    pub fn xor(self, other: Self) -> (r: Self)
        ensures
            r.label is Some <==> (self.label is Some) != (other.label is Some),
            r.map_keys is Some <==> (self.map_keys is Some) != (other.map_keys is Some),
    {
        PersistentMeta {
            label: option_xor(self.label, other.label),
            map_keys: option_xor(self.map_keys, other.map_keys),
        }
    }

    /// Keeps each part that exactly one of the metadatas has.
    pub fn xor_all(metas: Vec<PersistentMeta>) -> (r: Self)
        ensures
            r.label is Some <==> count_labels(metas@) == 1,
            r.map_keys is Some <==> count_keys(metas@) == 1,
    {
        let mut metas = metas;
        let ghost all = metas@;
        let mut label: Option<String> = None;
        let mut map_keys: Option<MapKeys> = None;
        let mut seen_labels: usize = 0;
        let mut seen_keys: usize = 0;
        let mut i: usize = metas.len();
        while i > 0
            invariant
                metas@.len() == i,
                metas@ =~= all.take(i as int),
                i <= all.len(),
                seen_labels <= 1,
                seen_keys <= 1,
                seen_labels == 0 <==> count_labels(all.skip(i as int)) == 0,
                seen_labels == 1 <==> count_labels(all.skip(i as int)) >= 1,
                label is Some <==> count_labels(all.skip(i as int)) == 1,
                seen_keys == 0 <==> count_keys(all.skip(i as int)) == 0,
                seen_keys == 1 <==> count_keys(all.skip(i as int)) >= 1,
                map_keys is Some <==> count_keys(all.skip(i as int)) == 1,
            decreases i,
        {
            let meta = metas.pop().unwrap();
            i = i - 1;
            assert(all.skip(i as int).drop_first() =~= all.skip(i + 1));
            assert(all.skip(i as int)[0] == all[i as int]);
            if let Some(l) = meta.label {
                if seen_labels == 1 {
                    label = None;
                } else {
                    label = Some(l);
                    seen_labels = 1;
                }
            }
            if let Some(k) = meta.map_keys {
                if seen_keys == 1 {
                    map_keys = None;
                } else {
                    map_keys = Some(k);
                    seen_keys = 1;
                }
            }
        }
        assert(all.skip(0) =~= all);
        PersistentMeta { label, map_keys }
    }
}

/// Number of metadatas with a label.
pub open spec fn count_labels(s: Seq<PersistentMeta>) -> nat
    decreases s.len(),
{
    if s.len() == 0 {
        0
    } else {
        (if s[0].label is Some {
            1nat
        } else {
            0nat
        }) + count_labels(s.drop_first())
    }
}

/// Number of metadatas with map keys.
pub open spec fn count_keys(s: Seq<PersistentMeta>) -> nat
    decreases s.len(),
{
    if s.len() == 0 {
        0
    } else {
        (if s[0].map_keys is Some {
            1nat
        } else {
            0nat
        }) + count_keys(s.drop_first())
    }
}

/// Number of rows of an array of the given shape; a scalar counts as one row.
pub open spec fn row_count_of(s: Seq<usize>) -> nat {
    if s.len() == 0 {
        1
    } else {
        s[0] as nat
    }
}

/// Number of elements in a row of an array of the given shape.
pub open spec fn row_len_of(s: Seq<usize>) -> nat {
    product(row_shape_of(s))
}

/// Shape of a row of an array of the given shape; a scalar is its own row.
pub open spec fn row_shape_of(s: Seq<usize>) -> Seq<usize> {
    if s.len() == 0 {
        s
    } else {
        s.drop_first()
    }
}

/// Row `i` of a buffer whose rows have length `rl`.
pub open spec fn row_of<T>(data: Seq<T>, rl: nat, i: int) -> Seq<T> {
    data.subrange(i * rl, (i + 1) * rl)
}

/// The element count of a non-scalar shape is its row count times its row length.
pub proof fn lemma_rows(s: Seq<usize>)
    ensures
        product(s) == row_count_of(s) * row_len_of(s),
{
}

/// Row `i` lies inside a buffer of `n` rows of length `rl`.
pub proof fn lemma_row_bounds(n: nat, rl: nat, i: int)
    requires
        0 <= i < n,
    ensures
        0 <= i * rl,
        i * rl + rl == (i + 1) * rl,
        (i + 1) * rl <= n * rl,
{
    assert((i + 1) * rl <= n * rl) by (nonlinear_arith)
        requires
            0 <= i < n,
    ;
    assert(i * rl + rl == (i + 1) * rl) by (nonlinear_arith);
    assert(0 <= i * rl) by (nonlinear_arith)
        requires
            0 <= i,
    ;
}

/// Row `i` of an array of shape `s` lies inside its buffer.
pub proof fn lemma_row_in(s: Seq<usize>, len: nat, i: int)
    requires
        product(s) == len,
        0 <= i < row_count_of(s),
    ensures
        0 <= i * row_len_of(s),
        i * row_len_of(s) + row_len_of(s) <= len,
        i * row_len_of(s) + row_len_of(s) == (i + 1) * row_len_of(s),
{
    lemma_rows(s);
    let n = row_count_of(s);
    let rl = row_len_of(s);
    lemma_row_bounds(n, rl, i);
    assert(n * rl == len);
}

/// Copies `v[lo..hi]`.
pub fn copy_range<T: Copy>(v: &[T], lo: usize, hi: usize) -> (r: Vec<T>)
    requires
        lo <= hi <= v@.len(),
    ensures
        r@ == v@.subrange(lo as int, hi as int),
{
    let mut r: Vec<T> = Vec::new();
    let mut i: usize = lo;
    while i < hi
        invariant
            lo <= i <= hi <= v@.len(),
            r@ == v@.subrange(lo as int, i as int),
        decreases hi - i,
    {
        r.push(v[i]);
        i = i + 1;
        assert(r@ =~= v@.subrange(lo as int, i as int));
    }
    r
}

/// Appends `v[lo..hi]` to `out`.
pub fn extend_range<T: Copy>(out: &mut Vec<T>, v: &[T], lo: usize, hi: usize)
    requires
        lo <= hi <= v@.len(),
    ensures
        final(out)@ == old(out)@ + v@.subrange(lo as int, hi as int),
{
    let ghost start = out@;
    let mut i: usize = lo;
    while i < hi
        invariant
            lo <= i <= hi <= v@.len(),
            out@ == start + v@.subrange(lo as int, i as int),
        decreases hi - i,
    {
        out.push(v[i]);
        i = i + 1;
        assert(out@ =~= start + v@.subrange(lo as int, i as int));
    }
}

/// An N-dimensional array: a shape and the elements in row-major order.
pub struct Array<T> {
    pub shape: Vec<usize>,
    pub data: Vec<T>,
    pub meta: ArrayMeta,
}

impl<T: ArrayValue> Array<T> {
    /// The shape's element count is the buffer's length, and every product of
    /// dimensions fits in a `usize`.
    pub open spec fn wf(&self) -> bool {
        product(self.shape@) == self.data@.len() && shape_fits(self.shape@)
    }

    /// Creates an array from a shape and its elements.
    pub fn new(shape: Vec<usize>, data: Vec<T>) -> (r: Self)
        requires
            product(shape@) == data@.len(),
            shape_fits(shape@),
        ensures
            r.wf(),
            r.shape@ == shape@,
            r.data@ == data@,
            r.meta.map_keys is None,
            r.meta.label is None,
    {
        Array { shape, data, meta: ArrayMeta::empty() }
    }

    /// A rank-0 array holding one element.
    pub fn scalar(x: T) -> (r: Self)
        ensures
            r.wf(),
            r.shape@ == Seq::<usize>::empty(),
            r.data@ == seq![x],
    {
        let shape: Vec<usize> = Vec::new();
        let mut data: Vec<T> = Vec::new();
        data.push(x);
        assert(product(shape@) == 1);
        Array::new(shape, data)
    }

    /// Number of rows; a scalar has one.
    pub fn row_count(&self) -> (r: usize)
        requires
            self.wf(),
        ensures
            r == row_count_of(self.shape@),
    {
        if self.shape.len() == 0 {
            1
        } else {
            self.shape[0]
        }
    }

    /// Number of elements.
    pub fn element_count(&self) -> (r: usize)
        ensures
            r == self.data@.len(),
    {
        self.data.len()
    }

    /// Number of elements in a row.
    pub fn row_len(&self) -> (r: usize)
        requires
            self.wf(),
        ensures
            r == row_len_of(self.shape@),
    {
        if self.shape.len() == 0 {
            1
        } else {
            assert(self.shape@.subrange(1, self.shape@.len() as int) =~= self.shape@.drop_first());
            product_range(&self.shape, 1, self.shape.len())
        }
    }

    /// Number of dimensions.
    pub fn rank(&self) -> (r: usize)
        ensures
            r == self.shape@.len(),
    {
        self.shape.len()
    }

    /// The shape.
    pub fn shape(&self) -> (r: &Vec<usize>)
        ensures
            r@ == self.shape@,
    {
        &self.shape
    }

    /// The elements in row-major order.
    pub fn data(&self) -> (r: &Vec<T>)
        ensures
            r@ == self.data@,
    {
        &self.data
    }

    /// The metadata.
    pub fn meta(&self) -> (r: &ArrayMeta)
        ensures
            r == &self.meta,
    {
        &self.meta
    }

    /// The map keys, if the array is a map.
    pub fn map_keys(&self) -> (r: &Option<MapKeys>)
        ensures
            r == &self.meta.map_keys,
    {
        &self.meta.map_keys
    }

    /// Removes and returns the label.
    pub fn take_label(&mut self) -> (r: Option<String>)
        ensures
            r == old(self).meta.label,
            final(self).meta.label is None,
            final(self).shape@ == old(self).shape@,
            final(self).data@ == old(self).data@,
            final(self).meta.map_keys == old(self).meta.map_keys,
            final(self).meta.flags == old(self).meta.flags,
    {
        self.meta.label.take()
    }

    /// Removes and returns the map keys.
    pub fn take_map_keys(&mut self) -> (r: Option<MapKeys>)
        ensures
            r == old(self).meta.map_keys,
            final(self).meta.map_keys is None,
            final(self).shape@ == old(self).shape@,
            final(self).data@ == old(self).data@,
            final(self).meta.label == old(self).meta.label,
            final(self).meta.flags == old(self).meta.flags,
    {
        self.meta.map_keys.take()
    }

    /// Removes and returns the label and the map keys.
    pub fn take_per_meta(&mut self) -> (r: PersistentMeta)
        ensures
            r.label == old(self).meta.label,
            r.map_keys == old(self).meta.map_keys,
            final(self).meta.label is None,
            final(self).meta.map_keys is None,
            final(self).shape@ == old(self).shape@,
            final(self).data@ == old(self).data@,
    {
        let label = self.meta.label.take();
        let map_keys = self.meta.map_keys.take();
        PersistentMeta { label, map_keys }
    }

    /// Replaces the label and the map keys.
    pub fn set_per_meta(&mut self, per_meta: PersistentMeta)
        ensures
            final(self).meta.label == per_meta.label,
            final(self).meta.map_keys == per_meta.map_keys,
            final(self).shape@ == old(self).shape@,
            final(self).data@ == old(self).data@,
            final(self).meta.flags == old(self).meta.flags,
    {
        self.meta.label = per_meta.label;
        self.meta.map_keys = per_meta.map_keys;
    }

    /// Drops all metadata.
    pub fn reset_meta(&mut self)
        ensures
            final(self).meta.label is None,
            final(self).meta.map_keys is None,
            final(self).meta.handle_kind is None,
            !final(self).meta.flags.boolean && !final(self).meta.flags.boolean_literal,
            final(self).shape@ == old(self).shape@,
            final(self).data@ == old(self).data@,
    {
        self.meta = ArrayMeta::empty();
    }

    /// Clears the flags.
    pub fn reset_meta_flags(&mut self)
        ensures
            !final(self).meta.flags.boolean && !final(self).meta.flags.boolean_literal,
            final(self).meta.label == old(self).meta.label,
            final(self).meta.map_keys == old(self).meta.map_keys,
            final(self).shape@ == old(self).shape@,
            final(self).data@ == old(self).data@,
    {
        self.meta.flags.reset();
    }

    /// Merges the metadata of an array combined with this one: flags are kept
    /// where both have them, map keys are dropped, and the handle tag stays
    /// only where both agree.
    pub fn combine_meta(&mut self, other: &ArrayMeta)
        ensures
            final(self).meta.flags.boolean == (old(self).meta.flags.boolean
                && other.flags.boolean),
            final(self).meta.flags.boolean_literal == (old(self).meta.flags.boolean_literal
                && other.flags.boolean_literal),
            final(self).meta.map_keys is None,
            final(self).meta.handle_kind == (if old(self).meta.handle_kind == other.handle_kind {
                old(self).meta.handle_kind
            } else {
                None
            }),
            final(self).meta.label == old(self).meta.label,
            final(self).shape@ == old(self).shape@,
            final(self).data@ == old(self).data@,
    {
        self.meta.flags.boolean = self.meta.flags.boolean && other.flags.boolean;
        self.meta.flags.boolean_literal = self.meta.flags.boolean_literal
            && other.flags.boolean_literal;
        self.meta.map_keys = None;
        if self.meta.handle_kind != other.handle_kind {
            self.meta.handle_kind = None;
        }
    }

    /// The elements of row `row`.
    pub fn row_slice(&self, row: usize) -> (r: Vec<T>)
        requires
            self.wf(),
            row < row_count_of(self.shape@),
        ensures
            r@ == row_of(self.data@, row_len_of(self.shape@), row as int),
    {
        let rl = self.row_len();
        let _len = self.data.len();
        proof {
            lemma_row_in(self.shape@, self.data@.len(), row as int);
        }
        copy_range(&self.data, row * rl, row * rl + rl)
    }

    /// The element of a scalar.
    pub fn as_scalar(&self) -> (r: Option<T>)
        requires
            self.wf(),
        ensures
            r is Some <==> self.shape@.len() == 0,
            r is Some ==> r->0 == self.data@[0],
    {
        if self.shape.len() == 0 {
            Some(self.data[0])
        } else {
            None
        }
    }

    /// Row `row` as an array of its own: a scalar is its own only row.
    pub fn row(&self, row: usize) -> (r: Self)
        requires
            self.wf(),
            row < row_count_of(self.shape@),
        ensures
            r.wf(),
            r.shape@ == row_shape_of(self.shape@),
            r.data@ == row_of(self.data@, row_len_of(self.shape@), row as int),
            r.meta.flags == self.meta.flags,
            r.meta.map_keys is None,
            r.meta.label is None,
    {
        proof {
            let lo: int = if self.shape@.len() == 0 {
                0
            } else {
                1
            };
            lemma_sub_fits(self.shape@, lo, self.shape@.len() as int);
            assert(self.shape@.subrange(lo, self.shape@.len() as int) =~= row_shape_of(self.shape@));
            lemma_row_in(self.shape@, self.data@.len(), row as int);
        }
        let data = self.row_slice(row);
        let shape: Vec<usize> = if self.shape.len() == 0 {
            Vec::new()
        } else {
            copy_range(&self.shape, 1, self.shape.len())
        };
        proof {
            assert(shape@ =~= row_shape_of(self.shape@));
        }
        let mut r = Array::new(shape, data);
        r.meta.flags = self.meta.flags;
        r
    }

    /// All rows as arrays of their own.
    pub fn rows(&self) -> (r: Vec<Self>)
        requires
            self.wf(),
        ensures
            r@.len() == row_count_of(self.shape@),
            forall|i: int|
                0 <= i < r@.len() ==> (#[trigger] r@[i]).wf() && r@[i].shape@ == row_shape_of(self.shape@)
                    && r@[i].data@ == row_of(self.data@, row_len_of(self.shape@), i),
    {
        let n = self.row_count();
        let mut out: Vec<Self> = Vec::new();
        let mut i: usize = 0;
        while i < n
            invariant
                self.wf(),
                n == row_count_of(self.shape@),
                i <= n,
                out@.len() == i,
                forall|j: int|
                    0 <= j < i ==> (#[trigger] out@[j]).wf() && out@[j].shape@ == row_shape_of(self.shape@) && out@[j].data@ == row_of(self.data@, row_len_of(self.shape@), j),
            decreases n - i,
        {
            let r = self.row(i);
            let ghost prev = out@;
            out.push(r);
            assert(forall|j: int| 0 <= j < i ==> out@[j] == prev[j]);
            i = i + 1;
        }
        out
    }

    /// An empty array with this array's shape but a leading dimension of zero.
    pub fn first_dim_zero(&self) -> (r: Self)
        requires
            self.wf(),
            self.shape@.len() > 0,
        ensures
            r.wf(),
            r.shape@ == self.shape@.update(0, 0),
            r.data@.len() == 0,
    {
        let mut shape = copy_range(&self.shape, 0, self.shape.len());
        assert(shape@ =~= self.shape@);
        shape.set(0, 0);
        proof {
            crate::shape::lemma_zero_dim(shape@, 0);
            assert(shape@.drop_first() =~= self.shape@.drop_first());
            crate::shape::lemma_fits_lower_first(self.shape@, shape@);
        }
        Array::new(shape, Vec::new())
    }

    /// Removes and returns the last row.
    pub fn pop_row(&mut self) -> (r: Option<Self>)
        requires
            old(self).wf(),
            old(self).shape@.len() > 0,
        ensures
            final(self).wf(),
            old(self).shape@[0] == 0 ==> r is None && final(self).shape@ == old(self).shape@
                && final(self).data@ == old(self).data@,
            old(self).shape@[0] > 0 ==> r is Some && final(self).shape@ == old(self).shape@.update(
                0,
                (old(self).shape@[0] - 1) as usize,
            ) && r->0.wf() && r->0.shape@ == old(self).shape@.drop_first() && final(self).data@
                + r->0.data@ == old(self).data@,
    {
        if self.shape[0] == 0 {
            return None;
        }
        let n = self.shape[0];
        let last = self.row(n - 1);
        let rl = self.row_len();
        let ghost old_data = self.data@;
        let _len = self.data.len();
        proof {
            lemma_row_in(self.shape@, self.data@.len(), n - 1);
        }
        self.data.truncate((n - 1) * rl);
        self.shape.set(0, n - 1);
        proof {
            assert(row_shape_of(self.shape@) =~= old(self).shape@.drop_first());
            lemma_rows(self.shape@);
            assert(self.data@ + last.data@ =~= old_data);
            crate::shape::lemma_fits_lower_first(old(self).shape@, self.shape@);
        }
        Some(last)
    }
}

impl<T: ArrayValue> Array<T> {
    /// The element of a scalar, or the array itself.
    pub fn into_scalar(self) -> (r: Result<T, Self>)
        requires
            self.wf(),
        ensures
            self.shape@.len() == 0 ==> r == Ok::<T, Self>(self.data@[0]),
            self.shape@.len() > 0 ==> r is Err && r->Err_0.shape@ == self.shape@
                && r->Err_0.data@ == self.data@,
    {
        if self.shape.len() == 0 {
            Ok(self.data[0])
        } else {
            Err(self)
        }
    }

    /// Row `row` among the cells at depth `depth`: the cells have the shape
    /// after the first `depth + 1` axes. An array of rank at most `depth` is
    /// its own only cell.
    pub fn depth_row(&self, depth: usize, row: usize) -> (r: Self)
        requires
            self.wf(),
            self.shape@.len() > depth ==> row < product(self.shape@.take(depth + 1)),
        ensures
            r.wf(),
            r.meta.map_keys is None,
            r.meta.label is None,
            self.shape@.len() <= depth ==> r.shape@ == self.shape@ && r.data@ == self.data@,
            self.shape@.len() > depth ==> r.shape@ == self.shape@.skip(depth + 1) && r.data@
                == row_of(self.data@, product(self.shape@.skip(depth + 1)), row as int),
    {
        let len = self.shape.len();
        if len <= depth {
            let shape = copy_range(&self.shape, 0, len);
            let data = copy_range(&self.data, 0, self.data.len());
            assert(shape@ =~= self.shape@);
            assert(data@ =~= self.data@);
            let mut r = Array::new(shape, data);
            r.meta.flags = self.meta.flags;
            return r;
        }
        let n = product_range(&self.shape, 0, depth + 1);
        let rl = product_range(&self.shape, depth + 1, len);
        let _dl = self.data.len();
        proof {
            assert(self.shape@.subrange(0, depth + 1) =~= self.shape@.take(depth + 1));
            assert(self.shape@.subrange(depth + 1, len as int) =~= self.shape@.skip(depth + 1));
            lemma_product_split(self.shape@, depth + 1);
            lemma_row_bounds(n as nat, rl as nat, row as int);
            lemma_sub_fits(self.shape@, depth + 1, len as int);
        }
        let data = copy_range(&self.data, row * rl, row * rl + rl);
        let shape = copy_range(&self.shape, depth + 1, len);
        assert(shape@ =~= self.shape@.skip(depth + 1));
        Array::new(shape, data)
    }
}

impl<T: ArrayValue> Array<T> {
    /// A list of the given elements.
    pub fn from_list(data: Vec<T>) -> (r: Self)
        ensures
            r.wf(),
            r.shape@ == seq![data@.len() as usize],
            r.data@ == data@,
    {
        let mut shape: Vec<usize> = Vec::new();
        shape.push(data.len());
        proof {
            crate::shape::lemma_product_single(data@.len() as usize);
            assert(shape@ =~= seq![data@.len() as usize]);
        }
        Array::new(shape, data)
    }

    /// The elements cut into arrays of shape `row_shape`, as many as fit.
    pub fn row_shaped_slices(&self, row_shape: &Vec<usize>) -> (r: Vec<Self>)
        requires
            self.wf(),
            shape_fits(row_shape@),
            product(row_shape@) > 0,
        ensures
            r@.len() == self.data@.len() / product(row_shape@),
            forall|i: int|
                0 <= i < r@.len() ==> (#[trigger] r@[i]).wf() && r@[i].shape@ == row_shape@
                    && r@[i].data@ == row_of(self.data@, product(row_shape@), i),
    {
        let rl = crate::shape::shape_product(row_shape);
        let n = self.data.len() / rl;
        let mut out: Vec<Self> = Vec::new();
        let mut i: usize = 0;
        while i < n
            invariant
                self.data@.len() <= usize::MAX,
                rl == product(row_shape@),
                rl > 0,
                shape_fits(row_shape@),
                n == self.data@.len() / (rl as nat),
                i <= n,
                out@.len() == i,
                forall|j: int|
                    0 <= j < i ==> (#[trigger] out@[j]).wf() && out@[j].shape@ == row_shape@
                        && out@[j].data@ == row_of(self.data@, rl as nat, j),
            decreases n - i,
        {
            proof {
                assert(n * rl <= self.data@.len()) by (nonlinear_arith)
                    requires
                        n == self.data@.len() / (rl as nat),
                        rl > 0,
                ;
                lemma_row_bounds(n as nat, rl as nat, i as int);
            }
            let data = copy_range(&self.data, i * rl, i * rl + rl);
            let shape = copy_range(row_shape, 0, row_shape.len());
            assert(shape@ =~= row_shape@);
            let a = Array::new(shape, data);
            let ghost prev = out@;
            out.push(a);
            assert(forall|j: int| 0 <= j < i ==> out@[j] == prev[j]);
            i = i + 1;
        }
        out
    }
}

impl Array<u8> {
    /// A list of 0s and 1s, marked boolean.
    pub fn from_bools(data: Vec<bool>) -> (r: Self)
        ensures
            r.wf(),
            r.shape@ == seq![data@.len() as usize],
            r.data@.len() == data@.len(),
            forall|i: int| 0 <= i < data@.len() ==> #[trigger] r.data@[i] == (if data@[i] {
                1u8
            } else {
                0u8
            }),
    {
        let mut out: Vec<u8> = Vec::new();
        let mut i: usize = 0;
        while i < data.len()
            invariant
                i <= data@.len(),
                out@.len() == i,
                forall|j: int| 0 <= j < i ==> #[trigger] out@[j] == (if data@[j] {
                    1u8
                } else {
                    0u8
                }),
            decreases data@.len() - i,
        {
            out.push(
                if data[i] {
                    1
                } else {
                    0
                },
            );
            i = i + 1;
        }
        Array::from_list(out)
    }

    /// A boolean scalar, marked as boolean and as made from a boolean.
    pub fn from_bool(b: bool) -> (r: Self)
        ensures
            r.wf(),
            r.shape@.len() == 0,
            r.data@ == seq![if b {
                1u8
            } else {
                0u8
            }],
            r.meta.flags.boolean && r.meta.flags.boolean_literal,
    {
        let mut r = Array::scalar(
            if b {
                1u8
            } else {
                0u8
            },
        );
        r.meta.flags = ArrayFlags { boolean: true, boolean_literal: true };
        r
    }
}

impl<T: ArrayValue> Default for Array<T> {
    /// An empty list.
    fn default() -> (r: Self)
        ensures
            r.wf(),
            r.shape@ == seq![0usize],
            r.data@.len() == 0,
    {
        let mut shape: Vec<usize> = Vec::new();
        shape.push(0);
        proof {
            crate::shape::lemma_product_single(0);
            assert(shape@ =~= seq![0usize]);
        }
        Array::new(shape, Vec::new())
    }
}

} // verus!
