//! Values: arrays of any element kind behind one type.
use vstd::prelude::*;

use crate::array::{Array, ArrayFlags, ArrayValue, MapKeys};
use crate::error::ArrayError;
use crate::keep::{
    const_counts, count_sum, counts_usable, effective_counts, fill_seq, keep_fits, kept, nz_nat,
    repeat_seq, unkeep_ok, unkept,
};
use crate::array::row_len_of;
use crate::find::{any_greater, find_hit, mask_state, padded_shape, pads_haystack, rows_of};
use crate::rotate::fill_row;
use crate::reshape::{
    abs_dim, abs_shape, apply_reversals, derived_shape, fixed_nz_product, fixed_product,
    inferred_count, reranked, reshape_keys,
    resized, unreranked,
};
use crate::search::{
    coordinate_data, coordinate_ok, coordinate_shape, ends_with, search_data, search_shape,
    SearchKind,
};
use crate::shape::{nz_product, product, shape_fits};
use crate::windows::{window_outer, window_size, window_source, windows_fit, windows_shape};
use crate::rotate::shifted;
use crate::shape::{check_shape_fits, shape_product};

verus! {

/// An array of one of the element kinds.
pub enum Value {
    /// Bytes, the numbers 0 to 255.
    Byte(Array<u8>),
    /// Characters.
    Char(Array<char>),
}

/// `w` is `v` with its rows rotated by `offset`.
pub open spec fn rows_rotated(v: Value, w: Value, offset: isize) -> bool {
    match (v, w) {
        (Value::Byte(a), Value::Byte(b)) => b.shape@ == a.shape@ && (a.data@.len() > 0 ==> b.data@
            == shifted(seq![offset], a.shape@, a.data@, None)),
        (Value::Char(a), Value::Char(b)) => b.shape@ == a.shape@ && (a.data@.len() > 0 ==> b.data@
            == shifted(seq![offset], a.shape@, a.data@, None)),
        _ => false,
    }
}

impl Value {
    /// Checks that the array inside is well formed.
    pub fn check_wf(&self) -> (r: bool)
        ensures
            r == self.wf(),
    {
        match self {
            Value::Byte(a) => check_shape_fits(&a.shape) && shape_product(&a.shape) == a.data.len(),
            Value::Char(a) => check_shape_fits(&a.shape) && shape_product(&a.shape) == a.data.len(),
        }
    }

    /// Rotates the rows of the value by `offset`, without a fill.
    pub fn rotate_rows(&mut self, offset: isize)
        requires
            old(self).wf(),
        ensures
            final(self).wf(),
            rows_rotated(*old(self), *final(self), offset),
    {
        let mut by_data: Vec<isize> = Vec::new();
        by_data.push(offset);
        let mut by_shape: Vec<usize> = Vec::new();
        by_shape.push(1);
        proof {
            assert(by_shape@.drop_first() =~= Seq::<usize>::empty());
            assert(by_shape@[0] == 1);
            assert(crate::shape::product(Seq::<usize>::empty()) == 1);
            assert(crate::shape::product(by_shape@) == 1);
            assert(crate::shape::nz_product(Seq::<usize>::empty()) == 1);
            assert(crate::shape::nz(by_shape@[0]) == 1);
            assert(crate::shape::nz_product(by_shape@) == 1);
            assert(by_data@ =~= seq![offset]);
        }
        let by = Array::new(by_shape, by_data);
        match self {
            Value::Byte(a) => {
                if a.shape.len() > 0 {
                    let _ = a.rotate_data(&by, None);
                }
            },
            Value::Char(a) => {
                if a.shape.len() > 0 {
                    let _ = a.rotate_data(&by, None);
                }
            },
        }
        proof {
            match *old(self) {
                Value::Byte(a) => {
                    if a.shape@.len() == 0 {
                        assert(shifted(seq![offset], a.shape@, a.data@, None) == a.data@);
                    }
                },
                Value::Char(a) => {
                    if a.shape@.len() == 0 {
                        assert(shifted(seq![offset], a.shape@, a.data@, None) == a.data@);
                    }
                },
            }
        }
    }

    /// The array inside is well formed.
    pub open spec fn wf(&self) -> bool {
        match *self {
            Value::Byte(a) => a.wf(),
            Value::Char(a) => a.wf(),
        }
    }
}

/// What a row search of `nd` (shape `ns`) in `hd` (shape `hs`) returns.
pub open spec fn search_outcome<T: ArrayValue>(
    kind: SearchKind,
    ns: Seq<usize>,
    nd: Seq<T>,
    hs: Seq<usize>,
    hd: Seq<T>,
    r: Result<Array<usize>, ArrayError>,
) -> bool {
    &&& ns.len() < hs.len() && !ends_with(hs, ns) ==> r == Err::<Array<usize>, ArrayError>(
        ArrayError::ShapeMismatch,
    )
    &&& !(ns.len() < hs.len() && !ends_with(hs, ns)) ==> r is Ok && r->Ok_0.wf() && r->Ok_0.shape@
        == search_shape(ns, hs) && r->Ok_0.data@ == search_data(kind, ns, nd, hs, hd)
}

/// What `coordinate` returns.
pub open spec fn coordinate_outcome<T: ArrayValue>(
    ns: Seq<usize>,
    nd: Seq<T>,
    hs: Seq<usize>,
    hd: Seq<T>,
    r: Result<Array<usize>, ArrayError>,
) -> bool {
    &&& ns.len() < hs.len() && !ends_with(hs, ns) ==> r == Err::<Array<usize>, ArrayError>(
        ArrayError::ShapeMismatch,
    )
    &&& !(ns.len() < hs.len() && !ends_with(hs, ns)) ==> r is Ok && r->Ok_0.wf() && r->Ok_0.shape@
        == coordinate_shape(ns, hs) && r->Ok_0.data@ == coordinate_data(ns, nd, hs, hd)
}

/// The elements of the array inside.
pub open spec fn value_data_len(v: Value) -> nat {
    match v {
        Value::Byte(a) => a.data@.len(),
        Value::Char(a) => a.data@.len(),
    }
}

/// The fill for the value's element kind is given.
pub open spec fn has_fill(v: Value, fills: &Fills) -> bool {
    match v {
        Value::Byte(_) => fills.byte is Some,
        Value::Char(_) => fills.ch is Some,
    }
}

/// The flags of the array inside.
pub open spec fn value_flags(v: Value) -> ArrayFlags {
    match v {
        Value::Byte(a) => a.meta.flags,
        Value::Char(a) => a.meta.flags,
    }
}

/// The map keys of the array inside.
pub open spec fn value_keys(v: Value) -> Option<MapKeys> {
    match v {
        Value::Byte(a) => a.meta.map_keys,
        Value::Char(a) => a.meta.map_keys,
    }
}

/// The elements of two values of one kind are equal.
pub open spec fn same_data(v: Value, w: Value) -> bool {
    match (v, w) {
        (Value::Byte(a), Value::Byte(b)) => a.data@ == b.data@,
        (Value::Char(a), Value::Char(b)) => a.data@ == b.data@,
        _ => false,
    }
}

/// The value and the other are arrays of the same element kind.
pub open spec fn same_kind(a: Value, b: Value) -> bool {
    match (a, b) {
        (Value::Byte(_), Value::Byte(_)) => true,
        (Value::Char(_), Value::Char(_)) => true,
        _ => false,
    }
}

/// The shape and elements `ws`, `wd` are the windows by `spec` of an array
/// of shape `s` and elements `d`.
pub open spec fn windows_result<T: ArrayValue>(
    s: Seq<usize>,
    d: Seq<T>,
    spec: Seq<isize>,
    ws: Seq<usize>,
    wd: Seq<T>,
) -> bool {
    &&& ws == windows_shape(s, spec)
    &&& !windows_fit(s, spec) ==> wd.len() == 0
    &&& windows_fit(s, spec) ==> wd.len() == product(ws) && forall|k: int|
        0 <= k < wd.len() ==> #[trigger] wd[k] == d[window_source(
            s,
            window_outer(s, spec),
            window_size(s, spec),
            k,
        )]
}

/// The shape and elements `ks`, `kd` are those of an array of shape `s`
/// and elements `d` kept by `counts` (one count for all rows where
/// `scalar`), rows past the counts taking their counts from `fill`.
pub open spec fn keep_result<T: ArrayValue>(
    s: Seq<usize>,
    d: Seq<T>,
    counts: Seq<usize>,
    scalar: bool,
    fill: Seq<usize>,
    ks: Seq<usize>,
    kd: Seq<T>,
) -> bool {
    if scalar {
        if s.len() == 0 {
            ks == seq![counts[0]] && kd == repeat_seq(d, counts[0] as nat)
        } else {
            ks == s.update(0, (counts[0] * s[0]) as usize) && kd == kept(
                d,
                row_len_of(s),
                const_counts(counts[0], s[0] as nat),
                s[0] as nat,
            )
        }
    } else {
        let eff = effective_counts(counts, fill, s[0] as nat);
        ks == s.update(0, count_sum(eff, s[0] as nat) as usize) && kd == kept(
            d,
            row_len_of(s),
            eff,
            s[0] as nat,
        )
    }
}

/// `r` is the boolean find of the pattern (`ps`, `pd`) in the haystack
/// (`hs0`, `hd0`), with `fill` padding the haystack's rows.
pub open spec fn find_result<T: ArrayValue>(
    ps: Seq<usize>,
    pd: Seq<T>,
    hs0: Seq<usize>,
    hd0: Seq<T>,
    fill: Option<T>,
    r: Array<u8>,
) -> bool {
    let pad = pads_haystack(ps, hs0, fill);
    let hs = if pad {
        hs0.update(0, rows_of(ps) as usize)
    } else {
        hs0
    };
    let hd = if pad {
        hd0 + fill_row(fill->0, ((rows_of(ps) - hs0[0]) * product(hs0.drop_first())) as nat)
    } else {
        hd0
    };
    &&& r.shape@ == hs
    &&& r.data@.len() == product(hs)
    &&& forall|k: int|
        0 <= k < r.data@.len() ==> #[trigger] r.data@[k] == (if ps.len() <= hs.len() && find_hit(
            hs,
            hd,
            padded_shape(ps, hs.len() as nat),
            pd,
            k,
        ) {
            1u8
        } else {
            0u8
        })
}

/// `r` holds the numbered occurrences of the pattern (`ps`, `pd`) in the
/// haystack (`hs`, `hd`).
pub open spec fn mask_result<T: ArrayValue>(
    ps: Seq<usize>,
    pd: Seq<T>,
    hs: Seq<usize>,
    hd: Seq<T>,
    r: Array<usize>,
) -> bool {
    &&& r.shape@ == hs
    &&& any_greater(ps, hs) ==> forall|k: int| 0 <= k < r.data@.len() ==> #[trigger] r.data@[k] == 0
    &&& !any_greater(ps, hs) ==> r.data@ == mask_state(
        hs,
        hd,
        padded_shape(ps, hs.len() as nat),
        pd,
        hd.len(),
    ).0
}

/// The shape and elements `s2`, `d2` are those of an array of elements `d`
/// reshaped by `dims`.
pub open spec fn reshape_result<T>(
    d: Seq<T>,
    dims: Seq<Result<isize, bool>>,
    fill: Option<T>,
    s2: Seq<usize>,
    d2: Seq<T>,
) -> bool {
    let axes = derived_shape(d.len(), dims, fill is Some);
    let shape = abs_shape(axes);
    s2 == shape && d2 == apply_reversals(resized(d, product(shape), fill), shape, axes, axes.len())
}

impl Value {
    /// Which rows of this value are rows of `of`.
    pub fn member(&self, of: &Value) -> (r: Result<Array<usize>, ArrayError>)
        requires
            self.wf(),
            of.wf(),
        ensures
            !same_kind(*self, *of) ==> r == Err::<Array<usize>, ArrayError>(
                ArrayError::ShapeMismatch,
            ),
            match (*self, *of) {
                (Value::Byte(a), Value::Byte(b)) => search_outcome(
                    SearchKind::Member,
                    a.shape@,
                    a.data@,
                    b.shape@,
                    b.data@,
                    r,
                ),
                (Value::Char(a), Value::Char(b)) => search_outcome(
                    SearchKind::Member,
                    a.shape@,
                    a.data@,
                    b.shape@,
                    b.data@,
                    r,
                ),
                _ => true,
            },
            r is Ok ==> r->Ok_0.meta.flags.boolean,
    {
        match (self, of) {
            (Value::Byte(a), Value::Byte(b)) => a.member(b),
            (Value::Char(a), Value::Char(b)) => a.member(b),
            _ => Err(ArrayError::ShapeMismatch),
        }
    }

    /// The index in `haystack` of each row of this value.
    pub fn index_of(&self, haystack: &Value) -> (r: Result<Array<usize>, ArrayError>)
        requires
            self.wf(),
            haystack.wf(),
        ensures
            !same_kind(*self, *haystack) ==> r == Err::<Array<usize>, ArrayError>(
                ArrayError::ShapeMismatch,
            ),
            match (*self, *haystack) {
                (Value::Byte(a), Value::Byte(b)) => search_outcome(
                    SearchKind::IndexOf,
                    a.shape@,
                    a.data@,
                    b.shape@,
                    b.data@,
                    r,
                ),
                (Value::Char(a), Value::Char(b)) => search_outcome(
                    SearchKind::IndexOf,
                    a.shape@,
                    a.data@,
                    b.shape@,
                    b.data@,
                    r,
                ),
                _ => true,
            },
    {
        match (self, haystack) {
            (Value::Byte(a), Value::Byte(b)) => a.index_of(b),
            (Value::Char(a), Value::Char(b)) => a.index_of(b),
            _ => Err(ArrayError::ShapeMismatch),
        }
    }

    /// The index in `searched_in` of each row of this value, each row of
    /// `searched_in` answering at most once.
    pub fn progressive_index_of(&self, searched_in: &Value) -> (r: Result<
        Array<usize>,
        ArrayError,
    >)
        requires
            self.wf(),
            searched_in.wf(),
        ensures
            !same_kind(*self, *searched_in) ==> r == Err::<Array<usize>, ArrayError>(
                ArrayError::ShapeMismatch,
            ),
            match (*self, *searched_in) {
                (Value::Byte(a), Value::Byte(b)) => search_outcome(
                    SearchKind::Progressive,
                    a.shape@,
                    a.data@,
                    b.shape@,
                    b.data@,
                    r,
                ),
                (Value::Char(a), Value::Char(b)) => search_outcome(
                    SearchKind::Progressive,
                    a.shape@,
                    a.data@,
                    b.shape@,
                    b.data@,
                    r,
                ),
                _ => true,
            },
    {
        match (self, searched_in) {
            (Value::Byte(a), Value::Byte(b)) => a.progressive_index_of(b),
            (Value::Char(a), Value::Char(b)) => a.progressive_index_of(b),
            _ => Err(ArrayError::ShapeMismatch),
        }
    }

    /// The coordinates in `haystack` of each row of this value.
    pub fn coordinate(&self, haystack: &Value) -> (r: Result<Array<usize>, ArrayError>)
        requires
            self.wf(),
            haystack.wf(),
            match (*self, *haystack) {
                (Value::Byte(a), Value::Byte(b)) => coordinate_ok(a.shape@, b.shape@),
                (Value::Char(a), Value::Char(b)) => coordinate_ok(a.shape@, b.shape@),
                _ => true,
            },
        ensures
            !same_kind(*self, *haystack) ==> r == Err::<Array<usize>, ArrayError>(
                ArrayError::ShapeMismatch,
            ),
            match (*self, *haystack) {
                (Value::Byte(a), Value::Byte(b)) => coordinate_outcome(
                    a.shape@,
                    a.data@,
                    b.shape@,
                    b.data@,
                    r,
                ),
                (Value::Char(a), Value::Char(b)) => coordinate_outcome(
                    a.shape@,
                    a.data@,
                    b.shape@,
                    b.data@,
                    r,
                ),
                _ => true,
            },
    {
        match (self, haystack) {
            (Value::Byte(a), Value::Byte(b)) => a.coordinate(b),
            (Value::Char(a), Value::Char(b)) => a.coordinate(b),
            _ => Err(ArrayError::ShapeMismatch),
        }
    }

    /// Changes the rank of the value without touching its elements.
    pub fn rerank(&mut self, irank: isize) -> (r: Result<(), ArrayError>)
        requires
            old(self).wf(),
        ensures
            same_kind(*old(self), *final(self)),
            r is Ok ==> final(self).wf(),
            r is Err ==> value_shape_seq(*final(self)) == value_shape_seq(*old(self)),
            r is Ok ==> value_keys(*final(self)) is None,
            irank > 0 ==> value_shape_seq(*final(self)).len() == irank,
            match (*old(self), *final(self)) {
                (Value::Byte(a), Value::Byte(b)) => b.data@ == a.data@ && (irank < 0 && abs_dim(
                    irank,
                ) > a.shape@.len() <==> r is Err) && (r is Ok ==> b.shape@ == reranked(
                    a.shape@,
                    irank,
                )),
                (Value::Char(a), Value::Char(b)) => b.data@ == a.data@ && (irank < 0 && abs_dim(
                    irank,
                ) > a.shape@.len() <==> r is Err) && (r is Ok ==> b.shape@ == reranked(
                    a.shape@,
                    irank,
                )),
                _ => false,
            },
    {
        match self {
            Value::Byte(a) => a.rerank(irank),
            Value::Char(a) => a.rerank(irank),
        }
    }

    /// The windows of the value.
    pub fn windows(&self, size_spec: &[isize]) -> (r: Result<Value, ArrayError>)
        requires
            self.wf(),
            shape_fits(windows_shape(value_shape_seq(*self), size_spec@)),
        ensures
            r is Ok ==> r->Ok_0.wf() && same_kind(*self, r->Ok_0) && value_shape_seq(r->Ok_0)
                == windows_shape(value_shape_seq(*self), size_spec@),
            r is Err <==> (exists|k: int| 0 <= k < size_spec@.len() && size_spec@[k] == 0)
                || size_spec@.len() > value_shape_seq(*self).len(),
            match (*self, r) {
                (Value::Byte(a), Ok(Value::Byte(w))) => windows_result(
                    a.shape@,
                    a.data@,
                    size_spec@,
                    w.shape@,
                    w.data@,
                ),
                (Value::Char(a), Ok(Value::Char(w))) => windows_result(
                    a.shape@,
                    a.data@,
                    size_spec@,
                    w.shape@,
                    w.data@,
                ),
                (_, Err(_)) => true,
                _ => false,
            },
    {
        match self {
            Value::Byte(a) => match a.windows(size_spec) {
                Ok(w) => Ok(Value::Byte(w)),
                Err(e) => Err(e),
            },
            Value::Char(a) => match a.windows(size_spec) {
                Ok(w) => Ok(Value::Char(w)),
                Err(e) => Err(e),
            },
        }
    }

    /// Rotates the value by `by`; the fill of the value's kind, if given,
    /// shifts in instead of wrapping around.
    pub fn rotate(&mut self, by: &Array<isize>, fills: &Fills) -> (r: Result<(), ArrayError>)
        requires
            old(self).wf(),
            by.wf(),
        ensures
            final(self).wf(),
            same_kind(*old(self), *final(self)),
            value_shape_seq(*final(self)) == value_shape_seq(*old(self)),
            value_data_len(*old(self)) == 0 || by.data@.len() == 0 ==> r is Ok && same_data(
                *old(self),
                *final(self),
            ),
            value_data_len(*old(self)) > 0 && by.data@.len() > 0 && (by.shape@.len() > 1
                || by.data@.len() > value_shape_seq(*old(self)).len()) ==> r == Err::<
                (),
                ArrayError,
            >(ArrayError::ShapeMismatch) && same_data(*old(self), *final(self)),
            r is Ok && has_fill(*old(self), fills) && value_data_len(*old(self)) > 0
                && by.data@.len() > 0 ==> !value_flags(*final(self)).boolean && !value_flags(
                *final(self),
            ).boolean_literal,
            value_keys(*final(self)) is Some <==> value_keys(*old(self)) is Some,
            r is Ok && by.data@.len() > 0 && value_keys(*old(self)) is Some && (*value_keys(
                *old(self),
            )->0.keys).wf() ==> rows_rotated(
                *value_keys(*old(self))->0.keys,
                *value_keys(*final(self))->0.keys,
                by.data@[0],
            ),
            match (*old(self), *final(self)) {
                (Value::Byte(a), Value::Byte(b)) => a.data@.len() > 0 && by.data@.len() > 0
                    && by.shape@.len() <= 1 && by.data@.len() <= a.shape@.len() ==> r is Ok
                    && b.data@ == shifted(by.data@, a.shape@, a.data@, fills.byte),
                (Value::Char(a), Value::Char(b)) => a.data@.len() > 0 && by.data@.len() > 0
                    && by.shape@.len() <= 1 && by.data@.len() <= a.shape@.len() ==> r is Ok
                    && b.data@ == shifted(by.data@, a.shape@, a.data@, fills.ch),
                _ => false,
            },
    {
        match self {
            Value::Byte(a) => a.rotate(by, fills.byte),
            Value::Char(a) => a.rotate(by, fills.ch),
        }
    }

    /// Keeps the rows of `kept` by the counts of this list, or repeats all of
    /// `kept` where the counts are one number.
    pub fn keep(counts: &Vec<usize>, counts_scalar: bool, kept: Value, fills: &Fills) -> (r: Result<Value, ArrayError>)
        requires
            kept.wf(),
            counts_scalar ==> counts@.len() == 1,
            match kept {
                Value::Byte(a) => keep_value_fits(a.shape@, counts@, counts_scalar, fills),
                Value::Char(a) => keep_value_fits(a.shape@, counts@, counts_scalar, fills),
            },
        ensures
            r is Ok ==> r->Ok_0.wf() && same_kind(kept, r->Ok_0),
            !counts_scalar && value_shape_seq(kept).len() > 0 ==> (r is Ok <==> counts_usable(
                counts@,
                fill_seq(fills_counts(fills)),
                value_shape_seq(kept)[0] as nat,
            )),
            counts_scalar ==> r is Ok,
            match (kept, r) {
                (Value::Byte(a), Ok(Value::Byte(k))) => keep_result(
                    a.shape@,
                    a.data@,
                    counts@,
                    counts_scalar,
                    fill_seq(fills_counts(fills)),
                    k.shape@,
                    k.data@,
                ),
                (Value::Char(a), Ok(Value::Char(k))) => keep_result(
                    a.shape@,
                    a.data@,
                    counts@,
                    counts_scalar,
                    fill_seq(fills_counts(fills)),
                    k.shape@,
                    k.data@,
                ),
                (_, Err(_)) => true,
                _ => false,
            },
    {
        if counts_scalar {
            let c = counts[0];
            match kept {
                Value::Byte(a) => Ok(Value::Byte(a.scalar_keep(c))),
                Value::Char(a) => Ok(Value::Char(a.scalar_keep(c))),
            }
        } else {
            let fill = match &fills.counts {
                Some(v) => Some(v),
                None => None,
            };
            match kept {
                Value::Byte(a) => {
                    if a.shape.len() == 0 {
                        return Err(ArrayError::ShapeMismatch);
                    }
                    match a.list_keep(counts.as_slice(), fill) {
                        Ok(k) => Ok(Value::Byte(k)),
                        Err(e) => Err(e),
                    }
                },
                Value::Char(a) => {
                    if a.shape.len() == 0 {
                        return Err(ArrayError::ShapeMismatch);
                    }
                    match a.list_keep(counts.as_slice(), fill) {
                        Ok(k) => Ok(Value::Char(k)),
                        Err(e) => Err(e),
                    }
                },
            }
        }
    }
}

impl Value {
    /// Where this pattern occurs in `searched`, as a boolean array of the
    /// haystack's shape.
    pub fn find(&self, searched: &Value, fills: &Fills) -> (r: Result<Array<u8>, ArrayError>)
        requires
            self.wf(),
            searched.wf(),
            match (*self, *searched) {
                (Value::Byte(a), Value::Byte(b)) => pads_haystack(a.shape@, b.shape@, fills.byte)
                    ==> shape_fits(b.shape@.update(0, rows_of(a.shape@) as usize)),
                (Value::Char(a), Value::Char(b)) => pads_haystack(a.shape@, b.shape@, fills.ch)
                    ==> shape_fits(b.shape@.update(0, rows_of(a.shape@) as usize)),
                _ => true,
            },
        ensures
            r is Ok <==> same_kind(*self, *searched),
            r is Ok ==> r->Ok_0.wf() && r->Ok_0.meta.flags.boolean,
            r is Err ==> r == Err::<Array<u8>, ArrayError>(ArrayError::ShapeMismatch),
            match (*self, *searched) {
                (Value::Byte(a), Value::Byte(b)) => find_result(
                    a.shape@,
                    a.data@,
                    b.shape@,
                    b.data@,
                    fills.byte,
                    r->Ok_0,
                ),
                (Value::Char(a), Value::Char(b)) => find_result(
                    a.shape@,
                    a.data@,
                    b.shape@,
                    b.data@,
                    fills.ch,
                    r->Ok_0,
                ),
                _ => true,
            },
    {
        match (self, searched) {
            (Value::Byte(a), Value::Byte(b)) => Ok(a.find(b, fills.byte)),
            (Value::Char(a), Value::Char(b)) => Ok(a.find(b, fills.ch)),
            _ => Err(ArrayError::ShapeMismatch),
        }
    }

    /// Numbered occurrences of this pattern in `haystack`.
    pub fn mask(&self, haystack: &Value) -> (r: Result<Array<usize>, ArrayError>)
        requires
            self.wf(),
            haystack.wf(),
        ensures
            !same_kind(*self, *haystack) ==> r == Err::<Array<usize>, ArrayError>(
                ArrayError::ShapeMismatch,
            ),
            same_kind(*self, *haystack) ==> (r is Ok <==> value_shape_seq(*self).len()
                <= value_shape_seq(*haystack).len()),
            r is Ok ==> r->Ok_0.wf() && r->Ok_0.shape@ == value_shape_seq(*haystack),
            r is Ok ==> match (*self, *haystack) {
                (Value::Byte(a), Value::Byte(b)) => mask_result(
                    a.shape@,
                    a.data@,
                    b.shape@,
                    b.data@,
                    r->Ok_0,
                ),
                (Value::Char(a), Value::Char(b)) => mask_result(
                    a.shape@,
                    a.data@,
                    b.shape@,
                    b.data@,
                    r->Ok_0,
                ),
                _ => true,
            },
    {
        match (self, haystack) {
            (Value::Byte(a), Value::Byte(b)) => a.mask(b),
            (Value::Char(a), Value::Char(b)) => a.mask(b),
            _ => Err(ArrayError::ShapeMismatch),
        }
    }

    /// Reshapes the value by `dims`, with the fill of its kind.
    pub fn reshape(&mut self, dims: &[Result<isize, bool>], fills: &Fills) -> (r: Result<
        (),
        ArrayError,
    >)
        requires
            old(self).wf(),
            fixed_nz_product(dims@, dims@.len()) <= isize::MAX,
            match *old(self) {
                Value::Byte(a) => a.data@.len() <= isize::MAX,
                Value::Char(a) => a.data@.len() <= isize::MAX,
            },
        ensures
            final(self).wf(),
            same_kind(*old(self), *final(self)),
            inferred_count(dims@, dims@.len()) > 1 || (inferred_count(dims@, dims@.len()) == 1
                && fixed_product(dims@, dims@.len()) == 0) ==> r == Err::<(), ArrayError>(
                ArrayError::InvalidDimension,
            ),
            ({
                let n = value_data_len(*old(self));
                let shape = abs_shape(derived_shape(n, dims@, has_fill(*old(self), fills)));
                (inferred_count(dims@, dims@.len()) == 0 || (inferred_count(dims@, dims@.len())
                    == 1 && fixed_product(dims@, dims@.len()) > 0)) ==> (r is Ok <==> (
                shape_fits(shape) && (product(shape) > n ==> has_fill(*old(self), fills) || n
                    > 0)))
            }),
            r is Ok ==> value_keys(*final(self)) == reshape_keys(
                value_keys(*old(self)),
                value_shape_seq(*old(self)),
                value_shape_seq(*final(self)),
            ),
            match (*old(self), *final(self)) {
                (Value::Byte(a), Value::Byte(b)) => (r is Ok ==> reshape_result(
                    a.data@,
                    dims@,
                    fills.byte,
                    b.shape@,
                    b.data@,
                )) && (r is Err ==> b.shape@ == a.shape@ && b.data@ == a.data@),
                (Value::Char(a), Value::Char(b)) => (r is Ok ==> reshape_result(
                    a.data@,
                    dims@,
                    fills.ch,
                    b.shape@,
                    b.data@,
                )) && (r is Err ==> b.shape@ == a.shape@ && b.data@ == a.data@),
                _ => false,
            },
    {
        match self {
            Value::Byte(a) => a.reshape(dims, fills.byte),
            Value::Char(a) => a.reshape(dims, fills.ch),
        }
    }
}

impl Value {
    /// Undoes a keep with boolean counts: `self` is the kept value, `into`
    /// the value it was kept from.
    pub fn undo_keep(self, counts: &Vec<usize>, into: Value) -> (r: Result<Value, ArrayError>)
        requires
            self.wf(),
            into.wf(),
        ensures
            !same_kind(self, into) ==> r == Err::<Value, ArrayError>(ArrayError::ShapeMismatch),
            value_shape_seq(into).len() == 0 && same_kind(self, into) ==> r
                == Err::<Value, ArrayError>(ArrayError::UnsupportedInverse),
            r is Ok ==> r->Ok_0.wf() && same_kind(into, r->Ok_0),
            same_kind(self, into) && value_shape_seq(into).len() > 0 ==> (r is Ok <==> unkeep_ok(
                counts@,
                value_shape_seq(self),
                value_shape_seq(into),
            )),
            match (self, into, r) {
                (Value::Byte(a), Value::Byte(b), Ok(Value::Byte(x))) => x.data@ == unkept(
                    counts@,
                    b.data@,
                    a.data@,
                    row_len_of(b.shape@),
                    x.shape@[0] as nat,
                ) && x.shape@ == b.shape@.update(0, x.shape@[0]),
                (Value::Char(a), Value::Char(b), Ok(Value::Char(x))) => x.data@ == unkept(
                    counts@,
                    b.data@,
                    a.data@,
                    row_len_of(b.shape@),
                    x.shape@[0] as nat,
                ) && x.shape@ == b.shape@.update(0, x.shape@[0]),
                _ => true,
            },
    {
        match (self, into) {
            (Value::Byte(a), Value::Byte(b)) => {
                if b.shape.len() == 0 {
                    return Err(ArrayError::UnsupportedInverse);
                }
                match a.undo_keep(counts.as_slice(), b) {
                    Ok(x) => Ok(Value::Byte(x)),
                    Err(e) => Err(e),
                }
            },
            (Value::Char(a), Value::Char(b)) => {
                if b.shape.len() == 0 {
                    return Err(ArrayError::UnsupportedInverse);
                }
                match a.undo_keep(counts.as_slice(), b) {
                    Ok(x) => Ok(Value::Char(x)),
                    Err(e) => Err(e),
                }
            },
            _ => Err(ArrayError::ShapeMismatch),
        }
    }

    /// Restores the shape a reshape replaced, where the element count agrees.
    pub fn undo_reshape(&mut self, orig_shape: &Vec<usize>) -> (r: Result<(), ArrayError>)
        requires
            old(self).wf(),
        ensures
            final(self).wf(),
            same_kind(*old(self), *final(self)),
            r is Ok <==> shape_fits(orig_shape@) && product(orig_shape@) == value_data_len(
                *old(self),
            ),
            r is Ok ==> value_shape_seq(*final(self)) == orig_shape@,
            r is Err ==> r == Err::<(), ArrayError>(ArrayError::ShapeMismatch) && value_shape_seq(
                *final(self),
            ) == value_shape_seq(*old(self)),
            same_data(*old(self), *final(self)),
    {
        match self {
            Value::Byte(a) => a.undo_reshape(orig_shape),
            Value::Char(a) => a.undo_reshape(orig_shape),
        }
    }

    /// Undoes a rerank to `irank` of a value whose shape was `orig_shape`.
    pub fn undo_rerank(&mut self, irank: isize, orig_shape: &Vec<usize>)
        requires
            old(self).wf(),
        ensures
            final(self).wf(),
            same_kind(*old(self), *final(self)),
            ({
                let u = unreranked(value_shape_seq(*old(self)), irank, orig_shape@);
                let ok = value_shape_seq(*old(self)).len() > 0 && shape_fits(u) && product(u)
                    == value_data_len(*old(self));
                &&& ok ==> value_shape_seq(*final(self)) == u
                &&& !ok ==> value_shape_seq(*final(self)) == value_shape_seq(*old(self))
            }),
            match (*old(self), *final(self)) {
                (Value::Byte(a), Value::Byte(b)) => b.data@ == a.data@,
                (Value::Char(a), Value::Char(b)) => b.data@ == a.data@,
                _ => false,
            },
    {
        match self {
            Value::Byte(a) => a.undo_rerank(irank, orig_shape),
            Value::Char(a) => a.undo_rerank(irank, orig_shape),
        }
    }
}

/// Fill values, one per element kind, and the counts that fill a keep.
pub struct Fills {
    /// Fill for byte arrays.
    pub byte: Option<u8>,
    /// Fill for character arrays.
    pub ch: Option<char>,
    /// Counts for the rows past the end of a keep's counts.
    pub counts: Option<Vec<usize>>,
}

/// The fill counts as an option of a reference.
pub open spec fn fills_counts(f: &Fills) -> Option<&Vec<usize>> {
    match &f.counts {
        Some(v) => Some(v),
        None => None,
    }
}

/// The shape of the array inside.
pub open spec fn value_shape_seq(v: Value) -> Seq<usize> {
    match v {
        Value::Byte(a) => a.shape@,
        Value::Char(a) => a.shape@,
    }
}

/// A keep of an array of shape `shape` gives a shape that fits.
pub open spec fn keep_value_fits(shape: Seq<usize>, counts: Seq<usize>, scalar: bool, fills: &Fills) -> bool {
    if scalar {
        shape.len() > 0 ==> nz_nat((counts[0] as nat) * (shape[0] as nat)) * nz_product(
            shape.drop_first(),
        ) <= usize::MAX
    } else {
        shape.len() > 0 && counts_usable(counts, fill_seq(fills_counts(fills)), shape[0] as nat)
            ==> keep_fits(
            shape,
            effective_counts(counts, fill_seq(fills_counts(fills)), shape[0] as nat),
        )
    }
}

} // verus!
