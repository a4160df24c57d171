//! Reshape, scalar reshape, axis reversal and rerank.
use vstd::prelude::*;

use crate::array::{
    copy_range, extend_range, lemma_row_bounds, row_count_of, row_of, Array, ArrayValue,
};
use crate::error::ArrayError;
use crate::keep::repeat_seq;
use crate::shape::{
    check_shape_fits, lemma_product_split, lemma_sub_fits, nz, nz_product, product,
    product_range, shape_fits,
};

verus! {

/// The first `i` rows of `data` (`n` rows of length `rl`) in reverse order:
/// row `n - 1`, then row `n - 2`, and so on.
pub open spec fn reversed_rows<T>(data: Seq<T>, rl: nat, n: nat, i: nat) -> Seq<T>
    decreases i,
{
    if i == 0 {
        Seq::empty()
    } else {
        reversed_rows(data, rl, n, (i - 1) as nat) + row_of(data, rl, n - i)
    }
}

/// Each of the first `k` blocks of `n` rows of length `rl` with its rows reversed.
pub open spec fn reversed_blocks<T>(data: Seq<T>, rl: nat, n: nat, k: nat) -> Seq<T>
    decreases k,
{
    if k == 0 {
        Seq::empty()
    } else {
        reversed_blocks(data, rl, n, (k - 1) as nat) + reversed_rows(
            row_of(data, n * rl, k - 1),
            rl,
            n,
            n,
        )
    }
}

/// The elements of an array of shape `shape` reversed along axis `d`.
pub open spec fn reverse_axis<T>(data: Seq<T>, shape: Seq<usize>, d: int) -> Seq<T> {
    reversed_blocks(
        data,
        product(shape.skip(d + 1)),
        shape[d] as nat,
        product(shape.take(d)),
    )
}

/// Applies, for each `i < k` with `signs[i] < 0`, the reversal of axis `i`.
pub open spec fn apply_reversals<T>(data: Seq<T>, shape: Seq<usize>, signs: Seq<isize>, k: nat) -> Seq<T>
    decreases k,
{
    if k == 0 {
        data
    } else {
        let d = apply_reversals(data, shape, signs, (k - 1) as nat);
        if signs[k - 1] < 0 {
            reverse_axis(d, shape, k - 1)
        } else {
            d
        }
    }
}

/// The elements stretched or cut to `target`: past the end a fill if there
/// is one, else the elements again from the start.
pub open spec fn resized<T>(data: Seq<T>, target: nat, fill: Option<T>) -> Seq<T> {
    Seq::new(
        target,
        |k: int|
            if k < data.len() {
                data[k]
            } else {
                match fill {
                    Some(f) => f,
                    None => data[k % (data.len() as int)],
                }
            },
    )
}

/// Absolute value of a signed dimension.
pub open spec fn abs_dim(x: isize) -> nat {
    if x < 0 {
        (-x) as nat
    } else {
        x as nat
    }
}

/// Number of inferred entries among the first `k` dimension specs.
pub open spec fn inferred_count(dims: Seq<Result<isize, bool>>, k: nat) -> nat
    decreases k,
{
    if k == 0 {
        0
    } else {
        inferred_count(dims, (k - 1) as nat) + (if dims[k - 1] is Err {
            1nat
        } else {
            0nat
        })
    }
}

/// Product of the absolute values of the given entries among the first `k`.
pub open spec fn fixed_product(dims: Seq<Result<isize, bool>>, k: nat) -> nat
    decreases k,
{
    if k == 0 {
        1
    } else {
        fixed_product(dims, (k - 1) as nat) * (match dims[k - 1] {
            Ok(v) => abs_dim(v),
            Err(_) => 1,
        })
    }
}

/// Same, zeros counted as ones.
pub open spec fn fixed_nz_product(dims: Seq<Result<isize, bool>>, k: nat) -> nat
    decreases k,
{
    if k == 0 {
        1
    } else {
        fixed_nz_product(dims, (k - 1) as nat) * (match dims[k - 1] {
            Ok(v) => if v == 0 {
                1
            } else {
                abs_dim(v)
            },
            Err(_) => 1,
        })
    }
}

/// `total / other` rounded up where there is a fill and down where there is none.
pub open spec fn derived_len(total: nat, other: nat, has_fill: bool) -> nat {
    if other == 0 {
        0
    } else if has_fill {
        ((total + other - 1) / (other as int)) as nat
    } else {
        total / other
    }
}

/// The shape that a reshape by `dims` gives an array of `total` elements:
/// the given entries as they are, an inferred entry as many rows as make the
/// element count come closest, negated if it is marked reversed.
pub open spec fn derived_shape(total: nat, dims: Seq<Result<isize, bool>>, has_fill: bool) -> Seq<isize> {
    Seq::new(
        dims.len(),
        |i: int|
            match dims[i] {
                Ok(v) => v,
                Err(rev) => {
                    let m = derived_len(total, fixed_product(dims, dims.len()), has_fill) as int;
                    (if rev {
                        -m
                    } else {
                        m
                    }) as isize
                },
            },
    )
}

/// Magnitudes of a signed shape.
pub open spec fn abs_shape(axes: Seq<isize>) -> Seq<usize> {
    Seq::new(axes.len(), |i: int| abs_dim(axes[i]) as usize)
}

/// Derives a shape for `total` elements from dimension specs, where at most
/// one entry is inferred (`Err(reversed)`).
pub fn derive_shape(total: usize, dims: &[Result<isize, bool>], has_fill: bool) -> (r: Result<
    Vec<isize>,
    ArrayError,
>)
    requires
        total <= isize::MAX,
        fixed_nz_product(dims@, dims@.len()) <= isize::MAX,
    ensures
        inferred_count(dims@, dims@.len()) > 1 ==> r == Err::<Vec<isize>, ArrayError>(
            ArrayError::InvalidDimension,
        ),
        inferred_count(dims@, dims@.len()) == 1 && fixed_product(dims@, dims@.len()) == 0 ==> r
            == Err::<Vec<isize>, ArrayError>(ArrayError::InvalidDimension),
        inferred_count(dims@, dims@.len()) == 0 || (inferred_count(dims@, dims@.len()) == 1
            && fixed_product(dims@, dims@.len()) > 0) ==> r is Ok && r->Ok_0@ == derived_shape(
            total as nat,
            dims@,
            has_fill,
        ),
{
    let mut inf: usize = 0;
    let mut other: usize = 1;
    let mut i: usize = 0;
    while i < dims.len()
        invariant
            i <= dims@.len(),
            inf == inferred_count(dims@, i as nat),
            inf <= i,
            other == fixed_product(dims@, i as nat),
            fixed_nz_product(dims@, dims@.len()) <= isize::MAX,
            fixed_product(dims@, i as nat) <= fixed_nz_product(dims@, i as nat),
        decreases dims@.len() - i,
    {
        proof {
            lemma_fixed_nz_mono(dims@, (i + 1) as nat, dims@.len());
        }
        match dims[i] {
            Ok(v) => {
                let a: usize = if v < 0 {
                    (0 - (v as i128)) as usize
                } else {
                    v as usize
                };
                proof {
                    let p = fixed_product(dims@, i as nat);
                    let q = fixed_nz_product(dims@, i as nat);
                    let f = abs_dim(v);
                    let g: nat = if v == 0 {
                        1
                    } else {
                        abs_dim(v)
                    };
                    assert(p * f <= q * g) by (nonlinear_arith)
                        requires
                            p <= q,
                            f <= g,
                    ;
                }
                other = other * a;
            },
            Err(_) => {
                inf = inf + 1;
            },
        }
        i = i + 1;
    }
    if inf > 1 {
        return Err(ArrayError::InvalidDimension);
    }
    if inf == 1 && other == 0 {
        return Err(ArrayError::InvalidDimension);
    }
    let m: usize = if inf == 1 {
        if has_fill {
            proof {
                assert((total + other - 1) / (other as int) <= total) by (nonlinear_arith)
                    requires
                        other >= 1,
                ;
            }
            (total + (other - 1)) / other
        } else {
            total / other
        }
    } else {
        0
    };
    let mut out: Vec<isize> = Vec::new();
    let mut j: usize = 0;
    while j < dims.len()
        invariant
            j <= dims@.len(),
            inf <= 1,
            inf == 1 ==> other > 0 && m == derived_len(total as nat, other as nat, has_fill),
            m <= isize::MAX,
            other == fixed_product(dims@, dims@.len()),
            inf == inferred_count(dims@, dims@.len()),
            out@.len() == j,
            forall|k: int| 0 <= k < j ==> out@[k] == #[trigger] derived_shape(
                total as nat,
                dims@,
                has_fill,
            )[k],
        decreases dims@.len() - j,
    {
        match dims[j] {
            Ok(v) => {
                out.push(v);
            },
            Err(rev) => {
                proof {
                    lemma_inferred_pos(dims@, j as nat, dims@.len());
                }
                if rev {
                    out.push(0 - (m as isize));
                } else {
                    out.push(m as isize);
                }
            },
        }
        j = j + 1;
    }
    assert(out@ =~= derived_shape(total as nat, dims@, has_fill));
    Ok(out)
}

proof fn lemma_fixed_nz_mono(dims: Seq<Result<isize, bool>>, i: nat, n: nat)
    requires
        i <= n <= dims.len(),
    ensures
        fixed_nz_product(dims, i) <= fixed_nz_product(dims, n),
        fixed_nz_product(dims, i) >= 1,
    decreases n,
{
    if i < n {
        lemma_fixed_nz_mono(dims, i, (n - 1) as nat);
        let p = fixed_nz_product(dims, (n - 1) as nat);
        let g: nat = match dims[n - 1] {
            Ok(v) => if v == 0 {
                1
            } else {
                abs_dim(v)
            },
            Err(_) => 1,
        };
        assert(p <= p * g) by (nonlinear_arith)
            requires
                g >= 1,
        ;
    } else if n == 0 {
    } else {
        lemma_fixed_nz_mono(dims, (n - 1) as nat, (n - 1) as nat);
        let p = fixed_nz_product(dims, (n - 1) as nat);
        let g: nat = match dims[n - 1] {
            Ok(v) => if v == 0 {
                1
            } else {
                abs_dim(v)
            },
            Err(_) => 1,
        };
        assert(p * g >= 1) by (nonlinear_arith)
            requires
                g >= 1,
                p >= 1,
        ;
    }
}

/// An inferred entry at `j` means the inferred count up to `n` is positive.
proof fn lemma_inferred_pos(dims: Seq<Result<isize, bool>>, j: nat, n: nat)
    requires
        j < n <= dims.len(),
        dims[j as int] is Err,
    ensures
        inferred_count(dims, n) >= 1,
    decreases n,
{
    if j < n - 1 {
        lemma_inferred_pos(dims, j, (n - 1) as nat);
    }
}

/// Appends rows `n - 1` down to `0` of `src[base..]` (rows of length `rl`).
fn push_reversed_rows<T: Copy>(out: &mut Vec<T>, src: &[T], base: usize, rl: usize, n: usize)
    requires
        base + n * rl <= src@.len(),
    ensures
        final(out)@ == old(out)@ + reversed_rows(
            src@.subrange(base as int, base + n * rl),
            rl as nat,
            n as nat,
            n as nat,
        ),
{
    let ghost block = src@.subrange(base as int, base + n * rl);
    let ghost start = out@;
    let mut i: usize = 0;
    let _len = src.len();
    while i < n
        invariant
            base + n * rl <= src@.len(),
            src@.len() <= usize::MAX,
            block == src@.subrange(base as int, base + n * rl),
            i <= n,
            out@ == start + reversed_rows(block, rl as nat, n as nat, i as nat),
        decreases n - i,
    {
        let r = n - 1 - i;
        proof {
            lemma_row_bounds(n as nat, rl as nat, r as int);
            assert(r * rl + rl <= n * rl);
        }
        let lo = base + r * rl;
        extend_range(out, src, lo, lo + rl);
        i = i + 1;
        proof {
            assert(src@.subrange(lo as int, lo + rl) =~= row_of(block, rl as nat, r as int));
            assert(out@ =~= start + reversed_rows(block, rl as nat, n as nat, i as nat));
        }
    }
}

/// Reverses each of `nb` blocks of `n` rows of length `rl`.
fn reverse_blocks<T: Copy>(data: &Vec<T>, rl: usize, n: usize, nb: usize) -> (r: Vec<T>)
    requires
        nb * (n * rl) == data@.len(),
    ensures
        r@ == reversed_blocks(data@, rl as nat, n as nat, nb as nat),
        r@.len() == data@.len(),
{
    let mut out: Vec<T> = Vec::new();
    if nb == 0 {
        return out;
    }
    let mut k: usize = 0;
    let _len = data.len();
    proof {
        lemma_mul_le(n as nat, rl as nat, nb as nat);
    }
    let bl = n * rl;
    while k < nb
        invariant
            nb * bl == data@.len(),
            bl == n * rl,
            data@.len() <= usize::MAX,
            k <= nb,
            out@ == reversed_blocks(data@, rl as nat, n as nat, k as nat),
            out@.len() == k * bl,
        decreases nb - k,
    {
        proof {
            lemma_row_bounds(nb as nat, bl as nat, k as int);
        }
        push_reversed_rows(&mut out, data.as_slice(), k * bl, rl, n);
        k = k + 1;
        proof {
            lemma_reversed_rows_len(row_of(data@, bl as nat, k - 1), rl as nat, n as nat, n as nat);
            assert((k - 1) * bl + bl == k * bl) by (nonlinear_arith);
        }
    }
    out
}

proof fn lemma_mul_le(n: nat, rl: nat, nb: nat)
    requires
        nb * (n * rl) <= usize::MAX,
    ensures
        nb > 0 ==> n * rl <= usize::MAX,
{
    if nb > 0 {
        assert(n * rl <= nb * (n * rl)) by (nonlinear_arith)
            requires
                nb >= 1,
        ;
    }
}

pub proof fn lemma_reversed_rows_len<T>(data: Seq<T>, rl: nat, n: nat, i: nat)
    requires
        i <= n,
        data.len() == n * rl,
    ensures
        reversed_rows(data, rl, n, i).len() == i * rl,
    decreases i,
{
    if i > 0 {
        lemma_reversed_rows_len(data, rl, n, (i - 1) as nat);
        lemma_row_bounds(n, rl, n - i);
        assert(((i - 1) as nat) * rl + rl == i * rl) by (nonlinear_arith)
            requires
                i >= 1,
        ;
    } else {
        assert(0 * rl == 0);
    }
}

impl<T: ArrayValue> Array<T> {
    /// Reverses the array along axis `d`.
    pub fn reverse_axis(&mut self, d: usize)
        requires
            old(self).wf(),
            d < old(self).shape@.len(),
        ensures
            final(self).wf(),
            final(self).shape@ == old(self).shape@,
            final(self).data@ == reverse_axis(old(self).data@, old(self).shape@, d as int),
            final(self).meta == old(self).meta,
    {
        let _sl = self.shape.len();
        let nb = product_range(&self.shape, 0, d);
        let n = self.shape[d];
        let rl = product_range(&self.shape, d + 1, self.shape.len());
        proof {
            lemma_sub_fits(self.shape@, 0, d as int);
            lemma_sub_fits(self.shape@, d + 1, self.shape@.len() as int);
            assert(self.shape@.subrange(0, d as int) =~= self.shape@.take(d as int));
            assert(self.shape@.subrange(d + 1, self.shape@.len() as int) =~= self.shape@.skip(
                d + 1,
            ));
            lemma_product_split(self.shape@, d as int);
            assert(self.shape@.skip(d as int).drop_first() =~= self.shape@.skip(d + 1));
            assert(product(self.shape@.skip(d as int)) == n * rl);
        }
        let data = reverse_blocks(&self.data, rl, n, nb);
        self.data = data;
    }

    /// Replicates the array `|count|` times as the rows of a new leading
    /// axis, with its rows reversed first where `count` is negative; an
    /// inferred count (`Err(reversed)`) only reverses the rows.
    pub fn reshape_scalar(&mut self, count: Result<isize, bool>)
        requires
            old(self).wf(),
            count is Ok ==> nz(abs_dim(count->Ok_0) as usize) * nz_product(old(self).shape@)
                <= usize::MAX,
            count is Ok ==> abs_dim(count->Ok_0) <= usize::MAX,
        ensures
            final(self).wf(),
            final(self).meta.map_keys is None,
            match count {
                Ok(c) => final(self).shape@ == seq![abs_dim(c) as usize] + old(self).shape@
                    && final(self).data@ == repeat_seq(
                    if c < 0 && old(self).shape@.len() > 0 {
                        reverse_axis(old(self).data@, old(self).shape@, 0)
                    } else {
                        old(self).data@
                    },
                    abs_dim(c),
                ),
                Err(rev) => final(self).shape@ == old(self).shape@ && final(self).data@ == (
                if rev && old(self).shape@.len() > 0 {
                    reverse_axis(old(self).data@, old(self).shape@, 0)
                } else {
                    old(self).data@
                }),
            },
    {
        self.take_map_keys();
        match count {
            Err(rev) => {
                if rev && self.shape.len() > 0 {
                    self.reverse_axis(0);
                }
            },
            Ok(c) => {
                if c < 0 && self.shape.len() > 0 {
                    self.reverse_axis(0);
                }
                let ghost base = self.data@;
                let k: usize = if c < 0 {
                    (0 - (c as i128)) as usize
                } else {
                    c as usize
                };
                let mut data: Vec<T> = Vec::new();
                let mut i: usize = 0;
                let len = self.data.len();
                while i < k
                    invariant
                        i <= k,
                        base == self.data@,
                        len == base.len(),
                        data@ == repeat_seq(base, i as nat),
                    decreases k - i,
                {
                    extend_range(&mut data, self.data.as_slice(), 0, len);
                    i = i + 1;
                    assert(base.subrange(0, len as int) =~= base);
                }
                let mut shape: Vec<usize> = Vec::new();
                shape.push(k);
                let mut j: usize = 0;
                while j < self.shape.len()
                    invariant
                        j <= self.shape@.len(),
                        shape@ == seq![k] + self.shape@.subrange(0, j as int),
                    decreases self.shape@.len() - j,
                {
                    shape.push(self.shape[j]);
                    j = j + 1;
                    assert(shape@ =~= seq![k] + self.shape@.subrange(0, j as int));
                }
                proof {
                    assert(self.shape@.subrange(0, self.shape@.len() as int) =~= self.shape@);
                    assert(shape@.drop_first() =~= self.shape@);
                    crate::keep::lemma_repeat_len(base, k as nat);
                    assert(product(shape@) == k * product(self.shape@));
                    assert(nz_product(shape@) == nz(k) * nz_product(self.shape@));
                }
                self.shape = shape;
                self.data = data;
            },
        }
    }

    /// Reshapes the array to the shape derived from `dims`: the elements are
    /// cut, or extended with `fill` or else by repeating them; then every axis
    /// whose derived size is negative is reversed. Map keys survive only where
    /// the row count stays the same.
    pub fn reshape(&mut self, dims: &[Result<isize, bool>], fill: Option<T>) -> (r: Result<
        (),
        ArrayError,
    >)
        requires
            old(self).wf(),
            old(self).data@.len() <= isize::MAX,
            fixed_nz_product(dims@, dims@.len()) <= isize::MAX,
        ensures
            inferred_count(dims@, dims@.len()) > 1 || (inferred_count(dims@, dims@.len()) == 1
                && fixed_product(dims@, dims@.len()) == 0) ==> r == Err::<(), ArrayError>(
                ArrayError::InvalidDimension,
            ) && *final(self) == *old(self),
            r is Ok ==> ({
                let axes = derived_shape(old(self).data@.len(), dims@, fill is Some);
                let shape = abs_shape(axes);
                &&& final(self).wf()
                &&& inferred_count(dims@, dims@.len()) <= 1
                &&& final(self).shape@ == shape
                &&& final(self).data@ == apply_reversals(
                    resized(old(self).data@, product(shape), fill),
                    shape,
                    axes,
                    axes.len(),
                )
            }),
            ({
                let axes = derived_shape(old(self).data@.len(), dims@, fill is Some);
                let shape = abs_shape(axes);
                (inferred_count(dims@, dims@.len()) == 0 || (inferred_count(dims@, dims@.len())
                    == 1 && fixed_product(dims@, dims@.len()) > 0)) ==> (r is Ok <==> (
                shape_fits(shape) && (product(shape) > old(self).data@.len() ==> (fill is Some
                    || old(self).data@.len() > 0))))
            }),
            r is Err ==> *final(self) == *old(self),
            r is Ok ==> final(self).meta.map_keys == reshape_keys(
                old(self).meta.map_keys,
                old(self).shape@,
                final(self).shape@,
            ),
    {
        let total = self.data.len();
        let axes = match derive_shape(total, dims, fill.is_some()) {
            Ok(a) => a,
            Err(e) => {
                return Err(e);
            },
        };
        let mut shape: Vec<usize> = Vec::new();
        let mut i: usize = 0;
        while i < axes.len()
            invariant
                i <= axes@.len(),
                shape@ == abs_shape(axes@).subrange(0, i as int),
            decreases axes@.len() - i,
        {
            let v = axes[i];
            let a: usize = if v < 0 {
                (0 - (v as i128)) as usize
            } else {
                v as usize
            };
            shape.push(a);
            i = i + 1;
            assert(shape@ =~= abs_shape(axes@).subrange(0, i as int));
        }
        assert(shape@ =~= abs_shape(axes@));
        if !check_shape_fits(&shape) {
            return Err(ArrayError::InvalidDimension);
        }
        let target = crate::shape::shape_product(&shape);
        if total < target && fill.is_none() && total == 0 {
            return Err(ArrayError::MissingFill);
        }
        if shape.len() == 0 || shape[0] != self.row_count() {
            self.take_map_keys();
        }
        let ghost keys_after = self.meta.map_keys;
        assert(keys_after == reshape_keys(old(self).meta.map_keys, old(self).shape@, shape@));
        let mut data: Vec<T> = Vec::new();
        let mut k: usize = 0;
        while k < target
            invariant
                k <= target,
                total == self.data@.len(),
                total < target && fill is None ==> total > 0,
                data@ == resized(self.data@, target as nat, fill).subrange(0, k as int),
            decreases target - k,
        {
            if k < total {
                data.push(self.data[k]);
            } else {
                match fill {
                    Some(f) => data.push(f),
                    None => data.push(self.data[k % total]),
                }
            }
            k = k + 1;
            assert(data@ =~= resized(self.data@, target as nat, fill).subrange(0, k as int));
        }
        assert(data@ =~= resized(self.data@, target as nat, fill));
        self.shape = shape;
        self.data = data;
        let mut d: usize = 0;
        let ghost resized_data = self.data@;
        while d < axes.len()
            invariant
                d <= axes@.len(),
                self.wf(),
                self.shape@ == abs_shape(axes@),
                self.shape@.len() == axes@.len(),
                self.data@ == apply_reversals(resized_data, self.shape@, axes@, d as nat),
                self.meta.map_keys == keys_after,
            decreases axes@.len() - d,
        {
            if axes[d] < 0 {
                self.reverse_axis(d);
            }
            d = d + 1;
        }
        Ok(())
    }

    /// Changes the rank to `r` without touching the elements: a positive rank
    /// below the current one merges the leading `rank - r + 1` axes into one,
    /// a rank at or above it adds leading axes of 1 up to rank `r`; rank 0
    /// flattens a non-scalar into a list. A negative rank merges the leading
    /// `|r|` axes into one.
    pub fn rerank(&mut self, irank: isize) -> (r: Result<(), ArrayError>)
        requires
            old(self).wf(),
        ensures
            irank < 0 && abs_dim(irank) > old(self).shape@.len() ==> r == Err::<(), ArrayError>(
                ArrayError::InvalidDimension,
            ),
            r is Err ==> final(self).shape@ == old(self).shape@,
            !(irank < 0 && abs_dim(irank) > old(self).shape@.len()) ==> r is Ok,
            final(self).data@ == old(self).data@,
            r is Ok ==> final(self).wf() && final(self).meta.map_keys is None
                && final(self).shape@ == reranked(old(self).shape@, irank),
            irank > 0 ==> final(self).shape@.len() == irank,
    {
        let len = self.shape.len();
        let rank: usize = if irank < 0 {
            (0 - (irank as i128)) as usize
        } else {
            irank as usize
        };
        if irank < 0 && rank > len {
            return Err(ArrayError::InvalidDimension);
        }
        self.take_map_keys();
        let ghost old_shape = self.shape@;
        let mut shape: Vec<usize> = Vec::new();
        if irank >= 0 && rank >= len {
            let extra = rank - len;
            let mut i: usize = 0;
            while i < extra
                invariant
                    i <= extra,
                    shape@ == Seq::new(i as nat, |j: int| 1usize),
                decreases extra - i,
            {
                shape.push(1);
                i = i + 1;
                assert(shape@ =~= Seq::new(i as nat, |j: int| 1usize));
            }
            let rest = copy_range(&self.shape, 0, len);
            shape.append(&mut rest.clone());
            proof {
                assert(rest@ =~= old_shape);
                lemma_ones_product(old_shape, extra as nat);
            }
        } else {
            let mid = if irank < 0 {
                rank
            } else if rank == 0 {
                len
            } else {
                len - rank + 1
            };
            let first = product_range(&self.shape, 0, mid);
            shape.push(first);
            let mut rest = copy_range(&self.shape, mid, len);
            shape.append(&mut rest);
            proof {
                lemma_merge_product(old_shape, mid as int);
            }
        }
        self.shape = shape;
        Ok(())
    }

    /// Restores the shape that a reshape replaced, where the element count
    /// agrees.
    pub fn undo_reshape(&mut self, orig_shape: &Vec<usize>) -> (r: Result<(), ArrayError>)
        requires
            old(self).wf(),
        ensures
            r is Ok <==> shape_fits(orig_shape@) && product(orig_shape@) == old(self).data@.len(),
            r is Ok ==> final(self).wf() && final(self).shape@ == orig_shape@,
            r is Err ==> r == Err::<(), ArrayError>(ArrayError::ShapeMismatch)
                && final(self).shape@ == old(self).shape@,
            final(self).data@ == old(self).data@,
    {
        if !check_shape_fits(orig_shape) {
            return Err(ArrayError::ShapeMismatch);
        }
        if crate::shape::shape_product(orig_shape) != self.data.len() {
            return Err(ArrayError::ShapeMismatch);
        }
        self.shape = copy_range(orig_shape, 0, orig_shape.len());
        assert(self.shape@ =~= orig_shape@);
        Ok(())
    }
}

/// No entry of the dimension specs asks for a reversal.
pub open spec fn no_reversal(dims: Seq<Result<isize, bool>>) -> bool {
    forall|i: int|
        0 <= i < dims.len() ==> match #[trigger] dims[i] {
            Ok(v) => v >= 0,
            Err(rev) => !rev,
        }
}

/// Reshaping to a shape with the same element count, without reversals,
/// neither fills nor repeats and keeps the elements in order.
pub proof fn lemma_reshape_exact<T>(data: Seq<T>, dims: Seq<Result<isize, bool>>, fill: Option<T>)
    requires
        data.len() <= isize::MAX,
        no_reversal(dims),
        product(abs_shape(derived_shape(data.len(), dims, fill is Some))) == data.len(),
    ensures
        ({
            let axes = derived_shape(data.len(), dims, fill is Some);
            let shape = abs_shape(axes);
            apply_reversals(resized(data, product(shape), fill), shape, axes, axes.len()) == data
        }),
{
    let axes = derived_shape(data.len(), dims, fill is Some);
    let shape = abs_shape(axes);
    assert(resized(data, product(shape), fill) =~= data);
    lemma_derived_len_le(data.len(), fixed_product(dims, dims.len()), fill is Some);
    assert forall|i: int| 0 <= i < axes.len() implies axes[i] >= 0 by {
        match dims[i] {
            Ok(v) => {},
            Err(rev) => {},
        }
    }
    lemma_no_reversals(data, shape, axes, axes.len());
}

proof fn lemma_derived_len_le(total: nat, other: nat, has_fill: bool)
    ensures
        derived_len(total, other, has_fill) <= total,
{
    if other >= 1 {
        assert((total + other - 1) / (other as int) <= total) by (nonlinear_arith)
            requires
                other >= 1,
        ;
        assert(total / other <= total) by (nonlinear_arith)
            requires
                other >= 1,
        ;
    }
}

proof fn lemma_no_reversals<T>(data: Seq<T>, shape: Seq<usize>, axes: Seq<isize>, k: nat)
    requires
        k <= axes.len(),
        forall|i: int| 0 <= i < axes.len() ==> axes[i] >= 0,
    ensures
        apply_reversals(data, shape, axes, k) == data,
    decreases k,
{
    if k > 0 {
        lemma_no_reversals(data, shape, axes, (k - 1) as nat);
    }
}

/// Reshaping an array of shape `S1` to an exact shape `S2` and then back to
/// `S1` (given as plain dimensions) restores its shape and elements.
pub proof fn lemma_reshape_round_trip<T>(
    data: Seq<T>,
    s1: Seq<usize>,
    dims2: Seq<Result<isize, bool>>,
    fill: Option<T>,
)
    requires
        data.len() <= isize::MAX,
        product(s1) == data.len(),
        forall|i: int| 0 <= i < s1.len() ==> s1[i] <= isize::MAX,
        no_reversal(dims2),
        product(abs_shape(derived_shape(data.len(), dims2, fill is Some))) == data.len(),
    ensures
        ({
            let dims1 = Seq::new(s1.len(), |i: int| Ok::<isize, bool>(s1[i] as isize));
            let axes2 = derived_shape(data.len(), dims2, fill is Some);
            let shape2 = abs_shape(axes2);
            let mid = apply_reversals(resized(data, product(shape2), fill), shape2, axes2, axes2.len());
            let axes1 = derived_shape(mid.len(), dims1, fill is Some);
            let shape1 = abs_shape(axes1);
            &&& mid == data
            &&& shape1 == s1
            &&& apply_reversals(resized(mid, product(shape1), fill), shape1, axes1, axes1.len())
                == data
        }),
{
    lemma_reshape_exact(data, dims2, fill);
    let dims1 = Seq::new(s1.len(), |i: int| Ok::<isize, bool>(s1[i] as isize));
    let axes1 = derived_shape(data.len(), dims1, fill is Some);
    assert(abs_shape(axes1) =~= s1);
    assert forall|i: int| 0 <= i < dims1.len() implies match #[trigger] dims1[i] {
        Ok(v) => v >= 0,
        Err(rev) => !rev,
    } by {}
    lemma_reshape_exact(data, dims1, fill);
}

/// The shape an undone rerank restores: the leading axes of the shape before
/// the rerank that it merged, then the current axes after the merged one; or,
/// where the rerank added axes of 1, the current axes without them.
pub open spec fn unreranked(shape: Seq<usize>, irank: isize, orig: Seq<usize>) -> Seq<usize> {
    let r = abs_dim(irank);
    let rest = if shape.len() >= 1 {
        shape.skip(1)
    } else {
        Seq::empty()
    };
    if irank >= 0 {
        if r >= orig.len() {
            if (r - orig.len()) as int <= shape.len() {
                shape.skip((r - orig.len()) as int)
            } else {
                Seq::empty()
            }
        } else if r == 0 {
            orig + rest
        } else {
            orig.take(orig.len() - r + 1) + rest
        }
    } else {
        orig.take(if r <= orig.len() {
            r as int
        } else {
            orig.len() as int
        }) + rest
    }
}

impl<T: ArrayValue> Array<T> {
    /// Undoes a rerank to `irank` of an array whose shape was `orig_shape`:
    /// the shape becomes [`unreranked`] where that keeps the element count,
    /// and stays as it is otherwise. A scalar stays as it is.
    pub fn undo_rerank(&mut self, irank: isize, orig_shape: &Vec<usize>)
        requires
            old(self).wf(),
        ensures
            final(self).wf(),
            final(self).data@ == old(self).data@,
            old(self).shape@.len() > 0 && shape_fits(
                unreranked(old(self).shape@, irank, orig_shape@),
            ) && product(unreranked(old(self).shape@, irank, orig_shape@)) == old(
                self,
            ).data@.len() ==> final(self).shape@ == unreranked(
                old(self).shape@,
                irank,
                orig_shape@,
            ),
            !(old(self).shape@.len() > 0 && shape_fits(
                unreranked(old(self).shape@, irank, orig_shape@),
            ) && product(unreranked(old(self).shape@, irank, orig_shape@)) == old(
                self,
            ).data@.len()) ==> final(self).shape@ == old(self).shape@,
    {
        let sl = self.shape.len();
        if sl == 0 {
            return;
        }
        let ol = orig_shape.len();
        let r: usize = if irank < 0 {
            (0 - (irank as i128)) as usize
        } else {
            irank as usize
        };
        let mut new_shape: Vec<usize>;
        if irank >= 0 && r >= ol {
            let skip = r - ol;
            if skip <= sl {
                new_shape = copy_range(&self.shape, skip, sl);
            } else {
                new_shape = Vec::new();
            }
        } else {
            let t = if irank < 0 {
                if r <= ol {
                    r
                } else {
                    ol
                }
            } else if r == 0 {
                ol
            } else {
                ol - r + 1
            };
            new_shape = crate::array::copy_range(orig_shape, 0, t);
            let mut rest = copy_range(&self.shape, 1, sl);
            new_shape.append(&mut rest);
            proof {
                if irank >= 0 && r == 0 {
                    assert(orig_shape@.take(ol as int) =~= orig_shape@);
                }
            }
        }
        assert(new_shape@ =~= unreranked(self.shape@, irank, orig_shape@));
        if !check_shape_fits(&new_shape) {
            return;
        }
        if crate::shape::shape_product(&new_shape) != self.data.len() {
            return;
        }
        self.shape = new_shape;
    }
}

/// Map keys after a reshape from shape `old` to shape `new`: kept where the
/// leading dimension keeps the row count, dropped otherwise.
pub open spec fn reshape_keys<K>(keys: Option<K>, old: Seq<usize>, new: Seq<usize>) -> Option<K> {
    if new.len() > 0 && new[0] as nat == row_count_of(old) {
        keys
    } else {
        None
    }
}

/// The shape that a rerank to `irank` gives.
pub open spec fn reranked(shape: Seq<usize>, irank: isize) -> Seq<usize> {
    let r = abs_dim(irank);
    if irank >= 0 && r >= shape.len() {
        Seq::new((r - shape.len()) as nat, |j: int| 1usize) + shape
    } else {
        let mid: int = if irank < 0 {
            r as int
        } else if r == 0 {
            shape.len() as int
        } else {
            shape.len() - r + 1
        };
        seq![product(shape.take(mid)) as usize] + shape.skip(mid)
    }
}

/// Undoing a rerank with the shape from before it restores that shape.
pub proof fn lemma_rerank_undo(shape: Seq<usize>, irank: isize)
    requires
        !(irank < 0 && abs_dim(irank) > shape.len()),
    ensures
        unreranked(reranked(shape, irank), irank, shape) == shape,
{
    let r = abs_dim(irank);
    let s2 = reranked(shape, irank);
    if irank >= 0 && r >= shape.len() {
        assert(s2.skip((r - shape.len()) as int) =~= shape);
    } else if irank >= 0 && r == 0 {
        assert(s2.skip(1) =~= Seq::<usize>::empty());
        assert(shape + Seq::<usize>::empty() =~= shape);
        assert(shape.skip(shape.len() as int) =~= Seq::<usize>::empty());
    } else if irank >= 0 {
        let mid = shape.len() - r + 1;
        assert(s2.skip(1) =~= shape.skip(mid));
        assert(shape.take(mid) + shape.skip(mid) =~= shape);
    } else {
        assert(s2.skip(1) =~= shape.skip(r as int));
        assert(shape.take(r as int) + shape.skip(r as int) =~= shape);
    }
}

pub proof fn lemma_ones_product(shape: Seq<usize>, k: nat)
    ensures
        product(Seq::new(k, |j: int| 1usize) + shape) == product(shape),
        nz_product(Seq::new(k, |j: int| 1usize) + shape) == nz_product(shape),
    decreases k,
{
    if k > 0 {
        let s = Seq::new(k, |j: int| 1usize) + shape;
        assert(s.drop_first() =~= Seq::new((k - 1) as nat, |j: int| 1usize) + shape);
        assert(s[0] == 1);
        assert(nz(s[0]) == 1);
        lemma_ones_product(shape, (k - 1) as nat);
    } else {
        assert(Seq::new(k, |j: int| 1usize) + shape =~= shape);
    }
}

proof fn lemma_merge_product(shape: Seq<usize>, mid: int)
    requires
        0 <= mid <= shape.len(),
        shape_fits(shape),
    ensures
        product(shape.take(mid)) <= usize::MAX,
        product(seq![product(shape.take(mid)) as usize] + shape.skip(mid)) == product(shape),
        shape_fits(seq![product(shape.take(mid)) as usize] + shape.skip(mid)),
{
    lemma_sub_fits(shape, 0, mid);
    assert(shape.subrange(0, mid) =~= shape.take(mid));
    lemma_product_split(shape, mid);
    let m = seq![product(shape.take(mid)) as usize] + shape.skip(mid);
    assert(m.drop_first() =~= shape.skip(mid));
    crate::shape::lemma_nz_positive(shape.take(mid));
    crate::shape::lemma_nz_positive(shape.skip(mid));
    let p = product(shape.take(mid));
    let q = nz_product(shape.take(mid));
    let z = nz_product(shape.skip(mid));
    assert(nz(p as usize) <= q);
    assert(nz(p as usize) * z <= q * z) by (nonlinear_arith)
        requires
            nz(p as usize) <= q,
    ;
}

} // verus!
