//! Windows: every sliding sub-array of a given size, and the row-major
//! index arithmetic it rests on.
use vstd::prelude::*;

use crate::array::{Array, ArrayValue};
use crate::error::ArrayError;
use crate::shape::{
    lemma_product_concat, lemma_product_split, lemma_zero_dim, product,
    product_range, shape_fits,
};

verus! {

/// Distance in the buffer between neighbours along axis `j` of shape `s`.
pub open spec fn stride(s: Seq<usize>, j: int) -> nat {
    product(s.skip(j + 1))
}

/// Coordinate along axis `j` of the element at flat index `k` of shape `s`.
pub open spec fn coord(s: Seq<usize>, k: int, j: int) -> int {
    (k / (stride(s, j) as int)) % (s[j] as int)
}

/// `sum over j < m of x(j) * stride(s, j)`: the flat index of the coordinates `x`.
pub open spec fn flat_sum(s: Seq<usize>, x: spec_fn(int) -> int, m: nat) -> int
    decreases m,
{
    if m == 0 {
        0
    } else {
        flat_sum(s, x, (m - 1) as nat) + x(m - 1) * (stride(s, m - 1) as int)
    }
}

/// Coordinates in bounds give a flat index in bounds.
pub proof fn lemma_flat_bound(s: Seq<usize>, x: spec_fn(int) -> int, m: nat)
    requires
        m <= s.len(),
        forall|j: int| 0 <= j < s.len() ==> 0 <= #[trigger] x(j) < s[j],
    ensures
        0 <= flat_sum(s, x, m),
        flat_sum(s, x, m) + product(s.skip(m as int)) <= product(s),
    decreases m,
{
    if m == 0 {
        assert(s.skip(0) =~= s);
    } else {
        let j = m - 1;
        lemma_flat_bound(s, x, (m - 1) as nat);
        let p = product(s.skip(m as int));
        assert(s.skip(j).drop_first() =~= s.skip(m as int));
        assert(product(s.skip(j)) == s[j] * p);
        assert(x(j) * p + p <= s[j] * p) by (nonlinear_arith)
            requires
                x(j) < s[j],
                p >= 0,
        ;
        assert(x(j) * p >= 0) by (nonlinear_arith)
            requires
                x(j) >= 0,
                p >= 0,
        ;
    }
}

/// Partial flat sums grow.
pub proof fn lemma_flat_mono(s: Seq<usize>, x: spec_fn(int) -> int, i: nat, m: nat)
    requires
        i <= m <= s.len(),
        forall|j: int| 0 <= j < s.len() ==> 0 <= #[trigger] x(j) < s[j],
    ensures
        flat_sum(s, x, i) <= flat_sum(s, x, m),
    decreases m,
{
    if i < m {
        lemma_flat_mono(s, x, i, (m - 1) as nat);
        let p = stride(s, m - 1);
        assert(x(m - 1) * p >= 0) by (nonlinear_arith)
            requires
                x(m - 1) >= 0,
                p >= 0,
        ;
    }
}

/// Flat sums of coordinates that agree are equal.
pub proof fn lemma_flat_ext(s: Seq<usize>, x: spec_fn(int) -> int, y: spec_fn(int) -> int, m: nat)
    requires
        forall|j: int| 0 <= j < m ==> #[trigger] x(j) == y(j),
    ensures
        flat_sum(s, x, m) == flat_sum(s, y, m),
    decreases m,
{
    if m > 0 {
        lemma_flat_ext(s, x, y, (m - 1) as nat);
        assert(x(m - 1) == y(m - 1));
    }
}

/// The flat index of in-bounds coordinates `x` in shape `s`, given its strides.
pub fn flat_index(s: &Vec<usize>, st: &Vec<usize>, x: &Vec<usize>) -> (r: usize)
    requires
        st@.len() == s@.len(),
        x@.len() == s@.len(),
        forall|j: int| 0 <= j < s@.len() ==> st@[j] == stride(s@, j),
        forall|j: int| 0 <= j < s@.len() ==> x@[j] < s@[j],
        product(s@) <= usize::MAX,
    ensures
        r == flat_sum(s@, |j: int| x@[j] as int, s@.len()),
        r < product(s@),
{
    let ghost f = |j: int| x@[j] as int;
    proof {
        assert forall|j: int| 0 <= j < s@.len() implies 0 <= #[trigger] f(j) < s@[j] by {}
        lemma_flat_bound(s@, f, s@.len());
        assert(s@.skip(s@.len() as int) =~= Seq::<usize>::empty());
    }
    let mut acc: usize = 0;
    let mut j: usize = 0;
    while j < s.len()
        invariant
            j <= s@.len(),
            st@.len() == s@.len(),
            x@.len() == s@.len(),
            forall|i: int| 0 <= i < s@.len() ==> st@[i] == stride(s@, i),
            forall|i: int| 0 <= i < s@.len() ==> 0 <= #[trigger] f(i) < s@[i],
            forall|i: int| #[trigger] f(i) == x@[i] as int,
            flat_sum(s@, f, s@.len()) < product(s@),
            product(s@) <= usize::MAX,
            acc == flat_sum(s@, f, j as nat),
        decreases s@.len() - j,
    {
        proof {
            lemma_flat_mono(s@, f, (j + 1) as nat, s@.len());
        }
        acc = acc + x[j] * st[j];
        j = j + 1;
    }
    acc
}

/// A shape with elements has no zero dimension.
pub proof fn lemma_nonzero_dims(s: Seq<usize>)
    requires
        product(s) > 0,
    ensures
        forall|j: int| 0 <= j < s.len() ==> s[j] > 0,
{
    assert forall|j: int| 0 <= j < s.len() implies s[j] > 0 by {
        if s[j] == 0 {
            lemma_zero_dim(s, j);
        }
    }
}

/// A coordinate lies below its dimension.
pub proof fn lemma_coord_bound(s: Seq<usize>, k: int, j: int)
    requires
        0 <= j < s.len(),
        s[j] > 0,
        k >= 0,
    ensures
        0 <= coord(s, k, j) < s[j],
{
    let st = stride(s, j) as int;
    if st > 0 {
        assert(k / st >= 0) by (nonlinear_arith)
            requires
                k >= 0,
                st > 0,
        ;
    }
}

/// The strides of every axis of a shape.
pub fn strides(s: &Vec<usize>) -> (r: Vec<usize>)
    requires
        shape_fits(s@),
    ensures
        r@.len() == s@.len(),
        forall|j: int| 0 <= j < s@.len() ==> r@[j] == stride(s@, j),
{
    let mut r: Vec<usize> = Vec::new();
    let mut j: usize = 0;
    while j < s.len()
        invariant
            j <= s@.len(),
            shape_fits(s@),
            r@.len() == j,
            forall|i: int| 0 <= i < j ==> r@[i] == stride(s@, i),
        decreases s@.len() - j,
    {
        let p = product_range(s, j + 1, s.len());
        assert(s@.subrange(j + 1, s@.len() as int) =~= s@.skip(j + 1));
        r.push(p);
        j = j + 1;
    }
    r
}

/// Window size along an axis of length `d`: negative sizes count from the end.
pub open spec fn resolved(d: usize, w: isize) -> int {
    if w >= 0 {
        w as int
    } else {
        d + 1 + w
    }
}

/// The number of window positions along each windowed axis.
pub open spec fn window_outer(s: Seq<usize>, spec: Seq<isize>) -> Seq<usize> {
    Seq::new(
        spec.len(),
        |k: int|
            if s[k] + 1 - resolved(s[k], spec[k]) >= 0 {
                (s[k] + 1 - resolved(s[k], spec[k])) as usize
            } else {
                0usize
            },
    )
}

/// The size of a window along every axis of the array.
pub open spec fn window_size(s: Seq<usize>, spec: Seq<isize>) -> Seq<usize> {
    Seq::new(
        s.len(),
        |k: int|
            if k < spec.len() {
                if resolved(s[k], spec[k]) >= 0 {
                    resolved(s[k], spec[k]) as usize
                } else {
                    0usize
                }
            } else {
                s[k]
            },
    )
}

/// Shape of the windows of an array: window positions, then window sizes.
pub open spec fn windows_shape(s: Seq<usize>, spec: Seq<isize>) -> Seq<usize> {
    window_outer(s, spec) + window_size(s, spec)
}

/// Every window size lies between one and its axis length.
pub open spec fn windows_fit(s: Seq<usize>, spec: Seq<isize>) -> bool {
    forall|k: int|
        0 <= k < spec.len() ==> 0 < #[trigger] resolved(s[k], spec[k]) && resolved(s[k], spec[k])
            <= s[k]
}

/// Index in the array of element `k` of the windows: the corner of the window
/// plus the offset within it, along every axis.
pub open spec fn window_source(s: Seq<usize>, outer: Seq<usize>, t: Seq<usize>, k: int) -> int {
    let w = product(t) as int;
    flat_sum(
        s,
        |j: int|
            (if j < outer.len() {
                coord(outer, k / w, j)
            } else {
                0
            }) + coord(t, k % w, j),
        s.len(),
    )
}

impl<T: ArrayValue> Array<T> {
    /// All windows of the given size, one per position, in row-major order of
    /// their corners; negative sizes count from the end of the axis.
    pub fn windows(&self, isize_spec: &[isize]) -> (r: Result<Self, ArrayError>)
        requires
            self.wf(),
            shape_fits(windows_shape(self.shape@, isize_spec@)),
        ensures
            (exists|k: int| 0 <= k < isize_spec@.len() && isize_spec@[k] == 0) ==> r == Err::<
                Self,
                ArrayError,
            >(ArrayError::InvalidDimension),
            !(exists|k: int| 0 <= k < isize_spec@.len() && isize_spec@[k] == 0)
                && isize_spec@.len() > self.shape@.len() ==> r == Err::<Self, ArrayError>(
                ArrayError::ShapeMismatch,
            ),
            !(exists|k: int| 0 <= k < isize_spec@.len() && isize_spec@[k] == 0)
                && isize_spec@.len() <= self.shape@.len() ==> r is Ok && ({
                let a = r->Ok_0;
                let outer = window_outer(self.shape@, isize_spec@);
                let t = window_size(self.shape@, isize_spec@);
                &&& a.wf()
                &&& a.shape@ == windows_shape(self.shape@, isize_spec@)
                &&& !windows_fit(self.shape@, isize_spec@) ==> a.data@.len() == 0
                &&& windows_fit(self.shape@, isize_spec@) ==> forall|k: int|
                    0 <= k < a.data@.len() ==> #[trigger] a.data@[k] == self.data@[window_source(
                        self.shape@,
                        outer,
                        t,
                        k,
                    )]
            }),
    {
        let mut i: usize = 0;
        while i < isize_spec.len()
            invariant
                i <= isize_spec@.len(),
                forall|k: int| 0 <= k < i ==> isize_spec@[k] != 0,
            decreases isize_spec@.len() - i,
        {
            if isize_spec[i] == 0 {
                return Err(ArrayError::InvalidDimension);
            }
            i = i + 1;
        }
        let rank = self.shape.len();
        let nk = isize_spec.len();
        if nk > rank {
            return Err(ArrayError::ShapeMismatch);
        }
        let ghost s = self.shape@;
        let ghost sp = isize_spec@;
        let mut outer: Vec<usize> = Vec::new();
        let mut t: Vec<usize> = Vec::new();
        let mut fits = true;
        let mut k: usize = 0;
        while k < rank
            invariant
                k <= rank,
                rank == s.len(),
                nk == sp.len(),
                nk <= rank,
                s == self.shape@,
                sp == isize_spec@,
                outer@.len() == if k < nk {
                    k as nat
                } else {
                    nk as nat
                },
                t@.len() == k,
                forall|j: int| 0 <= j < nk ==> sp[j] != 0,
                forall|j: int| 0 <= j < outer@.len() ==> outer@[j] == window_outer(s, sp)[j],
                forall|j: int| 0 <= j < k ==> t@[j] == window_size(s, sp)[j],
                fits == (forall|j: int|
                    0 <= j < k && j < nk ==> 0 < #[trigger] resolved(s[j], sp[j]) && resolved(
                        s[j],
                        sp[j],
                    ) <= s[j]),
            decreases rank - k,
        {
            let d = self.shape[k];
            if k < nk {
                let w = isize_spec[k];
                let ws: i128 = if w >= 0 {
                    w as i128
                } else {
                    (d as i128) + 1 + (w as i128)
                };
                let o: i128 = (d as i128) + 1 - ws;
                outer.push(
                    if o >= 0 {
                        o as usize
                    } else {
                        0
                    },
                );
                t.push(
                    if ws >= 0 {
                        ws as usize
                    } else {
                        0
                    },
                );
                if ws <= 0 || ws > d as i128 {
                    fits = false;
                }
            } else {
                t.push(d);
            }
            k = k + 1;
        }
        assert(outer@ =~= window_outer(s, sp));
        assert(t@ =~= window_size(s, sp));
        let mut new_shape = outer.clone();
        let mut t2 = t.clone();
        assert(new_shape@ =~= outer@);
        new_shape.append(&mut t2);
        assert(new_shape@ =~= windows_shape(s, sp));
        if !fits {
            proof {
                let j = choose|j: int|
                    0 <= j < nk && !(0 < #[trigger] resolved(s[j], sp[j]) && resolved(s[j], sp[j])
                        <= s[j]);
                if resolved(s[j], sp[j]) <= 0 {
                    assert(new_shape@[nk + j] == 0);
                    lemma_zero_dim(new_shape@, nk + j);
                } else {
                    assert(new_shape@[j] == 0);
                    lemma_zero_dim(new_shape@, j);
                }
            }
            return Ok(Array::new(new_shape, Vec::new()));
        }
        proof {
            lemma_product_concat(outer@, t@);
            crate::shape::lemma_sub_fits(new_shape@, 0, nk as int);
            crate::shape::lemma_sub_fits(new_shape@, nk as int, new_shape@.len() as int);
            assert(new_shape@.subrange(0, nk as int) =~= outer@);
            assert(new_shape@.subrange(nk as int, new_shape@.len() as int) =~= t@);
        }
        let total = crate::shape::shape_product(&new_shape);
        let w = crate::shape::shape_product(&t);
        let st_s = strides(&self.shape);
        let st_o = strides(&outer);
        let st_t = strides(&t);
        let _len = self.data.len();
        let mut data: Vec<T> = Vec::new();
        let mut e: usize = 0;
        while e < total
            invariant
                e <= total,
                total == product(outer@) * product(t@),
                w == product(t@),
                s == self.shape@,
                self.wf(),
                self.data@.len() <= usize::MAX,
                outer@ == window_outer(s, sp),
                t@ == window_size(s, sp),
                nk == sp.len(),
                nk <= rank,
                rank == s.len(),
                windows_fit(s, sp),
                st_s@.len() == rank,
                st_o@.len() == nk,
                st_t@.len() == rank,
                forall|j: int| 0 <= j < rank ==> st_s@[j] == stride(s, j),
                forall|j: int| 0 <= j < nk ==> st_o@[j] == stride(outer@, j),
                forall|j: int| 0 <= j < rank ==> st_t@[j] == stride(t@, j),
                data@.len() == e,
                forall|q: int|
                    0 <= q < e ==> #[trigger] data@[q] == self.data@[window_source(
                        s,
                        outer@,
                        t@,
                        q,
                    )],
            decreases total - e,
        {
            proof {
                assert(product(outer@) * product(t@) > 0);
                assert(product(outer@) > 0 && product(t@) > 0) by (nonlinear_arith)
                    requires
                        product(outer@) * product(t@) > 0,
                ;
                lemma_nonzero_dims(outer@);
                lemma_nonzero_dims(t@);
                assert((e as int) / (w as int) < product(outer@)) by (nonlinear_arith)
                    requires
                        e < product(outer@) * w,
                        w > 0,
                ;
            }
            let kc = e / w;
            let ko = e % w;
            let ghost x = |j: int|
                (if j < outer@.len() {
                    coord(outer@, kc as int, j)
                } else {
                    0
                }) + coord(t@, ko as int, j);
            proof {
                assert forall|j: int| 0 <= j < s.len() implies 0 <= #[trigger] x(j) < s[j] by {
                    lemma_coord_bound(t@, ko as int, j);
                    if j < nk {
                        lemma_coord_bound(outer@, kc as int, j);
                        assert(resolved(s[j], sp[j]) > 0);
                    }
                }
                lemma_flat_bound(s, x, s.len());
                assert(s.skip(s.len() as int) =~= Seq::<usize>::empty());
                assert forall|i: int| 0 <= i < nk implies st_o@[i] > 0 by {
                    lemma_product_split(outer@, i + 1);
                    assert(product(outer@.take(i + 1)) * product(outer@.skip(i + 1)) > 0);
                    assert(product(outer@.skip(i + 1)) > 0) by (nonlinear_arith)
                        requires
                            product(outer@.take(i + 1)) * product(outer@.skip(i + 1)) > 0,
                    ;
                }
                assert forall|i: int| 0 <= i < rank implies st_t@[i] > 0 by {
                    lemma_product_split(t@, i + 1);
                    assert(product(t@.take(i + 1)) * product(t@.skip(i + 1)) > 0);
                    assert(product(t@.skip(i + 1)) > 0) by (nonlinear_arith)
                        requires
                            product(t@.take(i + 1)) * product(t@.skip(i + 1)) > 0,
                    ;
                }
            }
            let mut acc: usize = 0;
            let mut j: usize = 0;
            while j < rank
                invariant
                    j <= rank,
                    rank == s.len(),
                    nk <= rank,
                    nk == outer@.len(),
                    t@.len() == rank,
                    st_s@.len() == rank,
                    st_o@.len() == nk,
                    st_t@.len() == rank,
                    forall|i: int| 0 <= i < rank ==> st_s@[i] == stride(s, i),
                    forall|i: int| 0 <= i < nk ==> st_o@[i] == stride(outer@, i),
                    forall|i: int| 0 <= i < rank ==> st_t@[i] == stride(t@, i),
                    forall|i: int| 0 <= i < s.len() ==> 0 <= #[trigger] x(i) < s[i],
                    forall|i: int|
                        #[trigger] x(i) == (if i < outer@.len() {
                            coord(outer@, kc as int, i)
                        } else {
                            0
                        }) + coord(t@, ko as int, i),
                    forall|i: int| 0 <= i < nk ==> outer@[i] > 0,
                    forall|i: int| 0 <= i < nk ==> st_o@[i] > 0,
                    forall|i: int| 0 <= i < rank ==> st_t@[i] > 0,
                    forall|i: int| 0 <= i < rank ==> t@[i] > 0,
                    flat_sum(s, x, s.len()) < product(s),
                    product(s) == self.data@.len(),
                    self.data@.len() <= usize::MAX,
                    acc == flat_sum(s, x, j as nat),
                decreases rank - j,
            {
                let c: usize = if j < nk {
                    (kc / st_o[j]) % outer[j]
                } else {
                    0
                };
                let o: usize = (ko / st_t[j]) % t[j];
                proof {
                    lemma_flat_mono(s, x, (j + 1) as nat, s.len());
                    if j < nk {
                        assert(c == coord(outer@, kc as int, j as int));
                    }
                    assert(o == coord(t@, ko as int, j as int));
                    assert(x(j as int) == c + o);
                    assert(c + o < s[j as int]);
                }
                acc = acc + (c + o) * st_s[j];
                j = j + 1;
            }
            proof {
                assert(acc == window_source(s, outer@, t@, e as int));
            }
            data.push(self.data[acc]);
            e = e + 1;
        }
        Ok(Array::new(new_shape, data))
    }
}

} // verus!
