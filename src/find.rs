//! Find: where a pattern occurs as a sub-array of a haystack.
use vstd::prelude::*;

use crate::array::{Array, ArrayFlags, ArrayValue};
use crate::error::ArrayError;
use crate::rotate::fill_row;
use crate::shape::{nz_product, product, shape_fits};
use crate::windows::{
    coord, flat_index, flat_sum, lemma_coord_bound, lemma_flat_ext, lemma_nonzero_dims, stride,
    strides,
};

verus! {

/// A shape brought to rank `r` by leading ones.
pub open spec fn padded_shape(s: Seq<usize>, r: nat) -> Seq<usize> {
    Seq::new((r - s.len()) as nat, |j: int| 1usize) + s
}

/// Some trailing dimension of the pattern exceeds the haystack's.
pub open spec fn any_greater(ps: Seq<usize>, hs: Seq<usize>) -> bool {
    exists|i: int|
        0 <= i < ps.len() && i < hs.len() && #[trigger] ps[ps.len() - 1 - i] > hs[hs.len() - 1 - i]
}

/// Number of rows of a shape; a scalar has one.
pub open spec fn rows_of(s: Seq<usize>) -> nat {
    if s.len() == 0 {
        1
    } else {
        s[0] as nat
    }
}

/// The haystack is padded with fill rows up to the pattern's row count.
pub open spec fn pads_haystack<T>(ps: Seq<usize>, hs: Seq<usize>, fill: Option<T>) -> bool {
    (ps.len() > hs.len() || any_greater(ps, hs)) && fill is Some && hs.len() >= 1 && ps.len()
        <= hs.len() && rows_of(ps) > hs[0]
}

/// The pattern's elements, at pattern index `q`, sit at the haystack corner
/// with flat index `k`.
pub open spec fn match_at<T: ArrayValue>(
    hs: Seq<usize>,
    hd: Seq<T>,
    ps: Seq<usize>,
    pd: Seq<T>,
    k: int,
    q: int,
) -> bool {
    hd[flat_sum(hs, |j: int| coord(hs, k, j) + coord(ps, q, j), hs.len())].matches(pd[q])
}

/// The pattern fits within the haystack from the corner at flat index `k`.
pub open spec fn corner_fits(hs: Seq<usize>, ps: Seq<usize>, k: int) -> bool {
    forall|j: int| 0 <= j < hs.len() ==> #[trigger] coord(hs, k, j) + ps[j] <= hs[j]
}

/// A non-empty pattern of shape `ps` (of the haystack's rank) occurs with its
/// corner at flat index `k`.
pub open spec fn find_hit<T: ArrayValue>(
    hs: Seq<usize>,
    hd: Seq<T>,
    ps: Seq<usize>,
    pd: Seq<T>,
    k: int,
) -> bool {
    product(ps) > 0 && corner_fits(hs, ps, k) && forall|q: int|
        0 <= q < product(ps) ==> #[trigger] match_at(hs, hd, ps, pd, k, q)
}

impl<T: ArrayValue> Array<T> {
    /// A boolean array of the haystack's shape: 1 at each position where this
    /// pattern starts. Where the pattern is larger than the haystack and a
    /// fill is given, the haystack first gets fill rows up to the pattern's
    /// row count.
    pub fn find(&self, searched: &Self, fill: Option<T>) -> (r: Array<u8>)
        requires
            self.wf(),
            searched.wf(),
            pads_haystack(self.shape@, searched.shape@, fill) ==> shape_fits(
                searched.shape@.update(0, rows_of(self.shape@) as usize),
            ),
        ensures
            r.wf(),
            r.meta.flags.boolean,
            ({
                let ps = self.shape@;
                let hs0 = searched.shape@;
                let pad = pads_haystack(ps, hs0, fill);
                let hs = if pad {
                    hs0.update(0, rows_of(ps) as usize)
                } else {
                    hs0
                };
                let hd = if pad {
                    searched.data@ + fill_row(
                        fill->0,
                        ((rows_of(ps) - hs0[0]) * product(hs0.drop_first())) as nat,
                    )
                } else {
                    searched.data@
                };
                &&& r.shape@ == hs
                &&& r.data@.len() == product(hs)
                &&& forall|k: int|
                    0 <= k < r.data@.len() ==> #[trigger] r.data@[k] == (if ps.len() <= hs.len()
                        && find_hit(hs, hd, padded_shape(ps, hs.len() as nat), self.data@, k) {
                        1u8
                    } else {
                        0u8
                    })
            }),
    {
        let pr = self.shape.len();
        let hr = searched.shape.len();
        let mut greater = false;
        let mut i: usize = 0;
        while i < pr && i < hr
            invariant
                pr == self.shape@.len(),
                hr == searched.shape@.len(),
                i <= pr,
                i <= hr,
                greater == exists|k: int|
                    0 <= k < i && #[trigger] self.shape@[pr - 1 - k] > searched.shape@[hr - 1 - k],
            decreases pr - i,
        {
            if self.shape[pr - 1 - i] > searched.shape[hr - 1 - i] {
                greater = true;
            }
            i = i + 1;
        }
        let prows: usize = if pr == 0 {
            1
        } else {
            self.shape[0]
        };
        let pad = (pr > hr || greater) && fill.is_some() && hr >= 1 && pr <= hr && prows
            > searched.shape[0];
        assert(pad == pads_haystack(self.shape@, searched.shape@, fill));
        let mut hs: Vec<usize> = crate::array::copy_range(&searched.shape, 0, hr);
        let mut hd: Vec<T> = crate::array::copy_range(&searched.data, 0, searched.data.len());
        assert(hs@ =~= searched.shape@);
        assert(hd@ =~= searched.data@);
        if pad {
            let rl = searched.row_len();
            let extra = prows - searched.shape[0];
            let f = fill.unwrap();
            proof {
                let h = searched.shape@;
                let u = h.update(0, prows);
                assert(u.drop_first() =~= h.drop_first());
                crate::shape::lemma_nz_positive(h.drop_first());
                assert(product(u) == prows * rl);
                assert(product(u) <= nz_product(u)) by {
                    crate::shape::lemma_nz_positive(u);
                }
                assert(extra * rl <= prows * rl) by (nonlinear_arith)
                    requires
                        extra <= prows,
                ;
            }
            let count = extra * rl;
            let mut k: usize = 0;
            let ghost base = hd@;
            while k < count
                invariant
                    k <= count,
                    hd@ == base + fill_row(f, k as nat),
                decreases count - k,
            {
                hd.push(f);
                k = k + 1;
                assert(hd@ =~= base + fill_row(f, k as nat));
            }
            hs.set(0, prows);
            proof {
                let h = searched.shape@;
                assert(hs@ == h.update(0, prows));
                assert(hs@.drop_first() =~= h.drop_first());
                crate::array::lemma_rows(h);
                assert(h[0] * rl + extra * rl == prows * rl) by (nonlinear_arith)
                    requires
                        extra + h[0] == prows,
                ;
            }
        }
        let ghost hs_s = hs@;
        let ghost hd_s = hd@;
        assert(product(hs_s) == hd_s.len());
        let total = hd.len();
        let mut data: Vec<u8> = Vec::new();
        if pr > hr {
            let mut k: usize = 0;
            while k < total
                invariant
                    k <= total,
                    data@.len() == k,
                    forall|q: int| 0 <= q < k ==> #[trigger] data@[q] == 0u8,
                decreases total - k,
            {
                data.push(0);
                k = k + 1;
            }
        } else {
            let mut ps: Vec<usize> = Vec::new();
            let mut j: usize = 0;
            while j < hr - pr
                invariant
                    j <= hr - pr,
                    ps@ == Seq::new(j as nat, |q: int| 1usize),
                decreases hr - pr - j,
            {
                ps.push(1);
                j = j + 1;
                assert(ps@ =~= Seq::new(j as nat, |q: int| 1usize));
            }
            let mut rest = crate::array::copy_range(&self.shape, 0, pr);
            ps.append(&mut rest);
            assert(ps@ =~= padded_shape(self.shape@, hr as nat));
            proof {
                crate::reshape::lemma_ones_product(self.shape@, (hr - pr) as nat);
            }
            let np = self.data.len();
            let st_h = strides(&hs);
            let st_p = strides(&ps);
            let mut k: usize = 0;
            while k < total
                invariant
                    k <= total,
                    total == product(hs_s),
                    hs@ == hs_s,
                    hd@ == hd_s,
                    product(hs_s) == hd_s.len(),
                    shape_fits(hs_s),
                    hs_s.len() == hr,
                    ps@ == padded_shape(self.shape@, hr as nat),
                    ps@.len() == hr,
                    shape_fits(ps@),
                    np == product(ps@),
                    np == self.data@.len(),
                    st_h@.len() == hr,
                    st_p@.len() == hr,
                    forall|q: int| 0 <= q < hr ==> st_h@[q] == stride(hs_s, q),
                    forall|q: int| 0 <= q < hr ==> st_p@[q] == stride(ps@, q),
                    data@.len() == k,
                    forall|q: int|
                        0 <= q < k ==> #[trigger] data@[q] == (if find_hit(
                            hs_s,
                            hd_s,
                            ps@,
                            self.data@,
                            q,
                        ) {
                            1u8
                        } else {
                            0u8
                        }),
                decreases total - k,
            {
                let hit = self.hit_at(&hs, &st_h, &hd, &ps, &st_p, k);
                data.push(
                    if hit {
                        1
                    } else {
                        0
                    },
                );
                k = k + 1;
            }
        }
        let mut r = Array::new(hs, data);
        r.meta.flags = ArrayFlags { boolean: true, boolean_literal: false };
        r
    }

    /// Whether this pattern, of shape `ps`, occurs at the corner with flat
    /// index `k` of a haystack of shape `hs` and elements `hd`.
    fn hit_at(
        &self,
        hs: &Vec<usize>,
        st_h: &Vec<usize>,
        hd: &Vec<T>,
        ps: &Vec<usize>,
        st_p: &Vec<usize>,
        k: usize,
    ) -> (r: bool)
        requires
            k < product(hs@),
            product(hs@) == hd@.len(),
            shape_fits(hs@),
            ps@.len() == hs@.len(),
            product(ps@) == self.data@.len(),
            shape_fits(ps@),
            st_h@.len() == hs@.len(),
            st_p@.len() == hs@.len(),
            forall|q: int| 0 <= q < hs@.len() ==> st_h@[q] == stride(hs@, q),
            forall|q: int| 0 <= q < hs@.len() ==> st_p@[q] == stride(ps@, q),
        ensures
            r == find_hit(hs@, hd@, ps@, self.data@, k as int),
    {
        let rank = hs.len();
        let np = self.data.len();
        let _hl = hd.len();
        if np == 0 {
            return false;
        }
        proof {
            lemma_nonzero_dims(hs@);
            lemma_nonzero_dims(ps@);
            lemma_stride_pos(hs@);
            lemma_stride_pos(ps@);
        }
        let mut corner: Vec<usize> = Vec::new();
        let mut j: usize = 0;
        while j < rank
            invariant
                rank == hs@.len(),
                j <= rank,
                k < product(hs@),
                ps@.len() == rank,
                st_h@.len() == rank,
                forall|q: int| 0 <= q < rank ==> st_h@[q] == stride(hs@, q),
                forall|q: int| 0 <= q < rank ==> st_h@[q] > 0,
                forall|q: int| 0 <= q < rank ==> hs@[q] > 0,
                corner@.len() == j,
                forall|q: int| 0 <= q < j ==> corner@[q] == coord(hs@, k as int, q),
                forall|q: int| 0 <= q < j ==> coord(hs@, k as int, q) + ps@[q] <= hs@[q],
            decreases rank - j,
        {
            let c = (k / st_h[j]) % hs[j];
            proof {
                lemma_coord_bound(hs@, k as int, j as int);
                assert(c == coord(hs@, k as int, j as int));
            }
            if ps[j] > hs[j] - c {
                proof {
                    assert(!(coord(hs@, k as int, j as int) + ps@[j as int] <= hs@[j as int]));
                    assert(!corner_fits(hs@, ps@, k as int));
                }
                return false;
            }
            corner.push(c);
            j = j + 1;
        }
        let mut q: usize = 0;
        while q < np
            invariant
                rank == hs@.len(),
                q <= np,
                np == product(ps@),
                np == self.data@.len(),
                product(hs@) == hd@.len(),
                hd@.len() <= usize::MAX,
                shape_fits(hs@),
                ps@.len() == rank,
                st_h@.len() == rank,
                st_p@.len() == rank,
                forall|i: int| 0 <= i < rank ==> st_h@[i] == stride(hs@, i),
                forall|i: int| 0 <= i < rank ==> st_p@[i] == stride(ps@, i),
                forall|i: int| 0 <= i < rank ==> st_p@[i] > 0,
                forall|i: int| 0 <= i < rank ==> ps@[i] > 0,
                corner@.len() == rank,
                forall|i: int| 0 <= i < rank ==> corner@[i] == coord(hs@, k as int, i),
                corner_fits(hs@, ps@, k as int),
                forall|p: int| 0 <= p < q ==> #[trigger] match_at(hs@, hd@, ps@, self.data@, k as int, p),
            decreases np - q,
        {
            let mut x: Vec<usize> = Vec::new();
            let mut i: usize = 0;
            while i < rank
                invariant
                    rank == hs@.len(),
                    i <= rank,
                    q < np,
                    ps@.len() == rank,
                    st_p@.len() == rank,
                    forall|a: int| 0 <= a < rank ==> st_p@[a] == stride(ps@, a),
                    forall|a: int| 0 <= a < rank ==> st_p@[a] > 0,
                    forall|a: int| 0 <= a < rank ==> ps@[a] > 0,
                    corner@.len() == rank,
                    forall|a: int| 0 <= a < rank ==> corner@[a] == coord(hs@, k as int, a),
                    corner_fits(hs@, ps@, k as int),
                    x@.len() == i,
                    forall|a: int|
                        0 <= a < i ==> x@[a] == coord(hs@, k as int, a) + coord(ps@, q as int, a),
                    forall|a: int| 0 <= a < i ==> x@[a] < hs@[a],
                decreases rank - i,
            {
                let o = (q / st_p[i]) % ps[i];
                proof {
                    lemma_coord_bound(ps@, q as int, i as int);
                    assert(coord(hs@, k as int, i as int) + ps@[i as int] <= hs@[i as int]);
                }
                x.push(corner[i] + o);
                i = i + 1;
            }
            let idx = flat_index(hs, st_h, &x);
            proof {
                lemma_flat_ext(
                    hs@,
                    |a: int| x@[a] as int,
                    |a: int| coord(hs@, k as int, a) + coord(ps@, q as int, a),
                    hs@.len(),
                );
            }
            if !hd[idx].array_eq(&self.data[q]) {
                proof {
                    assert(!match_at(hs@, hd@, ps@, self.data@, k as int, q as int));
                }
                return false;
            }
            q = q + 1;
        }
        true
    }
}

/// Flat index in the haystack of pattern element `j` placed at corner `i`.
pub open spec fn cover(hs: Seq<usize>, ps: Seq<usize>, i: int, j: int) -> int {
    flat_sum(hs, |a: int| coord(hs, i, a) + coord(ps, j, a), hs.len())
}

/// Pattern element `j` placed at corner `i` lies inside the haystack.
pub open spec fn in_bounds(hs: Seq<usize>, ps: Seq<usize>, i: int, j: int) -> bool {
    forall|a: int| 0 <= a < hs.len() ==> #[trigger] coord(hs, i, a) + coord(ps, j, a) < hs[a]
}

/// The pattern fits at corner `i`, on cells not yet labelled, and matches there.
pub open spec fn mask_ok<T: ArrayValue>(
    hs: Seq<usize>,
    hd: Seq<T>,
    ps: Seq<usize>,
    pd: Seq<T>,
    labels: Seq<usize>,
    i: int,
) -> bool {
    forall|j: int|
        0 <= j < product(ps) ==> #[trigger] in_bounds(hs, ps, i, j) && labels[cover(hs, ps, i, j)]
            == 0 && pd[j].matches(hd[cover(hs, ps, i, j)])
}

/// Labels after the corners below `i` were tried in order, and the number
/// of matches so far: each match labels the cells it covers with its number.
pub open spec fn mask_state<T: ArrayValue>(
    hs: Seq<usize>,
    hd: Seq<T>,
    ps: Seq<usize>,
    pd: Seq<T>,
    i: nat,
) -> (Seq<usize>, nat)
    decreases i,
{
    if i == 0 {
        (Seq::new(product(hs), |k: int| 0usize), 0)
    } else {
        let (l, c) = mask_state(hs, hd, ps, pd, (i - 1) as nat);
        if mask_ok(hs, hd, ps, pd, l, i - 1) {
            (
                Seq::new(
                    l.len(),
                    |k: int|
                        if exists|j: int| 0 <= j < product(ps) && #[trigger] cover(hs, ps, i - 1, j) == k {
                            (c + 1) as usize
                        } else {
                            l[k]
                        },
                ),
                c + 1,
            )
        } else {
            (l, c)
        }
    }
}

proof fn lemma_mask_state_len<T: ArrayValue>(
    hs: Seq<usize>,
    hd: Seq<T>,
    ps: Seq<usize>,
    pd: Seq<T>,
    i: nat,
)
    ensures
        mask_state(hs, hd, ps, pd, i).0.len() == product(hs),
        mask_state(hs, hd, ps, pd, i).1 <= i,
    decreases i,
{
    if i > 0 {
        lemma_mask_state_len(hs, hd, ps, pd, (i - 1) as nat);
    }
}

impl<T: ArrayValue> Array<T> {
    /// Labels each occurrence of this pattern in `haystack` with its number,
    /// counting from 1 in row-major order of corners; an occurrence may not
    /// overlap cells of an earlier one. Cells outside every occurrence are 0.
    pub fn mask(&self, haystack: &Self) -> (r: Result<Array<usize>, ArrayError>)
        requires
            self.wf(),
            haystack.wf(),
        ensures
            self.shape@.len() > haystack.shape@.len() ==> r == Err::<Array<usize>, ArrayError>(
                ArrayError::ShapeMismatch,
            ),
            self.shape@.len() <= haystack.shape@.len() ==> r is Ok && r->Ok_0.wf() && r->Ok_0.shape@
                == haystack.shape@,
            self.shape@.len() <= haystack.shape@.len() && any_greater(self.shape@, haystack.shape@)
                ==> forall|k: int| 0 <= k < r->Ok_0.data@.len() ==> #[trigger] r->Ok_0.data@[k] == 0,
            self.shape@.len() <= haystack.shape@.len() && !any_greater(self.shape@, haystack.shape@)
                ==> r->Ok_0.data@ == mask_state(
                haystack.shape@,
                haystack.data@,
                padded_shape(self.shape@, haystack.shape@.len() as nat),
                self.data@,
                haystack.data@.len(),
            ).0,
    {
        let pr = self.shape.len();
        let hr = haystack.shape.len();
        if pr > hr {
            return Err(ArrayError::ShapeMismatch);
        }
        let mut greater = false;
        let mut i: usize = 0;
        while i < pr
            invariant
                pr == self.shape@.len(),
                hr == haystack.shape@.len(),
                pr <= hr,
                i <= pr,
                greater == exists|k: int|
                    0 <= k < i && #[trigger] self.shape@[pr - 1 - k] > haystack.shape@[hr - 1 - k],
            decreases pr - i,
        {
            if self.shape[pr - 1 - i] > haystack.shape[hr - 1 - i] {
                greater = true;
            }
            i = i + 1;
        }
        let total = haystack.data.len();
        let hs = crate::array::copy_range(&haystack.shape, 0, hr);
        assert(hs@ =~= haystack.shape@);
        let mut res: Vec<usize> = Vec::new();
        let mut k: usize = 0;
        while k < total
            invariant
                k <= total,
                res@ == Seq::new(k as nat, |q: int| 0usize),
            decreases total - k,
        {
            res.push(0);
            k = k + 1;
            assert(res@ =~= Seq::new(k as nat, |q: int| 0usize));
        }
        if greater {
            return Ok(Array::new(hs, res));
        }
        let mut ps: Vec<usize> = Vec::new();
        let mut j: usize = 0;
        while j < hr - pr
            invariant
                j <= hr - pr,
                ps@ == Seq::new(j as nat, |q: int| 1usize),
            decreases hr - pr - j,
        {
            ps.push(1);
            j = j + 1;
            assert(ps@ =~= Seq::new(j as nat, |q: int| 1usize));
        }
        let mut rest = crate::array::copy_range(&self.shape, 0, pr);
        ps.append(&mut rest);
        assert(ps@ =~= padded_shape(self.shape@, hr as nat));
        proof {
            crate::reshape::lemma_ones_product(self.shape@, (hr - pr) as nat);
        }
        let np = self.data.len();
        let st_h = strides(&hs);
        let st_p = strides(&ps);
        let ghost psv = ps@;
        let mut count: usize = 0;
        let mut pos: usize = 0;
        while pos < total
            invariant
                pos <= total,
                total == haystack.data@.len(),
                total == product(hs@),
                hs@ == haystack.shape@,
                haystack.wf(),
                self.wf(),
                ps@ == psv,
                psv == padded_shape(self.shape@, hr as nat),
                psv.len() == hr,
                hs@.len() == hr,
                shape_fits(psv),
                np == product(psv),
                np == self.data@.len(),
                st_h@.len() == hr,
                st_p@.len() == hr,
                forall|q: int| 0 <= q < hr ==> st_h@[q] == stride(hs@, q),
                forall|q: int| 0 <= q < hr ==> st_p@[q] == stride(psv, q),
                (res@, count as nat) == mask_state(hs@, haystack.data@, psv, self.data@, pos as nat),
            decreases total - pos,
        {
            proof {
                lemma_mask_state_len(hs@, haystack.data@, psv, self.data@, pos as nat);
            }
            let ok = self.mask_fits(&hs, &st_h, &haystack.data, &ps, &st_p, &res, pos);
            if ok {
                let ghost before = res@;
                let mut q: usize = 0;
                while q < np
                    invariant
                        q <= np,
                        np == product(psv),
                        np == self.data@.len(),
                        ps@ == psv,
                        psv.len() == hr,
                        hs@.len() == hr,
                        total == product(hs@),
                        total <= usize::MAX,
                        pos < total,
                        count <= pos,
                        st_h@.len() == hr,
                        st_p@.len() == hr,
                        forall|a: int| 0 <= a < hr ==> st_h@[a] == stride(hs@, a),
                        forall|a: int| 0 <= a < hr ==> st_p@[a] == stride(psv, a),
                        before.len() == total,
                        forall|a: int| 0 <= a < np ==> #[trigger] in_bounds(hs@, psv, pos as int, a),
                        res@ == Seq::new(
                            before.len(),
                            |kk: int|
                                if exists|a: int| 0 <= a < q && #[trigger] cover(hs@, psv, pos as int, a) == kk {
                                    (count + 1) as usize
                                } else {
                                    before[kk]
                                },
                        ),
                    decreases np - q,
                {
                    let idx = cover_index(&hs, &st_h, &ps, &st_p, pos, q);
                    res.set(idx, count + 1);
                    q = q + 1;
                    proof {
                        assert(res@ =~= Seq::new(
                            before.len(),
                            |kk: int|
                                if exists|a: int| 0 <= a < q && #[trigger] cover(hs@, psv, pos as int, a) == kk {
                                    (count + 1) as usize
                                } else {
                                    before[kk]
                                },
                        )) by {
                            assert forall|kk: int| 0 <= kk < before.len() implies #[trigger] res@[kk]
                                == (if exists|a: int|
                                0 <= a < q && #[trigger] cover(hs@, psv, pos as int, a) == kk {
                                (count + 1) as usize
                            } else {
                                before[kk]
                            }) by {
                                if kk == idx {
                                    assert(cover(hs@, psv, pos as int, q - 1) == kk);
                                } else {
                                    if exists|a: int| 0 <= a < q && #[trigger] cover(hs@, psv, pos as int, a) == kk {
                                        let a = choose|a: int|
                                            0 <= a < q && #[trigger] cover(hs@, psv, pos as int, a) == kk;
                                        assert(a < q - 1);
                                    }
                                }
                            }
                        }
                    }
                }
                count = count + 1;
            }
            pos = pos + 1;
        }
        proof {
            lemma_mask_state_len(hs@, haystack.data@, psv, self.data@, pos as nat);
        }
        Ok(Array::new(hs, res))
    }

    /// Whether this pattern, of padded shape `ps`, fits at corner `pos` on
    /// unlabelled cells and matches there.
    fn mask_fits(
        &self,
        hs: &Vec<usize>,
        st_h: &Vec<usize>,
        hd: &Vec<T>,
        ps: &Vec<usize>,
        st_p: &Vec<usize>,
        labels: &Vec<usize>,
        pos: usize,
    ) -> (r: bool)
        requires
            pos < product(hs@),
            product(hs@) == hd@.len(),
            labels@.len() == hd@.len(),
            shape_fits(hs@),
            ps@.len() == hs@.len(),
            product(ps@) == self.data@.len(),
            st_h@.len() == hs@.len(),
            st_p@.len() == hs@.len(),
            forall|q: int| 0 <= q < hs@.len() ==> st_h@[q] == stride(hs@, q),
            forall|q: int| 0 <= q < hs@.len() ==> st_p@[q] == stride(ps@, q),
        ensures
            r == mask_ok(hs@, hd@, ps@, self.data@, labels@, pos as int),
            r ==> forall|a: int| 0 <= a < product(ps@) ==> #[trigger] in_bounds(hs@, ps@, pos as int, a),
    {
        let np = self.data.len();
        let _hl = hd.len();
        let mut q: usize = 0;
        while q < np
            invariant
                q <= np,
                np == product(ps@),
                np == self.data@.len(),
                pos < product(hs@),
                product(hs@) == hd@.len(),
                hd@.len() <= usize::MAX,
                labels@.len() == hd@.len(),
                ps@.len() == hs@.len(),
                st_h@.len() == hs@.len(),
                st_p@.len() == hs@.len(),
                forall|a: int| 0 <= a < hs@.len() ==> st_h@[a] == stride(hs@, a),
                forall|a: int| 0 <= a < hs@.len() ==> st_p@[a] == stride(ps@, a),
                forall|j: int|
                    0 <= j < q ==> #[trigger] in_bounds(hs@, ps@, pos as int, j) && labels@[cover(
                        hs@,
                        ps@,
                        pos as int,
                        j,
                    )] == 0 && self.data@[j].matches(hd@[cover(hs@, ps@, pos as int, j)]),
            decreases np - q,
        {
            match cover_checked(hs, st_h, ps, st_p, pos, q) {
                None => {
                    proof {
                        assert(!in_bounds(hs@, ps@, pos as int, q as int));
                    }
                    return false;
                },
                Some(idx) => {
                    if labels[idx] != 0 || !self.data[q].array_eq(&hd[idx]) {
                        proof {
                            assert(in_bounds(hs@, ps@, pos as int, q as int));
                        }
                        return false;
                    }
                    proof {
                        assert(in_bounds(hs@, ps@, pos as int, q as int));
                        assert(labels@[cover(hs@, ps@, pos as int, q as int)] == 0);
                        assert(self.data@[q as int].matches(hd@[cover(hs@, ps@, pos as int, q as int)]));
                    }
                },
            }
            let ghost qq = q as int;
            q = q + 1;
            proof {
                assert forall|j: int| 0 <= j < q implies #[trigger] in_bounds(hs@, ps@, pos as int, j)
                    && labels@[cover(hs@, ps@, pos as int, j)] == 0 && self.data@[j].matches(
                    hd@[cover(hs@, ps@, pos as int, j)],
                ) by {
                    if j < qq {
                    } else {
                        assert(j == qq);
                    }
                }
            }
        }
        true
    }
}

/// The flat index of pattern element `q` placed at corner `pos`, if it lies
/// inside the haystack.
fn cover_checked(
    hs: &Vec<usize>,
    st_h: &Vec<usize>,
    ps: &Vec<usize>,
    st_p: &Vec<usize>,
    pos: usize,
    q: usize,
) -> (r: Option<usize>)
    requires
        pos < product(hs@),
        q < product(ps@),
        product(hs@) <= usize::MAX,
        ps@.len() == hs@.len(),
        st_h@.len() == hs@.len(),
        st_p@.len() == hs@.len(),
        forall|a: int| 0 <= a < hs@.len() ==> st_h@[a] == stride(hs@, a),
        forall|a: int| 0 <= a < hs@.len() ==> st_p@[a] == stride(ps@, a),
    ensures
        r is Some <==> in_bounds(hs@, ps@, pos as int, q as int),
        r is Some ==> r->0 == cover(hs@, ps@, pos as int, q as int) && r->0 < product(hs@),
{
    proof {
        lemma_nonzero_dims(hs@);
        lemma_nonzero_dims(ps@);
        lemma_stride_pos(hs@);
        lemma_stride_pos(ps@);
    }
    let rank = hs.len();
    let mut x: Vec<usize> = Vec::new();
    let mut i: usize = 0;
    while i < rank
        invariant
            rank == hs@.len(),
            i <= rank,
            ps@.len() == rank,
            st_h@.len() == rank,
            st_p@.len() == rank,
            forall|a: int| 0 <= a < rank ==> st_h@[a] == stride(hs@, a),
            forall|a: int| 0 <= a < rank ==> st_p@[a] == stride(ps@, a),
            forall|a: int| 0 <= a < rank ==> st_h@[a] > 0 && st_p@[a] > 0,
            forall|a: int| 0 <= a < rank ==> hs@[a] > 0 && ps@[a] > 0,
            x@.len() == i,
            forall|a: int| 0 <= a < i ==> x@[a] == coord(hs@, pos as int, a) + coord(ps@, q as int, a),
            forall|a: int| 0 <= a < i ==> x@[a] < hs@[a],
        decreases rank - i,
    {
        let c = (pos / st_h[i]) % hs[i];
        let o = (q / st_p[i]) % ps[i];
        proof {
            lemma_coord_bound(hs@, pos as int, i as int);
            lemma_coord_bound(ps@, q as int, i as int);
        }
        if o >= hs[i] - c {
            proof {
                assert(!(coord(hs@, pos as int, i as int) + coord(ps@, q as int, i as int)
                    < hs@[i as int]));
            }
            return None;
        }
        x.push(c + o);
        i = i + 1;
    }
    let idx = flat_index(hs, st_h, &x);
    proof {
        lemma_flat_ext(
            hs@,
            |a: int| x@[a] as int,
            |a: int| coord(hs@, pos as int, a) + coord(ps@, q as int, a),
            hs@.len(),
        );
    }
    Some(idx)
}

/// The flat index of pattern element `q` placed at corner `pos`, known to be inside.
fn cover_index(
    hs: &Vec<usize>,
    st_h: &Vec<usize>,
    ps: &Vec<usize>,
    st_p: &Vec<usize>,
    pos: usize,
    q: usize,
) -> (r: usize)
    requires
        pos < product(hs@),
        q < product(ps@),
        product(hs@) <= usize::MAX,
        ps@.len() == hs@.len(),
        st_h@.len() == hs@.len(),
        st_p@.len() == hs@.len(),
        forall|a: int| 0 <= a < hs@.len() ==> st_h@[a] == stride(hs@, a),
        forall|a: int| 0 <= a < hs@.len() ==> st_p@[a] == stride(ps@, a),
        in_bounds(hs@, ps@, pos as int, q as int),
    ensures
        r == cover(hs@, ps@, pos as int, q as int),
        r < product(hs@),
{
    cover_checked(hs, st_h, ps, st_p, pos, q).unwrap()
}

/// Every stride of a shape with elements is positive.
pub proof fn lemma_stride_pos(s: Seq<usize>)
    requires
        product(s) > 0,
    ensures
        forall|j: int| 0 <= j < s.len() ==> stride(s, j) > 0,
{
    assert forall|j: int| 0 <= j < s.len() implies stride(s, j) > 0 by {
        crate::shape::lemma_product_split(s, j + 1);
        assert(product(s.take(j + 1)) * product(s.skip(j + 1)) > 0);
        assert(product(s.skip(j + 1)) > 0) by (nonlinear_arith)
            requires
                product(s.take(j + 1)) * product(s.skip(j + 1)) > 0,
        ;
    }
}

} // verus!
