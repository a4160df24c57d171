//! Rotate: cyclic shifts along the leading axes, optionally shifting in a fill.
use vstd::prelude::*;

use crate::array::{extend_range, lemma_row_bounds, row_of, Array, ArrayValue, MapKeys};
use crate::value::rows_rotated;
use crate::error::ArrayError;
use crate::shape::{lemma_product_split, lemma_sub_fits, product, product_range, shape_fits};

verus! {

/// Row `i` of `n` is shifted out by a rotation of `offset` and takes the fill.
pub open spec fn vacated(offset: isize, n: nat, i: int) -> bool {
    (offset > 0 && i >= n - offset) || (offset < 0 && i < -offset)
}

/// `k` copies of `x`.
pub open spec fn fill_row<T>(x: T, k: nat) -> Seq<T> {
    Seq::new(k, |j: int| x)
}

/// The elements of an array of shape `shape` rotated by `by`: along the
/// first axis row `i` becomes row `(i + by[0]) mod n`, then each row is
/// rotated by the rest of `by`. With a fill, the rows that wrapped around
/// become the fill instead.
pub open spec fn shifted<T>(by: Seq<isize>, shape: Seq<usize>, data: Seq<T>, fill: Option<T>) -> Seq<T>
    decreases shape.len(), 1nat, 0nat,
{
    if by.len() == 0 || shape.len() == 0 || shape[0] == 0 {
        data
    } else {
        shifted_rows(by, shape, data, fill, shape[0] as nat)
    }
}

/// The first `i` rows of [`shifted`].
pub open spec fn shifted_rows<T>(
    by: Seq<isize>,
    shape: Seq<usize>,
    data: Seq<T>,
    fill: Option<T>,
    i: nat,
) -> Seq<T>
    decreases shape.len(), 0nat, i,
{
    if i == 0 || shape.len() == 0 || by.len() == 0 || shape[0] == 0 {
        Seq::empty()
    } else {
        let n = shape[0] as nat;
        let rl = product(shape.drop_first());
        let r = i - 1;
        shifted_rows(by, shape, data, fill, (i - 1) as nat) + (if fill is Some && vacated(
            by[0],
            n,
            r,
        ) {
            fill_row(fill->0, rl)
        } else {
            shifted(
                by.drop_first(),
                shape.drop_first(),
                row_of(data, rl, (r + by[0]) % (n as int)),
                fill,
            )
        })
    }
}

/// `(x mod n)` for a signed `x`, as an index below `n`.
fn rem_euclid(x: isize, n: usize) -> (r: usize)
    requires
        n > 0,
    ensures
        r == (x as int) % (n as int),
        r < n,
{
    if x >= 0 {
        (x as usize) % n
    } else {
        let a: usize = ((0 - (x as i128)) as usize) % n;
        proof {
            let q = ((-(x as int)) / (n as int));
            assert(-(x as int) == q * n + a) by (nonlinear_arith)
                requires
                    a == (-(x as int)) % (n as int),
                    q == (-(x as int)) / (n as int),
                    n > 0,
            ;
        }
        if a == 0 {
            proof {
                lemma_neg_mod(x as int, n as int, 0);
            }
            0
        } else {
            proof {
                lemma_neg_mod(x as int, n as int, a as int);
            }
            n - a
        }
    }
}

proof fn lemma_neg_mod(x: int, n: int, a: int)
    requires
        n > 0,
        x < 0,
        a == (-x) % n,
    ensures
        a == 0 ==> x % n == 0,
        a != 0 ==> x % n == n - a,
{
    let q = (-x) / n;
    assert(-x == q * n + a) by (nonlinear_arith)
        requires
            a == (-x) % n,
            q == (-x) / n,
            n > 0,
    ;
    if a == 0 {
        assert(x == (-q) * n) by (nonlinear_arith)
            requires
                -x == q * n + a,
                a == 0,
        ;
        assert(x % n == 0) by (nonlinear_arith)
            requires
                x == (-q) * n,
                n > 0,
        ;
    } else {
        assert(0 <= a < n);
        assert(x == (-q - 1) * n + (n - a)) by (nonlinear_arith)
            requires
                -x == q * n + a,
        ;
        assert(x % n == n - a) by (nonlinear_arith)
            requires
                x == (-q - 1) * n + (n - a),
                0 < n - a < n,
        ;
    }
}

/// Appends the elements `data[lo..hi]`, an array of shape `shape[d..]`,
/// rotated by `by[d..]`.
fn shift_into<T: Copy>(
    by: &Vec<isize>,
    shape: &Vec<usize>,
    d: usize,
    data: &Vec<T>,
    lo: usize,
    hi: usize,
    fill: Option<T>,
    out: &mut Vec<T>,
)
    requires
        d <= by@.len(),
        d <= shape@.len(),
        shape_fits(shape@),
        lo <= hi <= data@.len(),
        hi - lo == product(shape@.skip(d as int)),
    ensures
        final(out)@ == old(out)@ + shifted(
            by@.skip(d as int),
            shape@.skip(d as int),
            data@.subrange(lo as int, hi as int),
            fill,
        ),
    decreases shape@.len() - d,
{
    let ghost bs = by@.skip(d as int);
    let ghost ss = shape@.skip(d as int);
    let ghost src = data@.subrange(lo as int, hi as int);
    if d >= by.len() || d >= shape.len() || shape[d] == 0 {
        extend_range(out, data.as_slice(), lo, hi);
        return;
    }
    let n = shape[d];
    let _sl = shape.len();
    let rl = product_range(shape, d + 1, shape.len());
    proof {
        assert(shape@.subrange(d + 1, shape@.len() as int) =~= ss.drop_first());
        assert(shape@.skip(d + 1) =~= ss.drop_first());
        assert(by@.skip(d + 1) =~= bs.drop_first());
        assert(ss[0] == n);
        assert(product(ss) == n * rl);
    }
    let off = by[d];
    let mid = rem_euclid(off, n);
    let ghost start = out@;
    let mut i: usize = 0;
    while i < n
        invariant
            d < by@.len(),
            d < shape@.len(),
            shape@.len() <= usize::MAX,
            shape_fits(shape@),
            bs == by@.skip(d as int),
            ss == shape@.skip(d as int),
            src == data@.subrange(lo as int, hi as int),
            n == shape@[d as int],
            n > 0,
            off == by@[d as int],
            mid == (off as int) % (n as int),
            mid < n,
            rl == product(shape@.skip(d + 1)),
            hi - lo == n * rl,
            lo <= hi <= data@.len(),
            i <= n,
            out@ == start + shifted_rows(bs, ss, src, fill, i as nat),
        decreases n - i,
    {
        proof {
            assert(bs[0] == off);
            assert(ss[0] == n);
            assert(ss.drop_first() =~= shape@.skip(d + 1));
            assert(bs.drop_first() =~= by@.skip(d + 1));
        }
        let vac = (off > 0 && (i as i128) >= (n as i128) - (off as i128)) || (off < 0 && (i as i128)
            < 0 - (off as i128));
        if fill.is_some() && vac {
            let f = fill.unwrap();
            let ghost before = out@;
            let mut k: usize = 0;
            while k < rl
                invariant
                    k <= rl,
                    out@ == before + fill_row(f, k as nat),
                decreases rl - k,
            {
                out.push(f);
                k = k + 1;
                assert(out@ =~= before + fill_row(f, k as nat));
            }
        } else {
            let src_row: usize = if mid >= n - i {
                i - (n - mid)
            } else {
                i + mid
            };
            proof {
                assert(src_row == ((i as int) + (off as int)) % (n as int)) by {
                    lemma_add_mod(i as int, off as int, n as int, mid as int, src_row as int);
                }
                lemma_row_bounds(n as nat, rl as nat, src_row as int);
                assert(src_row * rl + rl <= n * rl);
            }
            let rlo = lo + src_row * rl;
            shift_into(by, shape, d + 1, data, rlo, rlo + rl, fill, out);
            proof {
                assert(data@.subrange(rlo as int, rlo + rl) =~= row_of(src, rl as nat, src_row as int));
            }
        }
        i = i + 1;
        proof {
            assert(out@ =~= start + shifted_rows(bs, ss, src, fill, i as nat));
        }
    }
    proof {
        assert(shifted(bs, ss, src, fill) == shifted_rows(bs, ss, src, fill, n as nat));
    }
}

proof fn lemma_add_mod(i: int, off: int, n: int, mid: int, s: int)
    requires
        0 <= i < n,
        0 <= mid < n,
        mid == off % n,
        s == (if mid >= n - i {
            i - (n - mid)
        } else {
            i + mid
        }),
    ensures
        s == (i + off) % n,
{
    let q = off / n;
    assert(off == q * n + mid) by (nonlinear_arith)
        requires
            mid == off % n,
            q == off / n,
            n > 0,
    ;
    if mid >= n - i {
        assert(i + off == (q + 1) * n + s) by (nonlinear_arith)
            requires
                off == q * n + mid,
                s == i - (n - mid),
        ;
        assert((i + off) % n == s) by (nonlinear_arith)
            requires
                i + off == (q + 1) * n + s,
                0 <= s < n,
        ;
    } else {
        assert(i + off == q * n + s) by (nonlinear_arith)
            requires
                off == q * n + mid,
                s == i + mid,
        ;
        assert((i + off) % n == s) by (nonlinear_arith)
            requires
                i + off == q * n + s,
                0 <= s < n,
        ;
    }
}

impl<T: ArrayValue> Array<T> {
    /// Rotates the array by `by`, a list with one offset per leading axis
    /// (or a scalar offset for the first). With a fill, rows that wrap around
    /// are replaced by the fill and the flags are cleared. Well-formed map
    /// keys rotate along with the rows.
    pub fn rotate(&mut self, by: &Array<isize>, fill: Option<T>) -> (r: Result<(), ArrayError>)
        requires
            old(self).wf(),
            by.wf(),
        ensures
            final(self).wf(),
            final(self).shape@ == old(self).shape@,
            old(self).data@.len() == 0 || by.data@.len() == 0 ==> r is Ok && final(self).data@
                == old(self).data@,
            old(self).data@.len() > 0 && by.data@.len() > 0 && (by.shape@.len() > 1
                || by.data@.len() > old(self).shape@.len()) ==> r == Err::<(), ArrayError>(
                ArrayError::ShapeMismatch,
            ) && final(self).data@ == old(self).data@,
            old(self).data@.len() > 0 && by.data@.len() > 0 && by.shape@.len() <= 1
                && by.data@.len() <= old(self).shape@.len() ==> r is Ok && final(self).data@
                == shifted(by.data@, old(self).shape@, old(self).data@, fill),
            r is Ok && fill is Some && old(self).data@.len() > 0 && by.data@.len() > 0 ==> !final(self).meta.flags.boolean
                && !final(self).meta.flags.boolean_literal,
            final(self).meta.map_keys is Some <==> old(self).meta.map_keys is Some,
            r is Ok && by.data@.len() > 0 && old(self).meta.map_keys is Some && (
            *old(self).meta.map_keys->0.keys).wf() ==> rows_rotated(
                *old(self).meta.map_keys->0.keys,
                *final(self).meta.map_keys->0.keys,
                by.data@[0],
            ),
            final(self).meta.label == old(self).meta.label,
    {
        let r = self.rotate_data(by, fill);
        if r.is_ok() && by.data.len() > 0 {
            let keys = self.meta.map_keys.take();
            match keys {
                Some(k) => {
                    let mut v = *k.keys;
                    if v.check_wf() {
                        v.rotate_rows(by.data[0]);
                    }
                    self.meta.map_keys = Some(MapKeys { keys: Box::new(v) });
                },
                None => {},
            }
        }
        r
    }

    /// Rotates the elements as [`Array::rotate`] does, leaving map keys alone.
    pub(crate) fn rotate_data(&mut self, by: &Array<isize>, fill: Option<T>) -> (r: Result<(), ArrayError>)
        requires
            old(self).wf(),
            by.wf(),
        ensures
            final(self).wf(),
            final(self).shape@ == old(self).shape@,
            final(self).meta.map_keys == old(self).meta.map_keys,
            final(self).meta.label == old(self).meta.label,
            old(self).data@.len() == 0 || by.data@.len() == 0 ==> r is Ok && final(self).data@
                == old(self).data@,
            old(self).data@.len() > 0 && by.data@.len() > 0 && (by.shape@.len() > 1
                || by.data@.len() > old(self).shape@.len()) ==> r == Err::<(), ArrayError>(
                ArrayError::ShapeMismatch,
            ) && final(self).data@ == old(self).data@,
            old(self).data@.len() > 0 && by.data@.len() > 0 && by.shape@.len() <= 1
                && by.data@.len() <= old(self).shape@.len() ==> r is Ok && final(self).data@
                == shifted(by.data@, old(self).shape@, old(self).data@, fill),
            r is Ok && fill is Some && old(self).data@.len() > 0 && by.data@.len() > 0 ==> !final(self).meta.flags.boolean
                && !final(self).meta.flags.boolean_literal,
    {
        if self.data.len() == 0 || by.data.len() == 0 {
            return Ok(());
        }
        if by.shape.len() > 1 || by.data.len() > self.shape.len() {
            return Err(ArrayError::ShapeMismatch);
        }
        let mut out: Vec<T> = Vec::new();
        let len = self.data.len();
        proof {
            assert(self.shape@.skip(0) =~= self.shape@);
            assert(by.data@.skip(0) =~= by.data@);
            assert(self.data@.subrange(0, len as int) =~= self.data@);
        }
        shift_into(&by.data, &self.shape, 0, &self.data, 0, len, fill, &mut out);
        proof {
            assert(out@ =~= shifted(by.data@, self.shape@, self.data@, fill));
            lemma_shifted_len(by.data@, self.shape@, self.data@, fill);
        }
        self.data = out;
        if fill.is_some() {
            self.reset_meta_flags();
        }
        Ok(())
    }
}

/// Leading axes of length one removed from `s`, at most `d` of them, with
/// the depth that is left.
pub open spec fn strip_ones(s: Seq<usize>, d: nat) -> (Seq<usize>, nat)
    decreases d,
{
    if d > 0 && s.len() > 0 && s[0] == 1 {
        strip_ones(s.drop_first(), (d - 1) as nat)
    } else {
        (s, d)
    }
}

/// The smaller of two naturals.
pub open spec fn min_nat(a: nat, b: nat) -> nat {
    if a <= b {
        a
    } else {
        b
    }
}

/// The first `da` axes of `a` and the first `db` axes of `b` agree where both exist.
pub open spec fn prefix_agree(a: Seq<usize>, da: nat, b: Seq<usize>, db: nat) -> bool {
    forall|i: int| 0 <= i < min_nat(da, db) ==> a[i] == b[i]
}

/// `data` replicated as new leading axes of the sizes in `dims`, the last first.
pub open spec fn repeat_all<T>(data: Seq<T>, dims: Seq<usize>) -> Seq<T>
    decreases dims.len(),
{
    if dims.len() == 0 {
        data
    } else {
        repeat_all(crate::keep::repeat_seq(data, dims.last() as nat), dims.drop_last())
    }
}

/// The shapes and depths after clamping the depths to the ranks and, where
/// the prefixes disagree, stripping leading axes of length one.
pub open spec fn aligned(sa: Seq<usize>, da0: nat, sb: Seq<usize>, db0: nat) -> (
    Seq<usize>,
    nat,
    Seq<usize>,
    nat,
) {
    let da = min_nat(da0, sa.len());
    let db = min_nat(db0, sb.len());
    if prefix_agree(sa, da, sb, db) {
        (sa, da, sb, db)
    } else {
        let (a2, d2) = strip_ones(sa, da);
        let (b2, e2) = strip_ones(sb, db);
        (a2, d2, b2, e2)
    }
}

/// Shape, elements and depth of an operand after the shallower one takes
/// the other's extra leading axes.
pub open spec fn broadcast<T>(s: Seq<usize>, d: nat, data: Seq<T>, other: Seq<usize>, od: nat) -> (
    Seq<usize>,
    Seq<T>,
) {
    if d < od {
        (other.take(od - d) + s, repeat_all(data, other.take(od - d)))
    } else {
        (s, data)
    }
}

/// The first `i` rows (of length `rla`, shape `rs`) of `ad`, each rotated by
/// the matching row (of length `rlb`) of `bd`.
pub open spec fn depth_rows<T>(
    bd: Seq<isize>,
    rlb: nat,
    rs: Seq<usize>,
    ad: Seq<T>,
    rla: nat,
    i: nat,
    fill: Option<T>,
) -> Seq<T>
    decreases i,
{
    if i == 0 {
        Seq::empty()
    } else {
        depth_rows(bd, rlb, rs, ad, rla, (i - 1) as nat, fill) + shifted(
            row_of(bd, rlb, i - 1),
            rs,
            row_of(ad, rla, i - 1),
            fill,
        )
    }
}

/// The broadcast shapes of both operands fit.
pub open spec fn depth_fits(sa: Seq<usize>, da: nat, sb: Seq<usize>, db: nat) -> bool {
    let (a2, d2, b2, e2) = aligned(sa, da, sb, db);
    shape_fits(broadcast(a2, d2, Seq::<u8>::empty(), b2, e2).0) && shape_fits(
        broadcast(b2, e2, Seq::<u8>::empty(), a2, d2).0,
    )
}

pub proof fn lemma_strip_product(s: Seq<usize>, d: nat)
    ensures
        product(strip_ones(s, d).0) == product(s),
        crate::shape::nz_product(strip_ones(s, d).0) == crate::shape::nz_product(s),
        strip_ones(s, d).1 <= d,
        d - strip_ones(s, d).1 <= s.len(),
        strip_ones(s, d).0 == s.skip(d - strip_ones(s, d).1),
    decreases d,
{
    if d > 0 && s.len() > 0 && s[0] == 1 {
        lemma_strip_product(s.drop_first(), (d - 1) as nat);
        assert(crate::shape::nz(s[0]) == 1);
        let k = d - strip_ones(s, d).1;
        assert(s.drop_first().skip(k - 1) =~= s.skip(k));
    } else {
        assert(s.skip(0) =~= s);
    }
}

pub proof fn lemma_repeat_all_len<T>(data: Seq<T>, dims: Seq<usize>)
    ensures
        repeat_all(data, dims).len() == data.len() * product(dims),
    decreases dims.len(),
{
    if dims.len() == 0 {
        assert(data.len() * 1 == data.len());
    } else {
        let x = dims.last() as nat;
        crate::keep::lemma_repeat_len(data, x);
        lemma_repeat_all_len(crate::keep::repeat_seq(data, x), dims.drop_last());
        assert(dims =~= dims.drop_last() + seq![dims.last()]);
        crate::shape::lemma_product_concat(dims.drop_last(), seq![dims.last()]);
        crate::shape::lemma_product_single(dims.last());
        let p = product(dims.drop_last());
        assert(x * data.len() * p == data.len() * (p * x)) by (nonlinear_arith);
    }
}

/// Replicates `data` as new leading axes of sizes `dims`, the last first.
fn repeat_all_exec<T: Copy>(data: Vec<T>, dims: &Vec<usize>) -> (r: Vec<T>)
    requires
        data@.len() * product(dims@) <= usize::MAX,
    ensures
        r@ == repeat_all(data@, dims@),
{
    let mut cur = data;
    let ghost d0 = cur@;
    let mut j: usize = dims.len();
    proof {
        assert(dims@.take(j as int) =~= dims@);
    }
    while j > 0
        invariant
            j <= dims@.len(),
            repeat_all(d0, dims@) == repeat_all(cur@, dims@.take(j as int)),
            cur@.len() * product(dims@.take(j as int)) <= usize::MAX,
        decreases j,
    {
        let k = dims[j - 1];
        let ghost t = dims@.take(j as int);
        proof {
            assert(t.drop_last() =~= dims@.take(j - 1));
            assert(t.last() == k);
            assert(t =~= t.drop_last() + seq![k]);
            crate::shape::lemma_product_concat(t.drop_last(), seq![k]);
            crate::shape::lemma_product_single(k);
            let p = product(t.drop_last());
            assert((cur@.len() * k) * p == cur@.len() * (p * k)) by (nonlinear_arith);
        }
        let mut next: Vec<T> = Vec::new();
        let mut c: usize = 0;
        let len = cur.len();
        while c < k
            invariant
                c <= k,
                len == cur@.len(),
                next@ == crate::keep::repeat_seq(cur@, c as nat),
            decreases k - c,
        {
            extend_range(&mut next, cur.as_slice(), 0, len);
            c = c + 1;
            assert(cur@.subrange(0, len as int) =~= cur@);
        }
        proof {
            crate::keep::lemma_repeat_len(cur@, k as nat);
            let p = product(dims@.take(j - 1));
            assert(next@.len() * p == (cur@.len() * k) * p) by (nonlinear_arith)
                requires
                    next@.len() == (k as nat) * cur@.len(),
            ;
        }
        cur = next;
        j = j - 1;
    }
    cur
}

impl<T: ArrayValue> Array<T> {
    /// Rotates each row at depth `depth` of this array by the matching row at
    /// depth `by_depth` of `by`. Where the leading axes of the two disagree,
    /// leading axes of length one are dropped first; the shallower operand
    /// is then replicated over the other's extra leading axes. Rows pair up
    /// in order, as far as both have rows.
    pub fn rotate_depth(&mut self, by: &Array<isize>, depth: usize, by_depth: usize, fill: Option<T>) -> (r: Result<(), ArrayError>)
        requires
            old(self).wf(),
            by.wf(),
            depth_fits(old(self).shape@, depth as nat, by.shape@, by_depth as nat),
        ensures
            final(self).meta.map_keys is Some <==> old(self).meta.map_keys is Some,
            depth == 0 && r is Ok && by.data@.len() > 0 && old(self).meta.map_keys is Some && (
            *old(self).meta.map_keys->0.keys).wf() ==> rows_rotated(
                *old(self).meta.map_keys->0.keys,
                *final(self).meta.map_keys->0.keys,
                by.data@[0],
            ),
            final(self).wf(),
            final(self).meta.label == old(self).meta.label,
            ({
                let (a2, d2, b2, e2) = aligned(old(self).shape@, depth as nat, by.shape@, by_depth as nat);
                let (a3, ad3) = broadcast(a2, d2, old(self).data@, b2, e2);
                let (b3, bd3) = broadcast(b2, e2, by.data@, a2, d2);
                let d = if d2 >= e2 {
                    d2
                } else {
                    e2
                };
                let rla = product(a3.skip(d as int));
                let rlb = product(b3.skip(d as int));
                let n = min_nat(product(a3.take(d as int)), product(b3.take(d as int)));
                &&& !prefix_agree(a2, d2, b2, e2) ==> r == Err::<(), ArrayError>(
                    ArrayError::ShapeMismatch,
                ) && final(self).shape@ == a2 && final(self).data@ == old(self).data@
                &&& prefix_agree(a2, d2, b2, e2) ==> final(self).shape@ == a3
                &&& prefix_agree(a2, d2, b2, e2) && (rla == 0 || rlb == 0) ==> r is Ok
                    && final(self).data@ == ad3
                &&& prefix_agree(a2, d2, b2, e2) && rla > 0 && rlb > 0 && (b3.len() - d > 1 || rlb
                    > a3.len() - d) ==> r == Err::<(), ArrayError>(ArrayError::ShapeMismatch)
                    && final(self).data@ == ad3
                &&& prefix_agree(a2, d2, b2, e2) && rla > 0 && rlb > 0 && b3.len() - d <= 1 && rlb
                    <= a3.len() - d ==> r is Ok && final(self).data@ == depth_rows(
                    bd3,
                    rlb,
                    a3.skip(d as int),
                    ad3,
                    rla,
                    n,
                    fill,
                ) + ad3.skip((n * rla) as int)
            }),
    {
        let r = self.rotate_depth_data(by, depth, by_depth, fill);
        if depth == 0 && r.is_ok() && by.data.len() > 0 {
            let keys = self.meta.map_keys.take();
            match keys {
                Some(k) => {
                    let mut v = *k.keys;
                    if v.check_wf() {
                        v.rotate_rows(by.data[0]);
                    }
                    self.meta.map_keys = Some(MapKeys { keys: Box::new(v) });
                },
                None => {},
            }
        }
        r
    }

    /// The elements and shape of [`Array::rotate_depth`]; map keys are left alone.
    #[verifier::rlimit(100)]
    fn rotate_depth_data(&mut self, by: &Array<isize>, depth: usize, by_depth: usize, fill: Option<T>) -> (r: Result<(), ArrayError>)
        requires
            old(self).wf(),
            by.wf(),
            depth_fits(old(self).shape@, depth as nat, by.shape@, by_depth as nat),
        ensures
            final(self).meta.map_keys == old(self).meta.map_keys,
            final(self).wf(),
            final(self).meta.label == old(self).meta.label,
            ({
                let (a2, d2, b2, e2) = aligned(old(self).shape@, depth as nat, by.shape@, by_depth as nat);
                let (a3, ad3) = broadcast(a2, d2, old(self).data@, b2, e2);
                let (b3, bd3) = broadcast(b2, e2, by.data@, a2, d2);
                let d = if d2 >= e2 {
                    d2
                } else {
                    e2
                };
                let rla = product(a3.skip(d as int));
                let rlb = product(b3.skip(d as int));
                let n = min_nat(product(a3.take(d as int)), product(b3.take(d as int)));
                &&& !prefix_agree(a2, d2, b2, e2) ==> r == Err::<(), ArrayError>(
                    ArrayError::ShapeMismatch,
                ) && final(self).shape@ == a2 && final(self).data@ == old(self).data@
                &&& prefix_agree(a2, d2, b2, e2) ==> final(self).shape@ == a3
                &&& prefix_agree(a2, d2, b2, e2) && (rla == 0 || rlb == 0) ==> r is Ok
                    && final(self).data@ == ad3
                &&& prefix_agree(a2, d2, b2, e2) && rla > 0 && rlb > 0 && (b3.len() - d > 1 || rlb
                    > a3.len() - d) ==> r == Err::<(), ArrayError>(ArrayError::ShapeMismatch)
                    && final(self).data@ == ad3
                &&& prefix_agree(a2, d2, b2, e2) && rla > 0 && rlb > 0 && b3.len() - d <= 1 && rlb
                    <= a3.len() - d ==> r is Ok && final(self).data@ == depth_rows(
                    bd3,
                    rlb,
                    a3.skip(d as int),
                    ad3,
                    rla,
                    n,
                    fill,
                ) + ad3.skip((n * rla) as int)
            }),
    {
        let ra = self.shape.len();
        let rb = by.shape.len();
        let da: usize = if depth < ra {
            depth
        } else {
            ra
        };
        let db: usize = if by_depth < rb {
            by_depth
        } else {
            rb
        };
        let ghost al = aligned(self.shape@, depth as nat, by.shape@, by_depth as nat);
        let mut sa = crate::array::copy_range(&self.shape, 0, ra);
        let mut sb = crate::array::copy_range(&by.shape, 0, rb);
        assert(sa@ =~= self.shape@);
        assert(sb@ =~= by.shape@);
        let mut da2 = da;
        let mut db2 = db;
        if !prefixes_agree(&sa, da, &sb, db) {
            let (x, dx) = strip_leading_ones(&sa, da);
            let (y, dy) = strip_leading_ones(&sb, db);
            sa = x;
            da2 = dx;
            sb = y;
            db2 = dy;
        }
        assert(sa@ == al.0 && da2 == al.1 && sb@ == al.2 && db2 == al.3);
        proof {
            lemma_strip_product(self.shape@, da as nat);
        }
        if !prefixes_agree(&sa, da2, &sb, db2) {
            self.shape = sa;
            return Err(ArrayError::ShapeMismatch);
        }
        let ghost a3 = broadcast(al.0, al.1, self.data@, al.2, al.3);
        let ghost b3 = broadcast(al.2, al.3, by.data@, al.0, al.1);
        let mut adata = crate::array::copy_range(&self.data, 0, self.data.len());
        let mut bdata = crate::array::copy_range(&by.data, 0, by.data.len());
        assert(adata@ =~= self.data@);
        assert(bdata@ =~= by.data@);
        proof {
            lemma_strip_product(by.shape@, db as nat);
        }
        if da2 < db2 {
            let extra = crate::array::copy_range(&sb, 0, db2 - da2);
            proof {
                assert(extra@ =~= al.2.take(db2 - da2));
                lemma_broadcast_fits(extra@, sa@, adata@.len());
            }
            adata = repeat_all_exec(adata, &extra);
            let mut ns = extra;
            let mut rest = sa;
            ns.append(&mut rest);
            sa = ns;
        } else if db2 < da2 {
            let extra = crate::array::copy_range(&sa, 0, da2 - db2);
            proof {
                assert(extra@ =~= al.0.take(da2 - db2));
                lemma_broadcast_fits(extra@, sb@, bdata@.len());
            }
            bdata = repeat_all_exec(bdata, &extra);
            let mut ns = extra;
            let mut rest = sb;
            ns.append(&mut rest);
            sb = ns;
        }
        let d: usize = if da2 >= db2 {
            da2
        } else {
            db2
        };
        assert(sa@ == a3.0 && adata@ == a3.1);
        assert(sb@ == b3.0 && bdata@ == b3.1);
        proof {
            lemma_repeat_all_len(self.data@, al.2.take(db2 - da2));
            lemma_repeat_all_len(by.data@, al.0.take(da2 - db2));
            crate::shape::lemma_product_concat(al.2.take(db2 - da2), al.0);
            crate::shape::lemma_product_concat(al.0.take(da2 - db2), al.2);
            crate::shape::lemma_nz_positive(sa@);
            crate::shape::lemma_nz_positive(sb@);
            assert(product(sa@) == adata@.len()) by (nonlinear_arith)
                requires
                    da2 < db2 ==> adata@.len() == self.data@.len() * product(al.2.take(db2 - da2))
                        && product(sa@) == product(al.2.take(db2 - da2)) * product(al.0),
                    da2 >= db2 ==> adata@ == self.data@ && sa@ == al.0,
                    product(al.0) == self.data@.len(),
            ;
            assert(product(sb@) == bdata@.len()) by (nonlinear_arith)
                requires
                    db2 < da2 ==> bdata@.len() == by.data@.len() * product(al.0.take(da2 - db2))
                        && product(sb@) == product(al.0.take(da2 - db2)) * product(al.2),
                    db2 >= da2 ==> bdata@ == by.data@ && sb@ == al.2,
                    product(al.2) == by.data@.len(),
            ;
            assert(d <= sa@.len() && d <= sb@.len());
        }
        let rla = product_range(&sa, d, sa.len());
        let rlb = product_range(&sb, d, sb.len());
        let na = product_range(&sa, 0, d);
        let nb = product_range(&sb, 0, d);
        proof {
            assert(sa@.subrange(d as int, sa@.len() as int) =~= sa@.skip(d as int));
            assert(sb@.subrange(d as int, sb@.len() as int) =~= sb@.skip(d as int));
            assert(sa@.subrange(0, d as int) =~= sa@.take(d as int));
            assert(sb@.subrange(0, d as int) =~= sb@.take(d as int));
            lemma_product_split(sa@, d as int);
            lemma_product_split(sb@, d as int);
        }
        if rla == 0 || rlb == 0 {
            self.shape = sa;
            self.data = adata;
            return Ok(());
        }
        if sb.len() - d > 1 || rlb > sa.len() - d {
            self.shape = sa;
            self.data = adata;
            return Err(ArrayError::ShapeMismatch);
        }
        let n = if na <= nb {
            na
        } else {
            nb
        };
        let row_shape = crate::array::copy_range(&sa, d, sa.len());
        proof {
            lemma_sub_fits(sa@, d as int, sa@.len() as int);
            assert(row_shape@.skip(0) =~= row_shape@);
        }
        let _alen = adata.len();
        let _blen = bdata.len();
        let mut out: Vec<T> = Vec::new();
        let mut i: usize = 0;
        while i < n
            invariant
                i <= n,
                n <= na,
                n <= nb,
                na * rla == adata@.len(),
                nb * rlb == bdata@.len(),
                adata@.len() <= usize::MAX,
                bdata@.len() <= usize::MAX,
                row_shape@ == sa@.skip(d as int),
                product(row_shape@) == rla,
                shape_fits(row_shape@),
                out@ == depth_rows(bdata@, rlb as nat, row_shape@, adata@, rla as nat, i as nat, fill),
                out@.len() == i * rla,
            decreases n - i,
        {
            proof {
                lemma_row_bounds(na as nat, rla as nat, i as int);
                lemma_row_bounds(nb as nat, rlb as nat, i as int);
            }
            let brow = crate::array::copy_range(&bdata, i * rlb, i * rlb + rlb);
            proof {
                assert(brow@.skip(0) =~= brow@);
                assert(row_shape@.skip(0) =~= row_shape@);
                assert(brow@ == row_of(bdata@, rlb as nat, i as int));
                assert(adata@.subrange(i * rla, i * rla + rla) == row_of(adata@, rla as nat, i as int));
            }
            shift_into(&brow, &row_shape, 0, &adata, i * rla, i * rla + rla, fill, &mut out);
            proof {
                lemma_shifted_len(brow@, row_shape@, row_of(adata@, rla as nat, i as int), fill);
                assert((i + 1) * rla == i * rla + rla) by (nonlinear_arith);
            }
            i = i + 1;
        }
        proof {
            assert(n * rla <= na * rla) by (nonlinear_arith)
                requires
                    n <= na,
            ;
        }
        crate::array::extend_range(&mut out, adata.as_slice(), n * rla, adata.len());
        proof {
            assert(adata@.subrange((n * rla) as int, adata@.len() as int) =~= adata@.skip(
                (n * rla) as int,
            ));
            assert(out@.len() == adata@.len());
        }
        self.shape = sa;
        self.data = out;
        if fill.is_some() {
            self.reset_meta_flags();
        }
        Ok(())
    }
}

/// Whether the first `da` axes of `a` and the first `db` of `b` agree where both exist.
fn prefixes_agree(a: &Vec<usize>, da: usize, b: &Vec<usize>, db: usize) -> (r: bool)
    requires
        da <= a@.len(),
        db <= b@.len(),
    ensures
        r == prefix_agree(a@, da as nat, b@, db as nat),
{
    let m = if da <= db {
        da
    } else {
        db
    };
    let mut i: usize = 0;
    while i < m
        invariant
            m == min_nat(da as nat, db as nat),
            da <= a@.len(),
            db <= b@.len(),
            i <= m,
            forall|k: int| 0 <= k < i ==> a@[k] == b@[k],
        decreases m - i,
    {
        if a[i] != b[i] {
            return false;
        }
        i = i + 1;
    }
    true
}

/// Drops leading axes of length one, at most `d` of them.
fn strip_leading_ones(s: &Vec<usize>, d: usize) -> (r: (Vec<usize>, usize))
    requires
        d <= s@.len(),
    ensures
        (r.0@, r.1 as nat) == strip_ones(s@, d as nat),
        r.1 <= r.0@.len(),
{
    let mut k: usize = 0;
    assert(s@.skip(0) =~= s@);
    while k < d && s[k] == 1
        invariant
            k <= d <= s@.len(),
            strip_ones(s@, d as nat) == strip_ones(s@.skip(k as int), (d - k) as nat),
        decreases d - k,
    {
        proof {
            assert(s@.skip(k as int).drop_first() =~= s@.skip(k + 1));
            assert(s@.skip(k as int)[0] == s@[k as int]);
        }
        k = k + 1;
    }
    let rest = crate::array::copy_range(s, k, s.len());
    proof {
        assert(rest@ =~= s@.skip(k as int));
        if k < d {
            assert(s@.skip(k as int)[0] == s@[k as int]);
        }
    }
    (rest, d - k)
}

/// Replicating over extra leading axes gives elements that fit.
proof fn lemma_broadcast_fits(extra: Seq<usize>, s: Seq<usize>, len: nat)
    requires
        product(s) == len,
        shape_fits(extra + s),
    ensures
        len * product(extra) <= usize::MAX,
{
    crate::shape::lemma_product_concat(extra, s);
    crate::shape::lemma_nz_positive(extra + s);
    assert(len * product(extra) == product(extra) * product(s)) by (nonlinear_arith)
        requires
            product(s) == len,
    ;
}

/// Every offset negated.
pub open spec fn negated(by: Seq<isize>) -> Seq<isize> {
    Seq::new(by.len(), |i: int| (-by[i]) as isize)
}

/// Rotating by `by` and then by its negation, without a fill, gives back the
/// elements it started from, for every shape and every list of offsets.
pub proof fn lemma_rotate_round_trip<T>(by: Seq<isize>, shape: Seq<usize>, data: Seq<T>)
    requires
        data.len() == product(shape),
        forall|i: int| 0 <= i < by.len() ==> by[i] > isize::MIN,
    ensures
        shifted(negated(by), shape, shifted(by, shape, data, None), None) == data,
    decreases shape.len(), 1nat, 0nat,
{
    if !(by.len() == 0 || shape.len() == 0 || shape[0] == 0) {
        let n = shape[0] as nat;
        let rl = product(shape.drop_first());
        lemma_rt_rows(by, shape, data, n);
        assert(data.subrange(0, (n * rl) as int) =~= data);
    }
}

proof fn lemma_rt_rows<T>(by: Seq<isize>, shape: Seq<usize>, data: Seq<T>, i: nat)
    requires
        data.len() == product(shape),
        forall|k: int| 0 <= k < by.len() ==> by[k] > isize::MIN,
        by.len() > 0,
        shape.len() > 0,
        shape[0] > 0,
        i <= shape[0],
    ensures
        i * product(shape.drop_first()) <= data.len(),
        shifted_rows(negated(by), shape, shifted(by, shape, data, None), None, i) == data.subrange(
            0,
            (i * product(shape.drop_first())) as int,
        ),
    decreases shape.len(), 0nat, i,
{
    let n = shape[0] as nat;
    let rl = product(shape.drop_first());
    let nb = negated(by);
    let x = shifted(by, shape, data, None);
    assert(data.len() == n * rl);
    assert(i * rl <= n * rl) by (nonlinear_arith)
        requires
            i <= n,
    ;
    if i > 0 {
        let r = i - 1;
        lemma_rt_rows(by, shape, data, (i - 1) as nat);
        lemma_row_bounds(n, rl, r);
        let j = (r + nb[0]) % (n as int);
        assert(nb[0] == -by[0]);
        assert(nb.drop_first() =~= negated(by.drop_first()));
        assert(0 <= j < n);
        lemma_mod_back(r, by[0] as int, n as int, j);
        lemma_pick_row(by, shape, data, None, n, j);
        lemma_row_bounds(n, rl, r);
        lemma_rt_rows_inner(by, shape, data, r);
        assert(data.subrange(0, (i * rl) as int) =~= data.subrange(0, r * rl) + row_of(
            data,
            rl,
            r,
        ));
    } else {
        assert(data.subrange(0, 0) =~= Seq::<T>::empty());
        assert(0 * rl == 0);
    }
}

/// The round trip on the inner axes of row `r`.
proof fn lemma_rt_rows_inner<T>(by: Seq<isize>, shape: Seq<usize>, data: Seq<T>, r: int)
    requires
        data.len() == product(shape),
        forall|k: int| 0 <= k < by.len() ==> by[k] > isize::MIN,
        by.len() > 0,
        shape.len() > 0,
        0 <= r < shape[0],
        r * product(shape.drop_first()) + product(shape.drop_first()) <= data.len(),
        0 <= r * product(shape.drop_first()),
        r * product(shape.drop_first()) + product(shape.drop_first()) == (r + 1) * product(
            shape.drop_first(),
        ),
    ensures
        shifted(
            negated(by.drop_first()),
            shape.drop_first(),
            shifted(
                by.drop_first(),
                shape.drop_first(),
                row_of(data, product(shape.drop_first()), r),
                None,
            ),
            None,
        ) == row_of(data, product(shape.drop_first()), r),
    decreases shape.len(), 0nat, 0nat,
{
    let rl = product(shape.drop_first());
    assert forall|k: int| 0 <= k < by.drop_first().len() implies by.drop_first()[k]
        > isize::MIN by {
        assert(by.drop_first()[k] == by[k + 1]);
    }
    lemma_rotate_round_trip(by.drop_first(), shape.drop_first(), row_of(data, rl, r));
}

proof fn lemma_mod_back(r: int, b: int, n: int, j: int)
    requires
        n > 0,
        0 <= r < n,
        j == (r + (-b)) % n,
    ensures
        (j + b) % n == r,
{
    let q = (r - b) / n;
    assert(r - b == q * n + j) by (nonlinear_arith)
        requires
            j == (r - b) % n,
            q == (r - b) / n,
            n > 0,
    ;
    assert(j + b == r + (-q) * n) by (nonlinear_arith)
        requires
            r - b == q * n + j,
    ;
    assert((j + b) % n == r) by (nonlinear_arith)
        requires
            j + b == r + (-q) * n,
            0 <= r < n,
    ;
}

/// Row `j` of a rotation is the rotation of the row it came from.
proof fn lemma_pick_row<T>(
    by: Seq<isize>,
    shape: Seq<usize>,
    data: Seq<T>,
    fill: Option<T>,
    i: nat,
    j: int,
)
    requires
        data.len() == product(shape),
        by.len() > 0,
        shape.len() > 0,
        shape[0] > 0,
        i <= shape[0],
        0 <= j < i,
        fill is None,
    ensures
        row_of(shifted_rows(by, shape, data, fill, i), product(shape.drop_first()), j) == shifted(
            by.drop_first(),
            shape.drop_first(),
            row_of(data, product(shape.drop_first()), (j + by[0]) % (shape[0] as int)),
            fill,
        ),
    decreases i,
{
    let n = shape[0] as nat;
    let rl = product(shape.drop_first());
    let prev = shifted_rows(by, shape, data, fill, (i - 1) as nat);
    lemma_shifted_rows_len(by, shape, data, fill, (i - 1) as nat);
    let s = ((i - 1) + by[0]) % (n as int);
    lemma_row_bounds(n, rl, s);
    lemma_shifted_len(by.drop_first(), shape.drop_first(), row_of(data, rl, s), fill);
    let whole = shifted_rows(by, shape, data, fill, i);
    lemma_row_bounds(i, rl, j);
    if j < i - 1 {
        lemma_pick_row(by, shape, data, fill, (i - 1) as nat, j);
        assert(((i - 1) as nat) * rl >= (j + 1) * rl) by (nonlinear_arith)
            requires
                j + 1 <= i - 1,
        ;
        assert(row_of(whole, rl, j) =~= row_of(prev, rl, j));
    } else {
        assert(((i - 1) as nat) * rl == j * rl);
        assert(row_of(whole, rl, j) =~= shifted(
            by.drop_first(),
            shape.drop_first(),
            row_of(data, rl, s),
            fill,
        ));
    }
}

/// Rotation keeps the element count.
pub proof fn lemma_shifted_len<T>(by: Seq<isize>, shape: Seq<usize>, data: Seq<T>, fill: Option<T>)
    requires
        data.len() == product(shape),
    ensures
        shifted(by, shape, data, fill).len() == data.len(),
    decreases shape.len(), 1nat, 0nat,
{
    if !(by.len() == 0 || shape.len() == 0 || shape[0] == 0) {
        lemma_shifted_rows_len(by, shape, data, fill, shape[0] as nat);
    }
}

proof fn lemma_shifted_rows_len<T>(
    by: Seq<isize>,
    shape: Seq<usize>,
    data: Seq<T>,
    fill: Option<T>,
    i: nat,
)
    requires
        data.len() == product(shape),
        shape.len() > 0,
        by.len() > 0,
        shape[0] > 0,
        i <= shape[0],
    ensures
        shifted_rows(by, shape, data, fill, i).len() == i * product(shape.drop_first()),
    decreases shape.len(), 0nat, i,
{
    let n = shape[0] as nat;
    let rl = product(shape.drop_first());
    if i > 0 {
        lemma_shifted_rows_len(by, shape, data, fill, (i - 1) as nat);
        let r = i - 1;
        let s = (r + by[0]) % (n as int);
        lemma_row_bounds(n, rl, s);
        lemma_shifted_len(by.drop_first(), shape.drop_first(), row_of(data, rl, s), fill);
        assert(((i - 1) as nat) * rl + rl == i * rl) by (nonlinear_arith)
            requires
                i >= 1,
        ;
    } else {
        assert(0 * rl == 0);
    }
}

} // verus!
