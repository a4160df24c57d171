//! Keep: replicating or dropping rows by per-row counts, and its inverse.
use vstd::prelude::*;

use crate::array::{
    extend_range, lemma_rows, row_count_of, row_len_of, row_of, row_shape_of,
    Array, ArrayValue,
};
use crate::error::ArrayError;
use crate::shape::{nz_product, product, shape_fits};

verus! {

/// `s` repeated `k` times.
pub open spec fn repeat_seq<T>(s: Seq<T>, k: nat) -> Seq<T>
    decreases k,
{
    if k == 0 {
        Seq::empty()
    } else {
        repeat_seq(s, (k - 1) as nat) + s
    }
}

/// The first `n` rows (of length `rl`) of `data`, row `i` repeated `counts[i]` times.
pub open spec fn kept<T>(data: Seq<T>, rl: nat, counts: Seq<usize>, n: nat) -> Seq<T>
    decreases n,
{
    if n == 0 {
        Seq::empty()
    } else {
        kept(data, rl, counts, (n - 1) as nat) + repeat_seq(
            row_of(data, rl, n - 1),
            counts[n - 1] as nat,
        )
    }
}

/// Sum of the first `n` counts.
pub open spec fn count_sum(counts: Seq<usize>, n: nat) -> nat
    decreases n,
{
    if n == 0 {
        0
    } else {
        count_sum(counts, (n - 1) as nat) + (counts[n - 1] as nat)
    }
}

/// A count of zero counted as one.
pub open spec fn nz_nat(x: nat) -> nat {
    if x == 0 {
        1
    } else {
        x
    }
}

/// The fill counts, none when absent.
pub open spec fn fill_seq(fill: Option<&Vec<usize>>) -> Seq<usize> {
    match fill {
        Some(f) => f@,
        None => Seq::empty(),
    }
}

/// The count of each of `n` rows: the given counts, then the fill counts cycled.
pub open spec fn effective_counts(counts: Seq<usize>, fill: Seq<usize>, n: nat) -> Seq<usize> {
    Seq::new(
        n,
        |i: int|
            if i < counts.len() {
                counts[i]
            } else {
                fill[(i - counts.len()) % (fill.len() as int)]
            },
    )
}

/// The counts cover `n` rows, directly or with a fill.
pub open spec fn counts_usable(counts: Seq<usize>, fill: Seq<usize>, n: nat) -> bool {
    counts.len() == n || (counts.len() < n && fill.len() > 0)
}

/// Keeping `n` rows with these counts gives a shape that fits.
pub open spec fn keep_fits(shape: Seq<usize>, counts: Seq<usize>) -> bool {
    nz_nat(count_sum(counts, shape[0] as nat)) * nz_product(shape.drop_first()) <= usize::MAX
}

pub proof fn lemma_repeat_len<T>(s: Seq<T>, k: nat)
    ensures
        repeat_seq(s, k).len() == k * s.len(),
    decreases k,
{
    if k > 0 {
        lemma_repeat_len(s, (k - 1) as nat);
        let j = (k - 1) as nat;
        assert(j * s.len() + s.len() == k * s.len()) by (nonlinear_arith)
            requires
                j + 1 == k,
        ;
    } else {
        assert(0 * s.len() == 0);
    }
}

pub proof fn lemma_count_sum_mono(counts: Seq<usize>, i: nat, n: nat)
    requires
        i <= n <= counts.len(),
    ensures
        count_sum(counts, i) <= count_sum(counts, n),
    decreases n,
{
    if i < n {
        lemma_count_sum_mono(counts, i, (n - 1) as nat);
    }
}

pub proof fn lemma_kept_len<T>(data: Seq<T>, rl: nat, counts: Seq<usize>, n: nat)
    requires
        n <= counts.len(),
        n * rl <= data.len(),
    ensures
        kept(data, rl, counts, n).len() == count_sum(counts, n) * rl,
    decreases n,
{
    if n > 0 {
        let m = (n - 1) as nat;
        assert(m * rl <= n * rl) by (nonlinear_arith)
            requires
                m < n,
        ;
        lemma_kept_len(data, rl, counts, m);
        lemma_row_bounds_nat(n, rl);
        assert((m + 1) * rl == n * rl);
        assert(row_of(data, rl, m as int).len() == rl);
        lemma_repeat_len(row_of(data, rl, m as int), counts[m as int] as nat);
        let cs = count_sum(counts, m);
        let c = counts[m as int] as nat;
        assert(cs * rl + c * rl == (cs + c) * rl) by (nonlinear_arith);
        assert(count_sum(counts, n) == cs + c);
    } else {
        assert(0 * rl == 0);
    }
}

proof fn lemma_row_bounds_nat(n: nat, rl: nat)
    requires
        n > 0,
    ensures
        ((n - 1) as nat) * rl + rl == n * rl,
        0 <= ((n - 1) as nat) * rl,
{
    assert(((n - 1) as nat) * rl + rl == n * rl) by (nonlinear_arith)
        requires
            n > 0,
    ;
}

/// Replicates each of the first `n` rows of `data` by its count.
fn replicate_rows<T: Copy>(data: &Vec<T>, rl: usize, n: usize, counts: &Vec<usize>) -> (r: Vec<T>)
    requires
        counts@.len() == n,
        n * rl == data@.len(),
    ensures
        r@ == kept(data@, rl as nat, counts@, n as nat),
{
    let mut out: Vec<T> = Vec::new();
    let mut i: usize = 0;
    let _len = data.len();
    while i < n
        invariant
            counts@.len() == n,
            n * rl == data@.len(),
            data@.len() <= usize::MAX,
            i <= n,
            out@ == kept(data@, rl as nat, counts@, i as nat),
        decreases n - i,
    {
        proof {
            crate::array::lemma_row_bounds(n as nat, rl as nat, i as int);
        }
        let lo = i * rl;
        let hi = lo + rl;
        let c = counts[i];
        let mut k: usize = 0;
        let ghost base = out@;
        while k < c
            invariant
                lo == i * rl,
                hi == lo + rl,
                hi == (i + 1) * rl,
                hi <= data@.len(),
                k <= c,
                out@ == base + repeat_seq(row_of(data@, rl as nat, i as int), k as nat),
            decreases c - k,
        {
            extend_range(&mut out, data.as_slice(), lo, hi);
            k = k + 1;
            proof {
                assert(out@ =~= base + repeat_seq(row_of(data@, rl as nat, i as int), k as nat));
            }
        }
        i = i + 1;
        proof {
            assert(((i - 1) as nat) == (i - 1));
            assert(out@ =~= kept(data@, rl as nat, counts@, i as nat));
        }
    }
    out
}

/// Sums the first `n` counts, given that the sum fits.
fn sum_counts(counts: &Vec<usize>, n: usize) -> (r: usize)
    requires
        n <= counts@.len(),
        count_sum(counts@, n as nat) <= usize::MAX,
    ensures
        r == count_sum(counts@, n as nat),
{
    let mut sum: usize = 0;
    let mut i: usize = 0;
    while i < n
        invariant
            n <= counts@.len(),
            count_sum(counts@, n as nat) <= usize::MAX,
            i <= n,
            sum == count_sum(counts@, i as nat),
        decreases n - i,
    {
        proof {
            lemma_count_sum_mono(counts@, (i + 1) as nat, n as nat);
        }
        sum = sum + counts[i];
        i = i + 1;
    }
    sum
}

/// Counts all equal to `c`.
pub open spec fn const_counts(c: usize, n: nat) -> Seq<usize> {
    Seq::new(n, |i: int| c)
}

/// Number of ones among the first `m` counts.
pub open spec fn ones(counts: Seq<usize>, m: nat) -> nat
    decreases m,
{
    if m == 0 {
        0
    } else {
        ones(counts, (m - 1) as nat) + (if counts[m - 1] == 1 {
            1nat
        } else {
            0nat
        })
    }
}

/// Rebuilds the first `m` rows: a zero count takes the row of `into`, a one
/// takes the next row of the kept array `trans`.
pub open spec fn unkept<T>(
    counts: Seq<usize>,
    into: Seq<T>,
    trans: Seq<T>,
    rl: nat,
    m: nat,
) -> Seq<T>
    decreases m,
{
    if m == 0 {
        Seq::empty()
    } else {
        let i = m - 1;
        unkept(counts, into, trans, rl, (m - 1) as nat) + (if counts[i] == 0 {
            row_of(into, rl, i)
        } else {
            row_of(trans, rl, ones(counts, (m - 1) as nat) as int)
        })
    }
}

/// All counts are 0 or 1.
pub open spec fn all_boolean(counts: Seq<usize>) -> bool {
    forall|i: int| 0 <= i < counts.len() ==> #[trigger] counts[i] <= 1
}

/// Inverse keep succeeds: counts are boolean, the kept array has a row for
/// every one, and, where one is used, its rows have the shape of the rows of
/// the array it is put back into.
pub open spec fn unkeep_ok(counts: Seq<usize>, kept_shape: Seq<usize>, into_shape: Seq<usize>) -> bool {
    let m = if counts.len() < row_count_of(into_shape) {
        counts.len()
    } else {
        row_count_of(into_shape)
    };
    all_boolean(counts) && ones(counts, m) <= row_count_of(kept_shape) && (ones(counts, m) > 0
        ==> row_shape_of(kept_shape) == row_shape_of(into_shape))
}

impl<T: ArrayValue> Array<T> {
    /// Replicates every row `count` times; a scalar becomes a list of `count`
    /// copies of itself.
    pub fn scalar_keep(self, count: usize) -> (r: Self)
        requires
            self.wf(),
            self.shape@.len() == 0 ==> count <= usize::MAX,
            self.shape@.len() > 0 ==> nz_nat((count as nat) * (self.shape@[0] as nat)) * nz_product(
                self.shape@.drop_first(),
            ) <= usize::MAX,
        ensures
            r.wf(),
            self.shape@.len() == 0 ==> r.shape@ == seq![count] && r.data@ == repeat_seq(
                self.data@,
                count as nat,
            ),
            self.shape@.len() > 0 ==> r.shape@ == self.shape@.update(
                0,
                (count * self.shape@[0]) as usize,
            ) && r.data@ == kept(
                self.data@,
                row_len_of(self.shape@),
                const_counts(count, self.shape@[0] as nat),
                self.shape@[0] as nat,
            ),
            count != 1 ==> r.meta.map_keys is None,
    {
        let mut a = self;
        if count != 1 {
            a.take_map_keys();
        }
        if a.shape.len() == 0 {
            let x = a.data[0];
            let mut data: Vec<T> = Vec::new();
            let mut i: usize = 0;
            while i < count
                invariant
                    i <= count,
                    a.data@.len() == 1,
                    x == a.data@[0],
                    data@ == repeat_seq(a.data@, i as nat),
                decreases count - i,
            {
                data.push(x);
                i = i + 1;
                assert(data@ =~= repeat_seq(a.data@, i as nat));
            }
            let mut shape: Vec<usize> = Vec::new();
            shape.push(count);
            proof {
                lemma_repeat_len(a.data@, count as nat);
                assert(shape@.drop_first() =~= Seq::<usize>::empty());
                assert(shape@[0] == count);
                assert(product(Seq::<usize>::empty()) == 1);
                assert(nz_product(Seq::<usize>::empty()) == 1);
                assert(product(shape@) == count);
                assert(nz_product(shape@) == crate::shape::nz(count));
                assert(shape@ =~= seq![count]);
            }
            a.data = data;
            a.shape = shape;
            return a;
        }
        let n = a.shape[0];
        let rl = a.row_len();
        let mut counts: Vec<usize> = Vec::new();
        let mut i: usize = 0;
        while i < n
            invariant
                i <= n,
                counts@ == const_counts(count, i as nat),
            decreases n - i,
        {
            counts.push(count);
            i = i + 1;
            assert(counts@ =~= const_counts(count, i as nat));
        }
        proof {
            lemma_rows(a.shape@);
            lemma_const_sum(count, n as nat);
            lemma_kept_len(a.data@, rl as nat, counts@, n as nat);
            lemma_fit_first(a.shape@, (count * n) as nat);
        }
        let data = replicate_rows(&a.data, rl, n, &counts);
        let total = count * n;
        let ghost old_shape = a.shape@;
        a.shape.set(0, total);
        a.data = data;
        proof {
            assert(a.shape@.drop_first() =~= old_shape.drop_first());
            lemma_shape_first(a.shape@, rl as nat);
        }
        a
    }

    /// Keeps row `i` `counts[i]` times; rows past the counts take their counts
    /// from `fill`, cycled.
    pub fn list_keep(self, counts: &[usize], fill: Option<&Vec<usize>>) -> (r: Result<Self, ArrayError>)
        requires
            self.wf(),
            self.shape@.len() > 0,
            counts_usable(counts@, fill_seq(fill), self.shape@[0] as nat) ==> keep_fits(
                self.shape@,
                effective_counts(counts@, fill_seq(fill), self.shape@[0] as nat),
            ),
        ensures
            counts@.len() > self.shape@[0] ==> r == Err::<Self, ArrayError>(
                ArrayError::ShapeMismatch,
            ),
            counts@.len() <= self.shape@[0] && !counts_usable(
                counts@,
                fill_seq(fill),
                self.shape@[0] as nat,
            ) ==> r == Err::<Self, ArrayError>(ArrayError::MissingFill),
            counts_usable(counts@, fill_seq(fill), self.shape@[0] as nat) ==> r is Ok && ({
                let eff = effective_counts(counts@, fill_seq(fill), self.shape@[0] as nat);
                let a = r->Ok_0;
                &&& a.wf()
                &&& a.shape@ == self.shape@.update(
                    0,
                    count_sum(eff, self.shape@[0] as nat) as usize,
                )
                &&& a.data@ == kept(self.data@, row_len_of(self.shape@), eff, self.shape@[0] as nat)
                &&& a.meta.map_keys is None
            }),
    {
        let n = self.shape[0];
        if counts.len() > n {
            return Err(ArrayError::ShapeMismatch);
        }
        let ghost fs = fill_seq(fill);
        let mut eff: Vec<usize> = Vec::new();
        let mut i: usize = 0;
        while i < counts.len()
            invariant
                i <= counts@.len() <= n,
                eff@ =~= counts@.subrange(0, i as int),
            decreases counts@.len() - i,
        {
            eff.push(counts[i]);
            i = i + 1;
            assert(eff@ =~= counts@.subrange(0, i as int));
        }
        if counts.len() < n {
            match fill {
                None => {
                    return Err(ArrayError::MissingFill);
                },
                Some(f) => {
                    if f.len() == 0 {
                        return Err(ArrayError::MissingFill);
                    }
                    let mut j: usize = counts.len();
                    while j < n
                        invariant
                            counts@.len() <= j <= n,
                            fs == f@,
                            f@.len() > 0,
                            eff@.len() == j,
                            forall|k: int|
                                0 <= k < j ==> #[trigger] eff@[k] == effective_counts(
                                    counts@,
                                    fs,
                                    n as nat,
                                )[k],
                        decreases n - j,
                    {
                        eff.push(f[(j - counts.len()) % f.len()]);
                        j = j + 1;
                    }
                },
            }
        }
        let ghost effs = effective_counts(counts@, fs, n as nat);
        assert(eff@ =~= effs);
        let rl = self.row_len();
        proof {
            lemma_rows(self.shape@);
            lemma_kept_len(self.data@, rl as nat, eff@, n as nat);
            lemma_fit_first(self.shape@, count_sum(eff@, n as nat));
        }
        let total = sum_counts(&eff, n);
        let mut a = self;
        a.take_map_keys();
        let data = replicate_rows(&a.data, rl, n, &eff);
        let ghost old_shape = a.shape@;
        a.shape.set(0, total);
        a.data = data;
        proof {
            assert(a.shape@.drop_first() =~= old_shape.drop_first());
            lemma_shape_first(a.shape@, rl as nat);
        }
        Ok(a)
    }

    /// Undoes a keep with boolean counts: row `i` of the result is the next
    /// row of this kept array where `counts[i]` is one, and row `i` of `into`
    /// where it is zero.
    pub fn undo_keep(self, counts: &[usize], into: Self) -> (r: Result<Self, ArrayError>)
        requires
            self.wf(),
            into.wf(),
            into.shape@.len() > 0,
        ensures
            !unkeep_ok(counts@, self.shape@, into.shape@) ==> r == Err::<Self, ArrayError>(
                ArrayError::UnsupportedInverse,
            ),
            unkeep_ok(counts@, self.shape@, into.shape@) ==> r is Ok && ({
                let m = if counts@.len() < into.shape@[0] {
                    counts@.len()
                } else {
                    into.shape@[0] as nat
                };
                let a = r->Ok_0;
                &&& a.wf()
                &&& a.shape@ == into.shape@.update(0, m as usize)
                &&& a.data@ == unkept(
                    counts@,
                    into.data@,
                    self.data@,
                    row_len_of(into.shape@),
                    m,
                )
            }),
    {
        let mut b: usize = 0;
        while b < counts.len()
            invariant
                b <= counts@.len(),
                forall|k: int| 0 <= k < b ==> #[trigger] counts@[k] <= 1,
            decreases counts@.len() - b,
        {
            if counts[b] > 1 {
                return Err(ArrayError::UnsupportedInverse);
            }
            b = b + 1;
        }
        let n_into = into.shape[0];
        let m = if counts.len() < n_into {
            counts.len()
        } else {
            n_into
        };
        let n_trans = self.row_count();
        let rl = into.row_len();
        let trl = self.row_len();
        let same_row_shape = row_shapes_equal(&self.shape, &into.shape);
        let _len = into.data.len();
        let _tlen = self.data.len();
        proof {
            lemma_rows(into.shape@);
            lemma_rows(self.shape@);
        }
        let mut out: Vec<T> = Vec::new();
        let mut used: usize = 0;
        let mut i: usize = 0;
        while i < m
            invariant
                i <= m <= counts@.len(),
                into.shape@.len() > 0,
                m <= n_into,
                m == (if counts@.len() < n_into {
                    counts@.len()
                } else {
                    n_into as nat
                }),
                n_into == into.shape@[0],
                n_trans == row_count_of(self.shape@),
                rl == row_len_of(into.shape@),
                trl == row_len_of(self.shape@),
                same_row_shape == (row_shape_of(self.shape@) == row_shape_of(into.shape@)),
                product(into.shape@) == n_into * rl,
                product(self.shape@) == n_trans * trl,
                into.wf(),
                self.wf(),
                into.data@.len() <= usize::MAX,
                self.data@.len() <= usize::MAX,
                all_boolean(counts@),
                used == ones(counts@, i as nat),
                used <= n_trans,
                used > 0 ==> same_row_shape,
                out@ == unkept(counts@, into.data@, self.data@, rl as nat, i as nat),
            decreases m - i,
        {
            if counts[i] == 0 {
                proof {
                    crate::array::lemma_row_bounds(n_into as nat, rl as nat, i as int);
                }
                extend_range(&mut out, into.data.as_slice(), i * rl, i * rl + rl);
            } else {
                if used >= n_trans || !same_row_shape {
                    proof {
                        assert(counts@[i as int] <= 1);
                        assert(counts@[i as int] == 1);
                        lemma_ones_mono(counts@, (i + 1) as nat, m as nat);
                        assert(ones(counts@, (i + 1) as nat) == used + 1);
                        let mm: nat = if counts@.len() < row_count_of(into.shape@) {
                            counts@.len()
                        } else {
                            row_count_of(into.shape@)
                        };
                        assert(mm == m);
                        assert(ones(counts@, mm) >= 1);
                        assert(!unkeep_ok(counts@, self.shape@, into.shape@));
                    }
                    return Err(ArrayError::UnsupportedInverse);
                }
                proof {
                    assert(trl == rl) by {
                        assert(row_len_of(self.shape@) == product(row_shape_of(self.shape@)));
                    }
                    crate::array::lemma_row_bounds(n_trans as nat, rl as nat, used as int);
                }
                extend_range(&mut out, self.data.as_slice(), used * rl, used * rl + rl);
                used = used + 1;
            }
            i = i + 1;
            proof {
                assert(out@ =~= unkept(counts@, into.data@, self.data@, rl as nat, i as nat));
            }
        }
        proof {
            assert(unkeep_ok(counts@, self.shape@, into.shape@));
            if used > 0 {
                assert(trl == rl) by {
                    assert(row_len_of(self.shape@) == product(row_shape_of(self.shape@)));
                }
            }
            assert(used * rl <= n_trans * trl) by (nonlinear_arith)
                requires
                    used <= n_trans,
                    used > 0 ==> trl == rl,
            ;
            lemma_unkept_len(counts@, into.data@, self.data@, rl as nat, m as nat, n_into as nat);
            lemma_fit_first_le(into.shape@, m as usize);
        }
        let mut shape = into.shape;
        shape.set(0, m);
        proof {
            assert(shape@.drop_first() =~= into.shape@.drop_first());
            lemma_shape_first(shape@, rl as nat);
        }
        Ok(Array::new(shape, out))
    }
}

/// Whether two shapes have the same row shape.
fn row_shapes_equal(a: &Vec<usize>, b: &Vec<usize>) -> (r: bool)
    ensures
        r == (row_shape_of(a@) == row_shape_of(b@)),
{
    let la: usize = if a.len() == 0 {
        0
    } else {
        1
    };
    let lb: usize = if b.len() == 0 {
        0
    } else {
        1
    };
    if a.len() - la != b.len() - lb {
        proof {
            assert(row_shape_of(a@).len() != row_shape_of(b@).len());
        }
        return false;
    }
    let mut i: usize = 0;
    while i < a.len() - la
        invariant
            a@.len() - la == b@.len() - lb,
            la == (if a@.len() == 0 { 0usize } else { 1usize }),
            lb == (if b@.len() == 0 { 0usize } else { 1usize }),
            i <= a@.len() - la,
            forall|k: int| 0 <= k < i ==> row_shape_of(a@)[k] == row_shape_of(b@)[k],
        decreases a@.len() - la - i,
    {
        if a[i + la] != b[i + lb] {
            proof {
                assert(row_shape_of(a@)[i as int] != row_shape_of(b@)[i as int]);
            }
            return false;
        }
        i = i + 1;
    }
    assert(row_shape_of(a@) =~= row_shape_of(b@));
    true
}

pub proof fn lemma_const_sum(c: usize, n: nat)
    ensures
        count_sum(const_counts(c, n), n) == c * n,
{
    lemma_uniform_sum(const_counts(c, n), c, n);
}

proof fn lemma_uniform_sum(counts: Seq<usize>, c: usize, k: nat)
    requires
        k <= counts.len(),
        forall|i: int| 0 <= i < k ==> counts[i] == c,
    ensures
        count_sum(counts, k) == c * k,
    decreases k,
{
    if k > 0 {
        let m = (k - 1) as nat;
        lemma_uniform_sum(counts, c, m);
        assert(c * m + c == c * k) by (nonlinear_arith)
            requires
                m + 1 == k,
        ;
    } else {
        assert(c * 0 == 0);
    }
}


pub proof fn lemma_ones_mono(counts: Seq<usize>, i: nat, n: nat)
    requires
        i <= n <= counts.len(),
    ensures
        ones(counts, i) <= ones(counts, n),
    decreases n,
{
    if i < n {
        lemma_ones_mono(counts, i, (n - 1) as nat);
    }
}

proof fn lemma_unkept_len<T>(counts: Seq<usize>, into: Seq<T>, trans: Seq<T>, rl: nat, m: nat, n: nat)
    requires
        m <= n,
        m <= counts.len(),
        into.len() == n * rl,
        ones(counts, m) * rl <= trans.len(),
        all_boolean(counts),
    ensures
        unkept(counts, into, trans, rl, m).len() == m * rl,
    decreases m,
{
    if m > 0 {
        let k = (m - 1) as nat;
        lemma_ones_mono(counts, k, m);
        assert(ones(counts, k) * rl <= ones(counts, m) * rl) by (nonlinear_arith)
            requires
                ones(counts, k) <= ones(counts, m),
        ;
        lemma_unkept_len(counts, into, trans, rl, k, n);
        crate::array::lemma_row_bounds(n, rl, k as int);
        if counts[k as int] != 0 {
            assert(ones(counts, m) == ones(counts, k) + 1);
            assert((ones(counts, k) + 1) * rl == ones(counts, k) * rl + rl) by (nonlinear_arith);
        }
        assert(k * rl + rl == m * rl) by (nonlinear_arith)
            requires
                k + 1 == m,
        ;
    } else {
        assert(0 * rl == 0);
    }
}

/// For boolean counts, one per row, undoing a keep with the kept-from array
/// as the source of the dropped rows succeeds and gives back its elements:
/// `undo_keep(keep(counts, a), counts, a) == a`.
pub proof fn lemma_keep_unkeep<T>(shape: Seq<usize>, data: Seq<T>, counts: Seq<usize>)
    requires
        shape.len() > 0,
        product(shape) == data.len(),
        counts.len() == shape[0],
        all_boolean(counts),
    ensures
        ({
            let n = shape[0] as nat;
            let rl = row_len_of(shape);
            let kept_shape = shape.update(0, count_sum(counts, n) as usize);
            &&& count_sum(counts, n) <= shape[0]
            &&& unkeep_ok(counts, kept_shape, shape)
            &&& unkept(counts, data, kept(data, rl, counts, n), rl, n) == data
            &&& shape.update(0, n as usize) == shape
        }),
{
    let n = shape[0] as nat;
    let rl = row_len_of(shape);
    lemma_rows(shape);
    lemma_ones_is_sum(counts, n);
    lemma_ones_le(counts, n);
    let kept_shape = shape.update(0, count_sum(counts, n) as usize);
    assert(row_shape_of(kept_shape) =~= row_shape_of(shape));
    lemma_unkept_is_data(shape, data, counts, n);
    assert(data.subrange(0, (n * rl) as int) =~= data);
    assert(shape.update(0, n as usize) =~= shape);
}

proof fn lemma_ones_is_sum(counts: Seq<usize>, m: nat)
    requires
        m <= counts.len(),
        all_boolean(counts),
    ensures
        ones(counts, m) == count_sum(counts, m),
    decreases m,
{
    if m > 0 {
        lemma_ones_is_sum(counts, (m - 1) as nat);
        assert(counts[m - 1] <= 1);
    }
}

proof fn lemma_ones_le(counts: Seq<usize>, m: nat)
    requires
        m <= counts.len(),
    ensures
        ones(counts, m) <= m,
    decreases m,
{
    if m > 0 {
        lemma_ones_le(counts, (m - 1) as nat);
    }
}

/// An earlier keep is a prefix of a later one.
proof fn lemma_kept_prefix<T>(data: Seq<T>, rl: nat, counts: Seq<usize>, j: nat, n: nat)
    requires
        j <= n <= counts.len(),
        n * rl <= data.len(),
    ensures
        kept(data, rl, counts, j).len() <= kept(data, rl, counts, n).len(),
        kept(data, rl, counts, n).subrange(0, kept(data, rl, counts, j).len() as int) == kept(
            data,
            rl,
            counts,
            j,
        ),
    decreases n,
{
    if j < n {
        let m = (n - 1) as nat;
        assert(m * rl <= n * rl) by (nonlinear_arith)
            requires
                m < n,
        ;
        lemma_kept_prefix(data, rl, counts, j, m);
        let a = kept(data, rl, counts, m);
        let b = kept(data, rl, counts, j);
        assert(kept(data, rl, counts, n).subrange(0, a.len() as int) =~= a);
        assert(kept(data, rl, counts, n).subrange(0, b.len() as int) =~= a.subrange(
            0,
            b.len() as int,
        ));
    } else {
        assert(kept(data, rl, counts, n).subrange(0, kept(data, rl, counts, n).len() as int)
            =~= kept(data, rl, counts, n));
    }
}

proof fn lemma_unkept_is_data<T>(shape: Seq<usize>, data: Seq<T>, counts: Seq<usize>, m: nat)
    requires
        shape.len() > 0,
        product(shape) == data.len(),
        counts.len() == shape[0],
        all_boolean(counts),
        m <= counts.len(),
        product(shape) == (shape[0] as nat) * row_len_of(shape),
    ensures
        m * row_len_of(shape) <= data.len(),
        unkept(
            counts,
            data,
            kept(data, row_len_of(shape), counts, shape[0] as nat),
            row_len_of(shape),
            m,
        ) == data.subrange(0, (m * row_len_of(shape)) as int),
    decreases m,
{
    let n = shape[0] as nat;
    let rl = row_len_of(shape);
    assert(m * rl <= n * rl) by (nonlinear_arith)
        requires
            m <= n,
    ;
    if m > 0 {
        let i = (m - 1) as nat;
        lemma_unkept_is_data(shape, data, counts, i);
        crate::array::lemma_row_bounds(n, rl, i as int);
        if counts[i as int] == 1 {
            let k = kept(data, rl, counts, n);
            lemma_kept_prefix(data, rl, counts, m, n);
            lemma_kept_len(data, rl, counts, i);
            lemma_kept_len(data, rl, counts, m);
            lemma_ones_is_sum(counts, i);
            let pre = kept(data, rl, counts, i);
            let row = row_of(data, rl, i as int);
            assert(repeat_seq(row, 0) =~= Seq::<T>::empty());
            assert(repeat_seq(row, 1) =~= row);
            assert(kept(data, rl, counts, m) == pre + row);
            let o = ones(counts, i);
            assert(pre.len() == o * rl);
            assert(o * rl + rl == (o + 1) * rl) by (nonlinear_arith);
            assert(count_sum(counts, m) == o + 1);
            assert(row.len() == rl);
            let km = kept(data, rl, counts, m);
            assert(km.len() == (o + 1) * rl);
            assert(k.subrange(0, km.len() as int) == km);
            assert forall|j: int| 0 <= j < rl implies row_of(k, rl, o as int)[j] == row[j] by {
                assert(k.subrange(0, km.len() as int)[o * rl + j] == km[o * rl + j]);
                assert(km[o * rl + j] == row[j]);
            }
            assert(row_of(k, rl, o as int) =~= row);
        }
        assert(data.subrange(0, (m * rl) as int) =~= data.subrange(0, (i * rl) as int)
            + row_of(data, rl, i as int));
    } else {
        assert(data.subrange(0, 0) =~= Seq::<T>::empty());
        assert(0 * rl == 0);
    }
}

/// A new leading dimension whose count fits keeps the shape fitting.
proof fn lemma_fit_first(shape: Seq<usize>, total: nat)
    requires
        shape.len() > 0,
        nz_nat(total) * nz_product(shape.drop_first()) <= usize::MAX,
    ensures
        total <= usize::MAX,
        shape_fits(shape.update(0, total as usize)),
{
    crate::shape::lemma_nz_positive(shape.drop_first());
    let q = nz_product(shape.drop_first());
    assert(nz_nat(total) <= nz_nat(total) * q) by (nonlinear_arith)
        requires
            q >= 1,
    ;
    assert(shape.update(0, total as usize).drop_first() =~= shape.drop_first());
}

/// A leading dimension no greater than before keeps the shape fitting.
proof fn lemma_fit_first_le(shape: Seq<usize>, m: usize)
    requires
        shape.len() > 0,
        shape_fits(shape),
        m <= shape[0],
    ensures
        shape_fits(shape.update(0, m)),
{
    assert(shape.update(0, m).drop_first() =~= shape.drop_first());
    crate::shape::lemma_fits_lower_first(shape, shape.update(0, m));
}

/// The element count of a shape is its leading dimension times its row length.
proof fn lemma_shape_first(shape: Seq<usize>, rl: nat)
    requires
        shape.len() > 0,
        rl == product(shape.drop_first()),
    ensures
        product(shape) == shape[0] * rl,
{
}

} // verus!
