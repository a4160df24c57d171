//! Shapes: sequences of dimension sizes, their element counts and row-major
//! index arithmetic.
use vstd::prelude::*;

verus! {

/// Number of elements of an array of the given shape.
pub open spec fn product(s: Seq<usize>) -> nat
    decreases s.len(),
{
    if s.len() == 0 {
        1
    } else {
        (s[0] as nat) * product(s.drop_first())
    }
}

/// A dimension with zero counted as one.
pub open spec fn nz(d: usize) -> nat {
    if d == 0 {
        1
    } else {
        d as nat
    }
}

/// Product of the dimensions of a shape, zeros counted as ones: every product
/// of a contiguous part of the shape is at most this.
pub open spec fn nz_product(s: Seq<usize>) -> nat
    decreases s.len(),
{
    if s.len() == 0 {
        1
    } else {
        nz(s[0]) * nz_product(s.drop_first())
    }
}

/// All products of parts of the shape fit in a `usize`.
pub open spec fn shape_fits(s: Seq<usize>) -> bool {
    nz_product(s) <= usize::MAX
}

pub proof fn lemma_product_concat(a: Seq<usize>, b: Seq<usize>)
    ensures
        product(a + b) == product(a) * product(b),
        nz_product(a + b) == nz_product(a) * nz_product(b),
    decreases a.len(),
{
    if a.len() == 0 {
        assert(a + b =~= b);
        assert(product(a) == 1 && nz_product(a) == 1);
        assert(product(a + b) == product(b));
        assert(nz_product(a + b) == nz_product(b));
    } else {
        assert((a + b).drop_first() =~= a.drop_first() + b);
        assert((a + b)[0] == a[0]);
        lemma_product_concat(a.drop_first(), b);
        assert(product(a + b) == (a[0] as nat) * (product(a.drop_first()) * product(b)));
        assert(nz_product(a + b) == nz(a[0]) * (nz_product(a.drop_first()) * nz_product(b)));
        assert((a[0] as nat) * (product(a.drop_first()) * product(b)) == ((a[0] as nat)
            * product(a.drop_first())) * product(b)) by (nonlinear_arith);
        assert(nz(a[0]) * (nz_product(a.drop_first()) * nz_product(b)) == (nz(a[0])
            * nz_product(a.drop_first())) * nz_product(b)) by (nonlinear_arith);
        assert(product(a) == (a[0] as nat) * product(a.drop_first()));
        assert(nz_product(a) == nz(a[0]) * nz_product(a.drop_first()));
    }
}

pub proof fn lemma_nz_positive(s: Seq<usize>)
    ensures
        nz_product(s) >= 1,
        product(s) <= nz_product(s),
    decreases s.len(),
{
    if s.len() > 0 {
        lemma_nz_positive(s.drop_first());
        let a = s[0] as nat;
        let b = nz(s[0]);
        let p = product(s.drop_first());
        let q = nz_product(s.drop_first());
        assert(a <= b && b >= 1);
        assert(b * q >= 1) by (nonlinear_arith)
            requires
                b >= 1,
                q >= 1,
        ;
        assert(a * p <= b * q) by (nonlinear_arith)
            requires
                a <= b,
                p <= q,
        ;
    }
}

/// Splitting a shape at `i`: the products multiply.
pub proof fn lemma_product_split(s: Seq<usize>, i: int)
    requires
        0 <= i <= s.len(),
    ensures
        product(s) == product(s.take(i)) * product(s.skip(i)),
        nz_product(s) == nz_product(s.take(i)) * nz_product(s.skip(i)),
{
    assert(s =~= s.take(i) + s.skip(i));
    lemma_product_concat(s.take(i), s.skip(i));
}

/// Every contiguous part of a shape that fits also fits.
pub proof fn lemma_sub_fits(s: Seq<usize>, i: int, j: int)
    requires
        0 <= i <= j <= s.len(),
        shape_fits(s),
    ensures
        shape_fits(s.subrange(i, j)),
        product(s.subrange(i, j)) <= usize::MAX,
{
    let a = s.take(i);
    let m = s.subrange(i, j);
    let b = s.skip(j);
    assert(s =~= a + m + b);
    lemma_product_concat(a + m, b);
    lemma_product_concat(a, m);
    lemma_nz_positive(a);
    lemma_nz_positive(m);
    lemma_nz_positive(b);
    let x = nz_product(a);
    let y = nz_product(m);
    let z = nz_product(b);
    assert(y <= x * y * z) by (nonlinear_arith)
        requires
            x >= 1,
            z >= 1,
            y >= 1,
    ;
}

/// A shape that holds a zero has no elements.
pub proof fn lemma_zero_dim(s: Seq<usize>, k: int)
    requires
        0 <= k < s.len(),
        s[k] == 0,
    ensures
        product(s) == 0,
    decreases s.len(),
{
    if k > 0 {
        assert(s.drop_first()[k - 1] == s[k]);
        lemma_zero_dim(s.drop_first(), k - 1);
        assert((s[0] as nat) * 0 == 0);
    } else {
        assert(0 * product(s.drop_first()) == 0);
    }
}


/// A shape of one axis has that axis's length as its element count.
pub proof fn lemma_product_single(x: usize)
    ensures
        product(seq![x]) == x,
        nz_product(seq![x]) == nz(x),
{
    assert(seq![x].drop_first() =~= Seq::<usize>::empty());
    let s = seq![x];
    assert(s[0] == x);
    assert(product(s.drop_first()) == 1);
    assert(nz_product(s.drop_first()) == 1);
    assert(product(s) == (s[0] as nat) * product(s.drop_first()));
    assert(nz_product(s) == nz(s[0]) * nz_product(s.drop_first()));
}

/// Lowering the leading dimension of a shape that fits keeps it fitting.
pub proof fn lemma_fits_lower_first(a: Seq<usize>, b: Seq<usize>)
    requires
        a.len() == b.len() > 0,
        a.drop_first() == b.drop_first(),
        nz(b[0]) <= nz(a[0]),
        shape_fits(a),
    ensures
        shape_fits(b),
{
    lemma_nz_positive(a.drop_first());
    let q = nz_product(a.drop_first());
    assert(nz(b[0]) * q <= nz(a[0]) * q) by (nonlinear_arith)
        requires
            nz(b[0]) <= nz(a[0]),
            q >= 1,
    ;
}

/// Product of `s[lo..hi]`.
pub fn product_range(s: &[usize], lo: usize, hi: usize) -> (r: usize)
    requires
        lo <= hi <= s@.len(),
        shape_fits(s@),
    ensures
        r == product(s@.subrange(lo as int, hi as int)),
{
    let mut acc: usize = 1;
    let mut i: usize = hi;
    while i > lo
        invariant
            lo <= i <= hi <= s@.len(),
            shape_fits(s@),
            acc == product(s@.subrange(i as int, hi as int)),
        decreases i,
    {
        i = i - 1;
        proof {
            let sub = s@.subrange(i as int, hi as int);
            assert(sub.drop_first() =~= s@.subrange(i + 1, hi as int));
            lemma_sub_fits(s@, i as int, hi as int);
        }
        acc = s[i] * acc;
    }
    acc
}

/// Number of elements of a shape.
pub fn shape_product(s: &[usize]) -> (r: usize)
    requires
        shape_fits(s@),
    ensures
        r == product(s@),
{
    assert(s@.subrange(0, s@.len() as int) =~= s@);
    product_range(s, 0, s.len())
}

/// Checks whether all parts of a shape fit, without overflowing.
pub fn check_shape_fits(s: &[usize]) -> (r: bool)
    ensures
        r == shape_fits(s@),
{
    let mut acc: usize = 1;
    let mut i: usize = s.len();
    while i > 0
        invariant
            i <= s@.len(),
            acc == nz_product(s@.skip(i as int)),
            acc <= usize::MAX,
        decreases i,
    {
        i = i - 1;
        assert(s@.skip(i as int).drop_first() =~= s@.skip(i + 1));
        let d: usize = if s[i] == 0 {
            1
        } else {
            s[i]
        };
        match d.checked_mul(acc) {
            Some(v) => {
                acc = v;
            },
            None => {
                proof {
                    lemma_product_split(s@, i as int);
                    lemma_nz_positive(s@.take(i as int));
                    let x = nz_product(s@.take(i as int));
                    let y = nz_product(s@.skip(i as int));
                    assert(x * y >= y) by (nonlinear_arith)
                        requires
                            x >= 1,
                            y >= 0,
                    ;
                }
                return false;
            },
        }
    }
    assert(s@.skip(0) =~= s@);
    true
}

} // verus!
