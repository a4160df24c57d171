//! The shape rule of matrix multiplication.
use vstd::prelude::*;

use crate::array::{row_count_of, row_shape_of};
use crate::error::ArrayError;

verus! {

/// One shape is a prefix of the other: they agree on their common length.
pub open spec fn prefixes_match(a: Seq<usize>, b: Seq<usize>) -> bool {
    forall|i: int| 0 <= i < a.len() && i < b.len() ==> a[i] == b[i]
}

/// The row shape of the element-wise product of a row of `a` and a row of `b`.
pub open spec fn product_shape(a: Seq<usize>, b: Seq<usize>) -> Seq<usize> {
    if row_shape_of(a).len() >= row_shape_of(b).len() {
        row_shape_of(a)
    } else {
        row_shape_of(b)
    }
}

/// Shape of the product of arrays of shapes `a` and `b`: one row per row of
/// `a`, one column per row of `b`, then the product's row shape without its
/// first axis, which is summed.
pub open spec fn matrix_mul_shape(a: Seq<usize>, b: Seq<usize>) -> Seq<usize> {
    seq![row_count_of(a) as usize, row_count_of(b) as usize] + row_shape_of(product_shape(a, b))
}

/// The result shape of multiplying arrays of shapes `a` and `b`, or an error
/// where neither row shape is a prefix of the other.
pub fn matrix_mul_shape_of(a: &Vec<usize>, b: &Vec<usize>) -> (r: Result<Vec<usize>, ArrayError>)
    ensures
        !prefixes_match(row_shape_of(a@), row_shape_of(b@)) ==> r == Err::<Vec<usize>, ArrayError>(
            ArrayError::ShapeMismatch,
        ),
        prefixes_match(row_shape_of(a@), row_shape_of(b@)) ==> r is Ok && r->Ok_0@
            == matrix_mul_shape(a@, b@),
{
    let ar: usize = if a.len() == 0 {
        0
    } else {
        a.len() - 1
    };
    let br: usize = if b.len() == 0 {
        0
    } else {
        b.len() - 1
    };
    let oa: usize = if a.len() == 0 {
        0
    } else {
        1
    };
    let ob: usize = if b.len() == 0 {
        0
    } else {
        1
    };
    let mut i: usize = 0;
    while i < ar && i < br
        invariant
            ar == row_shape_of(a@).len(),
            br == row_shape_of(b@).len(),
            oa == (if a@.len() == 0 { 0usize } else { 1usize }),
            ob == (if b@.len() == 0 { 0usize } else { 1usize }),
            i <= ar,
            i <= br,
            forall|k: int| 0 <= k < i ==> row_shape_of(a@)[k] == row_shape_of(b@)[k],
        decreases ar - i,
    {
        if a[i + oa] != b[i + ob] {
            proof {
                assert(row_shape_of(a@)[i as int] != row_shape_of(b@)[i as int]);
            }
            return Err(ArrayError::ShapeMismatch);
        }
        i = i + 1;
    }
    let mut out: Vec<usize> = Vec::new();
    out.push(if a.len() == 0 {
        1
    } else {
        a[0]
    });
    out.push(if b.len() == 0 {
        1
    } else {
        b[0]
    });
    let (p, op, pl): (&Vec<usize>, usize, usize) = if ar >= br {
        (a, oa, ar)
    } else {
        (b, ob, br)
    };
    let ghost ps = product_shape(a@, b@);
    let skip: usize = if pl == 0 {
        0
    } else {
        1
    };
    let mut j: usize = op + skip;
    let ghost start = out@;
    while j < p.len()
        invariant
            op + skip <= j <= p@.len(),
            p@.len() == op + pl,
            skip == (if pl == 0 { 0usize } else { 1usize }),
            ps == row_shape_of(p@),
            out@ == start + p@.subrange(op + skip, j as int),
        decreases p@.len() - j,
    {
        out.push(p[j]);
        j = j + 1;
        assert(out@ =~= start + p@.subrange(op + skip, j as int));
    }
    assert(out@ =~= matrix_mul_shape(a@, b@));
    Ok(out)
}

/// Multiplying an `m × k` array by a `k × k` array gives an `m × k` array:
/// a row shape of length one is its own product shape, and the summed axis
/// leaves the two row counts.
pub proof fn lemma_matrix_shape(m: usize, k: usize, n: usize)
    requires
        k == n,
    ensures
        prefixes_match(row_shape_of(seq![m, k]), row_shape_of(seq![k, n])),
        matrix_mul_shape(seq![m, k], seq![k, n]) == seq![m, n],
{
    let a = seq![m, k];
    let b = seq![k, n];
    assert(row_shape_of(a) =~= seq![k]);
    assert(row_shape_of(b) =~= seq![n]);
    assert(row_shape_of(seq![k]) =~= Seq::<usize>::empty());
    assert(matrix_mul_shape(a, b) =~= seq![m, n]);
}

} // verus!
