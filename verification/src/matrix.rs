//! Dense fixed-point matrices.
//!
//! A `Matrix` owns a `rows x cols` grid of fixed-point scalars.  Column
//! vectors are matrices with one column.  Every operation carries an exact
//! elementwise contract over the mathematical view `Seq<Seq<int>>`.
use vstd::prelude::*;

use crate::fixed::{add_fx, fx_add, fx_in_range, fx_mul, fx_sub, mul_fx, sig, sig_fx, sub_fx, FX_ONE};

verus! {

/// A row of the mathematical view: correct width, every entry in range.
pub open spec fn row_ok(s: Seq<int>, c: int) -> bool {
    s.len() == c && forall|j: int| 0 <= j < s.len() ==> fx_in_range(#[trigger] s[j])
}

/// A well-shaped mathematical matrix: `r` rows of width `c`, all in range.
pub open spec fn mat_ok(m: Seq<Seq<int>>, r: int, c: int) -> bool {
    m.len() == r && forall|i: int| 0 <= i < m.len() ==> row_ok(#[trigger] m[i], c)
}

/// The column count of a view (0 for an empty matrix).
pub open spec fn cols_of(m: Seq<Seq<int>>) -> int {
    if m.len() == 0 {
        0
    } else {
        m[0].len() as int
    }
}

/// Fixed-point dot product, accumulated left to right with clipping.
pub open spec fn sdot(x: Seq<int>, y: Seq<int>) -> int
    decreases x.len(),
{
    if x.len() == 0 || y.len() == 0 {
        0
    } else {
        fx_add(sdot(x.drop_last(), y.drop_last()), fx_mul(x.last(), y.last()))
    }
}

/// Column `j` of a view, as a sequence.
pub open spec fn colseq(m: Seq<Seq<int>>, j: int) -> Seq<int> {
    Seq::new(m.len(), |k: int| m[k][j])
}

/// Matrix product in fixed point.
pub open spec fn mm_s(a: Seq<Seq<int>>, b: Seq<Seq<int>>) -> Seq<Seq<int>> {
    Seq::new(a.len(), |i: int| Seq::new(cols_of(b) as nat, |j: int| sdot(a[i], colseq(b, j))))
}

/// Transpose of a view.
pub open spec fn tr_s(m: Seq<Seq<int>>) -> Seq<Seq<int>> {
    Seq::new(cols_of(m) as nat, |i: int| Seq::new(m.len(), |j: int| m[j][i]))
}

/// Elementwise sum.
pub open spec fn madd_s(a: Seq<Seq<int>>, b: Seq<Seq<int>>) -> Seq<Seq<int>> {
    Seq::new(a.len(), |i: int| Seq::new(a[i].len(), |j: int| fx_add(a[i][j], b[i][j])))
}

/// Elementwise difference.
pub open spec fn msub_s(a: Seq<Seq<int>>, b: Seq<Seq<int>>) -> Seq<Seq<int>> {
    Seq::new(a.len(), |i: int| Seq::new(a[i].len(), |j: int| fx_sub(a[i][j], b[i][j])))
}

/// Elementwise (Hadamard) product.
pub open spec fn had_s(a: Seq<Seq<int>>, b: Seq<Seq<int>>) -> Seq<Seq<int>> {
    Seq::new(a.len(), |i: int| Seq::new(a[i].len(), |j: int| fx_mul(a[i][j], b[i][j])))
}

/// Every entry scaled by `c`.
pub open spec fn mscale_s(c: int, a: Seq<Seq<int>>) -> Seq<Seq<int>> {
    Seq::new(a.len(), |i: int| Seq::new(a[i].len(), |j: int| fx_mul(c, a[i][j])))
}

/// The logistic function applied to every entry.
pub open spec fn msig_s(a: Seq<Seq<int>>) -> Seq<Seq<int>> {
    Seq::new(a.len(), |i: int| Seq::new(a[i].len(), |j: int| sig(a[i][j])))
}

/// The all-zero view of the given shape.
pub open spec fn zmat(r: nat, c: nat) -> Seq<Seq<int>> {
    Seq::new(r, |i: int| Seq::new(c, |j: int| 0int))
}

/// A sequence of `i64` values read as mathematical integers.
pub open spec fn vseq(v: Seq<i64>) -> Seq<int> {
    Seq::new(v.len(), |i: int| v[i] as int)
}

/// A sequence embedded as a one-column view.
pub open spec fn colm_s(s: Seq<int>) -> Seq<Seq<int>> {
    Seq::new(s.len(), |i: int| seq![s[i]])
}

#[derive(Debug)]
pub struct Matrix {
    pub rows: usize,
    pub cols: usize,
    pub data: Vec<Vec<i64>>,
}

impl View for Matrix {
    type V = Seq<Seq<int>>;

    open spec fn view(&self) -> Seq<Seq<int>> {
        Seq::new(
            self.data@.len(),
            |i: int| Seq::new(self.data@[i]@.len(), |j: int| self.data@[i]@[j] as int),
        )
    }
}

impl Matrix {
    /// Shape agreement between the grid, the stated dimensions and the view.
    pub open spec fn wf(&self) -> bool {
        &&& self.data@.len() == self.rows
        &&& forall|i: int|
            0 <= i < self.data@.len() ==> (#[trigger] self.data@[i])@.len() == self.cols
        &&& mat_ok(self@, self.rows as int, self.cols as int)
    }

    pub fn shape(&self) -> (r: (usize, usize))
        ensures
            r.0 == self.rows,
            r.1 == self.cols,
    {
        (self.rows, self.cols)
    }

    pub fn get(&self, i: usize, j: usize) -> (r: i64)
        requires
            self.wf(),
            i < self.rows,
            j < self.cols,
        ensures
            r as int == self@[i as int][j as int],
            fx_in_range(r as int),
    {
        self.data[i][j]
    }

    pub fn set(&mut self, i: usize, j: usize, v: i64)
        requires
            old(self).wf(),
            i < old(self).rows,
            j < old(self).cols,
            fx_in_range(v as int),
        ensures
            final(self).wf(),
            final(self).rows == old(self).rows,
            final(self).cols == old(self).cols,
            final(self)@[i as int][j as int] == v as int,
            forall|p: int, q: int|
                0 <= p < old(self).rows && 0 <= q < old(self).cols && !(p == i && q == j)
                    ==> final(self)@[p][q] == old(self)@[p][q],
    {
        self.data[i][j] = v;
        proof {
            assert forall|p: int|
                0 <= p < final(self).data@.len() implies (#[trigger] final(self).data@[p])@.len()
                == final(self).cols by {
                assert(final(self).data@[p] == if p == i as int {
                    final(self).data@[i as int]
                } else {
                    old(self).data@[p]
                });
            }
            assert forall|p: int| 0 <= p < final(self)@.len() implies row_ok(
                #[trigger] final(self)@[p],
                final(self).cols as int,
            ) by {
                assert(row_ok(old(self)@[p], old(self).cols as int));
                assert forall|q: int| 0 <= q < final(self)@[p].len() implies fx_in_range(
                    #[trigger] final(self)@[p][q],
                ) by {
                    if !(p == i as int && q == j as int) {
                        assert(final(self)@[p][q] == old(self)@[p][q]);
                    }
                }
            }
        }
    }

    pub fn zeros(r: usize, c: usize) -> (m: Matrix)
        ensures
            m.wf(),
            m.rows == r,
            m.cols == c,
            m@ == zmat(r as nat, c as nat),
    {
        let mut data: Vec<Vec<i64>> = Vec::new();
        let mut i: usize = 0;
        while i < r
            invariant
                0 <= i <= r,
                data@.len() == i,
                forall|p: int| 0 <= p < i as int ==> (#[trigger] data@[p])@.len() == c,
                forall|p: int, q: int|
                    0 <= p < i as int && 0 <= q < c as int ==> data@[p]@[q] == 0,
            decreases r - i,
        {
            let mut row: Vec<i64> = Vec::new();
            let mut j: usize = 0;
            while j < c
                invariant
                    0 <= j <= c,
                    row@.len() == j,
                    forall|q: int| 0 <= q < j as int ==> row@[q] == 0,
                decreases c - j,
            {
                row.push(0);
                j += 1;
            }
            data.push(row);
            i += 1;
        }
        let m = Matrix { rows: r, cols: c, data };
        proof {
            assert(m@ =~~= zmat(r as nat, c as nat));
        }
        m
    }
}

proof fn lemma_sdot_step(x: Seq<int>, y: Seq<int>, k: int)
    requires
        0 <= k < x.len(),
        k < y.len(),
    ensures
        sdot(x.take(k + 1), y.take(k + 1)) == fx_add(
            sdot(x.take(k), y.take(k)),
            fx_mul(x[k], y[k]),
        ),
{
    let xk = x.take(k + 1);
    let yk = y.take(k + 1);
    assert(xk.drop_last() =~= x.take(k));
    assert(yk.drop_last() =~= y.take(k));
    assert(xk.last() == x[k]);
    assert(yk.last() == y[k]);
}

pub fn matmul(a: &Matrix, b: &Matrix) -> (r: Matrix)
    requires
        a.wf(),
        b.wf(),
        a.cols == b.rows,
        b.rows >= 1,
    ensures
        r.wf(),
        r.rows == a.rows,
        r.cols == b.cols,
        r@ == mm_s(a@, b@),
{
    let mut data: Vec<Vec<i64>> = Vec::new();
    let mut i: usize = 0;
    while i < a.rows
        invariant
            a.wf(),
            b.wf(),
            a.cols == b.rows,
            b.rows >= 1,
            0 <= i <= a.rows,
            data@.len() == i,
            forall|p: int| 0 <= p < i as int ==> (#[trigger] data@[p])@.len() == b.cols,
            forall|p: int, q: int|
                0 <= p < i as int && 0 <= q < b.cols as int ==> data@[p]@[q] as int == sdot(
                    a@[p],
                    colseq(b@, q),
                ),
        decreases a.rows - i,
    {
        let mut row: Vec<i64> = Vec::new();
        let mut j: usize = 0;
        while j < b.cols
            invariant
                a.wf(),
                b.wf(),
                a.cols == b.rows,
                b.rows >= 1,
                i < a.rows,
                0 <= j <= b.cols,
                row@.len() == j,
                forall|q: int|
                    0 <= q < j as int ==> row@[q] as int == sdot(a@[i as int], colseq(b@, q)),
            decreases b.cols - j,
        {
            let mut acc: i64 = 0;
            let mut k: usize = 0;
            proof {
                assert(a@[i as int].take(0) =~= Seq::<int>::empty());
                assert(colseq(b@, j as int).take(0) =~= Seq::<int>::empty());
            }
            while k < b.rows
                invariant
                    a.wf(),
                    b.wf(),
                    a.cols == b.rows,
                    b.rows >= 1,
                    i < a.rows,
                    j < b.cols,
                    0 <= k <= b.rows,
                    fx_in_range(acc as int),
                    acc as int == sdot(
                        a@[i as int].take(k as int),
                        colseq(b@, j as int).take(k as int),
                    ),
                decreases b.rows - k,
            {
                proof {
                    lemma_sdot_step(a@[i as int], colseq(b@, j as int), k as int);
                    assert(colseq(b@, j as int)[k as int] == b@[k as int][j as int]);
                }
                let prod = mul_fx(a.get(i, k), b.get(k, j));
                acc = add_fx(acc, prod);
                k += 1;
            }
            proof {
                assert(a@[i as int].take(b.rows as int) =~= a@[i as int]);
                assert(colseq(b@, j as int).take(b.rows as int) =~= colseq(b@, j as int));
            }
            row.push(acc);
            j += 1;
        }
        data.push(row);
        i += 1;
    }
    let r = Matrix { rows: a.rows, cols: b.cols, data };
    proof {
        assert(r@ =~~= mm_s(a@, b@));
    }
    r
}

pub fn transpose(a: &Matrix) -> (r: Matrix)
    requires
        a.wf(),
        a.rows >= 1,
    ensures
        r.wf(),
        r.rows == a.cols,
        r.cols == a.rows,
        r@ == tr_s(a@),
{
    let mut data: Vec<Vec<i64>> = Vec::new();
    let mut i: usize = 0;
    while i < a.cols
        invariant
            a.wf(),
            a.rows >= 1,
            0 <= i <= a.cols,
            data@.len() == i,
            forall|p: int| 0 <= p < i as int ==> (#[trigger] data@[p])@.len() == a.rows,
            forall|p: int, q: int|
                0 <= p < i as int && 0 <= q < a.rows as int ==> data@[p]@[q] as int == a@[q][p],
        decreases a.cols - i,
    {
        let mut row: Vec<i64> = Vec::new();
        let mut j: usize = 0;
        while j < a.rows
            invariant
                a.wf(),
                a.rows >= 1,
                i < a.cols,
                0 <= j <= a.rows,
                row@.len() == j,
                forall|q: int| 0 <= q < j as int ==> row@[q] as int == a@[q][i as int],
            decreases a.rows - j,
        {
            row.push(a.get(j, i));
            j += 1;
        }
        data.push(row);
        i += 1;
    }
    let r = Matrix { rows: a.cols, cols: a.rows, data };
    proof {
        assert(r@ =~~= tr_s(a@));
    }
    r
}

pub fn madd(a: &Matrix, b: &Matrix) -> (r: Matrix)
    requires
        a.wf(),
        b.wf(),
        a.rows == b.rows,
        a.cols == b.cols,
    ensures
        r.wf(),
        r.rows == a.rows,
        r.cols == a.cols,
        r@ == madd_s(a@, b@),
{
    let mut data: Vec<Vec<i64>> = Vec::new();
    let mut i: usize = 0;
    while i < a.rows
        invariant
            a.wf(),
            b.wf(),
            a.rows == b.rows,
            a.cols == b.cols,
            0 <= i <= a.rows,
            data@.len() == i,
            forall|p: int| 0 <= p < i as int ==> (#[trigger] data@[p])@.len() == a.cols,
            forall|p: int, q: int|
                0 <= p < i as int && 0 <= q < a.cols as int ==> data@[p]@[q] as int == fx_add(
                    a@[p][q],
                    b@[p][q],
                ),
        decreases a.rows - i,
    {
        let mut row: Vec<i64> = Vec::new();
        let mut j: usize = 0;
        while j < a.cols
            invariant
                a.wf(),
                b.wf(),
                a.rows == b.rows,
                a.cols == b.cols,
                i < a.rows,
                0 <= j <= a.cols,
                row@.len() == j,
                forall|q: int|
                    0 <= q < j as int ==> row@[q] as int == fx_add(a@[i as int][q], b@[i as int][q]),
            decreases a.cols - j,
        {
            row.push(add_fx(a.get(i, j), b.get(i, j)));
            j += 1;
        }
        data.push(row);
        i += 1;
    }
    let r = Matrix { rows: a.rows, cols: a.cols, data };
    proof {
        assert(r@ =~~= madd_s(a@, b@));
    }
    r
}

pub fn msub(a: &Matrix, b: &Matrix) -> (r: Matrix)
    requires
        a.wf(),
        b.wf(),
        a.rows == b.rows,
        a.cols == b.cols,
    ensures
        r.wf(),
        r.rows == a.rows,
        r.cols == a.cols,
        r@ == msub_s(a@, b@),
{
    let mut data: Vec<Vec<i64>> = Vec::new();
    let mut i: usize = 0;
    while i < a.rows
        invariant
            a.wf(),
            b.wf(),
            a.rows == b.rows,
            a.cols == b.cols,
            0 <= i <= a.rows,
            data@.len() == i,
            forall|p: int| 0 <= p < i as int ==> (#[trigger] data@[p])@.len() == a.cols,
            forall|p: int, q: int|
                0 <= p < i as int && 0 <= q < a.cols as int ==> data@[p]@[q] as int == fx_sub(
                    a@[p][q],
                    b@[p][q],
                ),
        decreases a.rows - i,
    {
        let mut row: Vec<i64> = Vec::new();
        let mut j: usize = 0;
        while j < a.cols
            invariant
                a.wf(),
                b.wf(),
                a.rows == b.rows,
                a.cols == b.cols,
                i < a.rows,
                0 <= j <= a.cols,
                row@.len() == j,
                forall|q: int|
                    0 <= q < j as int ==> row@[q] as int == fx_sub(a@[i as int][q], b@[i as int][q]),
            decreases a.cols - j,
        {
            row.push(sub_fx(a.get(i, j), b.get(i, j)));
            j += 1;
        }
        data.push(row);
        i += 1;
    }
    let r = Matrix { rows: a.rows, cols: a.cols, data };
    proof {
        assert(r@ =~~= msub_s(a@, b@));
    }
    r
}

pub fn hadamard(a: &Matrix, b: &Matrix) -> (r: Matrix)
    requires
        a.wf(),
        b.wf(),
        a.rows == b.rows,
        a.cols == b.cols,
    ensures
        r.wf(),
        r.rows == a.rows,
        r.cols == a.cols,
        r@ == had_s(a@, b@),
{
    let mut data: Vec<Vec<i64>> = Vec::new();
    let mut i: usize = 0;
    while i < a.rows
        invariant
            a.wf(),
            b.wf(),
            a.rows == b.rows,
            a.cols == b.cols,
            0 <= i <= a.rows,
            data@.len() == i,
            forall|p: int| 0 <= p < i as int ==> (#[trigger] data@[p])@.len() == a.cols,
            forall|p: int, q: int|
                0 <= p < i as int && 0 <= q < a.cols as int ==> data@[p]@[q] as int == fx_mul(
                    a@[p][q],
                    b@[p][q],
                ),
        decreases a.rows - i,
    {
        let mut row: Vec<i64> = Vec::new();
        let mut j: usize = 0;
        while j < a.cols
            invariant
                a.wf(),
                b.wf(),
                a.rows == b.rows,
                a.cols == b.cols,
                i < a.rows,
                0 <= j <= a.cols,
                row@.len() == j,
                forall|q: int|
                    0 <= q < j as int ==> row@[q] as int == fx_mul(a@[i as int][q], b@[i as int][q]),
            decreases a.cols - j,
        {
            row.push(mul_fx(a.get(i, j), b.get(i, j)));
            j += 1;
        }
        data.push(row);
        i += 1;
    }
    let r = Matrix { rows: a.rows, cols: a.cols, data };
    proof {
        assert(r@ =~~= had_s(a@, b@));
    }
    r
}

pub fn mscale(c: i64, a: &Matrix) -> (r: Matrix)
    requires
        a.wf(),
        fx_in_range(c as int),
    ensures
        r.wf(),
        r.rows == a.rows,
        r.cols == a.cols,
        r@ == mscale_s(c as int, a@),
{
    let mut data: Vec<Vec<i64>> = Vec::new();
    let mut i: usize = 0;
    while i < a.rows
        invariant
            a.wf(),
            fx_in_range(c as int),
            0 <= i <= a.rows,
            data@.len() == i,
            forall|p: int| 0 <= p < i as int ==> (#[trigger] data@[p])@.len() == a.cols,
            forall|p: int, q: int|
                0 <= p < i as int && 0 <= q < a.cols as int ==> data@[p]@[q] as int == fx_mul(
                    c as int,
                    a@[p][q],
                ),
        decreases a.rows - i,
    {
        let mut row: Vec<i64> = Vec::new();
        let mut j: usize = 0;
        while j < a.cols
            invariant
                a.wf(),
                fx_in_range(c as int),
                i < a.rows,
                0 <= j <= a.cols,
                row@.len() == j,
                forall|q: int|
                    0 <= q < j as int ==> row@[q] as int == fx_mul(c as int, a@[i as int][q]),
            decreases a.cols - j,
        {
            row.push(mul_fx(c, a.get(i, j)));
            j += 1;
        }
        data.push(row);
        i += 1;
    }
    let r = Matrix { rows: a.rows, cols: a.cols, data };
    proof {
        assert(r@ =~~= mscale_s(c as int, a@));
    }
    r
}

pub fn msig(a: &Matrix) -> (r: Matrix)
    requires
        a.wf(),
    ensures
        r.wf(),
        r.rows == a.rows,
        r.cols == a.cols,
        r@ == msig_s(a@),
        forall|p: int, q: int|
            0 <= p < r.rows as int && 0 <= q < r.cols as int ==> 0 < #[trigger] r@[p][q]
                < FX_ONE as int,
{
    let mut data: Vec<Vec<i64>> = Vec::new();
    let mut i: usize = 0;
    while i < a.rows
        invariant
            a.wf(),
            0 <= i <= a.rows,
            data@.len() == i,
            forall|p: int| 0 <= p < i as int ==> (#[trigger] data@[p])@.len() == a.cols,
            forall|p: int, q: int|
                0 <= p < i as int && 0 <= q < a.cols as int ==> (data@[p]@[q] as int == sig(
                    a@[p][q],
                ) && 0 < data@[p]@[q] as int && (data@[p]@[q] as int) < FX_ONE as int),
        decreases a.rows - i,
    {
        let mut row: Vec<i64> = Vec::new();
        let mut j: usize = 0;
        while j < a.cols
            invariant
                a.wf(),
                i < a.rows,
                0 <= j <= a.cols,
                row@.len() == j,
                forall|q: int|
                    0 <= q < j as int ==> (row@[q] as int == sig(a@[i as int][q]) && 0 < row@[q] as int
                        && (row@[q] as int) < FX_ONE as int),
            decreases a.cols - j,
        {
            row.push(sig_fx(a.get(i, j)));
            j += 1;
        }
        data.push(row);
        i += 1;
    }
    let r = Matrix { rows: a.rows, cols: a.cols, data };
    proof {
        assert(r@ =~~= msig_s(a@));
    }
    r
}

/// A vector of scalars embedded as a one-column matrix.
pub fn from_col_vec(v: Vec<i64>) -> (r: Matrix)
    requires
        forall|i: int| 0 <= i < v@.len() ==> fx_in_range(#[trigger] v@[i] as int),
    ensures
        r.wf(),
        r.rows == v@.len(),
        r.cols == 1,
        r@ == colm_s(vseq(v@)),
{
    let n = v.len();
    let mut data: Vec<Vec<i64>> = Vec::new();
    let mut i: usize = 0;
    while i < n
        invariant
            forall|p: int| 0 <= p < v@.len() ==> fx_in_range(#[trigger] v@[p] as int),
            n == v@.len(),
            0 <= i <= n,
            data@.len() == i,
            forall|p: int| 0 <= p < i as int ==> (#[trigger] data@[p])@.len() == 1,
            forall|p: int| 0 <= p < i as int ==> data@[p]@[0] == v@[p],
        decreases n - i,
    {
        let mut row: Vec<i64> = Vec::new();
        row.push(v[i]);
        data.push(row);
        i += 1;
    }
    let r = Matrix { rows: n, cols: 1, data };
    proof {
        assert(r@ =~~= colm_s(vseq(v@)));
    }
    r
}

/// The single column of a one-column matrix, as a vector of scalars.
pub fn col0(m: &Matrix) -> (r: Vec<i64>)
    requires
        m.wf(),
        m.cols == 1,
    ensures
        r@.len() == m.rows,
        forall|i: int| 0 <= i < r@.len() ==> #[trigger] r@[i] as int == m@[i][0],
        forall|i: int| 0 <= i < r@.len() ==> fx_in_range(#[trigger] r@[i] as int),
{
    let mut r: Vec<i64> = Vec::new();
    let mut i: usize = 0;
    while i < m.rows
        invariant
            m.wf(),
            m.cols == 1,
            0 <= i <= m.rows,
            r@.len() == i,
            forall|p: int| 0 <= p < i as int ==> #[trigger] r@[p] as int == m@[p][0],
        decreases m.rows - i,
    {
        r.push(m.get(i, 0));
        i += 1;
    }
    r
}

} // verus!
