//! A row-major dense matrix, deliberately minimal.
//!
//! Three shapes flow through the pipeline: features, hidden activations and
//! logits. All that is ever done is to index rows and multiply by a weight block.
use vstd::prelude::*;

use crate::float::F32;

verus! {

#[derive(Debug, PartialEq)]
pub struct Mat {
    rows: usize,
    cols: usize,
    data: Vec<F32>,
}

/// A [`Mat`] by its contents.
#[verifier::ext_equal]
pub struct MatView {
    pub rows: nat,
    pub cols: nat,
    pub data: Seq<F32>,
}

impl View for Mat {
    type V = MatView;

    closed spec fn view(&self) -> MatView {
        MatView { rows: self.rows as nat, cols: self.cols as nat, data: self.data@ }
    }
}

impl MatView {
    /// The data fill the rows.
    pub open spec fn wf(self) -> bool {
        self.data.len() == self.rows * self.cols
    }

    /// One row.
    pub open spec fn row(self, i: int) -> Seq<F32> {
        self.data.subrange(i * self.cols, (i + 1) * self.cols)
    }

    /// Whether there is an element at a row and a column; a column past the row counts on
    /// into later rows.
    pub open spec fn has(self, r: int, c: int) -> bool {
        (0 <= r < self.rows && 0 <= c < self.cols) || (0 <= r && 0 <= c && r * self.cols + c
            < self.data.len())
    }

    /// One element.
    pub open spec fn at(self, r: int, c: int) -> F32 {
        self.data[r * self.cols + c]
    }
}

/// A row within the rows lies within the data.
pub proof fn lemma_row_bounds(rows: nat, cols: nat, i: int)
    requires
        0 <= i < rows,
    ensures
        0 <= i * cols,
        (i + 1) * cols <= rows * cols,
        (i + 1) * cols == i * cols + cols,
{
    assert(0 <= i * cols) by (nonlinear_arith)
        requires
            0 <= i,
            0 <= cols,
    ;
    assert((i + 1) * cols <= rows * cols) by (nonlinear_arith)
        requires
            i + 1 <= rows,
            0 <= cols,
    ;
    assert((i + 1) * cols == i * cols + cols) by (nonlinear_arith);
}

/// Cells row by row.
pub open spec fn flatten<T>(rows: nat, cols: nat, cell: spec_fn(int, int) -> T) -> Seq<T> {
    Seq::new(rows * cols, |i: int| cell(i / cols as int, i % cols as int))
}

/// A cell of a matrix lies within its data.
pub proof fn lemma_cell(rows: nat, cols: nat, t: int, c: int)
    requires
        0 <= t < rows,
        0 <= c < cols,
    ensures
        0 <= t * cols + c < rows * cols,
        (t * cols + c) / cols as int == t,
        (t * cols + c) % cols as int == c,
{
    lemma_row_bounds(rows, cols, t);
    vstd::arithmetic::div_mod::lemma_fundamental_div_mod_converse(t * cols + c, cols as int, t, c);
}

/// An element that is there lies within the data.
pub proof fn lemma_has(m: MatView, r: int, c: int)
    requires
        m.wf(),
        m.has(r, c),
    ensures
        0 <= r * m.cols <= r * m.cols + c < m.data.len(),
{
    assert(0 <= r * m.cols) by (nonlinear_arith)
        requires
            0 <= r,
            0 <= m.cols,
    ;
    if r < m.rows && c < m.cols {
        lemma_cell(m.rows, m.cols, r, c);
    }
}

/// Data that hold each cell at its place are the cells row by row.
pub proof fn lemma_flatten<T>(
    data: Seq<T>,
    rows: nat,
    cols: nat,
    cell: spec_fn(int, int) -> T,
)
    requires
        data.len() == rows * cols,
        forall|t: int, c: int|
            #![trigger data[t * cols + c]]
            0 <= t < rows && 0 <= c < cols ==> data[t * cols + c] == cell(t, c),
    ensures
        data == flatten(rows, cols, cell),
{
    assert forall|i: int| 0 <= i < data.len() implies data[i] == flatten(rows, cols, cell)[i] by {
        if cols == 0 {
            assert(rows * cols == 0) by (nonlinear_arith)
                requires
                    cols == 0,
            ;
        } else {
            let (t, c) = (i / cols as int, i % cols as int);
            vstd::arithmetic::div_mod::lemma_fundamental_div_mod(i, cols as int);
            assert(cols * (i / cols as int) == t * cols) by (nonlinear_arith)
                requires
                    t == i / cols as int,
            ;
            assert(0 <= t < rows) by (nonlinear_arith)
                requires
                    0 <= i < rows * cols,
                    i == t * cols + c,
                    0 <= c < cols,
            ;
            assert(data[t * cols + c] == cell(t, c));
        }
    }
    assert(data =~= flatten(rows, cols, cell));
}

impl Mat {
    #[verifier::type_invariant]
    spec fn inv(&self) -> bool {
        self.data@.len() == self.rows * self.cols
    }

    pub fn zeros(rows: usize, cols: usize) -> (r: Self)
        requires
            rows * cols <= usize::MAX,
        ensures
            r@.wf(),
            r@.rows == rows,
            r@.cols == cols,
            forall|i: int| 0 <= i < r@.data.len() ==> r@.data[i] == (F32 { bits: 0 }),
    {
        let total: usize = rows * cols;
        let mut data: Vec<F32> = Vec::new();
        let mut i: usize = 0;
        while i < total
            invariant
                i <= total,
                data@.len() == i,
                forall|j: int| 0 <= j < i ==> data@[j] == (F32 { bits: 0 }),
            decreases total - i,
        {
            data.push(F32 { bits: 0 });
            i += 1;
        }
        Mat { rows, cols, data }
    }

    /// Callers build these from shapes they just computed, so a mismatch is a bug,
    /// not bad input.
    pub fn from_vec(rows: usize, cols: usize, data: Vec<F32>) -> (r: Self)
        requires
            data@.len() == rows * cols,
        ensures
            r@.wf(),
            r@ == (MatView { rows: rows as nat, cols: cols as nat, data: data@ }),
    {
        Mat { rows, cols, data }
    }

    /// Rows of one width, one after the other.
    pub fn from_rows(cols: usize, rows: Vec<Vec<F32>>) -> (r: Self)
        requires
            forall|i: int| 0 <= i < rows@.len() ==> (#[trigger] rows@[i])@.len() == cols,
            rows@.len() * cols <= usize::MAX,
        ensures
            r@.wf(),
            r@.rows == rows@.len(),
            r@.cols == cols,
            forall|i: int| 0 <= i < rows@.len() ==> r@.row(i) == (#[trigger] rows@[i])@,
    {
        let mut data: Vec<F32> = Vec::new();
        let mut i: usize = 0;
        assert(0 * cols == 0) by (nonlinear_arith);
        while i < rows.len()
            invariant
                i <= rows@.len(),
                forall|k: int| 0 <= k < rows@.len() ==> (#[trigger] rows@[k])@.len() == cols,
                data@.len() == i * cols,
                forall|k: int|
                    0 <= k < i ==> data@.subrange(k * cols, (k + 1) * cols) == (
                    #[trigger] rows@[k])@,
            decreases rows@.len() - i,
        {
            let ghost before = data@;
            let mut j: usize = 0;
            while j < rows[i].len()
                invariant
                    i < rows@.len(),
                    j <= rows@[i as int]@.len(),
                    data@ =~= before + rows@[i as int]@.take(j as int),
                decreases rows@[i as int]@.len() - j,
            {
                data.push(rows[i][j]);
                j += 1;
            }
            proof {
                assert(rows@[i as int]@.take(j as int) =~= rows@[i as int]@);
                assert((i + 1) * cols == i * cols + cols) by (nonlinear_arith);
                assert forall|k: int| 0 <= k < i + 1 implies data@.subrange(
                    k * cols,
                    (k + 1) * cols,
                ) == (#[trigger] rows@[k])@ by {
                    lemma_row_bounds((i + 1) as nat, cols as nat, k);
                    if k < i {
                        lemma_row_bounds(i as nat, cols as nat, k);
                        assert(data@.subrange(k * cols, (k + 1) * cols) =~= before.subrange(
                            k * cols,
                            (k + 1) * cols,
                        ));
                    } else {
                        assert(data@.subrange(k * cols, (k + 1) * cols) =~= rows@[k]@);
                    }
                }
            }
            i += 1;
        }
        Mat { rows: rows.len(), cols, data }
    }

    pub fn rows(&self) -> (r: usize)
        ensures
            r == self@.rows,
    {
        self.rows
    }

    pub fn cols(&self) -> (r: usize)
        ensures
            r == self@.cols,
    {
        self.cols
    }

    pub fn is_empty(&self) -> (r: bool)
        ensures
            r == (self@.rows == 0),
    {
        self.rows == 0
    }

    /// One row. Of a matrix without columns every row is empty.
    pub fn row(&self, i: usize) -> (r: &[F32])
        requires
            i < self@.rows || (self@.cols == 0 && i < usize::MAX),
        ensures
            r@ == self@.row(i as int),
            r@.len() == self@.cols,
    {
        let total: usize = self.data.len();
        proof {
            use_type_invariant(self);
            if i < self.rows {
                lemma_row_bounds(self.rows as nat, self.cols as nat, i as int);
            } else {
                assert(i * 0 == 0 && (i + 1) * 0 == 0 && self.rows * 0 == 0) by (nonlinear_arith);
            }
        }
        let start: usize = i * self.cols;
        vstd::slice::slice_subrange(self.data.as_slice(), start, start + self.cols)
    }

    pub fn as_slice(&self) -> (r: &[F32])
        ensures
            r@ == self@.data,
            self@.wf(),
    {
        proof {
            use_type_invariant(self);
        }
        self.data.as_slice()
    }

    pub fn into_vec(self) -> (r: Vec<F32>)
        ensures
            r@ == self@.data,
    {
        self.data
    }

    /// The rows in order.
    pub fn iter_rows(&self) -> (r: Vec<&[F32]>)
        requires
            self@.cols > 0,
        ensures
            r@.len() == self@.rows,
            forall|i: int| 0 <= i < r@.len() ==> (#[trigger] r@[i])@ == self@.row(i),
    {
        let mut out: Vec<&[F32]> = Vec::new();
        let mut i: usize = 0;
        while i < self.rows
            invariant
                i <= self.rows,
                self@.rows == self.rows,
                out@.len() == i,
                forall|k: int| 0 <= k < i ==> (#[trigger] out@[k])@ == self@.row(k),
            decreases self.rows - i,
        {
            out.push(self.row(i));
            i += 1;
        }
        out
    }

    /// Replaces one element. A column past the row is one of a later row.
    pub fn set(&mut self, r: usize, c: usize, x: F32)
        requires
            old(self)@.has(r as int, c as int),
        ensures
            final(self)@ == (MatView {
                data: old(self)@.data.update(r * old(self)@.cols + c, x),
                ..old(self)@
            }),
    {
        let total: usize = self.data.len();
        proof {
            use_type_invariant(&*self);
            lemma_has(self@, r as int, c as int);
        }
        let start: usize = r * self.cols;
        self.data[start + c] = x;
    }

    /// One element. A column past the row is one of a later row.
    pub fn get(&self, r: usize, c: usize) -> (x: F32)
        requires
            self@.has(r as int, c as int),
        ensures
            x == self@.at(r as int, c as int),
    {
        let total: usize = self.data.len();
        proof {
            use_type_invariant(self);
            lemma_has(self@, r as int, c as int);
        }
        let start: usize = r * self.cols;
        self.data[start + c]
    }
}

impl Clone for Mat {
    fn clone(&self) -> (r: Self)
        ensures
            r@ == self@,
    {
        proof {
            use_type_invariant(self);
        }
        Mat {
            rows: self.rows,
            cols: self.cols,
            data: vstd::slice::slice_to_vec(self.data.as_slice()),
        }
    }
}

} // verus!
