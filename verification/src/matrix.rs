//! Dense row-major matrices of fixed-point values.

use vstd::prelude::*;
use crate::fixed::{MAX_DIM, MAX_WEIGHT};

verus! {

/// A `rows x cols` matrix of non-negative fixed-point values, stored row-major.
///
/// A cell holding exactly zero means "unrated", never "rated zero": every
/// routine that walks a rating matrix treats zero cells as absent.
pub struct Matrix {
    pub rows: usize,
    pub cols: usize,
    pub data: Vec<u64>,
}

/// Row-major position of the entry in row `i`, column `j`, stays in storage.
pub proof fn lemma_index_bound(i: int, j: int, rows: int, cols: int)
    requires
        0 <= i < rows,
        0 <= j < cols,
    ensures
        0 <= i * cols + j < rows * cols,
    decreases rows,
{
    assert(i * cols + j < rows * cols) by (nonlinear_arith)
        requires
            0 <= i < rows,
            0 <= j < cols,
    ;
}

/// Distinct in-bounds positions have distinct row-major indices.
pub proof fn lemma_index_injective(i1: int, j1: int, i2: int, j2: int, cols: int)
    requires
        0 <= i1,
        0 <= i2,
        0 <= j1 < cols,
        0 <= j2 < cols,
        i1 * cols + j1 == i2 * cols + j2,
    ensures
        i1 == i2 && j1 == j2,
{
    assert(i1 == i2 && j1 == j2) by (nonlinear_arith)
        requires
            0 <= i1,
            0 <= i2,
            0 <= j1 < cols,
            0 <= j2 < cols,
            i1 * cols + j1 == i2 * cols + j2,
    ;
}

impl Matrix {
    /// Dimensions within machine bounds, storage of exactly `rows * cols`
    /// entries, every entry within the weight bound.
    pub open spec fn wf(self) -> bool {
        &&& self.rows <= MAX_DIM
        &&& self.cols <= MAX_DIM
        &&& self.rows * self.cols <= usize::MAX
        &&& self.data.len() == self.rows * self.cols
        &&& forall|k: int| 0 <= k < self.data.len() ==> self.data[k] <= MAX_WEIGHT
    }

    /// The entry in row `i`, column `j`.
    pub open spec fn at(self, i: int, j: int) -> u64 {
        self.data[i * self.cols + j]
    }

    /// Column `j`, read top to bottom.
    pub open spec fn col_seq(self, j: int) -> Seq<u64> {
        Seq::new(self.rows as nat, |i: int| self.at(i, j))
    }

    /// Row `i`, read left to right.
    pub open spec fn row_seq(self, i: int) -> Seq<u64> {
        Seq::new(self.cols as nat, |j: int| self.at(i, j))
    }

    /// An all-zero matrix of the given shape.
    pub fn new(rows: usize, cols: usize) -> (m: Matrix)
        requires
            rows <= MAX_DIM,
            cols <= MAX_DIM,
            rows * cols <= usize::MAX,
        ensures
            m.wf(),
            m.rows == rows,
            m.cols == cols,
            forall|i: int, j: int|
                0 <= i < rows && 0 <= j < cols ==> m.at(i, j) == 0,
    {
        proof {
            assert(rows * cols >= 0) by (nonlinear_arith)
                requires
                    rows >= 0,
                    cols >= 0,
            ;
        }
        let n = rows * cols;
        let mut data: Vec<u64> = Vec::new();
        let mut k: usize = 0;
        while k < n
            invariant
                k <= n,
                data.len() == k,
                forall|t: int| 0 <= t < k ==> data[t] == 0,
            decreases n - k,
        {
            data.push(0);
            k = k + 1;
        }
        let m = Matrix { rows, cols, data };
        proof {
            assert forall|i: int, j: int|
                0 <= i < rows && 0 <= j < cols implies m.at(i, j) == 0 by {
                lemma_index_bound(i, j, rows as int, cols as int);
            }
        }
        m
    }

    /// Read one entry.
    pub fn get(&self, i: usize, j: usize) -> (r: u64)
        requires
            self.wf(),
            i < self.rows,
            j < self.cols,
        ensures
            r == self.at(i as int, j as int),
    {
        proof {
            lemma_index_bound(i as int, j as int, self.rows as int, self.cols as int);
            assert(i * self.cols + j <= usize::MAX) by (nonlinear_arith)
                requires
                    0 <= (i as int) * (self.cols as int) + (j as int) < (self.rows as int)
                        * self.cols as int,
                    (self.rows as int) * (self.cols as int) <= usize::MAX,
            ;
        }
        self.data[i * self.cols + j]
    }

    /// Write one entry, leaving every other entry as it was.
    pub fn set(&mut self, i: usize, j: usize, v: u64)
        requires
            old(self).wf(),
            i < old(self).rows,
            j < old(self).cols,
            v <= MAX_WEIGHT,
        ensures
            final(self).wf(),
            final(self).rows == old(self).rows,
            final(self).cols == old(self).cols,
            final(self).at(i as int, j as int) == v,
            forall|i2: int, j2: int|
                0 <= i2 < old(self).rows && 0 <= j2 < old(self).cols && !(i2 == i as int && j2
                    == j as int) ==> final(self).at(i2, j2) == old(self).at(i2, j2),
    {
        proof {
            lemma_index_bound(i as int, j as int, self.rows as int, self.cols as int);
            assert(i * self.cols + j <= usize::MAX) by (nonlinear_arith)
                requires
                    0 <= (i as int) * (self.cols as int) + (j as int) < (self.rows as int)
                        * self.cols as int,
                    (self.rows as int) * (self.cols as int) <= usize::MAX,
            ;
        }
        let idx = i * self.cols + j;
        self.data.set(idx, v);
        proof {
            assert forall|i2: int, j2: int|
                0 <= i2 < self.rows && 0 <= j2 < self.cols && !(i2 == i as int && j2 == j as int)
                    implies self.at(i2, j2) == old(self).at(i2, j2) by {
                lemma_index_bound(i2, j2, self.rows as int, self.cols as int);
                if i2 * (self.cols as int) + j2 == (i as int) * (self.cols as int) + (j as int) {
                    lemma_index_injective(i2, j2, i as int, j as int, self.cols as int);
                }
            }
        }
    }

    /// Every entry of a column of a well-formed matrix is bounded.
    pub proof fn lemma_col_bounds(self, j: int)
        requires
            self.wf(),
            0 <= j < self.cols,
        ensures
            self.col_seq(j).len() == self.rows,
            forall|i: int| 0 <= i < self.rows ==> #[trigger] self.col_seq(j)[i] <= MAX_WEIGHT,
            forall|i: int| 0 <= i < self.rows ==> #[trigger] self.at(i, j) <= MAX_WEIGHT,
    {
        assert forall|i: int| 0 <= i < self.rows implies #[trigger] self.at(i, j) <= MAX_WEIGHT by {
            lemma_index_bound(i, j, self.rows as int, self.cols as int);
        }
    }

    /// Copy column `j` out as a vector.
    pub fn column(&self, j: usize) -> (c: Vec<u64>)
        requires
            self.wf(),
            j < self.cols,
        ensures
            c@ == self.col_seq(j as int),
            c@.len() == self.rows,
            forall|t: int| 0 <= t < c@.len() ==> c@[t] <= MAX_WEIGHT,
    {
        let mut c: Vec<u64> = Vec::new();
        let mut i: usize = 0;
        while i < self.rows
            invariant
                self.wf(),
                j < self.cols,
                i <= self.rows,
                c@.len() == i,
                forall|t: int| 0 <= t < i ==> c@[t] == self.at(t, j as int),
            decreases self.rows - i,
        {
            let v = self.get(i, j);
            c.push(v);
            i = i + 1;
        }
        proof {
            assert(c@ =~= self.col_seq(j as int));
            assert forall|t: int| 0 <= t < c@.len() implies c@[t] <= MAX_WEIGHT by {
                lemma_index_bound(t, j as int, self.rows as int, self.cols as int);
            }
        }
        c
    }
}

} // verus!
