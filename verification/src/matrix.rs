//! A dense row-major matrix of scalar words.

use vstd::prelude::*;

verus! {

/// A dense matrix stored row-major, one IEEE-754 binary64 word per entry.
#[derive(Debug, Clone)]
pub struct Mat {
    pub nrows: usize,
    pub ncols: usize,
    pub data: Vec<u64>,
}

impl Mat {
    /// The storage holds exactly one word per entry.
    pub open spec fn wf(&self) -> bool {
        self.data@.len() == self.nrows * self.ncols
    }

    pub open spec fn rows_spec(&self) -> usize {
        self.nrows
    }

    pub open spec fn cols_spec(&self) -> usize {
        self.ncols
    }

    /// The entry at row `i`, column `j`.
    pub open spec fn at(&self, i: int, j: int) -> u64 {
        self.data@[i * self.ncols + j]
    }

    /// The whole storage, row-major.
    pub open spec fn data_spec(&self) -> Seq<u64> {
        self.data@
    }

    /// Row indices below `nrows` and column indices below `ncols` address
    /// distinct storage cells within bounds.
    pub proof fn lemma_index_bounds(&self, i: int, j: int)
        requires
            self.wf(),
            0 <= i < self.nrows,
            0 <= j < self.ncols,
        ensures
            0 <= i * self.ncols + j < self.data@.len(),
    {
        assert(i * self.ncols + j < self.nrows * self.ncols) by (nonlinear_arith)
            requires
                0 <= i < self.nrows,
                0 <= j < self.ncols,
        ;
        assert(0 <= i * self.ncols + j) by (nonlinear_arith)
            requires
                0 <= i,
                0 <= j,
                0 <= self.ncols,
        ;
    }

    /// Wraps a row-major storage vector as an `nrows` by `ncols` matrix.
    pub fn new(nrows: usize, ncols: usize, data: Vec<u64>) -> (r: Mat)
        requires
            data@.len() == nrows * ncols,
        ensures
            r.wf(),
            r.rows_spec() == nrows,
            r.cols_spec() == ncols,
            r.data_spec() == data@,
    {
        Mat { nrows, ncols, data }
    }

    pub fn rows(&self) -> (r: usize)
        ensures
            r == self.rows_spec(),
    {
        self.nrows
    }

    pub fn cols(&self) -> (r: usize)
        ensures
            r == self.cols_spec(),
    {
        self.ncols
    }

    /// Reads the entry at row `i`, column `j`.
    pub fn entry(&self, i: usize, j: usize) -> (r: u64)
        requires
            self.wf(),
            i < self.rows_spec(),
            j < self.cols_spec(),
        ensures
            r == self.at(i as int, j as int),
    {
        let n = self.data.len();
        proof {
            self.lemma_index_bounds(i as int, j as int);
        }
        self.data[i * self.ncols + j]
    }

    /// Writes the entry at row `i`, column `j`; every other entry is kept.
    pub fn set_entry(&mut self, i: usize, j: usize, w: u64)
        requires
            old(self).wf(),
            i < old(self).rows_spec(),
            j < old(self).cols_spec(),
        ensures
            final(self).wf(),
            final(self).rows_spec() == old(self).rows_spec(),
            final(self).cols_spec() == old(self).cols_spec(),
            final(self).at(i as int, j as int) == w,
            forall|p: int, q: int|
                0 <= p < old(self).rows_spec() && 0 <= q < old(self).cols_spec() && !(p == i && q
                    == j) ==> final(self).at(p, q) == old(self).at(p, q),
    {
        let n = self.data.len();
        proof {
            self.lemma_index_bounds(i as int, j as int);
        }
        let pos: usize = i * self.ncols + j;
        self.data.set(pos, w);
        proof {
            assert forall|p: int, q: int|
                0 <= p < self.nrows && 0 <= q < self.ncols && !(p == i && q == j) implies self.at(
                p,
                q,
            ) == old(self).at(p, q) by {
                self.lemma_index_bounds(p, q);
                assert(p * self.ncols + q != i * self.ncols + j) by (nonlinear_arith)
                    requires
                        0 <= p,
                        0 <= q < self.ncols,
                        0 <= i,
                        0 <= j < self.ncols,
                        !(p == i && q == j),
                ;
            }
        }
    }

    /// Zeroes every entry of the block `[r0, r1)` by `[c0, c1)`; every other
    /// entry is kept.
    pub fn zero_block(&mut self, r0: usize, r1: usize, c0: usize, c1: usize)
        requires
            old(self).wf(),
            r0 <= r1 <= old(self).rows_spec(),
            c0 <= c1 <= old(self).cols_spec(),
        ensures
            final(self).wf(),
            final(self).rows_spec() == old(self).rows_spec(),
            final(self).cols_spec() == old(self).cols_spec(),
            forall|p: int, q: int|
                0 <= p < old(self).rows_spec() && 0 <= q < old(self).cols_spec()
                    ==> #[trigger] final(self).at(p, q) == (if r0 <= p < r1 && c0 <= q < c1 {
                    0u64
                } else {
                    old(self).at(p, q)
                }),
    {
        let mut p: usize = r0;
        while p < r1
            invariant
                self.wf(),
                self.rows_spec() == old(self).rows_spec(),
                self.cols_spec() == old(self).cols_spec(),
                r0 <= p <= r1 <= self.rows_spec(),
                c0 <= c1 <= self.cols_spec(),
                forall|a: int, b: int|
                    0 <= a < self.rows_spec() && 0 <= b < self.cols_spec() ==> #[trigger] self.at(
                        a,
                        b,
                    ) == (if r0 <= a < p && c0 <= b < c1 {
                        0u64
                    } else {
                        old(self).at(a, b)
                    }),
            decreases r1 - p,
        {
            let mut q: usize = c0;
            while q < c1
                invariant
                    self.wf(),
                    self.rows_spec() == old(self).rows_spec(),
                    self.cols_spec() == old(self).cols_spec(),
                    r0 <= p < r1 <= self.rows_spec(),
                    c0 <= q <= c1 <= self.cols_spec(),
                    forall|a: int, b: int|
                        0 <= a < self.rows_spec() && 0 <= b < self.cols_spec()
                            ==> #[trigger] self.at(a, b) == (if (r0 <= a < p && c0 <= b < c1) || (a
                            == p && c0 <= b < q) {
                            0u64
                        } else {
                            old(self).at(a, b)
                        }),
                decreases c1 - q,
            {
                self.set_entry(p, q, 0u64);
                q = q + 1;
            }
            p = p + 1;
        }
    }

    /// The row `i` as a vector of words.
    pub fn row(&self, i: usize) -> (r: Vec<u64>)
        requires
            self.wf(),
            i < self.rows_spec(),
        ensures
            r@.len() == self.cols_spec(),
            forall|j: int| 0 <= j < self.cols_spec() ==> r@[j] == self.at(i as int, j),
    {
        let mut out: Vec<u64> = Vec::new();
        let mut j: usize = 0;
        while j < self.ncols
            invariant
                self.wf(),
                i < self.nrows,
                0 <= j <= self.ncols,
                out@.len() == j,
                forall|q: int| 0 <= q < j ==> out@[q] == self.at(i as int, q),
            decreases self.ncols - j,
        {
            let w = self.entry(i, j);
            out.push(w);
            j = j + 1;
        }
        out
    }

    /// The column `j` as a vector of words.
    pub fn column(&self, j: usize) -> (r: Vec<u64>)
        requires
            self.wf(),
            j < self.cols_spec(),
        ensures
            r@.len() == self.rows_spec(),
            forall|i: int| 0 <= i < self.rows_spec() ==> r@[i] == self.at(i, j as int),
    {
        let mut out: Vec<u64> = Vec::new();
        let mut i: usize = 0;
        while i < self.nrows
            invariant
                self.wf(),
                j < self.ncols,
                0 <= i <= self.nrows,
                out@.len() == i,
                forall|p: int| 0 <= p < i ==> out@[p] == self.at(p, j as int),
            decreases self.nrows - i,
        {
            let w = self.entry(i, j);
            out.push(w);
            i = i + 1;
        }
        out
    }
}

} // verus!
