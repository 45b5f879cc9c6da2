//! A dense two-dimensional table of state identifiers, stored row by row.
//! It backs both the NFA transition snapshot and the DFA links.

use vstd::prelude::*;

use crate::state::{Identifier, INVALID_ID};

verus! {

/// A dense matrix of state identifiers with a fixed number of columns.
#[derive(Clone, Debug, PartialEq, Eq)]
pub struct Matrix {
    /// The number of columns of every row.
    pub cols: usize,
    /// The rows of the matrix.
    pub cells: Vec<Vec<Identifier>>,
}

impl Matrix {
    /// Well-formedness: every row has exactly `cols` cells.
    pub open spec fn wf(self) -> bool {
        forall|r: int| 0 <= r < self.cells@.len() ==> (#[trigger] self.cells@[r])@.len()
            == self.cols
    }

    /// The number of rows.
    pub open spec fn spec_rows(self) -> nat {
        self.cells@.len()
    }

    /// The cell at row `r`, column `c`.
    pub open spec fn cell(self, r: int, c: int) -> Identifier {
        self.cells@[r]@[c]
    }

    /// Creates a matrix of the given shape with every cell invalid.
    pub fn new(rows: usize, cols: usize) -> (m: Matrix)
        ensures
            m.wf(),
            m.cols == cols,
            m.spec_rows() == rows,
            forall|r: int, c: int| 0 <= r < rows && 0 <= c < cols ==> m.cell(r, c).id == INVALID_ID,
    {
        let mut m = Matrix { cols, cells: Vec::new() };
        let mut r: usize = 0;
        while r < rows
            invariant
                r <= rows,
                m.cols == cols,
                m.spec_rows() == r,
                m.wf(),
                forall|q: int, c: int|
                    0 <= q < r && 0 <= c < cols ==> m.cell(q, c).id == INVALID_ID,
            decreases rows - r,
        {
            let ghost m0 = m;
            m.new_row();
            proof {
                assert forall|q: int, c: int|
                    0 <= q < r + 1 && 0 <= c < cols implies m.cell(q, c).id == INVALID_ID by {
                    if q < r {
                        assert(m.cells@[q] == m0.cells@[q]);
                        assert(m0.cell(q, c).id == INVALID_ID);
                    } else {
                        assert(m.cell(r as int, c).id == INVALID_ID);
                    }
                }
            }
            r += 1;
        }
        m
    }

    /// Appends one row filled with the invalid state.
    pub fn new_row(&mut self)
        ensures
            final(self).cols == old(self).cols,
            final(self).spec_rows() == old(self).spec_rows() + 1,
            forall|r: int|
                0 <= r < old(self).spec_rows() ==> final(self).cells@[r] == old(self).cells@[r],
            forall|c: int|
                0 <= c < old(self).cols ==> final(self).cell(old(self).spec_rows() as int, c).id
                    == INVALID_ID,
            old(self).wf() ==> final(self).wf(),
    {
        let mut row: Vec<Identifier> = Vec::new();
        let mut c: usize = 0;
        while c < self.cols
            invariant
                c <= self.cols,
                row@.len() == c,
                forall|q: int| 0 <= q < c ==> row@[q].id == INVALID_ID,
            decreases self.cols - c,
        {
            row.push(Identifier::invalid());
            c += 1;
        }
        self.cells.push(row);
    }

    /// The number of rows.
    pub fn rows(&self) -> (r: usize)
        ensures
            r == self.spec_rows(),
    {
        self.cells.len()
    }

    /// Reads the cell at row `r`, column `c`.
    pub fn get(&self, r: usize, c: usize) -> (v: Identifier)
        requires
            self.wf(),
            r < self.spec_rows(),
            c < self.cols,
        ensures
            v == self.cell(r as int, c as int),
    {
        self.cells[r][c]
    }

    /// Writes the cell at row `r`, column `c`.
    pub fn set(&mut self, r: usize, c: usize, v: Identifier)
        requires
            old(self).wf(),
            r < old(self).spec_rows(),
            c < old(self).cols,
        ensures
            final(self).wf(),
            final(self).cols == old(self).cols,
            final(self).spec_rows() == old(self).spec_rows(),
            final(self).cell(r as int, c as int) == v,
            forall|q: int, d: int|
                0 <= q < old(self).spec_rows() && 0 <= d < old(self).cols && !(q == r && d == c)
                    ==> final(self).cell(q, d) == old(self).cell(q, d),
    {
        let mut row = self.cells.remove(r);
        row[c] = v;
        self.cells.insert(r, row);
        proof {
            assert forall|q: int|
                0 <= q < old(self).spec_rows() && q != r implies final(self).cells@[q] == old(
                self,
            ).cells@[q] by {
                if q < r {
                } else {
                    assert(old(self).cells@.remove(r as int)[q - 1] == old(self).cells@[q]);
                }
            }
        }
    }

    /// Builds a matrix from explicit rows of state indices.
    ///
    /// The column count is taken from the first row; every row must have the
    /// same length.
    pub fn from_rows(input: Vec<Vec<usize>>) -> (m: Matrix)
        requires
            forall|r: int|
                0 <= r < input@.len() ==> (#[trigger] input@[r])@.len() == input@[0]@.len(),
        ensures
            m.wf(),
            m.spec_rows() == input@.len(),
            m.cols == (if input@.len() == 0 {
                0int
            } else {
                input@[0]@.len() as int
            }),
            forall|r: int, c: int|
                0 <= r < input@.len() && 0 <= c < m.cols ==> m.cell(r, c).id == input@[r]@[c],
    {
        let rows = input.len();
        let columns = if rows == 0 {
            0
        } else {
            input[0].len()
        };
        let mut m = Matrix { cols: columns, cells: Vec::new() };
        let mut r: usize = 0;
        while r < rows
            invariant
                r <= rows,
                rows == input@.len(),
                columns == (if rows == 0 {
                    0int
                } else {
                    input@[0]@.len() as int
                }),
                forall|q: int|
                    0 <= q < input@.len() ==> (#[trigger] input@[q])@.len() == input@[0]@.len(),
                m.cols == columns,
                m.spec_rows() == r,
                m.wf(),
                forall|q: int, c: int|
                    0 <= q < r && 0 <= c < columns ==> m.cell(q, c).id == input@[q]@[c],
            decreases rows - r,
        {
            let mut row: Vec<Identifier> = Vec::new();
            let mut c: usize = 0;
            while c < columns
                invariant
                    c <= columns,
                    r < rows,
                    rows == input@.len(),
                    columns == input@[r as int]@.len(),
                    row@.len() == c,
                    forall|q: int| 0 <= q < c ==> row@[q].id == input@[r as int]@[q],
                decreases columns - c,
            {
                row.push(Identifier::new(input[r][c]));
                c += 1;
            }
            let ghost m0 = m;
            m.cells.push(row);
            proof {
                assert forall|q: int, c: int|
                    0 <= q < r + 1 && 0 <= c < columns implies m.cell(q, c).id
                    == input@[q]@[c] by {
                    assert(m.cells@ == m0.cells@.push(row));
                    if q < r {
                        assert(m.cells@[q] == m0.cells@[q]);
                        assert(m0.cell(q, c).id == input@[q]@[c]);
                    } else {
                        assert(m.cells@[q] == row);
                    }
                }
            }
            r += 1;
        }
        m
    }
}

} // verus!
