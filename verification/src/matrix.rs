//! The dense matrix container and its public operations.

use vstd::prelude::*;

use crate::error::MatrixError;
use crate::fp::POS_ZERO_BITS;
use crate::solver;

verus! {

/// The mathematical content of a matrix: its dimensions and its row-major
/// backing sequence of binary64 bit patterns.
pub struct MatrixView {
    pub rows: int,
    pub cols: int,
    pub data: Seq<u64>,
}

/// A dense row-major matrix of binary64 values, each stored as its bit
/// pattern: the entry at row `r`, column `c` sits at index `r * cols + c`.
/// For solver use the matrix is an augmented system: the last column holds
/// the right-hand-side constants.
#[derive(Debug)]
pub struct Matrix {
    rows: usize,
    cols: usize,
    data: Vec<u64>,
}

impl View for Matrix {
    type V = MatrixView;

    closed spec fn view(&self) -> MatrixView {
        MatrixView { rows: self.rows as int, cols: self.cols as int, data: self.data@ }
    }
}

impl Matrix {
    /// Structural invariant: at least one row and one column, and the
    /// backing sequence holds exactly `rows * cols` entries.
    pub open spec fn wf(&self) -> bool {
        &&& 1 <= self@.rows
        &&& 1 <= self@.cols
        &&& self@.data.len() == self@.rows * self@.cols
        &&& self@.rows * self@.cols <= usize::MAX
    }

    /// A zero-filled matrix of the given dimensions. The bit pattern of
    /// positive zero is all-zero, so a zeroed backing vector encodes a
    /// matrix of zeros.
    pub fn new(rows: usize, cols: usize) -> (r: Matrix)
        requires
            1 <= rows,
            1 <= cols,
            rows * cols <= usize::MAX,
        ensures
            r.wf(),
            r@.rows == rows,
            r@.cols == cols,
            forall|k: int| 0 <= k < r@.data.len() ==> r@.data[k] == POS_ZERO_BITS,
    {
        let n = rows * cols;
        let mut data: Vec<u64> = Vec::new();
        let mut i: usize = 0;
        while i < n
            invariant
                i <= n,
                data@.len() == i,
                forall|j: int| 0 <= j < i ==> data@[j] == POS_ZERO_BITS,
            decreases n - i,
        {
            data.push(POS_ZERO_BITS);
            i = i + 1;
        }
        Matrix { rows, cols, data }
    }

    /// The number of rows.
    pub fn rows(&self) -> (r: usize)
        ensures
            r == self@.rows,
    {
        self.rows
    }

    /// The number of columns.
    pub fn cols(&self) -> (r: usize)
        ensures
            r == self@.cols,
    {
        self.cols
    }

    /// The bit pattern of the entry at row `r`, column `c`.
    pub fn at(&self, r: usize, c: usize) -> (v: u64)
        requires
            self.wf(),
            r < self@.rows,
            c < self@.cols,
        ensures
            v == self@.data[r * self@.cols + c],
    {
        proof {
            solver::lemma_cell_index(self@.rows, self@.cols, r as int, c as int);
        }
        self.data[r * self.cols + c]
    }

    /// Build a matrix from a raw numeric grid: rows separated by `;`,
    /// values by whitespace, each value a decimal number. Every row group
    /// must produce the same positive number of values.
    pub fn from_string(text: &str) -> (res: Result<Matrix, MatrixError>)
        ensures
            match crate::parse::grid_model(text@) {
                Ok(m) => res is Ok && res->Ok_0.wf() && res->Ok_0@.rows == m.0
                    && res->Ok_0@.cols == m.1 && res->Ok_0@.data == m.2,
                Err(e) => res is Err && res->Err_0 == e,
            },
    {
        match crate::parse::parse_grid_text(text) {
            Err(e) => Err(e),
            Ok((rows, cols, data)) => {
                // The vector's length witnesses that rows * cols fits in usize.
                let _n: usize = data.len();
                Ok(Matrix { rows, cols, data })
            },
        }
    }

    /// Build an augmented matrix from a set of linear equations separated
    /// by `/`: each equation's sides around `=` are stripped of variable
    /// names (a bare `x`, `+x` or `-x` counting as an implicit unit
    /// coefficient) and the remaining numeric tokens form one row, the
    /// left-hand coefficients followed by the right-hand constant. Every
    /// equation must produce the same positive row width.
    pub fn from_equations(equations: &str) -> (res: Result<Matrix, MatrixError>)
        ensures
            match crate::parse::equations_model(equations@) {
                Ok(m) => res is Ok && res->Ok_0.wf() && res->Ok_0@.rows == m.0
                    && res->Ok_0@.cols == m.1 && res->Ok_0@.data == m.2,
                Err(e) => res is Err && res->Err_0 == e,
            },
    {
        match crate::parse::parse_equations_text(equations) {
            Err(e) => Err(e),
            Ok((rows, cols, data)) => {
                // The vector's length witnesses that rows * cols fits in usize.
                let _n: usize = data.len();
                Ok(Matrix { rows, cols, data })
            },
        }
    }

    /// Gauss-Jordan elimination to reduced row-echelon form, run on a
    /// working copy: the receiver is left untouched. Returns the reduced
    /// matrix — exactly what the specification-level model yields — or the
    /// singularity report when a pivot column holds only zeros at its step.
    pub fn reduce(&self) -> (res: Result<Matrix, MatrixError>)
        requires
            self.wf(),
            self@.cols == self@.rows + 1,
        ensures
            match solver::gauss_jordan_spec(self@.data, self@.rows, self@.cols, 0) {
                Some(d) => res is Ok && res->Ok_0.wf() && res->Ok_0@.rows == self@.rows
                    && res->Ok_0@.cols == self@.cols && res->Ok_0@.data == d,
                None => res is Err && res->Err_0 == MatrixError::Singular,
            },
    {
        match solver::gauss_jordan(self.rows, self.cols, &self.data) {
            Ok(d) => Ok(Matrix { rows: self.rows, cols: self.cols, data: d }),
            Err(e) => Err(e),
        }
    }

    /// Solve the augmented system: reduce a working copy and read the
    /// solution vector off the last column, one value per row. A singular
    /// system yields the error, never a fabricated answer.
    pub fn solve(&self) -> (res: Result<Vec<u64>, MatrixError>)
        requires
            self.wf(),
            self@.cols == self@.rows + 1,
        ensures
            match solver::gauss_jordan_spec(self@.data, self@.rows, self@.cols, 0) {
                Some(d) => res is Ok && res->Ok_0@.len() == self@.rows && forall|i: int|
                    0 <= i < self@.rows ==> res->Ok_0@[i] == d[i * self@.cols + self@.cols - 1],
                None => res is Err && res->Err_0 == MatrixError::Singular,
            },
    {
        match solver::gauss_jordan(self.rows, self.cols, &self.data) {
            Err(e) => Err(e),
            Ok(reduced) => {
                let mut out: Vec<u64> = Vec::new();
                let mut i: usize = 0;
                while i < self.rows
                    invariant
                        i <= self.rows,
                        self.wf(),
                        self@.cols == self@.rows + 1,
                        reduced@.len() == self@.rows * self@.cols,
                        out@.len() == i,
                        forall|j: int|
                            0 <= j < i ==> out@[j] == reduced@[j * self@.cols + self@.cols - 1],
                    decreases self.rows - i,
                {
                    proof {
                        solver::lemma_cell_index(
                            self@.rows,
                            self@.cols,
                            i as int,
                            self@.cols - 1,
                        );
                    }
                    out.push(reduced[i * self.cols + (self.cols - 1)]);
                    i = i + 1;
                }
                Ok(out)
            },
        }
    }
}

} // verus!
