//! Rendering a matrix as human-readable rows: each row's values in order,
//! separated (and trailed) by a single space, each row closed by a newline.

use vstd::prelude::*;

use crate::fp::{fmt_bits, fmt_value};
use crate::matrix::Matrix;
use vstd::string::StringExecFns;

verus! {

/// The text of row `r` from column `c` on: each value's rendering followed
/// by a space, the row closed by a newline.
pub open spec fn row_chars(data: Seq<u64>, cols: int, r: int, c: int) -> Seq<char>
    decreases cols - c,
{
    if c >= cols {
        seq!['\n']
    } else {
        fmt_bits(data[r * cols + c]) + seq![' '] + row_chars(data, cols, r, c + 1)
    }
}

/// The text of the rows from `r` on.
pub open spec fn rows_chars(data: Seq<u64>, rows: int, cols: int, r: int) -> Seq<char>
    decreases rows - r,
{
    if r >= rows {
        seq![]
    } else {
        row_chars(data, cols, r, 0) + rows_chars(data, rows, cols, r + 1)
    }
}

/// The full rendering of a matrix.
pub open spec fn render_spec(data: Seq<u64>, rows: int, cols: int) -> Seq<char> {
    rows_chars(data, rows, cols, 0)
}

impl Matrix {
    /// The human-readable text of the matrix, row by row.
    pub fn render(&self) -> (out: String)
        requires
            self.wf(),
        ensures
            out@ == render_spec(self@.data, self@.rows, self@.cols),
    {
        let ghost dataq = self@.data;
        let ghost rowsi = self@.rows;
        let ghost colsi = self@.cols;
        let rows = self.rows();
        let cols = self.cols();
        let mut out = String::new();
        let mut r: usize = 0;
        proof {
            assert(Seq::<char>::empty() + rows_chars(dataq, rowsi, colsi, 0) =~= rows_chars(
                dataq,
                rowsi,
                colsi,
                0,
            ));
        }
        while r < rows
            invariant
                r <= rows,
                rows == rowsi,
                cols == colsi,
                self.wf(),
                dataq == self@.data,
                rowsi == self@.rows,
                colsi == self@.cols,
                render_spec(dataq, rowsi, colsi) == out@ + rows_chars(dataq, rowsi, colsi, r as int),
            decreases rows - r,
        {
            let ghost rs = rows_chars(dataq, rowsi, colsi, r as int + 1);
            proof {
                assert(rows_chars(dataq, rowsi, colsi, r as int) == row_chars(dataq, colsi, r as int, 0)
                    + rs);
                assert(out@ + (row_chars(dataq, colsi, r as int, 0) + rs) =~= out@ + row_chars(
                    dataq,
                    colsi,
                    r as int,
                    0,
                ) + rs);
            }
            let mut c: usize = 0;
            while c < cols
                invariant
                    c <= cols,
                    r < rows,
                    rows == rowsi,
                    cols == colsi,
                    self.wf(),
                    dataq == self@.data,
                    rowsi == self@.rows,
                    colsi == self@.cols,
                    rs == rows_chars(dataq, rowsi, colsi, r as int + 1),
                    render_spec(dataq, rowsi, colsi) == out@ + row_chars(
                        dataq,
                        colsi,
                        r as int,
                        c as int,
                    ) + rs,
                decreases cols - c,
            {
                let ghost before = out@;
                let v = self.at(r, c);
                let cell = fmt_value(v);
                out.append(cell.as_str());
                out.append(" ");
                proof {
                    reveal_strlit(" ");
                    assert(" "@ =~= seq![' ']);
                    assert(out@ =~= before + fmt_bits(v) + seq![' ']);
                    assert(row_chars(dataq, colsi, r as int, c as int) == fmt_bits(v) + seq![' ']
                        + row_chars(dataq, colsi, r as int, c as int + 1));
                    assert(before + (fmt_bits(v) + seq![' '] + row_chars(
                        dataq,
                        colsi,
                        r as int,
                        c as int + 1,
                    )) + rs =~= out@ + row_chars(dataq, colsi, r as int, c as int + 1) + rs);
                }
                c = c + 1;
            }
            let ghost before = out@;
            out.append("\n");
            proof {
                reveal_strlit("\n");
                assert("\n"@ =~= seq!['\n']);
                assert(row_chars(dataq, colsi, r as int, colsi) == seq!['\n']);
                assert(before + seq!['\n'] + rs =~= out@ + rs);
            }
            r = r + 1;
        }
        proof {
            assert(out@ + rows_chars(dataq, rowsi, colsi, rowsi) =~= out@);
        }
        out
    }
}

} // verus!
