//! Gauss-Jordan elimination on a row-major backing sequence of binary64 bit
//! patterns, verified against a specification-level model of the procedure.

use vstd::prelude::*;

use crate::error::MatrixError;
use crate::fp::{div_bits, fdiv, fmul, fsub, is_zero, is_zero_bits, mul_bits, sub_bits};

verus! {

/// The row the pivot search selects for pivot step `p`, scanning from row
/// `r`: the first row at or after `r` whose entry in column `p` is not
/// exactly zero, or `None` when every remaining entry of the column is zero.
pub open spec fn find_pivot(data: Seq<u64>, rows: int, cols: int, p: int, r: int) -> Option<int>
    decreases rows - r,
{
    if r >= rows {
        None
    } else if !is_zero_bits(data[r * cols + p]) {
        Some(r)
    } else {
        find_pivot(data, rows, cols, p, r + 1)
    }
}

/// The backing sequence with rows `a` and `b` exchanged.
pub open spec fn swap_rows_spec(data: Seq<u64>, cols: int, a: int, b: int) -> Seq<u64> {
    Seq::new(
        data.len(),
        |k: int|
            if a * cols <= k < a * cols + cols {
                data[b * cols + (k - a * cols)]
            } else if b * cols <= k < b * cols + cols {
                data[a * cols + (k - b * cols)]
            } else {
                data[k]
            },
    )
}

/// Row `p` divided elementwise by `piv`; every other row unchanged.
pub open spec fn normalize_row_spec(data: Seq<u64>, cols: int, p: int, piv: u64) -> Seq<u64> {
    Seq::new(
        data.len(),
        |k: int| if p * cols <= k < p * cols + cols {
            div_bits(data[k], piv)
        } else {
            data[k]
        },
    )
}

/// One elimination pass for pivot row `p`, which must already be
/// normalized: every other row `r` becomes `row_r - factor * row_p`
/// elementwise, where `factor` is the entry of row `r` in column `p` before
/// the pass; row `p` itself is unchanged.
pub open spec fn eliminate_spec(data: Seq<u64>, rows: int, cols: int, p: int) -> Seq<u64> {
    Seq::new(
        data.len(),
        |k: int|
            {
                let r = k / cols;
                let c = k % cols;
                if r == p {
                    data[k]
                } else {
                    sub_bits(data[k], mul_bits(data[r * cols + p], data[p * cols + c]))
                }
            },
    )
}

/// Gauss-Jordan elimination from pivot step `p` on: select a pivot row for
/// column `p` (swapping it up if needed), normalize it, eliminate column `p`
/// from every other row, and continue with the next pivot. `None` means a
/// pivot column held only zeros at its step: the system is singular.
pub open spec fn gauss_jordan_spec(data: Seq<u64>, rows: int, cols: int, p: int) -> Option<
    Seq<u64>,
>
    decreases rows - p,
{
    if p >= rows {
        Some(data)
    } else {
        match find_pivot(data, rows, cols, p, p) {
            None => None,
            Some(q) => {
                let swapped = swap_rows_spec(data, cols, p, q);
                let piv = swapped[p * cols + p];
                let normalized = normalize_row_spec(swapped, cols, p, piv);
                gauss_jordan_spec(eliminate_spec(normalized, rows, cols, p), rows, cols, p + 1)
            },
        }
    }
}

/// A zero pivot with no valid swap candidate is detected, never worked
/// around: if at pivot step `p` every entry of column `p` in rows `p..rows`
/// is exactly zero, elimination reports the system singular.
pub proof fn lemma_singular_detected(data: Seq<u64>, rows: int, cols: int, p: int)
    requires
        0 <= p < rows,
        forall|r: int| p <= r < rows ==> is_zero_bits(#[trigger] data[r * cols + p]),
    ensures
        gauss_jordan_spec(data, rows, cols, p) is None,
{
    lemma_find_pivot_none(data, rows, cols, p, p);
}

proof fn lemma_find_pivot_none(data: Seq<u64>, rows: int, cols: int, p: int, r: int)
    requires
        p <= r,
        forall|r2: int| r <= r2 < rows ==> is_zero_bits(#[trigger] data[r2 * cols + p]),
    ensures
        find_pivot(data, rows, cols, p, r) is None,
    decreases rows - r,
{
    if r < rows {
        lemma_find_pivot_none(data, rows, cols, p, r + 1);
    }
}

/// Every cell index `r * cols + c` lies inside the backing sequence.
pub(crate) proof fn lemma_cell_index(rows: int, cols: int, r: int, c: int)
    requires
        0 <= r < rows,
        0 <= c < cols,
    ensures
        0 <= r * cols + c < rows * cols,
{
    assert(r * cols + c < rows * cols) by (nonlinear_arith)
        requires
            0 <= r < rows,
            0 <= c < cols,
    ;
    assert(0 <= r * cols + c) by (nonlinear_arith)
        requires
            0 <= r,
            0 <= c,
            c < cols,
    ;
}

/// Splitting a cell index back into its row and column.
proof fn lemma_row_col(k: int, rows: int, cols: int)
    requires
        0 <= k < rows * cols,
        1 <= cols,
    ensures
        0 <= k / cols < rows,
        0 <= k % cols < cols,
        k == (k / cols) * cols + (k % cols),
{
    vstd::arithmetic::div_mod::lemma_fundamental_div_mod(k, cols);
    assert(k == (k / cols) * cols + (k % cols)) by (nonlinear_arith)
        requires
            k == cols * (k / cols) + (k % cols),
    ;
    assert(0 <= k % cols < cols) by (nonlinear_arith)
        requires
            1 <= cols,
            0 <= k,
            k == cols * (k / cols) + (k % cols),
            0 <= k % cols < cols,
    ;
    assert(0 <= k / cols < rows) by (nonlinear_arith)
        requires
            1 <= cols,
            0 <= k < rows * cols,
            k == cols * (k / cols) + (k % cols),
            0 <= k % cols < cols,
    ;
}

/// The row and column of the cell written at `r * cols + c`.
proof fn lemma_row_col_of(r: int, c: int, cols: int)
    requires
        0 <= r,
        0 <= c < cols,
    ensures
        (r * cols + c) / cols == r,
        (r * cols + c) % cols == c,
{
    vstd::arithmetic::div_mod::lemma_fundamental_div_mod_converse(r * cols + c, cols, r, c);
}

fn find_pivot_row(data: &Vec<u64>, rows: usize, cols: usize, p: usize) -> (res: Option<usize>)
    requires
        data@.len() == rows * cols,
        rows * cols <= usize::MAX,
        p < rows,
        p < cols,
    ensures
        match res {
            Some(q) => p <= q < rows && find_pivot(
                data@,
                rows as int,
                cols as int,
                p as int,
                p as int,
            ) == Some(q as int),
            None => find_pivot(data@, rows as int, cols as int, p as int, p as int) is None,
        },
{
    let mut r: usize = p;
    while r < rows
        invariant
            p <= r <= rows,
            p < cols,
            data@.len() == rows * cols,
            rows * cols <= usize::MAX,
            find_pivot(data@, rows as int, cols as int, p as int, p as int) == find_pivot(
                data@,
                rows as int,
                cols as int,
                p as int,
                r as int,
            ),
        decreases rows - r,
    {
        proof {
            lemma_cell_index(rows as int, cols as int, r as int, p as int);
        }
        if !is_zero(data[r * cols + p]) {
            return Some(r);
        }
        r = r + 1;
    }
    None
}

fn swap_rows(data: &mut Vec<u64>, rows: usize, cols: usize, a: usize, b: usize)
    requires
        old(data)@.len() == rows * cols,
        rows * cols <= usize::MAX,
        a < rows,
        b < rows,
        1 <= cols,
    ensures
        final(data)@ == swap_rows_spec(old(data)@, cols as int, a as int, b as int),
{
    let ghost orig = old(data)@;
    let ghost ai = a as int * cols as int;
    let ghost bi = b as int * cols as int;
    let mut c: usize = 0;
    while c < cols
        invariant
            c <= cols,
            a < rows,
            b < rows,
            1 <= cols,
            rows * cols <= usize::MAX,
            data@.len() == rows * cols,
            orig.len() == rows * cols,
            ai == a as int * cols as int,
            bi == b as int * cols as int,
            forall|k: int|
                0 <= k < data@.len() ==> data@[k] == (if ai <= k < ai + c as int {
                    orig[bi + (k - ai)]
                } else if bi <= k < bi + c as int {
                    orig[ai + (k - bi)]
                } else {
                    orig[k]
                }),
        decreases cols - c,
    {
        proof {
            lemma_cell_index(rows as int, cols as int, a as int, c as int);
            lemma_cell_index(rows as int, cols as int, b as int, c as int);
            assert(a != b ==> ai + cols as int <= bi || bi + cols as int <= ai)
                by (nonlinear_arith)
                requires
                    ai == a as int * cols as int,
                    bi == b as int * cols as int,
                    1 <= cols,
            ;
        }
        let ta = data[a * cols + c];
        let tb = data[b * cols + c];
        data.set(a * cols + c, tb);
        data.set(b * cols + c, ta);
        c = c + 1;
    }
    proof {
        assert(data@ =~= swap_rows_spec(orig, cols as int, a as int, b as int));
    }
}

fn normalize_row(data: &mut Vec<u64>, rows: usize, cols: usize, p: usize, piv: u64)
    requires
        old(data)@.len() == rows * cols,
        rows * cols <= usize::MAX,
        p < rows,
        1 <= cols,
    ensures
        final(data)@ == normalize_row_spec(old(data)@, cols as int, p as int, piv),
{
    let ghost orig = old(data)@;
    let ghost pi = p as int * cols as int;
    let mut c: usize = 0;
    while c < cols
        invariant
            c <= cols,
            p < rows,
            1 <= cols,
            rows * cols <= usize::MAX,
            data@.len() == rows * cols,
            orig.len() == rows * cols,
            pi == p as int * cols as int,
            forall|k: int|
                0 <= k < data@.len() ==> data@[k] == (if pi <= k < pi + c as int {
                    div_bits(orig[k], piv)
                } else {
                    orig[k]
                }),
        decreases cols - c,
    {
        proof {
            lemma_cell_index(rows as int, cols as int, p as int, c as int);
        }
        let v = fdiv(data[p * cols + c], piv);
        data.set(p * cols + c, v);
        c = c + 1;
    }
    proof {
        assert(data@ =~= normalize_row_spec(orig, cols as int, p as int, piv));
    }
}

fn eliminate(data: &mut Vec<u64>, rows: usize, cols: usize, p: usize)
    requires
        old(data)@.len() == rows * cols,
        rows * cols <= usize::MAX,
        p < rows,
        p < cols,
    ensures
        final(data)@ == eliminate_spec(old(data)@, rows as int, cols as int, p as int),
{
    let ghost orig = old(data)@;
    let ghost rowsi = rows as int;
    let ghost colsi = cols as int;
    let mut r: usize = 0;
    while r < rows
        invariant
            r <= rows,
            p < rows,
            p < cols,
            rows * cols <= usize::MAX,
            data@.len() == rows * cols,
            orig.len() == rows * cols,
            rowsi == rows as int,
            colsi == cols as int,
            forall|k: int|
                0 <= k < data@.len() ==> #[trigger] data@[k] == (if k / colsi < r as int && k / colsi
                    != p as int {
                    sub_bits(
                        orig[k],
                        mul_bits(orig[(k / colsi) * colsi + p], orig[p * colsi + (k % colsi)]),
                    )
                } else {
                    orig[k]
                }),
        decreases rows - r,
    {
        if r != p {
            proof {
                lemma_cell_index(rowsi, colsi, r as int, p as int);
                lemma_row_col_of(r as int, p as int, colsi);
            }
            let factor = data[r * cols + p];
            assert(factor == orig[r as int * colsi + p as int]);
            let mut c: usize = 0;
            while c < cols
                invariant
                    c <= cols,
                    r < rows,
                    r != p,
                    p < rows,
                    p < cols,
                    rows * cols <= usize::MAX,
                    data@.len() == rows * cols,
                    orig.len() == rows * cols,
                    rowsi == rows as int,
                    colsi == cols as int,
                    factor == orig[r as int * colsi + p as int],
                    forall|k: int|
                        0 <= k < data@.len() ==> #[trigger] data@[k] == (if k / colsi == r as int
                            && k % colsi < c as int {
                            sub_bits(
                                orig[k],
                                mul_bits(factor, orig[p * colsi + (k % colsi)]),
                            )
                        } else if k / colsi < r as int && k / colsi != p as int {
                            sub_bits(
                                orig[k],
                                mul_bits(
                                    orig[(k / colsi) * colsi + p],
                                    orig[p * colsi + (k % colsi)],
                                ),
                            )
                        } else {
                            orig[k]
                        }),
                decreases cols - c,
            {
                proof {
                    lemma_cell_index(rowsi, colsi, r as int, c as int);
                    lemma_cell_index(rowsi, colsi, p as int, c as int);
                    lemma_row_col_of(r as int, c as int, colsi);
                    lemma_row_col_of(p as int, c as int, colsi);
                }
                let v = fsub(data[r * cols + c], fmul(factor, data[p * cols + c]));
                data.set(r * cols + c, v);
                proof {
                    assert forall|k: int| 0 <= k < data@.len() implies #[trigger] data@[k] == (
                    if k / colsi == r as int && k % colsi < c as int + 1 {
                        sub_bits(orig[k], mul_bits(factor, orig[p * colsi + (k % colsi)]))
                    } else if k / colsi < r as int && k / colsi != p as int {
                        sub_bits(
                            orig[k],
                            mul_bits(
                                orig[(k / colsi) * colsi + p],
                                orig[p * colsi + (k % colsi)],
                            ),
                        )
                    } else {
                        orig[k]
                    }) by {
                        lemma_row_col(k, rowsi, colsi);
                    }
                }
                c = c + 1;
            }
            proof {
                assert forall|k: int| 0 <= k < data@.len() implies #[trigger] data@[k] == (if k
                    / colsi < r as int + 1 && k / colsi != p as int {
                    sub_bits(
                        orig[k],
                        mul_bits(orig[(k / colsi) * colsi + p], orig[p * colsi + (k % colsi)]),
                    )
                } else {
                    orig[k]
                }) by {
                    lemma_row_col(k, rowsi, colsi);
                }
            }
        } else {
            proof {
                assert forall|k: int| 0 <= k < data@.len() implies #[trigger] data@[k] == (if k
                    / colsi < r as int + 1 && k / colsi != p as int {
                    sub_bits(
                        orig[k],
                        mul_bits(orig[(k / colsi) * colsi + p], orig[p * colsi + (k % colsi)]),
                    )
                } else {
                    orig[k]
                }) by {
                    lemma_row_col(k, rowsi, colsi);
                }
            }
        }
        r = r + 1;
    }
    proof {
        assert forall|k: int| 0 <= k < data@.len() implies data@[k] == eliminate_spec(
            orig,
            rowsi,
            colsi,
            p as int,
        )[k] by {
            lemma_row_col(k, rowsi, colsi);
        }
        assert(data@ =~= eliminate_spec(orig, rowsi, colsi, p as int));
    }
}

/// Run Gauss-Jordan elimination over a copy of `input`, an augmented
/// `rows x cols` system with a square coefficient block, returning the
/// reduced backing sequence or the singularity report — exactly what the
/// specification-level model yields.
pub fn gauss_jordan(rows: usize, cols: usize, input: &Vec<u64>) -> (res: Result<
    Vec<u64>,
    MatrixError,
>)
    requires
        1 <= rows,
        cols == rows + 1,
        input@.len() == rows * cols,
    ensures
        res is Ok ==> res->Ok_0@.len() == input@.len(),
        match gauss_jordan_spec(input@, rows as int, cols as int, 0) {
            Some(d) => res is Ok && res->Ok_0@ == d,
            None => res is Err && res->Err_0 == MatrixError::Singular,
        },
{
    let n = input.len();
    let mut data: Vec<u64> = Vec::new();
    let mut k: usize = 0;
    while k < n
        invariant
            k <= n,
            n == input@.len(),
            data@.len() == k,
            forall|j: int| 0 <= j < k ==> data@[j] == input@[j],
        decreases n - k,
    {
        data.push(input[k]);
        k = k + 1;
    }
    proof {
        assert(data@ =~= input@);
    }
    let mut p: usize = 0;
    while p < rows
        invariant
            p <= rows,
            1 <= rows,
            cols == rows + 1,
            data@.len() == rows * cols,
            rows * cols <= usize::MAX,
            gauss_jordan_spec(input@, rows as int, cols as int, 0) == gauss_jordan_spec(
                data@,
                rows as int,
                cols as int,
                p as int,
            ),
        decreases rows - p,
    {
        let ghost d0 = data@;
        match find_pivot_row(&data, rows, cols, p) {
            None => {
                return Err(MatrixError::Singular);
            },
            Some(q) => {
                swap_rows(&mut data, rows, cols, p, q);
                let ghost d1 = data@;
                proof {
                    lemma_cell_index(rows as int, cols as int, p as int, p as int);
                }
                let piv = data[p * cols + p];
                normalize_row(&mut data, rows, cols, p, piv);
                let ghost d2 = data@;
                eliminate(&mut data, rows, cols, p);
                proof {
                    assert(d1 == swap_rows_spec(d0, cols as int, p as int, q as int));
                    assert(piv == d1[p as int * cols as int + p as int]);
                    assert(d2 == normalize_row_spec(d1, cols as int, p as int, piv));
                    assert(data@ == eliminate_spec(d2, rows as int, cols as int, p as int));
                    assert(gauss_jordan_spec(d0, rows as int, cols as int, p as int)
                        == gauss_jordan_spec(data@, rows as int, cols as int, p as int + 1));
                }
                p = p + 1;
            },
        }
    }
    Ok(data)
}

} // verus!
