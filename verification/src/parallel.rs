//! Rows of an image worked on by all cores.
use rayon::iter::{IntoParallelIterator, ParallelIterator};
use vstd::prelude::*;

verus! {

/// Calls `rayon`'s `into_par_iter` on the range `0..n`, `map` with `item`, and
/// `collect` into a `Vec`.
///
/// Believed of it: `item` is called on each index of the range, and what it
/// returns for index `i` stands at place `i` of the result, whichever thread
/// made the call.
#[verifier::external_body]
pub(crate) fn par_map<T: Send, I: Fn(usize) -> T + Sync + Send>(n: usize, item: I) -> (out: Vec<T>)
    requires
        forall|i: usize| i < n ==> call_requires(item, (i,)),
    ensures
        out@.len() == n,
        forall|i: usize| i < n ==> call_ensures(item, (i,), #[trigger] out@[i as int]),
{
    (0..n).into_par_iter().map(item).collect()
}

/// The element at column `col` of row `row` in rows of `width` elements laid end
/// to end.
pub open spec fn cell<T>(cells: Seq<T>, width: int, row: int, col: int) -> T {
    cells[row * width + col]
}

pub(crate) proof fn lemma_cell_in_range(width: int, height: int, row: int, col: int)
    requires
        0 <= row < height,
        0 <= col < width,
    ensures
        0 <= row * width,
        row * width + col < height * width,
        row * width + col < (row + 1) * width,
        (row + 1) * width <= height * width,
        (row + 1) * width == row * width + width,
{
    assert((row + 1) * width == row * width + width) by (nonlinear_arith);
    assert((row + 1) * width <= height * width) by (nonlinear_arith)
        requires
            row + 1 <= height,
            0 <= width,
    ;
    assert(0 <= row * width) by (nonlinear_arith)
        requires
            0 <= row,
            0 <= width,
    ;
}

/// Lays rows of equal width end to end.
pub(crate) fn concat_rows<T: Copy>(rows: &Vec<Vec<T>>, width: usize) -> (out: Vec<T>)
    requires
        forall|r: int| 0 <= r < rows@.len() ==> (#[trigger] rows@[r])@.len() == width,
        rows@.len() * width <= usize::MAX,
    ensures
        out@.len() == rows@.len() * width,
        forall|r: int, c: int|
            0 <= r < rows@.len() && 0 <= c < width ==> #[trigger] cell(out@, width as int, r, c)
                == rows@[r]@[c],
{
    let mut out: Vec<T> = Vec::with_capacity(rows.len() * width);
    assert(0 * width == 0) by (nonlinear_arith);
    for i in 0..rows.len()
        invariant
            forall|r: int| 0 <= r < rows@.len() ==> (#[trigger] rows@[r])@.len() == width,
            out@.len() == i * width,
            forall|r: int, c: int|
                0 <= r < i && 0 <= c < width ==> #[trigger] cell(out@, width as int, r, c)
                    == rows@[r]@[c],
    {
        let row = &rows[i];
        for j in 0..width
            invariant
                0 <= i < rows@.len(),
                row@ == rows@[i as int]@,
                row@.len() == width,
                out@.len() == i * width + j,
                forall|r: int, c: int|
                    0 <= r < i && 0 <= c < width ==> #[trigger] cell(out@, width as int, r, c)
                        == rows@[r]@[c],
                forall|c: int|
                    0 <= c < j ==> #[trigger] cell(out@, width as int, i as int, c) == row@[c],
        {
            let ghost before = out@;
            out.push(row[j]);
            assert forall|r: int, c: int| 0 <= r < i && 0 <= c < width implies #[trigger] cell(
                out@,
                width as int,
                r,
                c,
            ) == rows@[r]@[c] by {
                lemma_cell_in_range(width as int, i as int, r, c);
                assert(cell(before, width as int, r, c) == rows@[r]@[c]);
            }
            assert forall|c: int| 0 <= c < j + 1 implies #[trigger] cell(
                out@,
                width as int,
                i as int,
                c,
            ) == row@[c] by {
                if c < j {
                    assert(cell(before, width as int, i as int, c) == row@[c]);
                }
            }
        }
        assert((i + 1) * width == i * width + width) by (nonlinear_arith);
    }
    out
}

} // verus!
