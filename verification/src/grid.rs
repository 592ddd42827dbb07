//! A rectangular grid of `i64` cells, stored in an `ndarray` array.
//!
//! Verus refuses a declaration of `ndarray::ArrayBase` itself (its trait
//! bound cannot be stated here), so the array lives in a private field of
//! an opaque struct.  The grid's contents are modelled by the
//! uninterpreted function [`grid_of`], which gives the rows of the array
//! as a sequence of sequences of integers.  The three trusted wrappers
//! below state, over that model, what `ndarray`'s constructor and element
//! accessors do.

use vstd::prelude::*;

verus! {

/// A two-dimensional array of `i64`, backed by `ndarray::Array2`.
#[verifier::external_body]
pub struct Grid {
    cells: ndarray::Array2<i64>,
}

/// The contents of a grid: one inner sequence per row, top to bottom.
pub uninterp spec fn grid_of(g: Grid) -> Seq<Seq<int>>;

/// Holds when every row of `s` has exactly `cols` entries.
pub open spec fn rect(s: Seq<Seq<int>>, cols: int) -> bool {
    forall|i: int| 0 <= i < s.len() ==> (#[trigger] s[i]).len() == cols
}

/// Relies on `ndarray::Array2::zeros`: a freshly allocated
/// `rows` x `cols` array whose every element is zero.
#[verifier::external_body]
pub fn grid_zeros(rows: usize, cols: usize) -> (g: Grid)
    requires
        rows >= 1,
        cols >= 1,
        rows * cols <= 0x1000_0000,
    ensures
        grid_of(g).len() == rows,
        rect(grid_of(g), cols as int),
        forall|i: int, j: int|
            0 <= i < rows && 0 <= j < cols ==> #[trigger] grid_of(g)[i][j] == 0,
{
    Grid { cells: ndarray::Array2::zeros((rows, cols)) }
}

/// Relies on `ndarray`'s `Index` impl for `[usize; 2]`: reads the element
/// in row `i`, column `j`.
#[verifier::external_body]
pub fn grid_get(g: &Grid, i: usize, j: usize) -> (v: i64)
    requires
        i < grid_of(*g).len(),
        j < grid_of(*g)[i as int].len(),
    ensures
        v == grid_of(*g)[i as int][j as int],
{
    g.cells[[i, j]]
}

/// Relies on `ndarray`'s `IndexMut` impl for `[usize; 2]`: writes `v` to
/// the element in row `i`, column `j` and changes nothing else.
#[verifier::external_body]
pub fn grid_set(g: &mut Grid, i: usize, j: usize, v: i64)
    requires
        i < grid_of(*old(g)).len(),
        j < grid_of(*old(g))[i as int].len(),
    ensures
        grid_of(*final(g)) == grid_of(*old(g)).update(
            i as int,
            grid_of(*old(g))[i as int].update(j as int, v as int),
        ),
{
    g.cells[[i, j]] = v;
}

} // verus!
