//! The backing store for a living grid: `grid::Grid<bool>` from the `grid`
//! crate. Verified code reaches it only through the wrappers below, whose
//! contracts speak of `grid_cells`, the row-major contents of the store.

use vstd::prelude::*;
use crate::model::all_dead;

verus! {

#[verifier::external_type_specification]
#[verifier::external_body]
#[verifier::reject_recursive_types(T)]
pub struct ExGrid<T>(grid::Grid<T>);

/// The cells a backing grid holds: one inner sequence per row, row-major,
/// `grid_cells(g)[y][x]` the cell in row `y`, column `x`.
pub uninterp spec fn grid_cells(g: grid::Grid<bool>) -> Seq<Seq<bool>>;

/// Relies on `grid::Grid::new`: a `rows x cols` grid whose cells all hold the
/// default value, which for `bool` is false (dead). `new` panics when
/// `rows * cols` overflows `usize`, so that case is excluded here.
#[verifier::external_body]
pub(crate) fn grid_new(rows: usize, cols: usize) -> (g: grid::Grid<bool>)
    requires
        rows >= 1,
        cols >= 1,
        rows * cols <= usize::MAX,
    ensures
        grid_cells(g) == all_dead(rows as nat, cols as nat),
{
    grid::Grid::new(rows, cols)
}

/// Relies on `grid::Grid::rows`: the number of rows the grid was built with.
#[verifier::external_body]
pub(crate) fn grid_rows(g: &grid::Grid<bool>) -> (r: usize)
    ensures
        r == grid_cells(*g).len(),
{
    g.rows()
}

/// Relies on `grid::Grid::cols`: the number of columns the grid was built
/// with. For a grid with no rows the stored column count carries no contract,
/// so a row is required to exist.
#[verifier::external_body]
pub(crate) fn grid_cols(g: &grid::Grid<bool>) -> (r: usize)
    requires
        grid_cells(*g).len() >= 1,
    ensures
        r == grid_cells(*g)[0].len(),
{
    g.cols()
}

/// Relies on `Index for grid::Grid`: the stored cell at `(row, col)`.
/// Indexing panics out of bounds, so those inputs are excluded here.
#[verifier::external_body]
pub(crate) fn grid_get(g: &grid::Grid<bool>, row: usize, col: usize) -> (b: bool)
    requires
        row < grid_cells(*g).len(),
        col < grid_cells(*g)[row as int].len(),
    ensures
        b == grid_cells(*g)[row as int][col as int],
{
    g[(row, col)]
}

/// Relies on `IndexMut for grid::Grid`: stores `v` at `(row, col)` and
/// changes nothing else. Indexing panics out of bounds, so those inputs are
/// excluded here.
#[verifier::external_body]
pub(crate) fn grid_set(g: &mut grid::Grid<bool>, row: usize, col: usize, v: bool)
    requires
        row < grid_cells(*old(g)).len(),
        col < grid_cells(*old(g))[row as int].len(),
    ensures
        grid_cells(*final(g)) == grid_cells(*old(g)).update(
            row as int,
            grid_cells(*old(g))[row as int].update(col as int, v),
        ),
{
    g[(row, col)] = v;
}

} // verus!
