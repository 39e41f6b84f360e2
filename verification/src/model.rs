//! The mathematical model of a grid: a sequence of rows, each a sequence of
//! cells, addressed row-major. `cells[y][x]` is true when the cell in row `y`,
//! column `x` is alive.

use vstd::prelude::*;

verus! {

/// A well-formed grid model: at least one row and one column, every row the
/// same width, and few enough cells that the backing store can hold them.
pub open spec fn wf_cells(cells: Seq<Seq<bool>>) -> bool {
    &&& cells.len() >= 1
    &&& cells[0].len() >= 1
    &&& forall|y: int| 0 <= y < cells.len() ==> (#[trigger] cells[y]).len() == cells[0].len()
    &&& cells.len() * cells[0].len() <= usize::MAX
}

/// A grid of the given dimensions with every cell dead.
pub open spec fn all_dead(rows: nat, cols: nat) -> Seq<Seq<bool>> {
    Seq::new(rows, |y: int| Seq::new(cols, |x: int| false))
}

/// The grid with the cell in row `y`, column `x` made alive.
pub open spec fn set_cell(cells: Seq<Seq<bool>>, y: int, x: int) -> Seq<Seq<bool>> {
    cells.update(y, cells[y].update(x, true))
}

/// The deep view of a matrix is its rows' views, row by row.
pub proof fn lemma_cells_deep(v: &Vec<Vec<bool>>)
    ensures
        v.deep_view().len() == v@.len(),
        forall|i: int| 0 <= i < v@.len() ==> #[trigger] v.deep_view()[i] == v@[i]@,
{
    assert forall|i: int| 0 <= i < v@.len() implies #[trigger] v.deep_view()[i] == v@[i]@ by {
        assert(v@[i].deep_view() =~= v@[i]@);
    }
}

} // verus!
