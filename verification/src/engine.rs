//! The transition engine: one Game of Life generation, under a configurable
//! policy for neighbour coordinates that fall outside the grid.

use vstd::prelude::*;
use crate::model::{lemma_cells_deep, wf_cells};
use crate::store::{grid_cells, grid_cols, grid_get, grid_rows, grid_set};

verus! {

/// How a neighbour coordinate outside the grid bounds is resolved.
#[derive(Clone, Copy, Debug)]
pub enum EdgeCaseMethod {
    /// Out-of-bounds coordinates are treated as dead cells.
    AssumeDead,
    /// Coordinates wrap around each axis independently: the grid is a torus.
    Toroidal,
}

/// Resolves one axis of a neighbour lookup. `pos` is at most one step outside
/// `[0, n)`. `None` means the coordinate is off the grid and the cell there
/// counts as dead.
pub open spec fn resolve_axis(pos: int, n: int, method: EdgeCaseMethod) -> Option<int> {
    match method {
        EdgeCaseMethod::AssumeDead => if 0 <= pos < n {
            Some(pos)
        } else {
            None
        },
        EdgeCaseMethod::Toroidal => Some(
            if pos < 0 {
                pos + n
            } else if pos >= n {
                pos - n
            } else {
                pos
            },
        ),
    }
}

/// Whether the neighbour at column `x`, row `y` (either may be one step out
/// of bounds) is alive, under the given policy.
pub open spec fn neighbour_alive(
    cells: Seq<Seq<bool>>,
    method: EdgeCaseMethod,
    x: int,
    y: int,
) -> bool {
    let rows = cells.len() as int;
    let cols = cells[0].len() as int;
    match (resolve_axis(x, cols, method), resolve_axis(y, rows, method)) {
        (Some(rx), Some(ry)) => cells[ry][rx],
        _ => false,
    }
}

/// 1 when the neighbour is alive, else 0.
pub open spec fn neighbour_count(
    cells: Seq<Seq<bool>>,
    method: EdgeCaseMethod,
    x: int,
    y: int,
) -> int {
    if neighbour_alive(cells, method, x, y) {
        1
    } else {
        0
    }
}

/// The number of live cells among the eight Moore neighbours of `(x, y)`.
pub open spec fn live_neighbours_spec(
    cells: Seq<Seq<bool>>,
    method: EdgeCaseMethod,
    x: int,
    y: int,
) -> int {
    neighbour_count(cells, method, x - 1, y - 1) + neighbour_count(cells, method, x, y - 1)
        + neighbour_count(cells, method, x + 1, y - 1) + neighbour_count(cells, method, x - 1, y)
        + neighbour_count(cells, method, x + 1, y) + neighbour_count(cells, method, x - 1, y + 1)
        + neighbour_count(cells, method, x, y + 1) + neighbour_count(cells, method, x + 1, y + 1)
}

/// The standard rule, applied to one cell: a live cell survives with two or
/// three live neighbours, a dead cell is born with exactly three.
pub open spec fn next_cell_spec(
    cells: Seq<Seq<bool>>,
    method: EdgeCaseMethod,
    x: int,
    y: int,
) -> bool {
    let n = live_neighbours_spec(cells, method, x, y);
    if cells[y][x] {
        n == 2 || n == 3
    } else {
        n == 3
    }
}

/// The next generation: every cell of the result is the rule applied to the
/// previous generation, so the dimensions are unchanged.
pub open spec fn step_spec(cells: Seq<Seq<bool>>, method: EdgeCaseMethod) -> Seq<Seq<bool>> {
    Seq::new(cells.len(), |y: int| Seq::new(cells[0].len(), |x: int| next_cell_spec(cells, method, x, y)))
}

/// Resolves one axis of a neighbour lookup in executable code: the cell sits
/// at `i` in `[0, n)` and the neighbour is `step` away.
fn offset_axis(i: usize, step: i8, n: usize, method: &EdgeCaseMethod) -> (r: Option<usize>)
    requires
        i < n,
        -1 <= step <= 1,
    ensures
        match r {
            Some(p) => resolve_axis(i + step, n as int, *method) == Some(p as int),
            None => resolve_axis(i + step, n as int, *method) is None,
        },
{
    if step < 0 {
        if i == 0 {
            match method {
                EdgeCaseMethod::AssumeDead => None,
                EdgeCaseMethod::Toroidal => Some(n - 1),
            }
        } else {
            Some(i - 1)
        }
    } else if step > 0 {
        if i + 1 == n {
            match method {
                EdgeCaseMethod::AssumeDead => None,
                EdgeCaseMethod::Toroidal => Some(0),
            }
        } else {
            Some(i + 1)
        }
    } else {
        Some(i)
    }
}

/// The neighbour of `(x, y)` that is `dx` columns and `dy` rows away,
/// resolved under the policy.
fn neighbour_of(
    cells: &Vec<Vec<bool>>,
    method: &EdgeCaseMethod,
    x: usize,
    y: usize,
    dx: i8,
    dy: i8,
) -> (b: bool)
    requires
        wf_cells(cells.deep_view()),
        y < cells@.len(),
        x < cells@[0]@.len(),
        -1 <= dx <= 1,
        -1 <= dy <= 1,
    ensures
        b == neighbour_alive(cells.deep_view(), *method, x + dx, y + dy),
{
    let rows = cells.len();
    let cols = cells[0].len();
    match (offset_axis(x, dx, cols, method), offset_axis(y, dy, rows, method)) {
        (Some(nx), Some(ny)) => {
            assert(cells.deep_view()[ny as int].len() == cols);
            cells[ny][nx]
        },
        _ => false,
    }
}

/// The number of live cells among the eight Moore neighbours of the cell at
/// column `x`, row `y`, resolved under the policy.
pub fn live_neighbours(cells: &Vec<Vec<bool>>, method: &EdgeCaseMethod, x: usize, y: usize) -> (n:
    u8)
    requires
        wf_cells(cells.deep_view()),
        y < cells@.len(),
        x < cells@[0]@.len(),
    ensures
        n == live_neighbours_spec(cells.deep_view(), *method, x as int, y as int),
{
    let mut n: u8 = 0;
    if neighbour_of(cells, method, x, y, -1, -1) {
        n = n + 1;
    }
    if neighbour_of(cells, method, x, y, 0, -1) {
        n = n + 1;
    }
    if neighbour_of(cells, method, x, y, 1, -1) {
        n = n + 1;
    }
    if neighbour_of(cells, method, x, y, -1, 0) {
        n = n + 1;
    }
    if neighbour_of(cells, method, x, y, 1, 0) {
        n = n + 1;
    }
    if neighbour_of(cells, method, x, y, -1, 1) {
        n = n + 1;
    }
    if neighbour_of(cells, method, x, y, 0, 1) {
        n = n + 1;
    }
    if neighbour_of(cells, method, x, y, 1, 1) {
        n = n + 1;
    }
    n
}

/// One generation as a pure function: the rule applied to every cell of the
/// input, which is left untouched.
pub fn next_generation(cells: &Vec<Vec<bool>>, method: &EdgeCaseMethod) -> (next: Vec<Vec<bool>>)
    requires
        wf_cells(cells.deep_view()),
    ensures
        next.deep_view() == step_spec(cells.deep_view(), *method),
{
    proof {
        lemma_cells_deep(cells);
    }
    let rows = cells.len();
    let cols = cells[0].len();
    let ghost target = step_spec(cells.deep_view(), *method);
    let mut next: Vec<Vec<bool>> = Vec::new();
    for y in 0..rows
        invariant
            wf_cells(cells.deep_view()),
            rows == cells@.len(),
            cols == cells@[0]@.len(),
            target == step_spec(cells.deep_view(), *method),
            target.len() == rows,
            forall|i: int| 0 <= i < rows ==> (#[trigger] target[i]).len() == cols,
            next@.len() == y,
            forall|i: int| 0 <= i < y ==> (#[trigger] next@[i])@ == target[i],
    {
        let mut row: Vec<bool> = Vec::new();
        for x in 0..cols
            invariant
                wf_cells(cells.deep_view()),
                rows == cells@.len(),
                cols == cells@[0]@.len(),
                y < rows,
                target == step_spec(cells.deep_view(), *method),
                target.len() == rows,
                forall|i: int| 0 <= i < rows ==> (#[trigger] target[i]).len() == cols,
                row@.len() == x,
                forall|j: int| 0 <= j < x ==> row@[j] == target[y as int][j],
        {
            proof {
                lemma_cells_deep(cells);
            }
            assert(cells.deep_view()[y as int] == cells@[y as int]@);
            assert(cells.deep_view()[0] == cells@[0]@);
            assert(cells@[y as int]@.len() == cols);
            let alive = cells[y][x];
            let n = live_neighbours(cells, method, x, y);
            let v = if alive {
                n == 2 || n == 3
            } else {
                n == 3
            };
            assert(alive == cells.deep_view()[y as int][x as int]);
            row.push(v);
        }
        assert(row@ =~= target[y as int]);
        next.push(row);
    }
    proof {
        lemma_cells_deep(&next);
        assert(next.deep_view() =~~= target);
    }
    next
}

/// Reads the whole backing grid out into a plain matrix.
fn read_cells(g: &grid::Grid<bool>) -> (cells: Vec<Vec<bool>>)
    requires
        wf_cells(grid_cells(*g)),
    ensures
        cells.deep_view() == grid_cells(*g),
{
    let rows = grid_rows(g);
    let cols = grid_cols(g);
    let mut cells: Vec<Vec<bool>> = Vec::new();
    for y in 0..rows
        invariant
            wf_cells(grid_cells(*g)),
            rows == grid_cells(*g).len(),
            cols == grid_cells(*g)[0].len(),
            cells@.len() == y,
            forall|i: int| 0 <= i < y ==> (#[trigger] cells@[i])@ == grid_cells(*g)[i],
    {
        let mut row: Vec<bool> = Vec::new();
        for x in 0..cols
            invariant
                wf_cells(grid_cells(*g)),
                rows == grid_cells(*g).len(),
                cols == grid_cells(*g)[0].len(),
                y < rows,
                row@.len() == x,
                forall|j: int| 0 <= j < x ==> row@[j] == grid_cells(*g)[y as int][j],
        {
            assert(grid_cells(*g)[y as int].len() == cols);
            row.push(grid_get(g, y, x));
        }
        assert(row@ =~= grid_cells(*g)[y as int]);
        cells.push(row);
    }
    proof {
        lemma_cells_deep(&cells);
        assert(cells.deep_view() =~~= grid_cells(*g));
    }
    cells
}

/// Whether two equally sized matrices differ in any cell.
fn cells_differ(a: &Vec<Vec<bool>>, b: &Vec<Vec<bool>>) -> (r: bool)
    requires
        a@.len() == b@.len(),
        forall|i: int| 0 <= i < a@.len() ==> (#[trigger] a@[i])@.len() == (#[trigger] b@[i])@.len(),
    ensures
        r == (a.deep_view() != b.deep_view()),
{
    let rows = a.len();
    let mut differ = false;
    for y in 0..rows
        invariant
            a@.len() == b@.len(),
            rows == a@.len(),
            forall|i: int|
                0 <= i < a@.len() ==> (#[trigger] a@[i])@.len() == (#[trigger] b@[i])@.len(),
            differ ==> a.deep_view() != b.deep_view(),
            !differ ==> forall|i: int, j: int|
                0 <= i < y && 0 <= j < a@[i]@.len() ==> (#[trigger] a@[i]@[j]) == b@[i]@[j],
    {
        let width = a[y].len();
        for x in 0..width
            invariant
                a@.len() == b@.len(),
                rows == a@.len(),
                y < rows,
                width == a@[y as int]@.len(),
                forall|i: int|
                    0 <= i < a@.len() ==> (#[trigger] a@[i])@.len() == (#[trigger] b@[i])@.len(),
                differ ==> a.deep_view() != b.deep_view(),
                !differ ==> forall|i: int, j: int|
                    0 <= i < y && 0 <= j < a@[i]@.len() ==> (#[trigger] a@[i]@[j]) == b@[i]@[j],
                !differ ==> forall|j: int| 0 <= j < x ==> (#[trigger] a@[y as int]@[j]) == b@[y as int]@[j],
        {
            if a[y][x] != b[y][x] {
                proof {
                    lemma_cells_deep(a);
                    lemma_cells_deep(b);
                    assert(a.deep_view()[y as int][x as int] != b.deep_view()[y as int][x as int]);
                    assert(a.deep_view() != b.deep_view()) by {
                        if a.deep_view() == b.deep_view() {
                            assert(a.deep_view()[y as int] == b.deep_view()[y as int]);
                        }
                    }
                }
                differ = true;
            }
        }
    }
    proof {
        if !differ {
            lemma_cells_deep(a);
            lemma_cells_deep(b);
            assert(a.deep_view() =~~= b.deep_view());
        }
    }
    differ
}

/// One generation, in place. The whole next generation is computed from the
/// unmodified input before any cell is written, and the returned flag says
/// whether any cell changed.
pub fn step(g: &mut grid::Grid<bool>, method: &EdgeCaseMethod) -> (changed: bool)
    requires
        wf_cells(grid_cells(*old(g))),
    ensures
        grid_cells(*final(g)) == step_spec(grid_cells(*old(g)), *method),
        changed == (step_spec(grid_cells(*old(g)), *method) != grid_cells(*old(g))),
{
    let ghost before = grid_cells(*old(g));
    let cells = read_cells(g);
    let next = next_generation(&cells, method);
    proof {
        lemma_cells_deep(&cells);
        lemma_cells_deep(&next);
        assert(next@.len() == cells@.len());
        assert forall|i: int|
            0 <= i < next@.len() implies (#[trigger] next@[i])@.len() == (
            #[trigger] cells@[i])@.len() by {
            assert(next.deep_view()[i] == next@[i]@);
            assert(cells.deep_view()[i] == cells@[i]@);
            assert(next.deep_view()[i].len() == cells.deep_view()[0].len());
            assert(cells.deep_view()[i].len() == cells.deep_view()[0].len());
        };
    }
    let changed = cells_differ(&next, &cells);
    let rows = grid_rows(g);
    let cols = grid_cols(g);
    proof {
        assert(rows == before.len());
        assert(cols == before[0].len());
        assert forall|i: int| 0 <= i < rows implies (#[trigger] next@[i])@.len() == cols by {
            assert(cells@[i]@.len() == cells.deep_view()[i].len());
            assert(cells.deep_view()[i].len() == cells.deep_view()[0].len());
        };
    }
    for y in 0..rows
        invariant
            rows == next@.len(),
            grid_cells(*g).len() == rows,
            forall|i: int| 0 <= i < rows ==> (#[trigger] grid_cells(*g)[i]).len() == cols,
            forall|i: int| 0 <= i < rows ==> (#[trigger] next@[i])@.len() == cols,
            forall|i: int| 0 <= i < y ==> (#[trigger] grid_cells(*g)[i]) == next@[i]@,
    {
        for x in 0..cols
            invariant
                rows == next@.len(),
                y < rows,
                grid_cells(*g).len() == rows,
                forall|i: int| 0 <= i < rows ==> (#[trigger] grid_cells(*g)[i]).len() == cols,
                forall|i: int| 0 <= i < rows ==> (#[trigger] next@[i])@.len() == cols,
                forall|i: int| 0 <= i < y ==> (#[trigger] grid_cells(*g)[i]) == next@[i]@,
                forall|j: int| 0 <= j < x ==> (#[trigger] grid_cells(*g)[y as int][j]) == next@[y as int]@[j],
        {
            let v = next[y][x];
            grid_set(g, y, x, v);
        }
        assert(grid_cells(*g)[y as int] =~= next@[y as int]@);
    }
    proof {
        lemma_cells_deep(&next);
        assert(grid_cells(*g) =~~= next.deep_view());
    }
    changed
}

/// The 2x2 block pattern: the four cells in rows 0..2, columns 0..2 alive,
/// every other cell dead.
pub open spec fn block_pattern(rows: nat, cols: nat) -> Seq<Seq<bool>> {
    Seq::new(rows, |y: int| Seq::new(cols, |x: int| y < 2 && x < 2))
}

/// LAW: the 2x2 block is a fixed point of the step. Under `AssumeDead` this
/// holds on any grid of at least 2x2; under `Toroidal` the grid must be at
/// least 3x3, since on a 2-wide or 2-tall torus the wrapped neighbourhoods
/// overlap the block and it dies.
#[verifier::rlimit(100)]
pub proof fn lemma_block_fixed_point(rows: nat, cols: nat, method: EdgeCaseMethod)
    requires
        rows >= 2,
        cols >= 2,
        method is Toroidal ==> rows >= 3 && cols >= 3,
    ensures
        step_spec(block_pattern(rows, cols), method) == block_pattern(rows, cols),
{
    let b = block_pattern(rows, cols);
    assert(b.len() == rows);
    assert(b[0].len() == cols);
    assert forall|y: int, x: int|
        0 <= y < rows && 0 <= x < cols implies next_cell_spec(b, method, x, y) == b[y][x] by {
        assert(forall|j: int, i: int|
            0 <= j < rows && 0 <= i < cols ==> b[j][i] == (j < 2 && i < 2));
    }
    assert(step_spec(b, method) =~~= b);
}

/// LAW: a step preserves the grid's dimensions and its well-formedness:
/// the next generation has exactly the rows and columns of the input.
pub proof fn lemma_step_preserves_wf(cells: Seq<Seq<bool>>, method: EdgeCaseMethod)
    requires
        wf_cells(cells),
    ensures
        wf_cells(step_spec(cells, method)),
        step_spec(cells, method).len() == cells.len(),
        step_spec(cells, method)[0].len() == cells[0].len(),
{
}

/// LAW: stepping is deterministic. The next generation is a function of the
/// current cells and the policy alone: equal inputs give equal outputs and an
/// equal change flag.
pub proof fn lemma_step_deterministic(
    a: Seq<Seq<bool>>,
    b: Seq<Seq<bool>>,
    method: EdgeCaseMethod,
)
    requires
        a == b,
    ensures
        step_spec(a, method) == step_spec(b, method),
        (step_spec(a, method) != a) == (step_spec(b, method) != b),
{
}

} // verus!
