//! The transition rule: Conway's Game of Life on a torus.

use vstd::prelude::*;
use vstd::arithmetic::div_mod::{
    lemma_fundamental_div_mod,
    lemma_fundamental_div_mod_converse,
    lemma_mod_bound,
};

use crate::grid::Grid;
use crate::state::{dead_board, is_board, rows_view, State};

verus! {

/// The cell at `(row, col)` of the plane that repeats the board without end
/// in both axes. Inside the board it is the board's own cell.
pub open spec fn tiled_cell(cells: Seq<Seq<u8>>, row: int, col: int) -> u8 {
    cells[row % (cells.len() as int)][col % (cells[0].len() as int)]
}

/// Number of live cells among the eight neighbours of `(row, col)` on the
/// repeated plane, which is what wrapping at the edges of the torus means.
pub open spec fn live_neighbors(cells: Seq<Seq<u8>>, row: int, col: int) -> int {
    tiled_cell(cells, row - 1, col - 1) + tiled_cell(cells, row - 1, col) + tiled_cell(
        cells,
        row - 1,
        col + 1,
    ) + tiled_cell(cells, row, col - 1) + tiled_cell(cells, row, col + 1) + tiled_cell(
        cells,
        row + 1,
        col - 1,
    ) + tiled_cell(cells, row + 1, col) + tiled_cell(cells, row + 1, col + 1)
}

/// What becomes of a cell that has `neighbors` live neighbours.
pub open spec fn next_cell(cell: u8, neighbors: int) -> u8 {
    if cell == 1 && neighbors < 2 {
        0
    } else if cell == 1 && (neighbors == 2 || neighbors == 3) {
        1
    } else if cell == 1 && neighbors > 3 {
        0
    } else if cell == 0 && neighbors == 3 {
        1
    } else {
        cell
    }
}

/// Row `row` of the next generation.
pub open spec fn next_row(cells: Seq<Seq<u8>>, row: int) -> Seq<u8> {
    Seq::new(cells[0].len(), |col: int| next_cell(cells[row][col], live_neighbors(cells, row, col)))
}

/// The next generation of a board: every cell is replaced at once, each
/// judged by its neighbours in the board as it was.
pub open spec fn next_board(cells: Seq<Seq<u8>>) -> Seq<Seq<u8>> {
    Seq::new(cells.len(), |row: int| next_row(cells, row))
}

/// Moving one step along an axis of length `size` wraps at both ends.
pub proof fn lemma_wrap_step(x: int, size: int)
    requires
        size > 0,
    ensures
        0 <= x % size < size,
        (x + 1) % size == if x % size == size - 1 {
            0
        } else {
            x % size + 1
        },
        (x - 1) % size == if x % size == 0 {
            size - 1
        } else {
            x % size - 1
        },
{
    let q = x / size;
    let r = x % size;
    lemma_fundamental_div_mod(x, size);
    lemma_mod_bound(x, size);
    assert(x == q * size + r) by (nonlinear_arith)
        requires
            x == size * q + r,
    ;
    if r == size - 1 {
        assert(x + 1 == (q + 1) * size + 0) by (nonlinear_arith)
            requires
                x == q * size + r,
                r == size - 1,
        ;
        lemma_fundamental_div_mod_converse(x + 1, size, q + 1, 0);
    } else {
        lemma_fundamental_div_mod_converse(x + 1, size, q, r + 1);
    }
    if r == 0 {
        assert(x - 1 == (q - 1) * size + (size - 1)) by (nonlinear_arith)
            requires
                x == q * size + r,
                r == 0,
        ;
        lemma_fundamental_div_mod_converse(x - 1, size, q - 1, size - 1);
    } else {
        lemma_fundamental_div_mod_converse(x - 1, size, q, r - 1);
    }
}

/// The repeated plane has the board's periods: shifting by whole boards
/// changes no cell, hence no neighbour count.
pub proof fn lemma_neighbors_periodic(cells: Seq<Seq<u8>>, row: int, col: int, a: int, b: int)
    requires
        is_board(cells),
    ensures
        tiled_cell(cells, row + a * cells.len(), col + b * cells[0].len()) == tiled_cell(
            cells,
            row,
            col,
        ),
        live_neighbors(cells, row + a * cells.len(), col + b * cells[0].len()) == live_neighbors(
            cells,
            row,
            col,
        ),
{
    let h = cells.len() as int;
    let w = cells[0].len() as int;
    assert forall|x: int, k: int, size: int| size > 0 implies #[trigger] ((x + k * size) % size)
        == x % size by {
        lemma_fundamental_div_mod(x, size);
        lemma_mod_bound(x, size);
        let q = x / size;
        let r = x % size;
        assert(x + k * size == (q + k) * size + r) by (nonlinear_arith)
            requires
                x == size * q + r,
        ;
        lemma_fundamental_div_mod_converse(x + k * size, size, q + k, r);
    }
    assert((row + a * h) % h == row % h);
    assert((col + b * w) % w == col % w);
    assert((row - 1 + a * h) % h == (row - 1) % h);
    assert((row + 1 + a * h) % h == (row + 1) % h);
    assert((col - 1 + b * w) % w == (col - 1) % w);
    assert((col + 1 + b * w) % w == (col + 1) % w);
}

/// A neighbour count of a board lies between 0 and 8.
pub proof fn lemma_neighbors_bounded(cells: Seq<Seq<u8>>, row: int, col: int)
    requires
        is_board(cells),
    ensures
        0 <= live_neighbors(cells, row, col) <= 8,
{
    let h = cells.len() as int;
    let w = cells[0].len() as int;
    lemma_wrap_step(row, h);
    lemma_wrap_step(col, w);
    assert(0 <= (row - 1) % h < h && 0 <= (row + 1) % h < h);
    assert(0 <= (col - 1) % w < w && 0 <= (col + 1) % w < w);
    assert(forall|i: int, j: int| 0 <= i < h && 0 <= j < w ==> #[trigger] cells[i][j] <= 1);
}

/// The next generation of a board is a board of the same size.
pub proof fn lemma_next_board_is_board(cells: Seq<Seq<u8>>)
    requires
        is_board(cells),
    ensures
        is_board(next_board(cells)),
        next_board(cells).len() == cells.len(),
        next_board(cells)[0].len() == cells[0].len(),
{
    let next = next_board(cells);
    assert forall|i: int, j: int| 0 <= i < next.len() && 0 <= j < next[0].len() implies #[trigger] next[i][j]
        <= 1 by {
        lemma_neighbors_bounded(cells, i, j);
        assert(cells[i][j] <= 1);
    }
}

/// The positions before, at and after `index` on a ring of `size` places.
fn ring_positions(index: usize, size: usize) -> (around: (usize, usize, usize))
    requires
        size > 0,
    ensures
        around.0 == (index - 1) % (size as int),
        around.1 == index as int % (size as int),
        around.2 == (index + 1) % (size as int),
        around.0 < size,
        around.1 < size,
        around.2 < size,
{
    let at = index % size;
    let before = if at == 0 {
        size - 1
    } else {
        at - 1
    };
    let after = if at == size - 1 {
        0
    } else {
        at + 1
    };
    proof {
        lemma_wrap_step(index as int, size as int);
    }
    (before, at, after)
}

/// Counts the live cells among the eight neighbours of `(row, col)`. The
/// board is a torus: coordinates wrap modulo its height and width, so the
/// count is that of the plane tiled with the board, for any `row` and `col`.
pub fn count_neighbors(state: &State, row: usize, col: usize) -> (count: u8)
    ensures
        count == live_neighbors(state@, row as int, col as int),
        count <= 8,
{
    let (up, r, down) = ring_positions(row, state.height());
    let (left, c, right) = ring_positions(col, state.width());
    let mut count: u8 = state.cell_at(up, left);
    count += state.cell_at(up, c);
    count += state.cell_at(up, right);
    count += state.cell_at(r, left);
    count += state.cell_at(r, right);
    count += state.cell_at(down, left);
    count += state.cell_at(down, c);
    count += state.cell_at(down, right);
    count
}

/// Applies the rule to one cell.
pub fn evolve_cell(cell: u8, neighbors: u8) -> (next: u8)
    ensures
        next == next_cell(cell, neighbors as int),
{
    if cell == 1 && neighbors < 2 {
        0
    } else if cell == 1 && (neighbors == 2 || neighbors == 3) {
        1
    } else if cell == 1 && neighbors > 3 {
        0
    } else if cell == 0 && neighbors == 3 {
        1
    } else {
        cell
    }
}

/// Computes the next generation of `state` and tells whether any cell
/// differs from it. The input is left as it was.
pub fn transition(state: &State) -> (result: (State, bool))
    ensures
        result.0@ == next_board(state@),
        result.1 == (next_board(state@) != state@),
{
    let height = state.height();
    let width = state.width();
    let ghost cells = state@;
    proof {
        use_type_invariant(state);
        state.lemma_is_board();
    }
    let mut rows: Vec<Vec<u8>> = Vec::new();
    let mut i: usize = 0;
    while i < height
        invariant
            is_board(cells),
            0 <= i <= height,
            height == cells.len(),
            width == cells[0].len(),
            cells == state@,
            rows@.len() == i,
            forall|k: int| 0 <= k < i ==> (#[trigger] rows@[k])@ == next_row(cells, k),
        decreases height - i,
    {
        let mut row: Vec<u8> = Vec::new();
        let mut j: usize = 0;
        while j < width
            invariant
                is_board(cells),
                0 <= j <= width,
                i < height,
                height == cells.len(),
                width == cells[0].len(),
                cells == state@,
                row@.len() == j,
                forall|k: int|
                    0 <= k < j ==> #[trigger] row@[k] == next_cell(
                        cells[i as int][k],
                        live_neighbors(cells, i as int, k),
                    ),
            decreases width - j,
        {
            let neighbors = count_neighbors(state, i, j);
            let cell = state.cell_at(i, j);
            row.push(evolve_cell(cell, neighbors));
            j += 1;
        }
        assert(row@ =~= next_row(cells, i as int));
        rows.push(row);
        i += 1;
    }
    proof {
        assert(rows_view(rows@) =~= next_board(cells));
        lemma_next_board_is_board(cells);
    }
    let next = State::from_board(rows);
    let changed = !(next == *state);
    (next, changed)
}

/// Appends the next generation of the current state to the history and
/// tells whether it differs from the current state. An empty history is
/// left empty, and counts as unchanged.
pub fn update_cell_state(grid: &mut Grid) -> (changed: bool)
    ensures
        old(grid)@.len() == 0 ==> !changed && final(grid)@ == old(grid)@,
        old(grid)@.len() > 0 ==> {
            let current = old(grid)@.last();
            &&& final(grid)@ == old(grid)@.push(next_board(current))
            &&& changed == (next_board(current) != current)
        },
{
    let step = match grid.current_state() {
        Some(previous) => Some(transition(previous)),
        None => None,
    };
    match step {
        Some((next, changed)) => {
            grid.push_history(next);
            changed
        },
        None => false,
    }
}

/// A board with no live cell stays as it is: nothing is born from nothing.
pub proof fn lemma_dead_board_is_fixed(width: nat, height: nat)
    requires
        width > 0,
        height > 0,
    ensures
        next_board(dead_board(width, height)) == dead_board(width, height),
{
    let cells = dead_board(width, height);
    let next = next_board(cells);
    assert forall|i: int| 0 <= i < next.len() implies #[trigger] next[i] == cells[i] by {
        assert forall|j: int| 0 <= j < next[i].len() implies #[trigger] next[i][j] == cells[i][j] by {
            lemma_wrap_step(i, height as int);
            lemma_wrap_step(j, width as int);
            assert(live_neighbors(cells, i, j) == 0);
        }
        assert(next[i] =~= cells[i]);
    }
    assert(next =~= cells);
}

/// The rule is a function of the board alone: boards that are equal have
/// equal next generations, and either both change or neither does.
pub proof fn lemma_transition_deterministic(first: Seq<Seq<u8>>, second: Seq<Seq<u8>>)
    requires
        first == second,
    ensures
        next_board(first) == next_board(second),
        (next_board(first) != first) == (next_board(second) != second),
{
}

/// A board whose only live cell is the one at `(row, col)`.
pub open spec fn is_lone_cell(cells: Seq<Seq<u8>>, row: int, col: int) -> bool {
    &&& is_board(cells)
    &&& 0 <= row < cells.len()
    &&& 0 <= col < cells[0].len()
    &&& forall|i: int, j: int|
        0 <= i < cells.len() && 0 <= j < cells[0].len() ==> #[trigger] cells[i][j] == (if i == row
            && j == col {
            1u8
        } else {
            0u8
        })
}

/// A live cell with no other live cell on the board dies, and nothing is
/// born beside it: the next generation is dead. The board has at least two
/// rows and two columns, so that the cell is not its own neighbour.
pub proof fn lemma_lone_cell_dies(cells: Seq<Seq<u8>>, row: int, col: int)
    requires
        is_lone_cell(cells, row, col),
        cells.len() >= 2,
        cells[0].len() >= 2,
    ensures
        next_board(cells) == dead_board(cells[0].len(), cells.len()),
{
    let h = cells.len() as int;
    let w = cells[0].len() as int;
    let next = next_board(cells);
    let dead = dead_board(w as nat, h as nat);
    assert forall|i: int| 0 <= i < h implies #[trigger] next[i] == dead[i] by {
        assert forall|j: int| 0 <= j < w implies #[trigger] next[i][j] == 0 by {
            lemma_wrap_step(i, h);
            lemma_wrap_step(j, w);
            let up = (i - 1) % h;
            let down = (i + 1) % h;
            let left = (j - 1) % w;
            let right = (j + 1) % w;
            assert(i % h == i && j % w == j) by {
                vstd::arithmetic::div_mod::lemma_small_mod(i as nat, h as nat);
                vstd::arithmetic::div_mod::lemma_small_mod(j as nat, w as nat);
            }
            assert(up != i && down != i && left != j && right != j);
            let ul = cells[up][left];
            let uc = cells[up][j];
            let ur = cells[up][right];
            let cl = cells[i][left];
            let cr = cells[i][right];
            let dl = cells[down][left];
            let dc = cells[down][j];
            let dr = cells[down][right];
            let here = cells[i][j];
            assert(live_neighbors(cells, i, j) == ul + uc + ur + cl + cr + dl + dc + dr);
            if i == row && j == col {
                assert(live_neighbors(cells, i, j) == 0);
            } else {
                assert(here == 0);
                assert(live_neighbors(cells, i, j) != 3);
            }
        }
        assert(next[i] =~= dead[i]);
    }
    assert(next =~= dead);
}

/// A board whose live cells are those of the two-by-two block with its
/// upper left corner at `(row, col)`; the block may reach across an edge.
pub open spec fn is_block(cells: Seq<Seq<u8>>, row: int, col: int) -> bool {
    &&& is_board(cells)
    &&& 0 <= row < cells.len()
    &&& 0 <= col < cells[0].len()
    &&& forall|i: int, j: int|
        0 <= i < cells.len() && 0 <= j < cells[0].len() ==> #[trigger] cells[i][j] == (if (i == row
            || i == (row + 1) % (cells.len() as int)) && (j == col || j == (col + 1) % (
        cells[0].len() as int)) {
            1u8
        } else {
            0u8
        })
}

/// A two-by-two block is stable: each of its cells has three live
/// neighbours and survives, and no dead cell has exactly three. The board
/// has at least three rows and three columns, so that no cell of the block
/// is counted twice around the torus.
pub proof fn lemma_block_is_stable(cells: Seq<Seq<u8>>, row: int, col: int)
    requires
        is_block(cells, row, col),
        cells.len() >= 3,
        cells[0].len() >= 3,
    ensures
        next_board(cells) == cells,
{
    let h = cells.len() as int;
    let w = cells[0].len() as int;
    let next = next_board(cells);
    lemma_wrap_step(row, h);
    lemma_wrap_step(col, w);
    vstd::arithmetic::div_mod::lemma_small_mod(row as nat, h as nat);
    vstd::arithmetic::div_mod::lemma_small_mod(col as nat, w as nat);
    assert forall|i: int| 0 <= i < h implies #[trigger] next[i] == cells[i] by {
        assert(cells[i].len() == w);
        assert forall|j: int| 0 <= j < w implies #[trigger] next[i][j] == cells[i][j] by {
            lemma_wrap_step(i, h);
            lemma_wrap_step(j, w);
            vstd::arithmetic::div_mod::lemma_small_mod(i as nat, h as nat);
            vstd::arithmetic::div_mod::lemma_small_mod(j as nat, w as nat);
            let up = (i - 1) % h;
            let down = (i + 1) % h;
            let left = (j - 1) % w;
            let right = (j + 1) % w;
            let ul = cells[up][left];
            let uc = cells[up][j];
            let ur = cells[up][right];
            let cl = cells[i][left];
            let cr = cells[i][right];
            let dl = cells[down][left];
            let dc = cells[down][j];
            let dr = cells[down][right];
            let here = cells[i][j];
            assert(live_neighbors(cells, i, j) == ul + uc + ur + cl + cr + dl + dc + dr);
            if here == 1 {
                assert(live_neighbors(cells, i, j) == 3);
            } else {
                assert(here == 0);
                assert(live_neighbors(cells, i, j) != 3);
            }
        }
        assert(next[i] =~= cells[i]);
    }
    assert(next =~= cells);
}

} // verus!
