//! Random seeding: every cell is drawn on its own, alive with a given chance
//! in a hundred.

use vstd::prelude::*;

use crate::grid::Grid;
use crate::parse_state_error::ParseStateError;
use crate::state::{dead_board, is_board, rejection, rows_view, State};

verus! {

/// `rand::rngs::ThreadRng`, the handle to the generator that `rand` keeps
/// for each thread. Nothing is known of what is inside.
#[verifier::external_type_specification]
#[verifier::external_body]
pub struct ExThreadRng(rand::rngs::ThreadRng);

/// `rand::thread_rng` hands out the current thread's generator. Nothing is
/// claimed of the handle.
pub assume_specification[ rand::thread_rng ]() -> rand::rngs::ThreadRng;

/// One draw of `rand::Rng::gen_range` from the half-open range `0..101`,
/// which is not empty, so the call does not panic. The claim is the range
/// alone: the number drawn is at most 100.
#[verifier::external_body]
fn draw_percent(rng: &mut rand::rngs::ThreadRng) -> (draw: usize)
    ensures
        draw <= 100,
{
    rand::Rng::gen_range(rng, 0..101)
}

/// The cell that a draw gives: alive when the draw is below the chance.
pub open spec fn seeded_cell(draw: usize, chance: usize) -> u8 {
    if draw < chance {
        1
    } else {
        0
    }
}

/// The row of cells that a row of draws gives.
pub open spec fn seeded_row(draws: Seq<usize>, chance: usize) -> Seq<u8> {
    Seq::new(draws.len(), |j: int| seeded_cell(draws[j], chance))
}

/// The cells that a matrix of draws gives, cell by cell.
pub open spec fn seeded_board(draws: Seq<Seq<usize>>, chance: usize) -> Seq<Seq<u8>> {
    Seq::new(draws.len(), |i: int| seeded_row(draws[i], chance))
}

/// The draws held by a vector of rows of draws.
pub open spec fn draws_view(draws: Seq<Vec<usize>>) -> Seq<Seq<usize>> {
    Seq::new(draws.len(), |i: int| draws[i]@)
}

/// A matrix of draws for a board of the given size: one draw per cell, each
/// between 0 and 100.
pub open spec fn is_draw_matrix(draws: Seq<Seq<usize>>, width: nat, height: nat) -> bool {
    &&& draws.len() == height
    &&& forall|i: int| 0 <= i < draws.len() ==> (#[trigger] draws[i]).len() == width
    &&& forall|i: int, j: int|
        0 <= i < draws.len() && 0 <= j < draws[i].len() ==> #[trigger] draws[i][j] <= 100
}

/// A board that random seeding can produce for the given size and chance:
/// the board of some matrix of draws.
pub open spec fn is_seeded(cells: Seq<Seq<u8>>, width: nat, height: nat, chance: usize) -> bool {
    exists|draws: Seq<Seq<usize>>|
        is_draw_matrix(draws, width, height) && cells == #[trigger] seeded_board(draws, chance)
}

/// Decides one cell from its draw.
pub fn cell_from_draw(draw: usize, chance: usize) -> (cell: u8)
    ensures
        cell == seeded_cell(draw, chance),
{
    if draw < chance {
        1
    } else {
        0
    }
}

/// Decides every cell from its draw.
fn cells_from_draws(draws: &Vec<Vec<usize>>, chance: usize) -> (rows: Vec<Vec<u8>>)
    ensures
        rows_view(rows@) == seeded_board(draws_view(draws@), chance),
{
    let mut rows: Vec<Vec<u8>> = Vec::new();
    let mut i: usize = 0;
    while i < draws.len()
        invariant
            0 <= i <= draws.len(),
            rows@.len() == i,
            forall|k: int| 0 <= k < i ==> (#[trigger] rows@[k])@ == seeded_row(draws@[k]@, chance),
        decreases draws.len() - i,
    {
        let source = &draws[i];
        let mut row: Vec<u8> = Vec::new();
        let mut j: usize = 0;
        while j < source.len()
            invariant
                0 <= j <= source.len(),
                row@.len() == j,
                forall|k: int| 0 <= k < j ==> #[trigger] row@[k] == seeded_cell(source@[k], chance),
            decreases source.len() - j,
        {
            row.push(cell_from_draw(source[j], chance));
            j += 1;
        }
        assert(row@ =~= seeded_row(source@, chance));
        rows.push(row);
        i += 1;
    }
    assert(rows_view(rows@) =~= seeded_board(draws_view(draws@), chance));
    rows
}

/// A seeded board is a board of the size of its draws.
pub proof fn lemma_seeded_is_board(cells: Seq<Seq<u8>>, width: nat, height: nat, chance: usize)
    requires
        width > 0,
        height > 0,
        is_seeded(cells, width, height, chance),
    ensures
        is_board(cells),
        cells.len() == height,
        cells[0].len() == width,
{
    let draws = choose|draws: Seq<Seq<usize>>|
        is_draw_matrix(draws, width, height) && cells == #[trigger] seeded_board(draws, chance);
    assert(cells[0] == seeded_row(draws[0], chance));
    assert forall|i: int| 0 <= i < cells.len() implies (#[trigger] cells[i]).len()
        == cells[0].len() by {
        assert(draws[i].len() == width);
    }
}

/// With a chance of zero no draw is below it: every seeded board is dead.
pub proof fn lemma_seeded_with_no_chance(cells: Seq<Seq<u8>>, width: nat, height: nat)
    requires
        is_seeded(cells, width, height, 0),
    ensures
        cells == dead_board(width, height),
{
    let draws = choose|draws: Seq<Seq<usize>>|
        is_draw_matrix(draws, width, height) && cells == #[trigger] seeded_board(draws, 0);
    assert forall|i: int| 0 <= i < cells.len() implies #[trigger] cells[i] == dead_board(
        width,
        height,
    )[i] by {
        assert(draws[i].len() == width);
        assert(cells[i] =~= dead_board(width, height)[i]);
    }
    assert(cells =~= dead_board(width, height));
}

impl State {
    /// The state that a matrix of draws gives: the cell at `(i, j)` is alive
    /// when `draws[i][j]` is below `chance`. Fails when the draws do not
    /// form a non-empty rectangle.
    pub fn seeded(draws: &Vec<Vec<usize>>, chance: usize) -> (r: Result<State, ParseStateError>)
        ensures
            r is Ok <==> is_board(seeded_board(draws_view(draws@), chance)),
            r matches Ok(s) ==> s@ == seeded_board(draws_view(draws@), chance),
            r matches Err(e) ==> e.0@ == rejection(seeded_board(draws_view(draws@), chance)),
    {
        State::from_rows(cells_from_draws(draws, chance))
    }

    /// A state of the given size in which every cell is drawn on its own:
    /// a number between 0 and 100 is drawn for it, and the cell is alive
    /// when that number is below `chance`.
    pub fn random(width: usize, height: usize, chance: usize) -> (state: State)
        requires
            width > 0,
            height > 0,
        ensures
            is_seeded(state@, width as nat, height as nat, chance),
    {
        let mut rng = rand::thread_rng();
        let mut draws: Vec<Vec<usize>> = Vec::new();
        let mut i: usize = 0;
        while i < height
            invariant
                0 <= i <= height,
                is_draw_matrix(draws_view(draws@), width as nat, i as nat),
            decreases height - i,
        {
            let mut row: Vec<usize> = Vec::new();
            let mut j: usize = 0;
            while j < width
                invariant
                    0 <= j <= width,
                    row@.len() == j,
                    forall|k: int| 0 <= k < j ==> #[trigger] row@[k] <= 100,
                decreases width - j,
            {
                let draw = draw_percent(&mut rng);
                row.push(draw);
                j += 1;
            }
            let ghost before = draws@;
            draws.push(row);
            i += 1;
            proof {
                let now = draws_view(draws@);
                assert forall|a: int| 0 <= a < now.len() implies (#[trigger] now[a]).len()
                    == width by {
                    if a < i - 1 {
                        assert(now[a] == draws_view(before)[a]);
                    }
                }
                assert forall|a: int, b: int|
                    0 <= a < now.len() && 0 <= b < now[a].len() implies #[trigger] now[a][b]
                    <= 100 by {
                    if a < i - 1 {
                        assert(now[a] == draws_view(before)[a]);
                    }
                }
            }
        }
        let rows = cells_from_draws(&draws, chance);
        proof {
            let matrix = draws_view(draws@);
            assert(is_seeded(rows_view(rows@), width as nat, height as nat, chance));
            lemma_seeded_is_board(rows_view(rows@), width as nat, height as nat, chance);
        }
        State::from_board(rows)
    }
}

impl Grid {
    /// A history that starts afresh: one generation, seeded at random.
    pub fn random(width: usize, height: usize, chance: usize) -> (grid: Grid)
        requires
            width > 0,
            height > 0,
        ensures
            grid@.len() == 1,
            is_seeded(grid@[0], width as nat, height as nat, chance),
    {
        let mut history: Vec<State> = Vec::new();
        history.push(State::random(width, height, chance));
        Grid::new(history)
    }
}

} // verus!
