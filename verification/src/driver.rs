//! The simulation driver: a fixed number of iterations, each of which either
//! appends the next generation or, where the rule leaves the board as it
//! is, starts the history again from a freshly seeded state.

use vstd::prelude::*;

use crate::grid::Grid;
use crate::rule::{lemma_dead_board_is_fixed, next_board, update_cell_state};
use crate::seed::{is_draw_matrix, is_seeded, seeded_board};
use crate::state::{dead_board, State};

verus! {

/// A history has stalled when it is empty or the rule leaves its current
/// state as it is.
pub open spec fn stalled(history: Seq<Seq<Seq<u8>>>) -> bool {
    history.len() == 0 || next_board(history.last()) == history.last()
}

/// One iteration: a history that moves grows by its next generation; a
/// stalled one is replaced as a whole by the single state `seed`.
pub open spec fn iterate(history: Seq<Seq<Seq<u8>>>, seed: Seq<Seq<u8>>) -> Seq<Seq<Seq<u8>>> {
    if stalled(history) {
        seq![seed]
    } else {
        history.push(next_board(history.last()))
    }
}

/// As many iterations as there are seeds, the `k`-th with `seeds[k]` at hand.
/// A reseeding is one of the iterations, not an extra one.
pub open spec fn iterate_all(history: Seq<Seq<Seq<u8>>>, seeds: Seq<Seq<Seq<u8>>>) -> Seq<
    Seq<Seq<u8>>,
>
    decreases seeds.len(),
{
    if seeds.len() == 0 {
        history
    } else {
        iterate(iterate_all(history, seeds.drop_last()), seeds.last())
    }
}

/// Performs one iteration with `fresh` as the state to start again from
/// should the history have stalled. Tells whether the history moved.
pub fn advance(grid: &mut Grid, fresh: State) -> (changed: bool)
    ensures
        final(grid)@ == iterate(old(grid)@, fresh@),
        changed == !stalled(old(grid)@),
{
    let changed = update_cell_state(grid);
    if !changed {
        grid.reset(fresh);
    }
    changed
}

/// Runs `updates` iterations. Whenever the history has stalled it is
/// replaced by one state of the given size, seeded at random with the given
/// chance; so the outcome is that of `iterate_all` for some seeds.
pub fn run(grid: &mut Grid, updates: usize, width: usize, height: usize, chance: usize)
    requires
        width > 0,
        height > 0,
    ensures
        exists|seeds: Seq<Seq<Seq<u8>>>|
            {
                &&& seeds.len() == updates
                &&& forall|k: int|
                    0 <= k < seeds.len() ==> is_seeded(
                        #[trigger] seeds[k],
                        width as nat,
                        height as nat,
                        chance,
                    )
                &&& final(grid)@ == #[trigger] iterate_all(old(grid)@, seeds)
            },
{
    let ghost mut seeds: Seq<Seq<Seq<u8>>> = Seq::empty();
    let mut done: usize = 0;
    while done < updates
        invariant
            0 <= done <= updates,
            width > 0,
            height > 0,
            seeds.len() == done,
            forall|k: int|
                0 <= k < seeds.len() ==> is_seeded(
                    #[trigger] seeds[k],
                    width as nat,
                    height as nat,
                    chance,
                ),
            grid@ == iterate_all(old(grid)@, seeds),
        decreases updates - done,
    {
        let ghost before = grid@;
        let ghost earlier = seeds;
        let changed = update_cell_state(grid);
        if !changed {
            let fresh = State::random(width, height, chance);
            proof {
                seeds = earlier.push(fresh@);
            }
            grid.reset(fresh);
        } else {
            proof {
                let idle = lemma_some_seeded_board(width as nat, height as nat, chance);
                seeds = earlier.push(idle);
            }
        }
        proof {
            assert(seeds.drop_last() =~= earlier);
            assert(grid@ == iterate(before, seeds.last()));
        }
        done += 1;
    }
}

/// Some board can always be seeded: the one whose draws are all 100.
pub proof fn lemma_some_seeded_board(width: nat, height: nat, chance: usize) -> (cells: Seq<
    Seq<u8>,
>)
    ensures
        is_seeded(cells, width, height, chance),
{
    let draws = Seq::new(height, |i: int| Seq::new(width, |j: int| 100usize));
    assert(is_draw_matrix(draws, width, height));
    seeded_board(draws, chance)
}

/// A history whose current state has no live cell has reached a fixed point:
/// one iteration replaces it, whatever its length, by the seed alone.
pub proof fn lemma_dead_board_reseeds(
    history: Seq<Seq<Seq<u8>>>,
    width: nat,
    height: nat,
    seed: Seq<Seq<u8>>,
)
    requires
        width > 0,
        height > 0,
        history.len() > 0,
        history.last() == dead_board(width, height),
    ensures
        stalled(history),
        iterate(history, seed) == seq![seed],
        iterate(history, seed).len() == 1,
{
    lemma_dead_board_is_fixed(width, height);
}

} // verus!
