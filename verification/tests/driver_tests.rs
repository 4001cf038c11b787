use game_of_life::driver::{advance, run};
use game_of_life::grid::Grid;
use game_of_life::rule::transition;
use game_of_life::seed::cell_from_draw;
use game_of_life::state::State;

fn alive_count(s: &State) -> usize {
    s.get_cells().iter().map(|r| r.iter().filter(|&&c| c == 1).count()).sum()
}

#[test]
fn all_dead_state_is_reseeded() {
    let seed = State::from_rows(vec![vec![1, 0, 1], vec![0, 1, 0]]).unwrap();
    let mut grid = Grid::new(vec![State::dead(3, 2), State::dead(3, 2)]);
    let changed = advance(&mut grid, seed.clone());
    assert!(!changed);
    assert_eq!(grid.len(), 1);
    assert_eq!(grid.get_history(), &vec![seed]);
}

#[test]
fn moving_history_grows_and_ignores_the_seed() {
    let start = State::from_rows(vec![
        vec![0, 0, 0, 0, 0],
        vec![0, 0, 1, 0, 0],
        vec![0, 0, 1, 0, 0],
        vec![0, 0, 1, 0, 0],
        vec![0, 0, 0, 0, 0],
    ])
    .unwrap();
    let mut grid = Grid::new(vec![start.clone()]);
    let changed = advance(&mut grid, State::dead(5, 5));
    assert!(changed);
    assert_eq!(grid.get_history(), &vec![start.clone(), transition(&start).0]);
}

#[test]
fn empty_history_is_seeded() {
    let seed = State::from_rows(vec![vec![1, 1]]).unwrap();
    let mut grid = Grid::default();
    assert!(!advance(&mut grid, seed.clone()));
    assert_eq!(grid.get_history(), &vec![seed]);
}

#[test]
fn run_of_no_iterations_changes_nothing() {
    let start = State::from_rows(vec![vec![1, 0], vec![0, 1]]).unwrap();
    let mut grid = Grid::new(vec![start.clone()]);
    run(&mut grid, 0, 2, 2, 50);
    assert_eq!(grid.get_history(), &vec![start]);
}

#[test]
fn run_counts_a_reseeding_as_an_iteration() {
    // With no chance of life every seed is dead, so every iteration stalls.
    let mut grid = Grid::new(vec![State::dead(4, 3); 5]);
    run(&mut grid, 4, 4, 3, 0);
    assert_eq!(grid.get_history(), &vec![State::dead(4, 3)]);
}

#[test]
fn run_follows_the_rule_while_the_board_moves() {
    let upright = State::from_rows(vec![
        vec![0, 0, 0, 0, 0],
        vec![0, 0, 1, 0, 0],
        vec![0, 0, 1, 0, 0],
        vec![0, 0, 1, 0, 0],
        vec![0, 0, 0, 0, 0],
    ])
    .unwrap();
    let flat = transition(&upright).0;
    let mut grid = Grid::new(vec![upright.clone()]);
    run(&mut grid, 4, 5, 5, 20);
    assert_eq!(
        grid.get_history(),
        &vec![upright.clone(), flat.clone(), upright.clone(), flat, upright]
    );
}

#[test]
fn run_reseeds_a_stalled_board_with_the_configured_size() {
    let mut grid = Grid::new(vec![State::dead(2, 2)]);
    run(&mut grid, 1, 240, 32, 20);
    assert_eq!(grid.len(), 1);
    let fresh = &grid.get_history()[0];
    assert_eq!(fresh.width(), 240);
    assert_eq!(fresh.height(), 32);
    let alive = alive_count(fresh);
    // 7680 cells, each alive with probability 20 in 101.
    assert!(alive > 1100 && alive < 1950, "alive = {}", alive);
}

#[test]
fn a_draw_below_the_chance_is_alive() {
    assert_eq!(cell_from_draw(0, 20), 1);
    assert_eq!(cell_from_draw(19, 20), 1);
    assert_eq!(cell_from_draw(20, 20), 0);
    assert_eq!(cell_from_draw(100, 20), 0);
    assert_eq!(cell_from_draw(0, 0), 0);
    assert_eq!(cell_from_draw(100, 100), 0);
    assert_eq!(cell_from_draw(100, 101), 1);
}

#[test]
fn seeded_state_follows_its_draws() {
    let draws = vec![vec![0usize, 20, 19], vec![100, 5, 50]];
    let s = State::seeded(&draws, 20).unwrap();
    assert_eq!(s.get_cells(), &vec![vec![1u8, 0, 1], vec![0, 1, 0]]);
    assert!(State::seeded(&vec![], 20).is_err());
    assert!(State::seeded(&vec![vec![1usize], vec![]], 20).is_err());
}

#[test]
fn random_state_with_no_chance_is_dead() {
    assert_eq!(State::random(9, 5, 0), State::dead(9, 5));
}

#[test]
fn random_state_with_every_chance_is_full() {
    let s = State::random(9, 5, 101);
    assert_eq!(s.get_cells(), &vec![vec![1u8; 9]; 5]);
}

#[test]
fn random_state_has_the_size_and_the_share_asked_for() {
    let s = State::random(240, 32, 20);
    assert_eq!(s.width(), 240);
    assert_eq!(s.height(), 32);
    assert!(s.get_cells().iter().all(|r| r.len() == 240 && r.iter().all(|&c| c <= 1)));
    let alive = alive_count(&s);
    assert!(alive > 1100 && alive < 1950, "alive = {}", alive);
}

#[test]
fn random_grid_is_one_generation() {
    let grid = Grid::random(6, 4, 50);
    assert_eq!(grid.len(), 1);
    assert_eq!(grid.current_state().unwrap().width(), 6);
    assert_eq!(grid.current_state().unwrap().height(), 4);
}
