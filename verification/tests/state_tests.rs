use game_of_life::grid::Grid;
use game_of_life::parse_state_error::ParseStateError;
use game_of_life::state::State;

#[test]
fn from_rows_keeps_the_cells() {
    let rows = vec![vec![0u8, 1, 0], vec![1, 1, 0]];
    let s = State::from_rows(rows.clone()).unwrap();
    assert_eq!(s.width(), 3);
    assert_eq!(s.height(), 2);
    assert_eq!(s.get_cells(), &rows);
    assert_eq!(s.iter(), rows);
    assert_eq!(s.cell_at(0, 1), 1);
    assert_eq!(s.cell_at(1, 2), 0);
    assert_eq!(s.cell_at(1, 0), 1);
}

#[test]
fn from_rows_refuses_no_rows() {
    let e = State::from_rows(vec![]).unwrap_err();
    assert_eq!(e.0, "a state needs at least one row");
}

#[test]
fn from_rows_refuses_empty_rows() {
    let e = State::from_rows(vec![vec![], vec![]]).unwrap_err();
    assert_eq!(e.0, "a state needs at least one column");
}

#[test]
fn from_rows_refuses_ragged_rows() {
    let e = State::from_rows(vec![vec![0, 1], vec![0]]).unwrap_err();
    assert_eq!(e.0, "the rows of a state have one length");
}

#[test]
fn from_rows_refuses_other_cells() {
    let e = State::from_rows(vec![vec![0, 1], vec![0, 2]]).unwrap_err();
    assert_eq!(e.0, "a cell is 0 or 1");
}

#[test]
fn parse_state_error_message() {
    let e = ParseStateError("bad row".to_string());
    assert_eq!(e.message(), "Error parsing state: bad row");
}

#[test]
fn dead_state_is_all_zero() {
    let s = State::dead(4, 2);
    assert_eq!(s.get_cells(), &vec![vec![0u8; 4]; 2]);
}

#[test]
fn clone_is_equal_and_independent() {
    let s = State::from_rows(vec![vec![1, 0], vec![0, 1]]).unwrap();
    let c = s.clone();
    assert_eq!(s, c);
    assert_ne!(s, State::dead(2, 2));
    assert_ne!(s, State::dead(2, 3));
    assert_ne!(State::dead(3, 2), State::dead(2, 3));
}

#[test]
fn grid_keeps_the_order_of_its_history() {
    let a = State::from_rows(vec![vec![1, 0]]).unwrap();
    let b = State::from_rows(vec![vec![0, 1]]).unwrap();
    let c = State::from_rows(vec![vec![1, 1]]).unwrap();
    let mut grid = Grid::new(vec![a.clone(), b.clone()]);
    assert_eq!(grid.current_state(), Some(&b));
    grid.push_history(c.clone());
    assert_eq!(grid.len(), 3);
    assert_eq!(grid.current_state(), Some(&c));
    assert_eq!(grid.get_history(), &vec![a, b, c]);
}

#[test]
fn empty_grid_has_no_current_state() {
    let grid = Grid::default();
    assert_eq!(grid.len(), 0);
    assert_eq!(grid.current_state(), None);
    assert!(grid.get_history().is_empty());
    let grid = Grid::new(vec![]);
    assert_eq!(grid.current_state(), None);
}

#[test]
fn reset_replaces_the_whole_history() {
    let a = State::from_rows(vec![vec![1, 0]]).unwrap();
    let b = State::from_rows(vec![vec![0, 1]]).unwrap();
    let mut grid = Grid::new(vec![a.clone(), a.clone(), a]);
    grid.reset(b.clone());
    assert_eq!(grid.get_history(), &vec![b]);
}
