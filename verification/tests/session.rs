use std::sync::atomic::AtomicBool;

use puzzle_solver::grid::Board;
use puzzle_solver::session::{create_solver_call_id, resolve_outcome, SolveOutcome};
use puzzle_solver::solver::{solve_all_filling, solve_with_cancel, UnsolvableReason};
use puzzle_solver::tile::Tile;

fn solved_result() -> Result<puzzle_solver::solver::Solution, UnsolvableReason> {
    let b = Board::from_rows(vec![vec![true, true]]).unwrap();
    let tiles = vec![Tile::new(Board::from_rows(vec![vec![true, true]]).unwrap())];
    solve_all_filling(b, &tiles)
}

#[test]
fn test_call_ids_increase_and_never_repeat() {
    let mut counter: u64 = 0;
    let a = create_solver_call_id(&mut counter);
    let b = create_solver_call_id(&mut counter);
    let c = create_solver_call_id(&mut counter);
    assert_eq!(a.value(), 0);
    assert_eq!(b.value(), 1);
    assert_eq!(c.value(), 2);
    assert_ne!(a, b);
    assert_ne!(b, c);
    assert_eq!(counter, 3);
}

#[test]
fn test_resolve_outcome_interrupted_wins() {
    // an observed interrupt yields Cancelled whatever the search returned
    let r = resolve_outcome(true, solved_result());
    assert!(matches!(r, SolveOutcome::Cancelled));
    let r = resolve_outcome(true, Err(UnsolvableReason::NoFit));
    assert!(matches!(r, SolveOutcome::Cancelled));
}

#[test]
fn test_resolve_outcome_solved() {
    let r = resolve_outcome(false, solved_result());
    assert!(matches!(r, SolveOutcome::Solved(_)));
}

#[test]
fn test_resolve_outcome_unsolvable() {
    let r = resolve_outcome(false, Err(UnsolvableReason::TooManyTiles));
    assert!(matches!(r, SolveOutcome::Unsolvable(UnsolvableReason::TooManyTiles)));
}

#[test]
fn test_cancel_observed_before_search() {
    // the flag is already set when the search starts: the solvable instance
    // ends as Cancelled, never as Solved
    let b = Board::from_rows(vec![vec![true, true]]).unwrap();
    let tiles = vec![Tile::new(Board::from_rows(vec![vec![true, true]]).unwrap())];
    let flag = AtomicBool::new(true);
    let r = solve_with_cancel(b, &tiles, &flag);
    assert!(matches!(r, SolveOutcome::Cancelled));
}

#[test]
fn test_clear_flag_lets_the_search_finish() {
    let b = Board::from_rows(vec![vec![true, true]]).unwrap();
    let tiles = vec![Tile::new(Board::from_rows(vec![vec![true, true]]).unwrap())];
    let flag = AtomicBool::new(false);
    let r = solve_with_cancel(b, &tiles, &flag);
    assert!(matches!(r, SolveOutcome::Solved(_)));
}

#[test]
fn test_area_precheck_precedes_cancellation() {
    // an area mismatch is reported even when the flag is set
    let b = Board::from_rows(vec![vec![true, true, true]]).unwrap();
    let tiles = vec![Tile::new(Board::from_rows(vec![vec![true, true]]).unwrap())];
    let flag = AtomicBool::new(true);
    let r = solve_with_cancel(b, &tiles, &flag);
    assert!(matches!(r, SolveOutcome::Unsolvable(UnsolvableReason::TooFewTiles)));
}
