use puzzle_solver::grid::Board;
use puzzle_solver::shape::{normalize, rotate_90};

fn board(rows: Vec<Vec<bool>>) -> Board {
    Board::from_rows(rows).unwrap()
}

#[test]
fn test_rotate_90_size_1() {
    println!("test_rotate_90_size_1");
    let array = board(vec![vec![true]]);
    let rotated = rotate_90(&array);
    let expected = board(vec![vec![true]]);
    assert!(rotated.same_cells(&expected));
}

#[test]
fn test_rotate_90_size_2() {
    let array = board(vec![vec![true, false]]);
    let rotated = rotate_90(&array);
    let expected = board(vec![vec![true], vec![false]]);
    assert!(rotated.same_cells(&expected));
}

#[test]
fn test_rotate_90() {
    let array = board(vec![
        vec![true, false, false],
        vec![true, true, true],
        vec![true, false, true],
    ]);
    let rotated = rotate_90(&array);
    let expected = board(vec![
        vec![true, true, true],
        vec![false, true, false],
        vec![true, true, false],
    ]);
    assert!(rotated.same_cells(&expected));
}

#[test]
fn test_rotate_four_times_restores() {
    let original = board(vec![
        vec![true, false, false],
        vec![true, true, true],
    ]);
    let mut cur = rotate_90(&original);
    cur = rotate_90(&cur);
    cur = rotate_90(&cur);
    cur = rotate_90(&cur);
    assert!(cur.same_cells(&original));
}

#[test]
fn test_normalize_trims_border() {
    let padded = board(vec![
        vec![false, false, false],
        vec![false, true, false],
        vec![false, true, true],
    ]);
    let trimmed = normalize(&padded);
    let expected = board(vec![vec![true, false], vec![true, true]]);
    assert!(trimmed.same_cells(&expected));
}
