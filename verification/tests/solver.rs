use puzzle_solver::grid::{Board, GridError};
use puzzle_solver::solver::{solve_all_filling, Solution, TilePlacement, UnsolvableReason};
use puzzle_solver::tile::Tile;

fn board(rows: Vec<Vec<bool>>) -> Board {
    Board::from_rows(rows).unwrap()
}

fn tile(rows: Vec<Vec<bool>>) -> Tile {
    Tile::new(board(rows))
}

fn full_board(rows: usize, cols: usize) -> Board {
    Board::from_rows(vec![vec![true; cols]; rows]).unwrap()
}

/// Count how many placements of `sol` cover cell (r, c).
fn coverage(sol: &Solution, tiles: &[Tile], r: usize, c: usize) -> usize {
    let mut n = 0;
    for p in &sol.placements {
        let og = &tiles[p.tile].orientations[p.orientation];
        let (ar, ac) = p.position;
        for i in 0..og.rows() {
            for j in 0..og.cols() {
                if og.test(i, j).unwrap() && ar + i == r && ac + j == c {
                    n += 1;
                }
            }
        }
    }
    n
}

#[test]
fn test_square_tile_one_orientation() {
    let t = tile(vec![vec![true, true], vec![true, true]]);
    assert_eq!(t.orientation_count(), 1);
}

#[test]
fn test_l_tile_four_orientations() {
    let t = tile(vec![
        vec![true, false],
        vec![true, false],
        vec![true, true],
    ]);
    assert_eq!(t.orientation_count(), 4);
}

#[test]
fn test_line_tile_two_orientations() {
    let t = tile(vec![vec![true, true, true]]);
    assert_eq!(t.orientation_count(), 2);
}

#[test]
fn test_area_too_few() {
    // 5 allowed cells, tiles summing to 4
    let b = full_board(1, 5);
    let tiles = vec![tile(vec![vec![true, true]]), tile(vec![vec![true, true]])];
    let r = solve_all_filling(b, &tiles);
    assert!(matches!(r, Err(UnsolvableReason::TooFewTiles)));
}

#[test]
fn test_area_too_many() {
    // 5 allowed cells, tiles summing to 6
    let b = full_board(1, 5);
    let tiles = vec![
        tile(vec![vec![true, true]]),
        tile(vec![vec![true, true]]),
        tile(vec![vec![true, true]]),
    ];
    let r = solve_all_filling(b, &tiles);
    assert!(matches!(r, Err(UnsolvableReason::TooManyTiles)));
}

#[test]
fn test_area_exact_search_proceeds() {
    // 5 allowed cells, tiles summing to exactly 5: the search runs and solves
    let b = full_board(1, 5);
    let tiles = vec![
        tile(vec![vec![true, true]]),
        tile(vec![vec![true, true, true]]),
    ];
    let r = solve_all_filling(b, &tiles);
    assert!(r.is_ok());
}

#[test]
fn test_too_few_tiles_on_2x2() {
    // single straight 3-cell tile on a fully allowed 2x2 board: area mismatch
    let b = full_board(2, 2);
    let tiles = vec![tile(vec![vec![true, true, true]])];
    let r = solve_all_filling(b, &tiles);
    assert!(matches!(r, Err(UnsolvableReason::TooFewTiles)));
}

#[test]
fn test_no_fit() {
    // areas match (3 + 1 = 4) but a straight 3-cell tile cannot lie in 2x2
    let b = full_board(2, 2);
    let tiles = vec![tile(vec![vec![true, true, true]]), tile(vec![vec![true]])];
    let r = solve_all_filling(b, &tiles);
    assert!(matches!(r, Err(UnsolvableReason::NoFit)));
}

#[test]
fn test_exact_cover_properties() {
    // 2x3 board fully allowed, three dominoes
    let b = full_board(2, 3);
    let tiles = vec![
        tile(vec![vec![true, true]]),
        tile(vec![vec![true, true]]),
        tile(vec![vec![true, true]]),
    ];
    let sol = solve_all_filling(full_board(2, 3), &tiles).unwrap();
    // one placement per tile, each tile used exactly once
    assert_eq!(sol.placements.len(), tiles.len());
    for t in 0..tiles.len() {
        assert_eq!(sol.placements.iter().filter(|p| p.tile == t).count(), 1);
    }
    // every allowed cell covered exactly once
    for r in 0..b.rows() {
        for c in 0..b.cols() {
            assert_eq!(coverage(&sol, &tiles, r, c), 1);
        }
    }
    // nothing covered outside the board
    for p in &sol.placements {
        let og = &tiles[p.tile].orientations[p.orientation];
        assert!(p.position.0 + og.rows() <= b.rows());
        assert!(p.position.1 + og.cols() <= b.cols());
    }
}

#[test]
fn test_exact_cover_respects_blocked_cells() {
    // 2x2 board with a blocked corner: 3 allowed cells, a domino and a single
    let rows = vec![vec![true, true], vec![true, false]];
    let b = board(rows.clone());
    let tiles = vec![tile(vec![vec![true, true]]), tile(vec![vec![true]])];
    let sol = solve_all_filling(b, &tiles).unwrap();
    let check = board(rows);
    for r in 0..check.rows() {
        for c in 0..check.cols() {
            let want = if check.test(r, c).unwrap() { 1 } else { 0 };
            assert_eq!(coverage(&sol, &tiles, r, c), want);
        }
    }
}

#[test]
fn test_determinism() {
    // identical inputs give bit-identical placements
    let make_tiles = || {
        vec![
            tile(vec![vec![true, true]]),
            tile(vec![vec![true, true]]),
            tile(vec![vec![true, true]]),
            tile(vec![vec![true, true]]),
        ]
    };
    let t1 = make_tiles();
    let t2 = make_tiles();
    let s1 = solve_all_filling(full_board(2, 4), &t1).unwrap();
    let s2 = solve_all_filling(full_board(2, 4), &t2).unwrap();
    assert_eq!(s1.placements, s2.placements);
}

#[test]
fn test_index_out_of_range() {
    let mut b = full_board(2, 2);
    assert_eq!(b.test(2, 0), Err(GridError::IndexOutOfRange));
    assert_eq!(b.test(0, 2), Err(GridError::IndexOutOfRange));
    assert_eq!(b.set(5, 5, true), Err(GridError::IndexOutOfRange));
    assert_eq!(b.test(1, 1), Ok(true));
}

#[test]
fn test_dimension_mismatch() {
    let mut a = full_board(2, 2);
    let b = full_board(2, 3);
    assert_eq!(a.union_with(&b), Err(GridError::DimensionMismatch));
    assert_eq!(a.intersect_with(&b), Err(GridError::DimensionMismatch));
    assert_eq!(a.subtract_with(&b), Err(GridError::DimensionMismatch));
    assert!(Board::from_rows(vec![vec![true, true], vec![true]]).is_err());
}

#[test]
fn test_set_operations() {
    let mut a = board(vec![vec![true, false], vec![false, false]]);
    let b = board(vec![vec![true, true], vec![false, false]]);
    assert_eq!(a.union_with(&b), Ok(()));
    assert!(a.same_cells(&board(vec![vec![true, true], vec![false, false]])));
    assert_eq!(a.intersect_with(&board(vec![vec![false, true], vec![true, false]])), Ok(()));
    assert!(a.same_cells(&board(vec![vec![false, true], vec![false, false]])));
    assert_eq!(a.subtract_with(&b), Ok(()));
    assert!(a.same_cells(&board(vec![vec![false, false], vec![false, false]])));
}

#[test]
fn test_fits() {
    let b = board(vec![vec![true, true], vec![false, true]]);
    let domino = board(vec![vec![true, true]]);
    assert!(b.fits(&domino, 0, 0));
    assert!(!b.fits(&domino, 1, 0));
    // out of bounds is a failure to fit, not an error
    assert!(!b.fits(&domino, 0, 1));
    assert!(!b.fits(&domino, 5, 5));
}

#[test]
fn test_count_and_first_cell() {
    let b = board(vec![vec![false, false], vec![true, true]]);
    assert_eq!(b.count(), 2);
    assert_eq!(b.find_first_true(), Some((1, 0)));
    let empty = Board::new((2, 2));
    assert_eq!(empty.count(), 0);
    assert_eq!(empty.find_first_true(), None);
}

#[test]
fn test_canonical_first_solution() {
    // 1x4 row, two dominoes: the canonical order places tile 0 first, at the
    // leftmost free cell, then tile 1 at the next free cell
    let tiles = vec![tile(vec![vec![true, true]]), tile(vec![vec![true, true]])];
    let sol = solve_all_filling(full_board(1, 4), &tiles).unwrap();
    let expected = vec![
        TilePlacement { tile: 0, orientation: 0, position: (0, 0) },
        TilePlacement { tile: 1, orientation: 0, position: (0, 2) },
    ];
    assert_eq!(sol.placements, expected);
}
