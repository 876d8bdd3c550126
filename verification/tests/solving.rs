use sudoku::grid::Sudoku;
use sudoku::solver::solve;

fn grid_from(rows: [[u8; 9]; 9]) -> Sudoku {
    let mut values: Vec<u8> = Vec::new();
    for row in rows.iter() {
        for &v in row.iter() {
            values.push(v);
        }
    }
    Sudoku::from_digits(&values).expect("well-formed grid")
}

fn cells_of(s: &Sudoku) -> [[u8; 9]; 9] {
    let mut out = [[0u8; 9]; 9];
    for r in 0..9 {
        for c in 0..9 {
            out[r][c] = s.cell_at(r, c);
        }
    }
    out
}

/// A complete, valid grid: each row shifts the previous block pattern.
fn solved_pattern() -> [[u8; 9]; 9] {
    [
        [1, 2, 3, 4, 5, 6, 7, 8, 9],
        [4, 5, 6, 7, 8, 9, 1, 2, 3],
        [7, 8, 9, 1, 2, 3, 4, 5, 6],
        [2, 3, 4, 5, 6, 7, 8, 9, 1],
        [5, 6, 7, 8, 9, 1, 2, 3, 4],
        [8, 9, 1, 2, 3, 4, 5, 6, 7],
        [3, 4, 5, 6, 7, 8, 9, 1, 2],
        [6, 7, 8, 9, 1, 2, 3, 4, 5],
        [9, 1, 2, 3, 4, 5, 6, 7, 8],
    ]
}

#[test]
fn solve_solvable_puzzle_gives_complete_valid_grid() {
    let puzzle = [
        [5, 3, 0, 0, 7, 0, 0, 0, 0],
        [6, 0, 0, 1, 9, 5, 0, 0, 0],
        [0, 9, 8, 0, 0, 0, 0, 6, 0],
        [8, 0, 0, 0, 6, 0, 0, 0, 3],
        [4, 0, 0, 8, 0, 3, 0, 0, 1],
        [7, 0, 0, 0, 2, 0, 0, 0, 6],
        [0, 6, 0, 0, 0, 0, 2, 8, 0],
        [0, 0, 0, 4, 1, 9, 0, 0, 5],
        [0, 0, 0, 0, 8, 0, 0, 7, 9],
    ];
    let expected = [
        [5, 3, 4, 6, 7, 8, 9, 1, 2],
        [6, 7, 2, 1, 9, 5, 3, 4, 8],
        [1, 9, 8, 3, 4, 2, 5, 6, 7],
        [8, 5, 9, 7, 6, 1, 4, 2, 3],
        [4, 2, 6, 8, 5, 3, 7, 9, 1],
        [7, 1, 3, 9, 2, 4, 8, 5, 6],
        [9, 6, 1, 5, 3, 7, 2, 8, 4],
        [2, 8, 7, 4, 1, 9, 6, 3, 5],
        [3, 4, 5, 2, 8, 6, 1, 7, 9],
    ];
    let solved = solve(grid_from(puzzle));
    assert!(solved.is_complete());
    assert!(solved.is_valid());
    assert_eq!(cells_of(&solved), expected);
}

#[test]
fn solve_keeps_given_cells() {
    let puzzle = [
        [0, 0, 3, 4, 5, 6, 7, 8, 9],
        [4, 5, 6, 7, 8, 9, 1, 2, 3],
        [7, 8, 9, 1, 2, 3, 4, 5, 6],
        [2, 3, 4, 5, 6, 7, 8, 9, 1],
        [5, 6, 7, 8, 9, 1, 2, 3, 4],
        [8, 9, 1, 2, 3, 4, 5, 6, 7],
        [3, 4, 5, 6, 7, 8, 9, 1, 2],
        [6, 7, 8, 9, 1, 2, 3, 4, 5],
        [9, 1, 2, 3, 4, 5, 6, 7, 0],
    ];
    let solved = solve(grid_from(puzzle));
    assert!(solved.is_complete());
    assert!(solved.is_valid());
    let cells = cells_of(&solved);
    for r in 0..9 {
        for c in 0..9 {
            if puzzle[r][c] != 0 {
                assert_eq!(cells[r][c], puzzle[r][c]);
            }
        }
    }
}

#[test]
fn solve_complete_grid_returns_it_unchanged() {
    let complete = solved_pattern();
    let solved = solve(grid_from(complete));
    assert_eq!(cells_of(&solved), complete);
}

#[test]
fn solve_unsolvable_puzzle_stays_incomplete() {
    // Row 0 holds 1..=8 and its last cell is empty; a 9 further down
    // column 8 leaves that cell no candidate at all.
    let mut puzzle = [[0u8; 9]; 9];
    for c in 0..8 {
        puzzle[0][c] = (c + 1) as u8;
    }
    puzzle[5][8] = 9;
    let solved = solve(grid_from(puzzle));
    assert!(!solved.is_complete());
    assert_eq!(cells_of(&solved), puzzle);
}

#[test]
fn solve_single_empty_cell_places_the_missing_digit() {
    // The cell's row, column, and subgrid together hold 1..=8, so only 9
    // fits.
    let mut puzzle = solved_pattern();
    assert_eq!(puzzle[4][4], 9);
    puzzle[4][4] = 0;
    let solved = solve(grid_from(puzzle));
    assert!(solved.is_complete());
    assert!(solved.is_valid());
    assert_eq!(solved.cell_at(4, 4), 9);
}

#[test]
fn is_valid_rejects_row_duplicate() {
    let mut rows = [[0u8; 9]; 9];
    rows[0][0] = 5;
    rows[0][7] = 5;
    assert!(!grid_from(rows).is_valid());
}

#[test]
fn is_valid_rejects_column_duplicate() {
    let mut rows = [[0u8; 9]; 9];
    rows[0][3] = 2;
    rows[8][3] = 2;
    assert!(!grid_from(rows).is_valid());
}

#[test]
fn is_valid_rejects_subgrid_duplicate() {
    let mut rows = [[0u8; 9]; 9];
    rows[0][0] = 7;
    rows[2][2] = 7;
    assert!(!grid_from(rows).is_valid());
}

#[test]
fn is_valid_accepts_duplicate_free_grids() {
    assert!(grid_from([[0u8; 9]; 9]).is_valid());
    assert!(grid_from(solved_pattern()).is_valid());
    let mut sparse = [[0u8; 9]; 9];
    sparse[0][0] = 5;
    sparse[0][1] = 6;
    sparse[1][0] = 7;
    sparse[4][4] = 5;
    assert!(grid_from(sparse).is_valid());
}

#[test]
fn is_valid_ignores_repeated_zeros() {
    let mut rows = [[0u8; 9]; 9];
    rows[3][3] = 1;
    assert!(grid_from(rows).is_valid());
}

#[test]
fn is_complete_detects_empty_cells() {
    assert!(!grid_from([[0u8; 9]; 9]).is_complete());
    let mut one_hole = solved_pattern();
    one_hole[8][8] = 0;
    assert!(!grid_from(one_hole).is_complete());
    assert!(grid_from(solved_pattern()).is_complete());
}

#[test]
fn get_options_sorts_by_candidate_count() {
    let puzzle = [
        [5, 3, 0, 0, 7, 0, 0, 0, 0],
        [6, 0, 0, 1, 9, 5, 0, 0, 0],
        [0, 9, 8, 0, 0, 0, 0, 6, 0],
        [8, 0, 0, 0, 6, 0, 0, 0, 3],
        [4, 0, 0, 8, 0, 3, 0, 0, 1],
        [7, 0, 0, 0, 2, 0, 0, 0, 6],
        [0, 6, 0, 0, 0, 0, 2, 8, 0],
        [0, 0, 0, 4, 1, 9, 0, 0, 5],
        [0, 0, 0, 0, 8, 0, 0, 7, 9],
    ];
    let grid = grid_from(puzzle);
    let options = grid.get_options();
    for pair in options.windows(2) {
        assert!(pair[0].1.len() <= pair[1].1.len());
    }
    let empty_cells = puzzle.iter().flatten().filter(|&&v| v == 0).count();
    assert_eq!(options.len(), empty_cells);
    for ((r, c), _) in options.iter() {
        assert_eq!(puzzle[*r][*c], 0);
    }
}

#[test]
fn get_options_excludes_seen_digits() {
    let puzzle = [
        [5, 3, 0, 0, 7, 0, 0, 0, 0],
        [6, 0, 0, 1, 9, 5, 0, 0, 0],
        [0, 9, 8, 0, 0, 0, 0, 6, 0],
        [8, 0, 0, 0, 6, 0, 0, 0, 3],
        [4, 0, 0, 8, 0, 3, 0, 0, 1],
        [7, 0, 0, 0, 2, 0, 0, 0, 6],
        [0, 6, 0, 0, 0, 0, 2, 8, 0],
        [0, 0, 0, 4, 1, 9, 0, 0, 5],
        [0, 0, 0, 0, 8, 0, 0, 7, 9],
    ];
    let grid = grid_from(puzzle);
    for ((r, c), cands) in grid.get_options().iter() {
        for &v in cands.iter() {
            assert!((1..=9).contains(&v));
            for k in 0..9 {
                assert_ne!(puzzle[*r][k], v);
                assert_ne!(puzzle[k][*c], v);
            }
            let (br, bc) = ((r / 3) * 3, (c / 3) * 3);
            for dr in 0..3 {
                for dc in 0..3 {
                    assert_ne!(puzzle[br + dr][bc + dc], v);
                }
            }
        }
    }
}

#[test]
fn get_options_keeps_row_major_order_on_ties() {
    // On an empty grid every cell has all nine candidates, so the order
    // must be exactly row-major.
    let grid = grid_from([[0u8; 9]; 9]);
    let options = grid.get_options();
    assert_eq!(options.len(), 81);
    for (k, ((r, c), cands)) in options.iter().enumerate() {
        assert_eq!(r * 9 + c, k);
        assert_eq!(cands.as_slice(), &[1, 2, 3, 4, 5, 6, 7, 8, 9]);
    }
}

#[test]
fn get_options_reports_forced_cell() {
    // Row 0 holds 1..=8, so its one empty cell admits only 9, and that
    // entry comes first.
    let mut puzzle = [[0u8; 9]; 9];
    for c in 0..8 {
        puzzle[0][c] = (c + 1) as u8;
    }
    let options = grid_from(puzzle).get_options();
    assert_eq!(options[0].0, (0, 8));
    assert_eq!(options[0].1.as_slice(), &[9]);
}

#[test]
fn from_digits_checks_shape_and_range() {
    assert!(Sudoku::from_digits(&vec![0u8; 80]).is_none());
    assert!(Sudoku::from_digits(&vec![0u8; 82]).is_none());
    let mut bad = vec![0u8; 81];
    bad[40] = 10;
    assert!(Sudoku::from_digits(&bad).is_none());
    let mut good = vec![0u8; 81];
    good[0] = 9;
    let grid = Sudoku::from_digits(&good).unwrap();
    assert_eq!(grid.cell_at(0, 0), 9);
    assert_eq!(grid.cell_at(8, 8), 0);
}
