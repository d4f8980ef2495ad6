use quadrata::AutoPencil;
use quadrata::Puzzle;
use quadrata::guess::guess;
use quadrata::hidden_single::hidden_single;
use quadrata::solver::{get_counts, redo_guesses, solve};
use quadrata::strategies::{Solution, Strategy};

#[test]
fn test_to_and_from_grid() {
    let grid = vec![0, 0, 0, 1, 0, 0, 0, 2, 0, 0, 0, 3, 0, 0, 0, 4];
    let puzzle = Puzzle::raw_from_grid(&grid);
    let new_grid = puzzle.to_grid();
    assert_eq!(grid, new_grid);
}

#[test]
fn test_get_box_counts() {
    let mut board = Puzzle::raw_from_grid(&vec![0, 0, 0, 1, 0, 0, 0, 2, 0, 0, 0, 3, 0, 0, 0, 4]);
    // give cell 4 the raw mask 5 (candidates 1 and 3)
    board.set_guess(4, 1);
    board.set_guess(4, 3);
    assert_eq!(board.values[4], 5);

    let counts = get_counts(&board, true);
    assert_eq!(
        counts,
        vec![
            vec![
                vec![1, 0, 0, 0],
                vec![0, 1, 0, 0],
                vec![0, 0, 1, 0],
                vec![0, 0, 0, 1]
            ],
            vec![
                vec![0, 0, 0, 0],
                vec![0, 0, 0, 0],
                vec![0, 0, 0, 0],
                vec![1, 1, 1, 1]
            ],
            vec![
                vec![0, 0, 0, 0],
                vec![1, 1, 0, 0],
                vec![0, 0, 0, 0],
                vec![0, 0, 1, 1]
            ]
        ]
    );
    let counts = get_counts(&board, false);
    assert_eq!(
        counts,
        vec![
            vec![
                vec![1, 0, 0, 0],
                vec![1, 1, 1, 0],
                vec![0, 0, 1, 0],
                vec![0, 0, 0, 1]
            ],
            vec![
                vec![1, 0, 1, 0],
                vec![0, 0, 0, 0],
                vec![0, 0, 0, 0],
                vec![1, 1, 1, 1]
            ],
            vec![
                vec![1, 0, 1, 0],
                vec![1, 1, 0, 0],
                vec![0, 0, 0, 0],
                vec![0, 0, 1, 1]
            ]
        ]
    );
}

#[test]
fn test_redo_guesses() {
    let mut board = Puzzle::raw_from_grid(&vec![0, 0, 0, 1, 0, 0, 0, 2, 0, 0, 0, 3, 0, 0, 0, 4]);
    // raw masks 5 and 10 on cells 4 and 0 (hand-edited pencil marks)
    board.set_guess(4, 1);
    board.set_guess(4, 3);
    board.set_guess(0, 2);
    board.set_guess(0, 4);
    assert_eq!(board.values[4], 5);
    assert_eq!(board.values[0], 10);

    let new_values = redo_guesses(&board);
    assert_eq!(
        new_values,
        vec![14, 14, 12, 1, 13, 13, 12, 2, 11, 11, 3, 4, 7, 7, 3, 8]
    );
}

#[test]
fn test_solve() {
    let board = Puzzle::raw_from_grid(&vec![2, 0, 0, 0, 0, 1, 0, 2, 0, 0, 3, 0, 0, 0, 0, 4]);
    let solution = solve(&board);
    assert_eq!(
        solution,
        Ok(vec![2, 4, 1, 3, 3, 1, 4, 2, 4, 2, 3, 1, 1, 3, 2, 4])
    );

    let board = Puzzle::raw_from_grid(&vec![0, 0, 0, 1, 0, 0, 0, 0, 0, 0, 0, 0, 0, 0, 0, 0]);
    let solution = solve(&board);
    assert_eq!(
        solution.map_err(|e| e.message()),
        Err("Board has multiple valid solutions".to_string())
    );
}

#[test]
fn test_guess() {
    let mut board = Puzzle::raw_from_grid(&vec![0, 0, 0, 1, 0, 0, 0, 2, 0, 0, 0, 3, 0, 0, 0, 4]);
    board.update_guesses(AutoPencil::Always);

    let solution = guess(&board);
    assert_eq!(
        solution,
        Some(Solution {
            values: vec![(2, 4)],
            strategy: Strategy::Guess,
            guide_cells: vec![],
        })
    );
}

#[test]
fn test_hidden_single() {
    let mut board = Puzzle::raw_from_grid(&vec![0, 0, 0, 1, 0, 0, 0, 2, 0, 0, 0, 3, 0, 0, 0, 4]);
    board.update_guesses(AutoPencil::Always);
    let solution = hidden_single(&board);
    assert_eq!(solution, None);

    let mut board = Puzzle::raw_from_grid(&vec![0, 0, 0, 1, 0, 1, 0, 0, 0, 0, 1, 0, 0, 0, 0, 0]);
    board.update_guesses(AutoPencil::Always);
    let solution = hidden_single(&board);
    assert_eq!(
        solution,
        Some(Solution {
            values: vec![(12, 1)],
            strategy: Strategy::HiddenSingle,
            guide_cells: vec![],
        })
    );
}

#[test]
fn recomputed_masks_match_expected() {
    let mut board = Puzzle::raw_from_grid(&vec![0, 0, 0, 1, 0, 0, 0, 2, 0, 0, 0, 3, 0, 0, 0, 4]);
    board.update_guesses(AutoPencil::Always);
    assert_eq!(
        board.values,
        vec![14, 14, 12, 1, 13, 13, 12, 2, 11, 11, 3, 4, 7, 7, 3, 8]
    );
}

#[test]
fn unique_solution_becomes_ground_truth() {
    let grid = vec![2, 0, 0, 0, 0, 1, 0, 2, 0, 0, 3, 0, 0, 0, 0, 4];
    let puzzle = Puzzle::from_grid(&grid).unwrap();
    assert_eq!(
        puzzle.truths,
        vec![2, 4, 1, 3, 3, 1, 4, 2, 4, 2, 3, 1, 1, 3, 2, 4]
    );
    // the givens are still fixed and exported unchanged
    assert_eq!(puzzle.to_grid(), grid);
}

#[test]
fn lone_given_reports_multiple_solutions() {
    let grid = vec![0, 0, 0, 1, 0, 0, 0, 0, 0, 0, 0, 0, 0, 0, 0, 0];
    let err = Puzzle::from_grid(&grid).unwrap_err();
    assert_eq!(err, quadrata::errors::PuzzleError::MultipleSolutions);
}

#[test]
fn conflicting_givens_report_no_solution() {
    // two 1s in the same column
    let grid = vec![1, 0, 0, 0, 1, 0, 0, 0, 0, 0, 0, 0, 0, 0, 0, 0];
    let solution = solve(&Puzzle::raw_from_grid(&grid));
    assert_eq!(
        solution.map_err(|e| e.message()),
        Err("Board has no valid solution".to_string())
    );
}

#[test]
fn six_by_six_board_is_unsupported() {
    let grid = vec![0u8; 36];
    let err = solve(&Puzzle::raw_from_grid(&grid)).unwrap_err();
    assert_eq!(err, quadrata::errors::PuzzleError::UnsupportedSize);
}

#[test]
fn guess_on_a_solved_board_finds_nothing() {
    let grid = vec![2, 4, 1, 3, 3, 1, 4, 2, 4, 2, 3, 1, 1, 3, 2, 4];
    let board = Puzzle::raw_from_grid(&grid);
    assert_eq!(guess(&board), None);
}

#[test]
fn applied_hidden_single_keeps_zones_clean() {
    let mut board = Puzzle::raw_from_grid(&vec![0, 0, 0, 1, 0, 1, 0, 0, 0, 0, 1, 0, 0, 0, 0, 0]);
    board.update_guesses(AutoPencil::Always);
    let solution = hidden_single(&board).unwrap();
    let (cell, mask) = solution.values[0];
    assert_eq!((cell, mask), (12, 1));
    // apply the deduction: value 1 into cell 12
    board.set_value(cell, 1);
    assert_eq!(board.verify(false), Vec::<usize>::new());
}
