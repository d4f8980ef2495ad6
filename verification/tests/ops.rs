use quadrata::AutoPencil;
use quadrata::Puzzle;
use quadrata::errors::PuzzleError;
use quadrata::io::from_81;
use quadrata::solver::is_valid;

#[test]
fn set_value_then_undo_restores_cell() {
    let mut board = Puzzle::raw_from_grid(&vec![0, 0, 0, 1, 0, 0, 0, 2, 0, 0, 0, 3, 0, 0, 0, 4]);
    board.set_guess(0, 2);
    let mask_before = board.values[0];
    board.set_value(0, 3);
    assert_eq!(board.values[0], 4);
    assert!(board.solved[0]);
    board.undo();
    assert_eq!(board.values[0], mask_before);
    assert!(!board.solved[0]);
}

#[test]
fn undo_beyond_history_is_a_no_op() {
    let mut board = Puzzle::raw_from_grid(&vec![0, 0, 0, 1, 0, 0, 0, 2, 0, 0, 0, 3, 0, 0, 0, 4]);
    let values_before = board.values.clone();
    board.undo();
    board.undo();
    assert_eq!(board.values, values_before);
}

#[test]
fn fixed_cells_ignore_mutations() {
    let mut board = Puzzle::raw_from_grid(&vec![0, 0, 0, 1, 0, 0, 0, 2, 0, 0, 0, 3, 0, 0, 0, 4]);
    board.set_value(3, 2);
    board.set_guess(3, 2);
    board.erase_guess(3);
    assert_eq!(board.values[3], 1);
    assert!(board.solved[3]);
    let fixed = board.fixed_values();
    assert!(fixed[3]);
    assert!(!fixed[0]);
}

#[test]
fn clearing_the_latest_edit_pops_it() {
    let mut board = Puzzle::raw_from_grid(&vec![0, 0, 0, 1, 0, 0, 0, 2, 0, 0, 0, 3, 0, 0, 0, 4]);
    board.set_value(0, 2);
    board.set_value(0, 0);
    assert_eq!(board.values[0], 0);
    assert!(!board.solved[0]);
    assert_eq!(board.history.len(), 0);
}

#[test]
fn erase_guess_clears_unsolved_cell() {
    let mut board = Puzzle::raw_from_grid(&vec![0, 0, 0, 1, 0, 0, 0, 2, 0, 0, 0, 3, 0, 0, 0, 4]);
    board.set_guess(0, 2);
    board.set_guess(0, 4);
    assert_eq!(board.values[0], 10);
    board.erase_guess(0);
    assert_eq!(board.values[0], 0);
}

#[test]
fn guesses_export_hex_digits() {
    let mut board = Puzzle::raw_from_grid(&vec![0, 0, 0, 1, 0, 0, 0, 2, 0, 0, 0, 3, 0, 0, 0, 4]);
    board.update_guesses(AutoPencil::Always);
    let strings = board.guesses();
    // cell 0 recomputed to mask 14: candidates 2, 3, 4
    assert_eq!(strings[0], "234");
    // solved cell 3 keeps its single value 1
    assert_eq!(strings[3], "1");
}

#[test]
fn only_remove_never_adds_candidates() {
    let mut board = Puzzle::raw_from_grid(&vec![0, 0, 0, 1, 0, 0, 0, 2, 0, 0, 0, 3, 0, 0, 0, 4]);
    board.set_guess(0, 2);
    board.set_guess(0, 4);
    // mask 10; full recomputation would give 14, the intersection keeps 10
    board.update_guesses(AutoPencil::OnlyRemove);
    assert_eq!(board.values[0], 10);
}

#[test]
fn never_leaves_candidates_alone() {
    let mut board = Puzzle::raw_from_grid(&vec![0, 0, 0, 1, 0, 0, 0, 2, 0, 0, 0, 3, 0, 0, 0, 4]);
    board.set_guess(0, 2);
    board.update_guesses(AutoPencil::Never);
    assert_eq!(board.values[0], 2);
}

#[test]
fn snyder_keeps_rare_box_candidates() {
    let mut board = Puzzle::raw_from_grid(&vec![0, 0, 0, 1, 0, 0, 0, 2, 0, 0, 0, 3, 0, 0, 0, 4]);
    board.update_guesses(AutoPencil::Snyder);
    // full recomputation: [14,14,12,1, 13,13,12,2, 11,11,3,4, 7,7,3,8]
    // box 1 (cells 0,1,4,5): candidates 1 and 2 each live in exactly two
    // cells of the box and are kept; 3 and 4 live in all four and drop
    assert_eq!(board.values[0], 2);
    assert_eq!(board.values[4], 1);
}

#[test]
fn verify_strict_flags_wrong_cells() {
    let grid = vec![2, 0, 0, 0, 0, 1, 0, 2, 0, 0, 3, 0, 0, 0, 0, 4];
    let mut puzzle = Puzzle::from_grid(&grid).unwrap();
    // truth for cell 1 is 4; enter 1 there instead
    puzzle.set_value(1, 1);
    assert_eq!(puzzle.verify(true), vec![1]);
    puzzle.set_value(1, 4);
    assert_eq!(puzzle.verify(true), Vec::<usize>::new());
}

#[test]
fn verify_structural_flags_zone_duplicates() {
    let mut board = Puzzle::raw_from_grid(&vec![0, 0, 0, 1, 0, 0, 0, 2, 0, 0, 0, 3, 0, 0, 0, 4]);
    // duplicate 1 in the top-left box
    board.set_value(0, 1);
    board.set_value(5, 1);
    // cell 0 clashes with the given 1 of its row (cell 3) and with cell 5
    // in its box; scan order lists each offender once
    let bad = board.verify(false);
    assert_eq!(bad, vec![0, 3, 5]);
}

#[test]
fn is_complete_tracks_ground_truth() {
    let grid = vec![2, 0, 0, 0, 0, 1, 0, 2, 0, 0, 3, 0, 0, 0, 0, 4];
    let mut puzzle = Puzzle::from_grid(&grid).unwrap();
    assert!(!puzzle.is_complete());
    let truth = puzzle.truths.clone();
    for i in 0..16 {
        if !puzzle.solved[i] {
            puzzle.set_value(i, truth[i]);
        }
    }
    assert!(puzzle.is_complete());
    assert!(is_valid(&puzzle));
}

#[test]
fn from_81_rejects_wrong_length() {
    assert_eq!(from_81("123").unwrap_err(), PuzzleError::BadLength);
}

#[test]
fn from_81_rejects_foreign_characters() {
    let text = "z".repeat(81);
    assert_eq!(from_81(&text).unwrap_err(), PuzzleError::BadChar('z'));
}

#[test]
fn from_81_builds_a_nine_board() {
    let text = "530070000600195000098000060800060003400803001700020006060000280000419005000080079";
    let puzzle = from_81(text).unwrap();
    assert_eq!(puzzle.size, 9);
    assert_eq!(puzzle.truths[0], 5);
    assert_eq!(puzzle.truths[2], 4);
    let grid = puzzle.to_grid();
    assert_eq!(grid[0], 5);
    assert_eq!(grid[2], 0);
}

#[test]
fn new_board_is_empty() {
    let puzzle = Puzzle::new();
    assert_eq!(puzzle.size, 9);
    assert_eq!(puzzle.to_grid(), vec![0u8; 81]);
    assert!(!is_valid(&puzzle));
}

#[test]
fn solved_clean_board_has_every_value_once_per_zone() {
    let grid = vec![2, 0, 0, 0, 0, 1, 0, 2, 0, 0, 3, 0, 0, 0, 0, 4];
    let mut puzzle = Puzzle::from_grid(&grid).unwrap();
    let truth = puzzle.truths.clone();
    for i in 0..16 {
        if !puzzle.solved[i] {
            puzzle.set_value(i, truth[i]);
        }
    }
    assert_eq!(puzzle.verify(false), Vec::<usize>::new());
    let counts = quadrata::solver::get_counts(&puzzle, true);
    for table in &counts {
        for zone in table {
            for &count in zone {
                assert_eq!(count, 1);
            }
        }
    }
}
