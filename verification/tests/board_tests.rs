use sudoku::Possibilities;
use sudoku::SudokuBoard;
use sudoku::SudokuSpot;

const PUZZLE_ROWS: [&str; 9] = [
    "0 0 0 6 0 0 0 3 8",
    "1 8 6 0 3 7 0 4 2",
    "7 0 4 8 5 2 0 9 1",
    "0 0 0 0 7 9 0 0 4",
    "6 7 0 4 0 5 0 0 0",
    "0 0 9 0 0 0 8 0 0",
    "3 0 7 0 0 0 2 0 6",
    "0 0 0 5 0 0 0 0 7",
    "8 9 0 0 2 0 4 0 0",
];

fn puzzle_board() -> SudokuBoard {
    let mut board = SudokuBoard::default();
    for (row, text) in PUZZLE_ROWS.iter().enumerate() {
        board.fill_row_from_string(text, row as u8);
    }
    board
}

#[test]
fn default_board_is_all_uninitialized() {
    let board = SudokuBoard::default();
    for row in 0..9u8 {
        for column in 0..9u8 {
            assert_eq!(
                board.get_spot_at_coords(row, column),
                SudokuSpot::Uninitialized
            );
        }
    }
}

#[test]
fn set_tile_and_get_spot_round_trip() {
    let mut board = SudokuBoard::default();
    board.set_tile_to_number(5, 4, 7);
    assert_eq!(board.get_spot_at_coords(4, 7), SudokuSpot::Number(5));
    board.set_tile(SudokuSpot::Possibilities(Possibilities { data: 129 }), 0, 0);
    assert_eq!(
        board.get_spot_at_coords(0, 0),
        SudokuSpot::Possibilities(Possibilities { data: 129 })
    );
    assert_eq!(board.get_spot_at_coords(4, 6), SudokuSpot::Uninitialized);
}

#[test]
fn get_spot_by_ref_edits_in_place() {
    let mut board = SudokuBoard::default();
    board.set_tile(SudokuSpot::Possibilities(Possibilities::create_full()), 2, 3);
    match board.get_spot_at_coords_by_ref(2, 3) {
        SudokuSpot::Possibilities(possibilities) => {
            possibilities.clear_marked(4);
        }
        _ => panic!("expected a pending cell"),
    }
    match board.get_spot_at_coords(2, 3) {
        SudokuSpot::Possibilities(p) => {
            assert!(!p.is_number_marked(4));
            assert!(p.is_number_marked(5));
        }
        _ => panic!("expected a pending cell"),
    }
}

#[test]
fn fill_row_from_string_places_nonzero_digits() {
    let mut board = SudokuBoard::default();
    board.fill_row_from_string("0 0 0 6 0 0 0 3 8", 0);
    assert_eq!(board.get_spot_at_coords(0, 3), SudokuSpot::Number(6));
    assert_eq!(board.get_spot_at_coords(0, 7), SudokuSpot::Number(3));
    assert_eq!(board.get_spot_at_coords(0, 8), SudokuSpot::Number(8));
    for column in [0u8, 1, 2, 4, 5, 6] {
        assert_eq!(
            board.get_spot_at_coords(0, column),
            SudokuSpot::Uninitialized
        );
    }
    for row in 1..9u8 {
        for column in 0..9u8 {
            assert_eq!(
                board.get_spot_at_coords(row, column),
                SudokuSpot::Uninitialized
            );
        }
    }
}

#[test]
fn validity_scenario_with_duplicate_fives() {
    let mut board = SudokuBoard::default();
    board.set_tile_to_number(5, 1, 2);
    board.set_tile_to_number(5, 2, 2);
    board.set_tile_to_number(5, 2, 3);
    assert!(!board.is_column_valid(2));
    assert!(!board.is_row_valid(2));
    assert!(board.is_row_valid(1));
    assert!(board.is_column_valid(3));
    assert!(board.is_row_valid(3));
}

#[test]
fn square_validity_detects_duplicates() {
    let mut board = SudokuBoard::default();
    board.set_tile_to_number(5, 1, 2);
    board.set_tile_to_number(5, 2, 2);
    // Both fives sit in the top-left square.
    assert!(!board.is_square_valid(0, 0));
    assert!(!board.is_square_valid(2, 1));
    // The other squares hold at most one digit each.
    assert!(board.is_square_valid(0, 3));
    assert!(board.is_square_valid(8, 8));
    let mut distinct = SudokuBoard::default();
    distinct.set_tile_to_number(1, 0, 0);
    distinct.set_tile_to_number(2, 1, 1);
    distinct.set_tile_to_number(3, 2, 2);
    assert!(distinct.is_square_valid(0, 0));
}

#[test]
fn valid_numbers_for_row_excludes_fixed_digits() {
    let mut board = SudokuBoard::default();
    board.fill_row_from_string("0 0 0 6 0 0 0 3 8", 0);
    let candidates = board.get_valid_numbers_for_row(0);
    for d in 1..=9u8 {
        let expected = d != 6 && d != 3 && d != 8;
        assert_eq!(candidates.is_number_marked(d), expected);
    }
}

#[test]
fn valid_numbers_for_column_excludes_fixed_digits() {
    let mut board = SudokuBoard::default();
    board.set_tile_to_number(4, 0, 2);
    board.set_tile_to_number(9, 6, 2);
    let candidates = board.get_valid_numbers_for_column(2);
    for d in 1..=9u8 {
        let expected = d != 4 && d != 9;
        assert_eq!(candidates.is_number_marked(d), expected);
    }
}

#[test]
fn valid_numbers_for_square_excludes_fixed_digits() {
    let mut board = SudokuBoard::default();
    board.set_tile_to_number(2, 3, 3);
    board.set_tile_to_number(7, 5, 5);
    let candidates = board.get_valid_numbers_for_square(4, 4);
    for d in 1..=9u8 {
        let expected = d != 2 && d != 7;
        assert_eq!(candidates.is_number_marked(d), expected);
    }
}

#[test]
fn valid_numbers_for_spot_intersects_all_three_units() {
    let mut board = SudokuBoard::default();
    board.set_tile_to_number(1, 0, 5);
    board.set_tile_to_number(2, 7, 0);
    board.set_tile_to_number(3, 1, 1);
    let candidates = board.get_valid_numbers_for_spot(0, 0);
    for d in 1..=9u8 {
        let expected = d != 1 && d != 2 && d != 3;
        assert_eq!(candidates.is_number_marked(d), expected);
    }
}

#[test]
fn populate_gives_each_empty_cell_the_spot_candidates() {
    let mut board = puzzle_board();
    let mut expected: Vec<(u8, u8, Possibilities)> = Vec::new();
    for row in 0..9u8 {
        for column in 0..9u8 {
            if board.get_spot_at_coords(row, column) == SudokuSpot::Uninitialized {
                expected.push((row, column, board.get_valid_numbers_for_spot(row, column)));
            }
        }
    }
    let fixed_before: Vec<SudokuSpot> = (0..81u8)
        .map(|i| board.get_spot_at_coords(i / 9, i % 9))
        .collect();
    board.fill_board_with_possibilities();
    for (row, column, candidates) in expected {
        assert_eq!(
            board.get_spot_at_coords(row, column),
            SudokuSpot::Possibilities(candidates)
        );
    }
    for i in 0..81u8 {
        if let SudokuSpot::Number(n) = fixed_before[i as usize] {
            assert_eq!(
                board.get_spot_at_coords(i / 9, i % 9),
                SudokuSpot::Number(n)
            );
        }
    }
}

#[test]
fn propagation_without_singleton_changes_nothing() {
    let mut board = SudokuBoard::default();
    board.set_tile_to_number(5, 0, 0);
    board.fill_board_with_possibilities();
    let before: Vec<SudokuSpot> = (0..81u8)
        .map(|i| board.get_spot_at_coords(i / 9, i % 9))
        .collect();
    let changed = board.convert_all_single_possibilities();
    assert!(!changed);
    for i in 0..81u8 {
        assert_eq!(
            board.get_spot_at_coords(i / 9, i % 9),
            before[i as usize]
        );
    }
}

#[test]
fn propagation_fixes_a_naked_single_and_updates_peers() {
    let mut board = SudokuBoard::default();
    for column in 0..8u8 {
        board.set_tile_to_number(column + 1, 0, column);
    }
    board.fill_board_with_possibilities();
    let changed = board.convert_all_single_possibilities();
    assert!(changed);
    assert_eq!(board.get_spot_at_coords(0, 8), SudokuSpot::Number(9));
    // The pending peers of (0, 8) lost the digit 9.
    match board.get_spot_at_coords(1, 8) {
        SudokuSpot::Possibilities(p) => assert!(!p.is_number_marked(9)),
        _ => panic!("expected a pending cell"),
    }
    // A pending cell outside row 0, column 8 and the top-right square
    // still has 9 as a candidate.
    match board.get_spot_at_coords(4, 4) {
        SudokuSpot::Possibilities(p) => assert!(p.is_number_marked(9)),
        _ => panic!("expected a pending cell"),
    }
}

#[test]
fn is_solved_accepts_a_sum_of_405() {
    // The check is a digit sum, necessary but not sufficient: a board of
    // eighty-one fives sums to 405 without being valid.
    let mut board = SudokuBoard::default();
    for row in 0..9u8 {
        for column in 0..9u8 {
            board.set_tile_to_number(5, row, column);
        }
    }
    assert!(board.is_solved());
    assert!(!board.is_row_valid(0));
}

#[test]
fn is_solved_rejects_an_incomplete_board() {
    let board = puzzle_board();
    assert!(!board.is_solved());
    assert!(!SudokuBoard::default().is_solved());
}

#[test]
fn solve_completes_a_naked_single_puzzle() {
    // Every cell of this puzzle is reachable by naked-single elimination
    // alone; it shares its solution with the seeded example puzzle.
    let rows = [
        "0 0 2 6 0 0 7 3 8",
        "1 0 0 9 0 0 0 0 0",
        "0 3 0 0 0 0 0 0 0",
        "5 0 0 2 0 0 0 0 4",
        "0 0 0 0 8 5 0 0 0",
        "0 0 0 0 0 1 0 7 5",
        "0 4 7 0 9 0 2 0 0",
        "0 6 0 5 0 0 0 8 0",
        "8 0 0 7 0 0 0 0 0",
    ];
    let solution: [[u8; 9]; 9] = [
        [9, 5, 2, 6, 1, 4, 7, 3, 8],
        [1, 8, 6, 9, 3, 7, 5, 4, 2],
        [7, 3, 4, 8, 5, 2, 6, 9, 1],
        [5, 1, 8, 2, 7, 9, 3, 6, 4],
        [6, 7, 3, 4, 8, 5, 1, 2, 9],
        [4, 2, 9, 3, 6, 1, 8, 7, 5],
        [3, 4, 7, 1, 9, 8, 2, 5, 6],
        [2, 6, 1, 5, 4, 3, 9, 8, 7],
        [8, 9, 5, 7, 2, 6, 4, 1, 3],
    ];
    let mut board = SudokuBoard::default();
    for (row, text) in rows.iter().enumerate() {
        board.fill_row_from_string(text, row as u8);
    }
    board.fill_board_with_possibilities();
    assert!(board.solve());
    assert!(board.is_solved());
    for row in 0..9u8 {
        for column in 0..9u8 {
            assert_eq!(
                board.get_spot_at_coords(row, column),
                SudokuSpot::Number(solution[row as usize][column as usize])
            );
        }
    }
    for i in 0..9u8 {
        assert!(board.is_row_valid(i));
        assert!(board.is_column_valid(i));
    }
    for row in [0u8, 3, 6] {
        for column in [0u8, 3, 6] {
            assert!(board.is_square_valid(row, column));
        }
    }
}

#[test]
fn solve_stalls_on_the_seeded_example_puzzle() {
    // The seeded example needs more than naked singles: the solver is
    // greedy and incomplete by design, so it fixes what propagation can
    // reach and then reports the board unsolved.
    let mut board = puzzle_board();
    board.fill_board_with_possibilities();
    assert!(!board.solve());
    assert!(!board.is_solved());
    let mut fixed: u32 = 0;
    for row in 0..9u8 {
        for column in 0..9u8 {
            if matches!(
                board.get_spot_at_coords(row, column),
                SudokuSpot::Number(_)
            ) {
                fixed += 1;
            }
        }
    }
    assert_eq!(fixed, 42);
    // What it did fix agrees with the puzzle's unique solution.
    assert_eq!(board.get_spot_at_coords(1, 3), SudokuSpot::Number(9));
    assert_eq!(board.get_spot_at_coords(2, 1), SudokuSpot::Number(3));
    assert_eq!(board.get_spot_at_coords(6, 3), SudokuSpot::Number(1));
}

#[test]
fn solve_stalls_on_insufficient_clues() {
    let mut board = SudokuBoard::default();
    board.set_tile_to_number(5, 0, 0);
    board.set_tile_to_number(6, 4, 4);
    board.fill_board_with_possibilities();
    assert!(!board.solve());
    let mut pending: u32 = 0;
    for row in 0..9u8 {
        for column in 0..9u8 {
            if matches!(
                board.get_spot_at_coords(row, column),
                SudokuSpot::Possibilities(_)
            ) {
                pending += 1;
            }
        }
    }
    assert_eq!(pending, 79);
}

#[test]
fn maybe_cast_fixes_only_single_candidate_spots() {
    let mut single = Possibilities::default();
    single.set_marked(3);
    assert_eq!(
        SudokuSpot::Possibilities(single).maybe_cast_into_number_from_possibilities(),
        SudokuSpot::Number(3)
    );
    let mut double = Possibilities::default();
    double.set_marked(3);
    double.set_marked(8);
    assert_eq!(
        SudokuSpot::Possibilities(double).maybe_cast_into_number_from_possibilities(),
        SudokuSpot::Possibilities(double)
    );
    assert_eq!(
        SudokuSpot::Possibilities(Possibilities::default())
            .maybe_cast_into_number_from_possibilities(),
        SudokuSpot::Possibilities(Possibilities::default())
    );
    assert_eq!(
        SudokuSpot::Number(2).maybe_cast_into_number_from_possibilities(),
        SudokuSpot::Number(2)
    );
    assert_eq!(
        SudokuSpot::Uninitialized.maybe_cast_into_number_from_possibilities(),
        SudokuSpot::Uninitialized
    );
}
