//! A constraint-propagation Sudoku solver on a fixed 9x9 grid.
//!
//! The solver fills cells whose candidate set has collapsed to a single
//! digit (naked singles) and propagates each placement to the candidate
//! sets of the peers in the same row, column and 3x3 square. It performs
//! no search or backtracking, so a puzzle that needs guessing is reported
//! as unsolved.

mod board;
mod possibilities;

pub use board::SudokuBoard;
pub use board::SudokuSpot;
pub use board::spot_at;
pub use board::row_has_digit;
pub use board::column_has_digit;
pub use board::square_top_row;
pub use board::square_first_column;
pub use board::in_square;
pub use board::square_has_digit;
pub use board::digit_allowed;
pub use board::spots_clash;
pub use board::lemma_candidates_equal_intersection;
pub use board::row_valid;
pub use board::column_valid;
pub use board::square_valid;
pub use board::cleared_spot;
pub use board::placed_update;
pub use board::spot_is_number;
pub use board::same_numbers;
pub use board::candidates_spot_for;
pub use board::scan_before;
pub use board::pending_evolved;
pub use board::spot_no_singleton;
pub use board::no_pending_singleton;
pub use board::num_fixed_upto;
pub use board::num_fixed;
pub use board::fixed_sum_upto;
pub use board::spec_is_solved;
pub use board::row_char;
pub use board::row_sep;
pub use board::row_text_digit;
pub use board::valid_row_text;
pub use possibilities::Possibilities;
pub use possibilities::mask_has;
pub use possibilities::mask_wf;
pub use possibilities::mask_is_singleton;
pub use possibilities::mask_card;
pub use possibilities::mask_card_upto;
pub use possibilities::lemma_mask_extensional;
pub use possibilities::lemma_empty_add_contains;
pub use possibilities::lemma_singleton_iff_card_one;
pub use possibilities::lemma_intersect_commutative;
pub use possibilities::lemma_intersect_associative;
pub use possibilities::lemma_full_intersect_identity;
