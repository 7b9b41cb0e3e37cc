//! The 81-cell grid: coordinate-indexed access, per-unit validity checks,
//! candidate computation, and the naked-single propagation loop.

use vstd::prelude::*;

use crate::possibilities::Possibilities;
use crate::possibilities::lemma_mask_and;
use crate::possibilities::lemma_mask_extensional;
use crate::possibilities::mask_has;
use crate::possibilities::mask_is_singleton;
use crate::possibilities::mask_wf;

verus! {

/// The state of one cell: a fixed digit, not yet touched, or pending with
/// a candidate set of the digits still consistent with the fixed digits of
/// its row, column and square.
#[derive(Debug, PartialEq, Eq, Clone, Copy, Structural)]
pub enum SudokuSpot {
    Number(u8),
    Uninitialized,
    Possibilities(Possibilities),
}

impl SudokuSpot {
    /// A fixed digit lies in 1..=9 and a candidate mask only uses bits 0..=9.
    pub open spec fn wf(self) -> bool {
        match self {
            SudokuSpot::Number(n) => 1 <= n <= 9,
            SudokuSpot::Uninitialized => true,
            SudokuSpot::Possibilities(p) => p.wf(),
        }
    }

    /// If this spot is pending with exactly one candidate digit, that digit
    /// as a fixed number; otherwise the spot unchanged.
    pub fn maybe_cast_into_number_from_possibilities(self) -> (r: Self)
        ensures
            match self {
                SudokuSpot::Possibilities(p) => {
                    &&& (exists|d: u8| mask_is_singleton(p.data, d)) ==> (r matches SudokuSpot::Number(d) && mask_is_singleton(p.data, d))
                    &&& (forall|d: u8| !mask_is_singleton(p.data, d)) ==> r == self
                },
                _ => r == self,
            },
    {
        match &self {
            Self::Possibilities(pos) => {
                match pos.find_only_marked_number() {
                    Some(number) => Self::Number(number),
                    None => self,
                }
            },
            _ => self,
        }
    }
}

impl Default for SudokuSpot {
    /// A fresh cell is untouched.
    fn default() -> (r: Self)
        ensures
            r == SudokuSpot::Uninitialized,
    {
        Self::Uninitialized
    }
}

/// The spot of board `b` at `row`, `column`; cells are laid out row-major.
pub open spec fn spot_at(b: Seq<SudokuSpot>, row: int, column: int) -> SudokuSpot {
    b[row * 9 + column]
}

/// Some cell of the row holds the fixed digit `d`.
pub open spec fn row_has_digit(b: Seq<SudokuSpot>, row: int, d: u8) -> bool {
    exists|c: int| 0 <= c < 9 && spot_at(b, row, c) == SudokuSpot::Number(d)
}

/// Some cell of the column holds the fixed digit `d`.
pub open spec fn column_has_digit(b: Seq<SudokuSpot>, column: int, d: u8) -> bool {
    exists|r: int| 0 <= r < 9 && spot_at(b, r, column) == SudokuSpot::Number(d)
}

/// The top row of the 3x3 square containing `row`.
pub open spec fn square_top_row(row: int) -> int {
    (row / 3) * 3
}

/// The leftmost column of the 3x3 square containing `column`.
pub open spec fn square_first_column(column: int) -> int {
    (column / 3) * 3
}

/// `(r, c)` lies in the same 3x3 square as `(row, column)`.
pub open spec fn in_square(row: int, column: int, r: int, c: int) -> bool {
    &&& 0 <= r < 9
    &&& 0 <= c < 9
    &&& square_top_row(r) == square_top_row(row)
    &&& square_first_column(c) == square_first_column(column)
}

/// `(r, c)` lies in the 3x3 square of `(row, column)` and comes before
/// offset `(i, j)` in a row-major scan of that square.
spec fn square_visited(row: int, column: int, r: int, c: int, i: int, j: int) -> bool {
    &&& in_square(row, column, r, c)
    &&& (r - square_top_row(row) < i || (r - square_top_row(row) == i && c - square_first_column(
        column,
    ) < j))
}

/// Every coordinate lies within 3 cells of the edge of its square.
proof fn lemma_square_geometry()
    ensures
        forall|x: int|
            0 <= x < 9 ==> (#[trigger] square_top_row(x)) <= x && x < square_top_row(x) + 3,
        forall|x: int|
            0 <= x < 9 ==> (#[trigger] square_first_column(x)) <= x && x < square_first_column(x)
                + 3,
{
}

/// The cell at offsets `(i, j)` within the square of `(row, column)` lies
/// in that square.
proof fn lemma_square_member(row: int, column: int, i: int, j: int)
    requires
        0 <= row < 9,
        0 <= column < 9,
        0 <= i < 3,
        0 <= j < 3,
    ensures
        in_square(row, column, square_top_row(row) + i, square_first_column(column) + j),
        0 <= square_top_row(row) + i < 9,
        0 <= square_first_column(column) + j < 9,
{
    lemma_square_geometry();
    assert(square_top_row(square_top_row(row) + i) == square_top_row(row));
    assert(square_first_column(square_first_column(column) + j) == square_first_column(column));
}

/// Some cell of the 3x3 square containing `(row, column)` holds the fixed
/// digit `d`.
pub open spec fn square_has_digit(b: Seq<SudokuSpot>, row: int, column: int, d: u8) -> bool {
    exists|r: int, c: int| in_square(row, column, r, c) && spot_at(b, r, c) == SudokuSpot::Number(d)
}

/// Digit `d` is legal for the cell at `(row, column)`: no cell of its row,
/// column or square holds it as a fixed digit.
pub open spec fn digit_allowed(b: Seq<SudokuSpot>, row: int, column: int, d: u8) -> bool {
    &&& !row_has_digit(b, row, d)
    &&& !column_has_digit(b, column, d)
    &&& !square_has_digit(b, row, column, d)
}

/// The spot with the digit `n` removed from its candidate set, if it is
/// pending; any other spot unchanged.
pub open spec fn cleared_spot(s: SudokuSpot, n: u8) -> SudokuSpot {
    match s {
        SudokuSpot::Possibilities(p) => SudokuSpot::Possibilities(
            Possibilities { data: p.data & !(1u16 << n) },
        ),
        _ => s,
    }
}

/// Clearing a digit from a spot twice is the same as clearing it once.
proof fn lemma_cleared_spot_idempotent(s: SudokuSpot, n: u8)
    ensures
        cleared_spot(cleared_spot(s, n), n) == cleared_spot(s, n),
{
    match s {
        SudokuSpot::Possibilities(p) => {
            let m = p.data;
            assert((m & !(1u16 << n)) & !(1u16 << n) == m & !(1u16 << n)) by (bit_vector);
        },
        _ => {},
    }
}

/// Clearing a digit keeps a spot well-formed.
proof fn lemma_cleared_spot_wf(s: SudokuSpot, n: u8)
    requires
        s.wf(),
        1 <= n <= 9,
    ensures
        cleared_spot(s, n).wf(),
{
    match s {
        SudokuSpot::Possibilities(p) => {
            let m = p.data;
            assert(m < 1024 ==> m & !(1u16 << n) < 1024) by (bit_vector);
        },
        _ => {},
    }
}

/// A pending cell that loses a candidate keeps only digits it already had.
proof fn lemma_pending_cleared(s: SudokuSpot, n: u8)
    requires
        s is Possibilities,
        1 <= n <= 9,
    ensures
        pending_evolved(s, cleared_spot(s, n)),
{
    match s {
        SudokuSpot::Possibilities(p) => {
            let m = p.data;
            assert(forall|d: u8| d <= 9 && mask_has(m & !(1u16 << n), d) ==> mask_has(m, d))
                by (bit_vector);
        },
        _ => {},
    }
}

/// What one placement does to each cell: peers of `(row, column)` — the
/// cells sharing its row, column or square — lose the digit `number` from
/// their candidate sets; every other cell is untouched.
pub open spec fn placed_update(
    b: Seq<SudokuSpot>,
    number: u8,
    row: int,
    column: int,
    r: int,
    c: int,
) -> SudokuSpot {
    if r == row || c == column || in_square(row, column, r, c) {
        cleared_spot(spot_at(b, r, c), number)
    } else {
        spot_at(b, r, c)
    }
}

/// The spot holds `d` as a fixed digit.
pub open spec fn spot_is_number(s: SudokuSpot, d: u8) -> bool {
    s == SudokuSpot::Number(d)
}

/// The two boards agree on every fixed digit; they may differ on untouched
/// and pending cells.
pub open spec fn same_numbers(b1: Seq<SudokuSpot>, b2: Seq<SudokuSpot>) -> bool {
    forall|r: int, c: int, d: u8|
        0 <= r < 9 && 0 <= c < 9 ==> (spot_is_number(spot_at(b1, r, c), d) <==> spot_is_number(
            spot_at(b2, r, c),
            d,
        ))
}

proof fn lemma_same_numbers_units(
    b1: Seq<SudokuSpot>,
    b2: Seq<SudokuSpot>,
    row: int,
    column: int,
    d: u8,
)
    requires
        same_numbers(b1, b2),
        0 <= row < 9,
        0 <= column < 9,
    ensures
        row_has_digit(b1, row, d) ==> row_has_digit(b2, row, d),
        column_has_digit(b1, column, d) ==> column_has_digit(b2, column, d),
        square_has_digit(b1, row, column, d) ==> square_has_digit(b2, row, column, d),
{
    if row_has_digit(b1, row, d) {
        let c = choose|c: int| 0 <= c < 9 && spot_at(b1, row, c) == SudokuSpot::Number(d);
        assert(spot_is_number(spot_at(b1, row, c), d));
        assert(spot_is_number(spot_at(b2, row, c), d));
    }
    if column_has_digit(b1, column, d) {
        let r = choose|r: int| 0 <= r < 9 && spot_at(b1, r, column) == SudokuSpot::Number(d);
        assert(spot_is_number(spot_at(b1, r, column), d));
        assert(spot_is_number(spot_at(b2, r, column), d));
    }
    if square_has_digit(b1, row, column, d) {
        let (r, c) = choose|r: int, c: int|
            in_square(row, column, r, c) && spot_at(b1, r, c) == SudokuSpot::Number(d);
        assert(spot_is_number(spot_at(b1, r, c), d));
        assert(spot_is_number(spot_at(b2, r, c), d));
    }
}

/// Boards with the same fixed digits allow the same digits everywhere.
proof fn lemma_same_numbers_allowed(
    b1: Seq<SudokuSpot>,
    b2: Seq<SudokuSpot>,
    row: int,
    column: int,
    d: u8,
)
    requires
        same_numbers(b1, b2),
        0 <= row < 9,
        0 <= column < 9,
    ensures
        digit_allowed(b1, row, column, d) == digit_allowed(b2, row, column, d),
{
    lemma_same_numbers_units(b1, b2, row, column, d);
    assert(same_numbers(b2, b1));
    lemma_same_numbers_units(b2, b1, row, column, d);
}

/// A pending spot whose candidate set holds exactly the digits legal for
/// the cell `(row, column)` on board `b`; bit 0 is set, as in the full set
/// the candidates were narrowed from.
pub open spec fn candidates_spot_for(
    s: SudokuSpot,
    b: Seq<SudokuSpot>,
    row: int,
    column: int,
) -> bool {
    match s {
        SudokuSpot::Possibilities(p) => {
            &&& p.wf()
            &&& mask_has(p.data, 0)
            &&& forall|d: u8| 1 <= d <= 9 ==> (mask_has(p.data, d) <==> digit_allowed(b, row, column, d))
        },
        _ => false,
    }
}

/// A populated cell's candidate set is exactly the intersection of its
/// row, column and square candidate sets: any masks that list the digits
/// missing from those three units the way the unit scans do, intersected,
/// give the stored mask.
pub proof fn lemma_candidates_equal_intersection(
    s: SudokuSpot,
    b: Seq<SudokuSpot>,
    row: int,
    column: int,
    row_mask: u16,
    column_mask: u16,
    square_mask: u16,
)
    requires
        candidates_spot_for(s, b, row, column),
        mask_wf(row_mask),
        mask_has(row_mask, 0),
        forall|d: u8| 1 <= d <= 9 ==> (mask_has(row_mask, d) <==> !row_has_digit(b, row, d)),
        mask_wf(column_mask),
        mask_has(column_mask, 0),
        forall|d: u8|
            1 <= d <= 9 ==> (mask_has(column_mask, d) <==> !column_has_digit(b, column, d)),
        mask_wf(square_mask),
        mask_has(square_mask, 0),
        forall|d: u8|
            1 <= d <= 9 ==> (mask_has(square_mask, d) <==> !square_has_digit(b, row, column, d)),
    ensures
        s == SudokuSpot::Possibilities(
            Possibilities { data: row_mask & column_mask & square_mask },
        ),
{
    match s {
        SudokuSpot::Possibilities(p) => {
            lemma_mask_and(row_mask, column_mask);
            lemma_mask_and(row_mask & column_mask, square_mask);
            assert forall|d: u8| d <= 9 implies (mask_has(p.data, d) <==> mask_has(
                row_mask & column_mask & square_mask,
                d,
            )) by {
                if 1 <= d {
                    assert(mask_has(row_mask, d) <==> !row_has_digit(b, row, d));
                    assert(mask_has(column_mask, d) <==> !column_has_digit(b, column, d));
                    assert(mask_has(square_mask, d) <==> !square_has_digit(b, row, column, d));
                    assert(mask_has(p.data, d) <==> digit_allowed(b, row, column, d));
                }
            }
            lemma_mask_extensional(p.data, row_mask & column_mask & square_mask);
        },
        _ => {},
    }
}

/// `(r, c)` comes before `(row, column)` in a row-major scan of the grid.
pub open spec fn scan_before(r: int, c: int, row: int, column: int) -> bool {
    &&& 0 <= r < 9
    &&& 0 <= c < 9
    &&& (r < row || (r == row && c < column))
}

/// The sum of the fixed digits among the first `n` cells.
pub open spec fn fixed_sum_upto(b: Seq<SudokuSpot>, n: int) -> int
    decreases n,
{
    if n <= 0 {
        0
    } else {
        fixed_sum_upto(b, n - 1) + (match b[n - 1] {
            SudokuSpot::Number(d) => d as int,
            _ => 0int,
        })
    }
}

/// The solved check the board makes: all fixed digits sum to 405, which is
/// 9 times the sum 1 + ... + 9. Necessary but not sufficient for a truly
/// solved grid: compensating duplicates could reach the same sum.
pub open spec fn spec_is_solved(b: Seq<SudokuSpot>) -> bool {
    fixed_sum_upto(b, 81) == 405
}

/// How a pending cell may evolve during propagation: it stays pending and
/// only loses candidates, or it is fixed to one of its candidate digits.
pub open spec fn pending_evolved(before: SudokuSpot, after: SudokuSpot) -> bool {
    match (before, after) {
        (SudokuSpot::Possibilities(p), SudokuSpot::Possibilities(q)) => forall|d: u8|
            d <= 9 && mask_has(q.data, d) ==> mask_has(p.data, d),
        (SudokuSpot::Possibilities(p), SudokuSpot::Number(d)) => 1 <= d <= 9 && mask_has(
            p.data,
            d,
        ),
        _ => false,
    }
}

/// The spot is not a pending cell with a single-candidate set.
pub open spec fn spot_no_singleton(s: SudokuSpot) -> bool {
    match s {
        SudokuSpot::Possibilities(p) => forall|d: u8| !mask_is_singleton(p.data, d),
        _ => true,
    }
}

/// No pending cell of the board has collapsed to a single candidate: a
/// propagation pass over such a board fixes nothing.
pub open spec fn no_pending_singleton(b: Seq<SudokuSpot>) -> bool {
    forall|r: int, c: int| 0 <= r < 9 && 0 <= c < 9 ==> spot_no_singleton(#[trigger] spot_at(b, r, c))
}

/// How many of the first `n` cells hold a fixed digit.
pub open spec fn num_fixed_upto(b: Seq<SudokuSpot>, n: int) -> int
    decreases n,
{
    if n <= 0 {
        0
    } else {
        num_fixed_upto(b, n - 1) + if b[n - 1] is Number {
            1int
        } else {
            0int
        }
    }
}

/// How many cells of the board hold a fixed digit.
pub open spec fn num_fixed(b: Seq<SudokuSpot>) -> int {
    num_fixed_upto(b, 81)
}

proof fn lemma_num_fixed_bounds(b: Seq<SudokuSpot>, n: int)
    requires
        0 <= n,
    ensures
        0 <= num_fixed_upto(b, n) <= n,
    decreases n,
{
    if n > 0 {
        lemma_num_fixed_bounds(b, n - 1);
    }
}

/// Boards whose cells are fixed at the same positions hold equally many
/// fixed digits.
proof fn lemma_num_fixed_same_status(b1: Seq<SudokuSpot>, b2: Seq<SudokuSpot>, n: int)
    requires
        0 <= n <= 81,
        forall|r: int, c: int|
            0 <= r < 9 && 0 <= c < 9 ==> ((#[trigger] spot_at(b1, r, c)) is Number <==> spot_at(
                b2,
                r,
                c,
            ) is Number),
    ensures
        num_fixed_upto(b1, n) == num_fixed_upto(b2, n),
    decreases n,
{
    if n > 0 {
        lemma_num_fixed_same_status(b1, b2, n - 1);
        let r = (n - 1) / 9;
        let c = (n - 1) % 9;
        assert(r * 9 + c == n - 1);
        assert(spot_at(b1, r, c) == b1[n - 1]);
        assert(spot_at(b2, r, c) == b2[n - 1]);
    }
}

/// Fixing a digit on a cell that was not fixed raises the fixed count of
/// the cells up to `n` by one, when the cell lies among them.
proof fn lemma_num_fixed_set(b: Seq<SudokuSpot>, row: int, column: int, v: SudokuSpot, n: int)
    requires
        b.len() == 81,
        0 <= row < 9,
        0 <= column < 9,
        0 <= n <= 81,
        v is Number,
        !(b[row * 9 + column] is Number),
    ensures
        num_fixed_upto(b.update(row * 9 + column, v), n) == num_fixed_upto(b, n) + if row * 9
            + column < n {
            1int
        } else {
            0int
        },
    decreases n,
{
    if n > 0 {
        lemma_num_fixed_set(b, row, column, v, n - 1);
    }
}

/// The character of the row text that carries the digit for column `i`.
pub open spec fn row_char(s: Seq<char>, i: int) -> char {
    s[2 * i]
}

/// The separator character after the digit for column `i`.
pub open spec fn row_sep(s: Seq<char>, i: int) -> char {
    s[2 * i + 1]
}

/// The digit the row text gives for column `i`, as a number.
pub open spec fn row_text_digit(s: Seq<char>, i: int) -> int {
    row_char(s, i) as int - 48
}

/// The row text holds nine decimal digits separated by single spaces.
pub open spec fn valid_row_text(s: Seq<char>) -> bool {
    &&& s.len() == 17
    &&& forall|i: int| 0 <= i < 9 ==> 48 <= #[trigger] row_char(s, i) as int <= 57
    &&& forall|i: int| 0 <= i < 8 ==> #[trigger] row_sep(s, i) == ' '
}

/// Two spots hold the same fixed digit.
pub open spec fn spots_clash(a: SudokuSpot, b: SudokuSpot) -> bool {
    match (a, b) {
        (SudokuSpot::Number(m), SudokuSpot::Number(n)) => m == n,
        _ => false,
    }
}

/// No fixed digit repeats within the row.
pub open spec fn row_valid(b: Seq<SudokuSpot>, row: int) -> bool {
    forall|c1: int, c2: int|
        0 <= c1 < c2 < 9 ==> !spots_clash(spot_at(b, row, c1), spot_at(b, row, c2))
}

/// No fixed digit repeats within the column.
pub open spec fn column_valid(b: Seq<SudokuSpot>, column: int) -> bool {
    forall|r1: int, r2: int|
        0 <= r1 < r2 < 9 ==> !spots_clash(spot_at(b, r1, column), spot_at(b, r2, column))
}

/// No fixed digit repeats within the 3x3 square containing `(row, column)`.
pub open spec fn square_valid(b: Seq<SudokuSpot>, row: int, column: int) -> bool {
    forall|r1: int, c1: int, r2: int, c2: int|
        in_square(row, column, r1, c1) && in_square(row, column, r2, c2) && (r1 != r2 || c1 != c2)
            ==> !spots_clash(spot_at(b, r1, c1), spot_at(b, r2, c2))
}

/// A 9x9 grid of cells, laid out row-major: index = row * 9 + column.
#[derive(Debug, PartialEq, Eq)]
pub struct SudokuBoard {
    data: Vec<SudokuSpot>,
}

impl View for SudokuBoard {
    type V = Seq<SudokuSpot>;

    closed spec fn view(&self) -> Seq<SudokuSpot> {
        self.data@
    }
}

impl SudokuBoard {
    /// The grid holds exactly 81 cells and every cell is well-formed.
    pub open spec fn wf(self) -> bool {
        &&& self@.len() == 81
        &&& forall|r: int, c: int| 0 <= r < 9 && 0 <= c < 9 ==> spot_at(self@, r, c).wf()
    }

    /// A copy of the cell at `(row, column)`.
    pub fn get_spot_at_coords(&self, row: u8, column: u8) -> (r: SudokuSpot)
        requires
            self.wf(),
            row < 9,
            column < 9,
        ensures
            r == spot_at(self@, row as int, column as int),
    {
        let i: usize = (row as usize) * 9 + (column as usize);
        self.data[i]
    }

    /// A copy of the cell at linear index `i` of the row-major layout.
    fn get_spot_by_index(&self, i: usize) -> (r: SudokuSpot)
        requires
            self.wf(),
            i < 81,
        ensures
            r == self@[i as int],
    {
        self.data[i]
    }

    /// A mutable handle on the cell at `(row, column)`, for in-place
    /// candidate edits; the rest of the grid is untouched.
    pub fn get_spot_at_coords_by_ref(&mut self, row: u8, column: u8) -> (r: &mut SudokuSpot)
        requires
            old(self).wf(),
            row < 9,
            column < 9,
        ensures
            *r == spot_at(old(self)@, row as int, column as int),
            final(self)@ == old(self)@.update(row as int * 9 + column as int, *final(r)),
    {
        let i: usize = (row as usize) * 9 + (column as usize);
        &mut self.data[i]
    }

    /// Parses nine space-separated digits and fixes each nonzero one in
    /// `row`; a `0` leaves its cell as it was.
    pub fn fill_row_from_string(&mut self, input: &str, row: u8)
        requires
            old(self).wf(),
            row < 9,
            valid_row_text(input@),
        ensures
            final(self).wf(),
            forall|c: int|
                0 <= c < 9 ==> spot_at(final(self)@, row as int, c) == (if row_text_digit(
                    input@,
                    c,
                ) != 0 {
                    SudokuSpot::Number(row_text_digit(input@, c) as u8)
                } else {
                    spot_at(old(self)@, row as int, c)
                }),
            forall|r: int, c: int|
                0 <= r < 9 && 0 <= c < 9 && r != row ==> spot_at(final(self)@, r, c) == spot_at(
                    old(self)@,
                    r,
                    c,
                ),
    {
        let mut column: u8 = 0;
        while column < 9
            invariant
                self.wf(),
                row < 9,
                column <= 9,
                valid_row_text(input@),
                forall|c: int|
                    0 <= c < column ==> spot_at(self@, row as int, c) == (if row_text_digit(
                        input@,
                        c,
                    ) != 0 {
                        SudokuSpot::Number(row_text_digit(input@, c) as u8)
                    } else {
                        spot_at(old(self)@, row as int, c)
                    }),
                forall|c: int|
                    column <= c < 9 ==> spot_at(self@, row as int, c) == spot_at(
                        old(self)@,
                        row as int,
                        c,
                    ),
                forall|r: int, c: int|
                    0 <= r < 9 && 0 <= c < 9 && r != row ==> spot_at(self@, r, c) == spot_at(
                        old(self)@,
                        r,
                        c,
                    ),
            decreases 9 - column,
        {
            let idx: usize = 2 * (column as usize);
            let ch = input.get_char(idx);
            proof {
                assert(ch == row_char(input@, column as int));
            }
            let code: u32 = ch as u32;
            let digit: u8 = (code - 48) as u8;
            if digit != 0 {
                self.set_tile_to_number(digit, row, column);
            }
            column = column + 1;
        }
    }

    /// Whether no fixed digit repeats within the column.
    pub fn is_column_valid(&self, column: u8) -> (r: bool)
        requires
            self.wf(),
            column < 9,
        ensures
            r == column_valid(self@, column as int),
    {
        let mut already_checked = Possibilities::default();
        let mut row: u8 = 0;
        while row < 9
            invariant
                self.wf(),
                column < 9,
                row <= 9,
                already_checked.wf(),
                forall|d: u8|
                    d <= 9 ==> (mask_has(already_checked.data, d) <==> exists|r1: int|
                        0 <= r1 < row && spot_at(self@, r1, column as int) == SudokuSpot::Number(
                            d,
                        )),
                forall|r1: int, r2: int|
                    0 <= r1 < r2 < row ==> !spots_clash(
                        spot_at(self@, r1, column as int),
                        spot_at(self@, r2, column as int),
                    ),
            decreases 9 - row,
        {
            match self.get_spot_at_coords(row, column) {
                SudokuSpot::Number(number) => {
                    if already_checked.is_number_marked(number) {
                        assert(!column_valid(self@, column as int)) by {
                            let r1 = choose|r1: int|
                                0 <= r1 < row && spot_at(self@, r1, column as int)
                                    == SudokuSpot::Number(number);
                            assert(spots_clash(
                                spot_at(self@, r1, column as int),
                                spot_at(self@, row as int, column as int),
                            ));
                        }
                        return false;
                    } else {
                        already_checked.set_marked(number);
                    }
                },
                _ => {},
            }
            row = row + 1;
        }
        true
    }

    /// Whether no fixed digit repeats within the row.
    pub fn is_row_valid(&self, row: u8) -> (r: bool)
        requires
            self.wf(),
            row < 9,
        ensures
            r == row_valid(self@, row as int),
    {
        let mut already_checked = Possibilities::default();
        let mut column: u8 = 0;
        while column < 9
            invariant
                self.wf(),
                row < 9,
                column <= 9,
                already_checked.wf(),
                forall|d: u8|
                    d <= 9 ==> (mask_has(already_checked.data, d) <==> exists|c1: int|
                        0 <= c1 < column && spot_at(self@, row as int, c1) == SudokuSpot::Number(
                            d,
                        )),
                forall|c1: int, c2: int|
                    0 <= c1 < c2 < column ==> !spots_clash(
                        spot_at(self@, row as int, c1),
                        spot_at(self@, row as int, c2),
                    ),
            decreases 9 - column,
        {
            match self.get_spot_at_coords(row, column) {
                SudokuSpot::Number(number) => {
                    if already_checked.is_number_marked(number) {
                        assert(!row_valid(self@, row as int)) by {
                            let c1 = choose|c1: int|
                                0 <= c1 < column && spot_at(self@, row as int, c1)
                                    == SudokuSpot::Number(number);
                            assert(spots_clash(
                                spot_at(self@, row as int, c1),
                                spot_at(self@, row as int, column as int),
                            ));
                        }
                        return false;
                    } else {
                        already_checked.set_marked(number);
                    }
                },
                _ => {},
            }
            column = column + 1;
        }
        true
    }

    /// Whether no fixed digit repeats within the 3x3 square containing
    /// `(row, column)`.
    pub fn is_square_valid(&self, row: u8, column: u8) -> (r: bool)
        requires
            self.wf(),
            row < 9,
            column < 9,
        ensures
            r == square_valid(self@, row as int, column as int),
    {
        let square_top: u8 = (row / 3) * 3;
        let square_first: u8 = (column / 3) * 3;
        let mut already_checked = Possibilities::default();
        let mut row_offset: u8 = 0;
        while row_offset < 3
            invariant
                self.wf(),
                row < 9,
                column < 9,
                square_top == square_top_row(row as int),
                square_first == square_first_column(column as int),
                row_offset <= 3,
                already_checked.wf(),
                forall|d: u8|
                    d <= 9 ==> (mask_has(already_checked.data, d) <==> exists|r1: int, c1: int|
                        square_visited(
                            row as int,
                            column as int,
                            r1,
                            c1,
                            row_offset as int,
                            0,
                        ) && spot_at(self@, r1, c1) == SudokuSpot::Number(d)),
                forall|r1: int, c1: int, r2: int, c2: int|
                    square_visited(row as int, column as int, r1, c1, row_offset as int, 0)
                        && square_visited(row as int, column as int, r2, c2, row_offset as int, 0)
                        && (r1 != r2 || c1 != c2) ==> !spots_clash(
                        spot_at(self@, r1, c1),
                        spot_at(self@, r2, c2),
                    ),
            decreases 3 - row_offset,
        {
            let mut column_offset: u8 = 0;
            while column_offset < 3
                invariant
                    self.wf(),
                    row < 9,
                    column < 9,
                    square_top == square_top_row(row as int),
                    square_first == square_first_column(column as int),
                    row_offset < 3,
                    column_offset <= 3,
                    already_checked.wf(),
                    forall|d: u8|
                        d <= 9 ==> (mask_has(already_checked.data, d) <==> exists|
                            r1: int,
                            c1: int,
                        |
                            square_visited(
                                row as int,
                                column as int,
                                r1,
                                c1,
                                row_offset as int,
                                column_offset as int,
                            ) && spot_at(self@, r1, c1) == SudokuSpot::Number(d)),
                    forall|r1: int, c1: int, r2: int, c2: int|
                        square_visited(
                            row as int,
                            column as int,
                            r1,
                            c1,
                            row_offset as int,
                            column_offset as int,
                        ) && square_visited(
                            row as int,
                            column as int,
                            r2,
                            c2,
                            row_offset as int,
                            column_offset as int,
                        ) && (r1 != r2 || c1 != c2) ==> !spots_clash(
                            spot_at(self@, r1, c1),
                            spot_at(self@, r2, c2),
                        ),
                decreases 3 - column_offset,
            {
                let r0: u8 = square_top + row_offset;
                let c0: u8 = square_first + column_offset;
                proof {
                    lemma_square_member(
                        row as int,
                        column as int,
                        row_offset as int,
                        column_offset as int,
                    );
                }
                match self.get_spot_at_coords(r0, c0) {
                    SudokuSpot::Number(number) => {
                        if already_checked.is_number_marked(number) {
                            assert(!square_valid(self@, row as int, column as int)) by {
                                let (r1, c1) = choose|r1: int, c1: int|
                                    square_visited(
                                        row as int,
                                        column as int,
                                        r1,
                                        c1,
                                        row_offset as int,
                                        column_offset as int,
                                    ) && spot_at(self@, r1, c1) == SudokuSpot::Number(number);
                                assert(spots_clash(
                                    spot_at(self@, r1, c1),
                                    spot_at(self@, r0 as int, c0 as int),
                                ));
                            }
                            return false;
                        } else {
                            already_checked.set_marked(number);
                        }
                    },
                    _ => {},
                }
                column_offset = column_offset + 1;
            }
            row_offset = row_offset + 1;
        }
        true
    }

    /// The digits no cell of the row holds as a fixed digit; bit 0 is kept
    /// set, as in the full set it is narrowed from.
    pub fn get_valid_numbers_for_row(&self, row: u8) -> (r: Possibilities)
        requires
            self.wf(),
            row < 9,
        ensures
            r.wf(),
            mask_has(r.data, 0),
            forall|d: u8|
                1 <= d <= 9 ==> (mask_has(r.data, d) <==> !row_has_digit(self@, row as int, d)),
    {
        let mut result = Possibilities::create_full();
        let mut column: u8 = 0;
        while column < 9
            invariant
                self.wf(),
                row < 9,
                column <= 9,
                result.wf(),
                mask_has(result.data, 0),
                forall|d: u8|
                    1 <= d <= 9 ==> (mask_has(result.data, d) <==> !(exists|c1: int|
                        0 <= c1 < column && spot_at(self@, row as int, c1) == SudokuSpot::Number(
                            d,
                        ))),
            decreases 9 - column,
        {
            let tile = self.get_spot_at_coords(row, column);
            match tile {
                SudokuSpot::Number(number) => {
                    result.clear_marked(number);
                },
                _ => {},
            }
            column = column + 1;
        }
        result
    }

    /// The digits no cell of the column holds as a fixed digit; bit 0 is
    /// kept set, as in the full set it is narrowed from.
    pub fn get_valid_numbers_for_column(&self, column: u8) -> (r: Possibilities)
        requires
            self.wf(),
            column < 9,
        ensures
            r.wf(),
            mask_has(r.data, 0),
            forall|d: u8|
                1 <= d <= 9 ==> (mask_has(r.data, d) <==> !column_has_digit(
                    self@,
                    column as int,
                    d,
                )),
    {
        let mut result = Possibilities::create_full();
        let mut row: u8 = 0;
        while row < 9
            invariant
                self.wf(),
                column < 9,
                row <= 9,
                result.wf(),
                mask_has(result.data, 0),
                forall|d: u8|
                    1 <= d <= 9 ==> (mask_has(result.data, d) <==> !(exists|r1: int|
                        0 <= r1 < row && spot_at(self@, r1, column as int) == SudokuSpot::Number(
                            d,
                        ))),
            decreases 9 - row,
        {
            let tile = self.get_spot_at_coords(row, column);
            match tile {
                SudokuSpot::Number(number) => {
                    result.clear_marked(number);
                },
                _ => {},
            }
            row = row + 1;
        }
        result
    }

    /// The digits no cell of the 3x3 square containing `(row, column)`
    /// holds as a fixed digit; bit 0 is kept set, as in the full set it is
    /// narrowed from.
    pub fn get_valid_numbers_for_square(&self, row: u8, column: u8) -> (r: Possibilities)
        requires
            self.wf(),
            row < 9,
            column < 9,
        ensures
            r.wf(),
            mask_has(r.data, 0),
            forall|d: u8|
                1 <= d <= 9 ==> (mask_has(r.data, d) <==> !square_has_digit(
                    self@,
                    row as int,
                    column as int,
                    d,
                )),
    {
        let square_top: u8 = (row / 3) * 3;
        let square_first: u8 = (column / 3) * 3;
        let mut result = Possibilities::create_full();
        let mut row_offset: u8 = 0;
        while row_offset < 3
            invariant
                self.wf(),
                row < 9,
                column < 9,
                square_top == square_top_row(row as int),
                square_first == square_first_column(column as int),
                row_offset <= 3,
                result.wf(),
                mask_has(result.data, 0),
                forall|d: u8|
                    1 <= d <= 9 ==> (mask_has(result.data, d) <==> !(exists|r1: int, c1: int|
                        square_visited(
                            row as int,
                            column as int,
                            r1,
                            c1,
                            row_offset as int,
                            0,
                        ) && spot_at(self@, r1, c1) == SudokuSpot::Number(d))),
            decreases 3 - row_offset,
        {
            let mut column_offset: u8 = 0;
            while column_offset < 3
                invariant
                    self.wf(),
                    row < 9,
                    column < 9,
                    square_top == square_top_row(row as int),
                    square_first == square_first_column(column as int),
                    row_offset < 3,
                    column_offset <= 3,
                    result.wf(),
                    mask_has(result.data, 0),
                    forall|d: u8|
                        1 <= d <= 9 ==> (mask_has(result.data, d) <==> !(exists|r1: int, c1: int|
                            square_visited(
                                row as int,
                                column as int,
                                r1,
                                c1,
                                row_offset as int,
                                column_offset as int,
                            ) && spot_at(self@, r1, c1) == SudokuSpot::Number(d))),
                decreases 3 - column_offset,
            {
                let r0: u8 = square_top + row_offset;
                let c0: u8 = square_first + column_offset;
                proof {
                    lemma_square_member(
                        row as int,
                        column as int,
                        row_offset as int,
                        column_offset as int,
                    );
                }
                match self.get_spot_at_coords(r0, c0) {
                    SudokuSpot::Number(number) => {
                        result.clear_marked(number);
                    },
                    _ => {},
                }
                column_offset = column_offset + 1;
            }
            row_offset = row_offset + 1;
        }
        result
    }

    /// The digits legal for the cell at `(row, column)`: those no cell of
    /// its row, column or square holds as a fixed digit — the intersection
    /// of the three unit candidate sets.
    pub fn get_valid_numbers_for_spot(&self, row: u8, column: u8) -> (r: Possibilities)
        requires
            self.wf(),
            row < 9,
            column < 9,
        ensures
            r.wf(),
            mask_has(r.data, 0),
            forall|d: u8|
                1 <= d <= 9 ==> (mask_has(r.data, d) <==> digit_allowed(
                    self@,
                    row as int,
                    column as int,
                    d,
                )),
    {
        self.get_valid_numbers_for_row(row).common_numbers(
            self.get_valid_numbers_for_column(column),
        ).common_numbers(self.get_valid_numbers_for_square(row, column))
    }

    /// Computes the candidate set of every untouched cell from the fixed
    /// digits now on the board, turning it into a pending cell; fixed and
    /// already-pending cells are untouched. Call once before the solve
    /// loop; calling it again only affects cells still untouched.
    pub fn fill_board_with_possibilities(&mut self)
        requires
            old(self).wf(),
        ensures
            final(self).wf(),
            forall|r: int, c: int|
                0 <= r < 9 && 0 <= c < 9 && spot_at(old(self)@, r, c) == SudokuSpot::Uninitialized
                    ==> candidates_spot_for(#[trigger] spot_at(final(self)@, r, c), old(self)@, r, c),
            forall|r: int, c: int|
                0 <= r < 9 && 0 <= c < 9 && spot_at(old(self)@, r, c) != SudokuSpot::Uninitialized
                    ==> #[trigger] spot_at(final(self)@, r, c) == spot_at(old(self)@, r, c),
    {
        let mut row: u8 = 0;
        while row < 9
            invariant
                self.wf(),
                row <= 9,
                same_numbers(self@, old(self)@),
                forall|r: int, c: int|
                    scan_before(r, c, row as int, 0) && spot_at(old(self)@, r, c)
                        == SudokuSpot::Uninitialized ==> candidates_spot_for(
                        #[trigger] spot_at(self@, r, c),
                        old(self)@,
                        r,
                        c,
                    ),
                forall|r: int, c: int|
                    0 <= r < 9 && 0 <= c < 9 && !scan_before(r, c, row as int, 0)
                        ==> #[trigger] spot_at(self@, r, c) == spot_at(old(self)@, r, c),
                forall|r: int, c: int|
                    scan_before(r, c, row as int, 0) && spot_at(old(self)@, r, c)
                        != SudokuSpot::Uninitialized ==> #[trigger] spot_at(self@, r, c) == spot_at(
                        old(self)@,
                        r,
                        c,
                    ),
            decreases 9 - row,
        {
            let mut column: u8 = 0;
            while column < 9
                invariant
                    self.wf(),
                    row < 9,
                    column <= 9,
                    same_numbers(self@, old(self)@),
                    forall|r: int, c: int|
                        scan_before(r, c, row as int, column as int) && spot_at(old(self)@, r, c)
                            == SudokuSpot::Uninitialized ==> candidates_spot_for(
                            #[trigger] spot_at(self@, r, c),
                            old(self)@,
                            r,
                            c,
                        ),
                    forall|r: int, c: int|
                        0 <= r < 9 && 0 <= c < 9 && !scan_before(r, c, row as int, column as int)
                            ==> #[trigger] spot_at(self@, r, c) == spot_at(old(self)@, r, c),
                    forall|r: int, c: int|
                        scan_before(r, c, row as int, column as int) && spot_at(old(self)@, r, c)
                            != SudokuSpot::Uninitialized ==> #[trigger] spot_at(self@, r, c)
                            == spot_at(old(self)@, r, c),
                decreases 9 - column,
            {
                match self.get_spot_at_coords(row, column) {
                    SudokuSpot::Uninitialized => {
                        let cands = self.get_valid_numbers_for_spot(row, column);
                        let ghost prev = self@;
                        self.set_tile(SudokuSpot::Possibilities(cands), row, column);
                        proof {
                            assert forall|d: u8| 1 <= d <= 9 implies (mask_has(cands.data, d)
                                <==> digit_allowed(
                                old(self)@,
                                row as int,
                                column as int,
                                d,
                            )) by {
                                lemma_same_numbers_allowed(
                                    prev,
                                    old(self)@,
                                    row as int,
                                    column as int,
                                    d,
                                );
                            }
                            assert(candidates_spot_for(
                                spot_at(self@, row as int, column as int),
                                old(self)@,
                                row as int,
                                column as int,
                            ));
                            assert forall|r: int, c: int, d: u8|
                                0 <= r < 9 && 0 <= c < 9 implies (spot_is_number(
                                spot_at(self@, r, c),
                                d,
                            ) <==> spot_is_number(spot_at(old(self)@, r, c), d)) by {
                                assert(spot_is_number(spot_at(prev, r, c), d) <==> spot_is_number(
                                    spot_at(old(self)@, r, c),
                                    d,
                                ));
                            }
                        }
                    },
                    _ => {},
                }
                column = column + 1;
            }
            row = row + 1;
        }
    }

    /// Repeats propagation passes until a pass fixes nothing — the board
    /// may then be incomplete, and false is returned — or until the fixed
    /// digits sum to 405, which returns true. Greedy and without
    /// backtracking: a puzzle that needs guessing is reported as unsolved.
    /// A board that already sums to 405 on entry still returns false, as a
    /// pass over it fixes nothing.
    pub fn solve(&mut self) -> (solved: bool)
        requires
            old(self).wf(),
        ensures
            final(self).wf(),
            solved ==> spec_is_solved(final(self)@),
            !solved ==> no_pending_singleton(final(self)@),
            forall|r: int, c: int|
                0 <= r < 9 && 0 <= c < 9 && !(spot_at(old(self)@, r, c) is Possibilities)
                    ==> #[trigger] spot_at(final(self)@, r, c) == spot_at(old(self)@, r, c),
            forall|r: int, c: int|
                0 <= r < 9 && 0 <= c < 9 && spot_at(old(self)@, r, c) is Possibilities
                    ==> pending_evolved(
                    spot_at(old(self)@, r, c),
                    #[trigger] spot_at(final(self)@, r, c),
                ),
    {
        loop
            invariant
                self.wf(),
                forall|r: int, c: int|
                    0 <= r < 9 && 0 <= c < 9 && !(spot_at(old(self)@, r, c) is Possibilities)
                        ==> #[trigger] spot_at(self@, r, c) == spot_at(old(self)@, r, c),
                forall|r: int, c: int|
                    0 <= r < 9 && 0 <= c < 9 && spot_at(old(self)@, r, c) is Possibilities
                        ==> pending_evolved(
                        spot_at(old(self)@, r, c),
                        #[trigger] spot_at(self@, r, c),
                    ),
            decreases 81 - num_fixed(self@),
        {
            let ghost before = self@;
            if !self.convert_all_single_possibilities() {
                return false;
            }
            proof {
                lemma_num_fixed_bounds(self@, 81);
                assert forall|r: int, c: int|
                    0 <= r < 9 && 0 <= c < 9 && spot_at(old(self)@, r, c) is Possibilities implies
                    pending_evolved(
                    spot_at(old(self)@, r, c),
                    #[trigger] spot_at(self@, r, c),
                ) by {
                    let s0 = spot_at(old(self)@, r, c);
                    let s1 = spot_at(before, r, c);
                    let s2 = spot_at(self@, r, c);
                    assert(pending_evolved(s0, s1));
                }
            }
            if self.is_solved() {
                return true;
            }
        }
    }

    /// Whether the fixed digits of the board sum to 405, which is 9 times
    /// the sum 1 + ... + 9: the necessary-but-not-sufficient solved check.
    pub fn is_solved(&self) -> (r: bool)
        requires
            self.wf(),
        ensures
            r == spec_is_solved(self@),
    {
        let mut sum: u16 = 0;
        let mut i: usize = 0;
        while i < 81
            invariant
                self.wf(),
                i <= 81,
                sum == fixed_sum_upto(self@, i as int),
                sum <= 9 * i,
            decreases 81 - i,
        {
            proof {
                let r = i as int / 9;
                let c = i as int % 9;
                assert(0 <= r < 9 && 0 <= c < 9);
                assert(r * 9 + c == i as int);
                assert(spot_at(self@, r, c).wf());
                assert(self@[i as int].wf());
            }
            match self.get_spot_by_index(i) {
                SudokuSpot::Number(number) => {
                    sum += number as u16;
                },
                _ => {},
            }
            i = i + 1;
        }
        sum == 405
    }

    /// Fixes the digit `number` at `(row, column)`. No sudoku validity
    /// check is made: that is the caller's responsibility.
    pub fn set_tile_to_number(&mut self, number: u8, row: u8, column: u8)
        requires
            old(self).wf(),
            1 <= number <= 9,
            row < 9,
            column < 9,
        ensures
            final(self).wf(),
            final(self)@ == old(self)@.update(
                row as int * 9 + column as int,
                SudokuSpot::Number(number),
            ),
            spot_at(final(self)@, row as int, column as int) == SudokuSpot::Number(number),
            forall|r: int, c: int|
                0 <= r < 9 && 0 <= c < 9 && (r != row || c != column)
                    ==> spot_at(final(self)@, r, c) == spot_at(old(self)@, r, c),
    {
        self.set_tile(SudokuSpot::Number(number), row, column);
    }

    /// One propagation pass, in row-major order: fixes every pending cell
    /// whose candidate set has collapsed to a single digit and removes that
    /// digit from the candidate sets of the cell's pending peers. Returns
    /// whether at least one cell was fixed; a pass over a board with no
    /// naked single changes nothing.
    pub fn convert_all_single_possibilities(&mut self) -> (was_changed: bool)
        requires
            old(self).wf(),
        ensures
            final(self).wf(),
            forall|r: int, c: int|
                0 <= r < 9 && 0 <= c < 9 && !(spot_at(old(self)@, r, c) is Possibilities)
                    ==> #[trigger] spot_at(final(self)@, r, c) == spot_at(old(self)@, r, c),
            forall|r: int, c: int|
                0 <= r < 9 && 0 <= c < 9 && spot_at(old(self)@, r, c) is Possibilities
                    ==> pending_evolved(
                    spot_at(old(self)@, r, c),
                    #[trigger] spot_at(final(self)@, r, c),
                ),
            was_changed <==> exists|r: int, c: int|
                0 <= r < 9 && 0 <= c < 9 && (#[trigger] spot_at(old(self)@, r, c)) is Possibilities
                    && spot_at(final(self)@, r, c) is Number,
            !was_changed ==> final(self)@ == old(self)@ && no_pending_singleton(old(self)@),
            no_pending_singleton(old(self)@) ==> !was_changed,
            num_fixed(final(self)@) >= num_fixed(old(self)@) + if was_changed {
                1int
            } else {
                0int
            },
    {
        let mut was_changed = false;
        let mut row: u8 = 0;
        while row < 9
            invariant
                self.wf(),
                row <= 9,
                forall|r: int, c: int|
                    0 <= r < 9 && 0 <= c < 9 && !(spot_at(old(self)@, r, c) is Possibilities)
                        ==> #[trigger] spot_at(self@, r, c) == spot_at(old(self)@, r, c),
                forall|r: int, c: int|
                    0 <= r < 9 && 0 <= c < 9 && spot_at(old(self)@, r, c) is Possibilities
                        ==> pending_evolved(
                        spot_at(old(self)@, r, c),
                        #[trigger] spot_at(self@, r, c),
                    ),
                was_changed <==> exists|r: int, c: int|
                    0 <= r < 9 && 0 <= c < 9 && (#[trigger] spot_at(
                        old(self)@,
                        r,
                        c,
                    )) is Possibilities && spot_at(self@, r, c) is Number,
                !was_changed ==> self@ == old(self)@ && forall|r: int, c: int|
                    scan_before(r, c, row as int, 0) ==> spot_no_singleton(
                        #[trigger] spot_at(old(self)@, r, c),
                    ),
                was_changed ==> !no_pending_singleton(old(self)@),
                num_fixed(self@) >= num_fixed(old(self)@) + if was_changed {
                    1int
                } else {
                    0int
                },
            decreases 9 - row,
        {
            let mut column: u8 = 0;
            while column < 9
                invariant
                    self.wf(),
                    row < 9,
                    column <= 9,
                    forall|r: int, c: int|
                        0 <= r < 9 && 0 <= c < 9 && !(spot_at(old(self)@, r, c) is Possibilities)
                            ==> #[trigger] spot_at(self@, r, c) == spot_at(old(self)@, r, c),
                    forall|r: int, c: int|
                        0 <= r < 9 && 0 <= c < 9 && spot_at(old(self)@, r, c) is Possibilities
                            ==> pending_evolved(
                            spot_at(old(self)@, r, c),
                            #[trigger] spot_at(self@, r, c),
                        ),
                    was_changed <==> exists|r: int, c: int|
                        0 <= r < 9 && 0 <= c < 9 && (#[trigger] spot_at(
                            old(self)@,
                            r,
                            c,
                        )) is Possibilities && spot_at(self@, r, c) is Number,
                    !was_changed ==> self@ == old(self)@ && forall|r: int, c: int|
                        scan_before(r, c, row as int, column as int) ==> spot_no_singleton(
                            #[trigger] spot_at(old(self)@, r, c),
                        ),
                    was_changed ==> !no_pending_singleton(old(self)@),
                    num_fixed(self@) >= num_fixed(old(self)@) + if was_changed {
                        1int
                    } else {
                        0int
                    },
                decreases 9 - column,
            {
                let tile = self.get_spot_at_coords(row, column);
                match tile {
                    SudokuSpot::Possibilities(possibilities) => {
                        match possibilities.find_only_marked_number() {
                            Some(number) => {
                                proof {
                                    if !no_pending_singleton(old(self)@) {
                                    } else {
                                        assert(spot_no_singleton(
                                            spot_at(old(self)@, row as int, column as int),
                                        ));
                                        assert(false);
                                    }
                                }
                                let ghost prev1 = self@;
                                self.set_tile_to_number(number, row, column);
                                let ghost prev2 = self@;
                                self.update_board_possibilities_after_placing(number, row, column);
                                proof {
                                    lemma_num_fixed_set(
                                        prev1,
                                        row as int,
                                        column as int,
                                        SudokuSpot::Number(number),
                                        81,
                                    );
                                    assert forall|r: int, c: int| 0 <= r < 9 && 0 <= c < 9 implies ((
                                    #[trigger] spot_at(prev2, r, c)) is Number <==> spot_at(
                                        self@,
                                        r,
                                        c,
                                    ) is Number) by {
                                        lemma_square_geometry();
                                    }
                                    lemma_num_fixed_same_status(prev2, self@, 81);
                                    assert forall|r: int, c: int|
                                        0 <= r < 9 && 0 <= c < 9 && spot_at(
                                            old(self)@,
                                            r,
                                            c,
                                        ) is Possibilities implies pending_evolved(
                                        spot_at(old(self)@, r, c),
                                        #[trigger] spot_at(self@, r, c),
                                    ) by {
                                        let s0 = spot_at(old(self)@, r, c);
                                        let s1 = spot_at(prev1, r, c);
                                        let s2 = spot_at(prev2, r, c);
                                        let s3 = spot_at(self@, r, c);
                                        if s2 is Possibilities && s3 is Possibilities && s2 != s3 {
                                            lemma_pending_cleared(s2, number);
                                        }
                                    }
                                    assert(spot_at(self@, row as int, column as int) is Number);
                                    assert(spot_at(
                                        old(self)@,
                                        row as int,
                                        column as int,
                                    ) is Possibilities);
                                }
                                was_changed = true;
                            },
                            None => {
                                proof {
                                    assert(spot_no_singleton(
                                        spot_at(self@, row as int, column as int),
                                    ));
                                }
                            },
                        }
                    },
                    _ => {},
                }
                column = column + 1;
            }
            row = row + 1;
        }
        was_changed
    }

    /// After placing `number` somewhere in `row`, removes it from the
    /// candidate set of every pending cell of that row.
    pub fn update_row_after_placing(&mut self, number: u8, row: u8)
        requires
            old(self).wf(),
            1 <= number <= 9,
            row < 9,
        ensures
            final(self).wf(),
            forall|c: int|
                0 <= c < 9 ==> spot_at(final(self)@, row as int, c) == cleared_spot(
                    spot_at(old(self)@, row as int, c),
                    number,
                ),
            forall|r: int, c: int|
                0 <= r < 9 && 0 <= c < 9 && r != row ==> spot_at(final(self)@, r, c) == spot_at(
                    old(self)@,
                    r,
                    c,
                ),
    {
        let mut column: u8 = 0;
        while column < 9
            invariant
                self.wf(),
                1 <= number <= 9,
                row < 9,
                column <= 9,
                forall|c: int|
                    0 <= c < column ==> spot_at(self@, row as int, c) == cleared_spot(
                        spot_at(old(self)@, row as int, c),
                        number,
                    ),
                forall|c: int|
                    column <= c < 9 ==> spot_at(self@, row as int, c) == spot_at(
                        old(self)@,
                        row as int,
                        c,
                    ),
                forall|r: int, c: int|
                    0 <= r < 9 && 0 <= c < 9 && r != row ==> spot_at(self@, r, c) == spot_at(
                        old(self)@,
                        r,
                        c,
                    ),
            decreases 9 - column,
        {
            let ghost prev = self@;
            proof {
                lemma_cleared_spot_wf(spot_at(self@, row as int, column as int), number);
            }
            match self.get_spot_at_coords_by_ref(row, column) {
                SudokuSpot::Possibilities(possibilities) => {
                    possibilities.clear_marked(number);
                },
                _ => {},
            }
            proof {
                assert forall|r: int, c: int|
                    0 <= r < 9 && 0 <= c < 9 && (r != row || c != column) implies spot_at(
                    self@,
                    r,
                    c,
                ) == spot_at(prev, r, c) by {
                    assert(r * 9 + c != row as int * 9 + column as int);
                }
                assert(spot_at(self@, row as int, column as int) == cleared_spot(
                    spot_at(prev, row as int, column as int),
                    number,
                ));
                assert forall|r: int, c: int| 0 <= r < 9 && 0 <= c < 9 implies spot_at(
                    self@,
                    r,
                    c,
                ).wf() by {
                    if r != row || c != column {
                        assert(spot_at(self@, r, c) == spot_at(prev, r, c));
                        assert(spot_at(prev, r, c).wf());
                    }
                }
            }
            column = column + 1;
        }
    }

    /// After placing `number` somewhere in `column`, removes it from the
    /// candidate set of every pending cell of that column.
    pub fn update_column_after_placing(&mut self, number: u8, column: u8)
        requires
            old(self).wf(),
            1 <= number <= 9,
            column < 9,
        ensures
            final(self).wf(),
            forall|r: int|
                0 <= r < 9 ==> spot_at(final(self)@, r, column as int) == cleared_spot(
                    spot_at(old(self)@, r, column as int),
                    number,
                ),
            forall|r: int, c: int|
                0 <= r < 9 && 0 <= c < 9 && c != column ==> spot_at(final(self)@, r, c) == spot_at(
                    old(self)@,
                    r,
                    c,
                ),
    {
        let mut row: u8 = 0;
        while row < 9
            invariant
                self.wf(),
                1 <= number <= 9,
                column < 9,
                row <= 9,
                forall|r: int|
                    0 <= r < row ==> spot_at(self@, r, column as int) == cleared_spot(
                        spot_at(old(self)@, r, column as int),
                        number,
                    ),
                forall|r: int|
                    row <= r < 9 ==> spot_at(self@, r, column as int) == spot_at(
                        old(self)@,
                        r,
                        column as int,
                    ),
                forall|r: int, c: int|
                    0 <= r < 9 && 0 <= c < 9 && c != column ==> spot_at(self@, r, c) == spot_at(
                        old(self)@,
                        r,
                        c,
                    ),
            decreases 9 - row,
        {
            let ghost prev = self@;
            proof {
                lemma_cleared_spot_wf(spot_at(self@, row as int, column as int), number);
            }
            match self.get_spot_at_coords_by_ref(row, column) {
                SudokuSpot::Possibilities(possibilities) => {
                    possibilities.clear_marked(number);
                },
                _ => {},
            }
            proof {
                assert forall|r: int, c: int|
                    0 <= r < 9 && 0 <= c < 9 && (r != row || c != column) implies spot_at(
                    self@,
                    r,
                    c,
                ) == spot_at(prev, r, c) by {
                    assert(r * 9 + c != row as int * 9 + column as int);
                }
                assert(spot_at(self@, row as int, column as int) == cleared_spot(
                    spot_at(prev, row as int, column as int),
                    number,
                ));
                assert forall|r: int, c: int| 0 <= r < 9 && 0 <= c < 9 implies spot_at(
                    self@,
                    r,
                    c,
                ).wf() by {
                    if r != row || c != column {
                        assert(spot_at(self@, r, c) == spot_at(prev, r, c));
                        assert(spot_at(prev, r, c).wf());
                    }
                }
            }
            row = row + 1;
        }
    }

    /// After placing `number` somewhere in the 3x3 square of
    /// `(row, column)`, removes it from the candidate set of every pending
    /// cell of that square.
    pub fn update_square_after_placing(&mut self, number: u8, row: u8, column: u8)
        requires
            old(self).wf(),
            1 <= number <= 9,
            row < 9,
            column < 9,
        ensures
            final(self).wf(),
            forall|r: int, c: int|
                in_square(row as int, column as int, r, c) ==> spot_at(final(self)@, r, c)
                    == cleared_spot(spot_at(old(self)@, r, c), number),
            forall|r: int, c: int|
                0 <= r < 9 && 0 <= c < 9 && !in_square(row as int, column as int, r, c) ==> spot_at(
                    final(self)@,
                    r,
                    c,
                ) == spot_at(old(self)@, r, c),
    {
        let square_top: u8 = (row / 3) * 3;
        let square_first: u8 = (column / 3) * 3;
        let mut row_offset: u8 = 0;
        while row_offset < 3
            invariant
                self.wf(),
                1 <= number <= 9,
                row < 9,
                column < 9,
                square_top == square_top_row(row as int),
                square_first == square_first_column(column as int),
                row_offset <= 3,
                forall|r: int, c: int|
                    square_visited(row as int, column as int, r, c, row_offset as int, 0)
                        ==> spot_at(self@, r, c) == cleared_spot(spot_at(old(self)@, r, c), number),
                forall|r: int, c: int|
                    0 <= r < 9 && 0 <= c < 9 && !square_visited(
                        row as int,
                        column as int,
                        r,
                        c,
                        row_offset as int,
                        0,
                    ) ==> spot_at(self@, r, c) == spot_at(old(self)@, r, c),
            decreases 3 - row_offset,
        {
            let mut column_offset: u8 = 0;
            while column_offset < 3
                invariant
                    self.wf(),
                    1 <= number <= 9,
                    row < 9,
                    column < 9,
                    square_top == square_top_row(row as int),
                    square_first == square_first_column(column as int),
                    row_offset < 3,
                    column_offset <= 3,
                    forall|r: int, c: int|
                        square_visited(
                            row as int,
                            column as int,
                            r,
                            c,
                            row_offset as int,
                            column_offset as int,
                        ) ==> spot_at(self@, r, c) == cleared_spot(spot_at(old(self)@, r, c), number),
                    forall|r: int, c: int|
                        0 <= r < 9 && 0 <= c < 9 && !square_visited(
                            row as int,
                            column as int,
                            r,
                            c,
                            row_offset as int,
                            column_offset as int,
                        ) ==> spot_at(self@, r, c) == spot_at(old(self)@, r, c),
                decreases 3 - column_offset,
            {
                let r0: u8 = square_top + row_offset;
                let c0: u8 = square_first + column_offset;
                let ghost prev = self@;
                proof {
                    lemma_square_geometry();
                    lemma_square_member(
                        row as int,
                        column as int,
                        row_offset as int,
                        column_offset as int,
                    );
                    lemma_cleared_spot_wf(spot_at(self@, r0 as int, c0 as int), number);
                }
                match self.get_spot_at_coords_by_ref(r0, c0) {
                    SudokuSpot::Possibilities(possibilities) => {
                        possibilities.clear_marked(number);
                    },
                    _ => {},
                }
                proof {
                    assert forall|r: int, c: int|
                        0 <= r < 9 && 0 <= c < 9 && (r != r0 || c != c0) implies spot_at(
                        self@,
                        r,
                        c,
                    ) == spot_at(prev, r, c) by {
                        assert(r * 9 + c != r0 as int * 9 + c0 as int);
                    }
                    assert(spot_at(self@, r0 as int, c0 as int) == cleared_spot(
                        spot_at(prev, r0 as int, c0 as int),
                        number,
                    ));
                    assert forall|r: int, c: int| 0 <= r < 9 && 0 <= c < 9 implies spot_at(
                        self@,
                        r,
                        c,
                    ).wf() by {
                        if r != r0 || c != c0 {
                            assert(spot_at(self@, r, c) == spot_at(prev, r, c));
                            assert(spot_at(prev, r, c).wf());
                        }
                    }
                }
                column_offset = column_offset + 1;
            }
            row_offset = row_offset + 1;
        }
    }

    /// After placing `number` at `(row, column)`, removes it from the
    /// candidate set of every pending peer cell: same row, same column or
    /// same 3x3 square.
    pub fn update_board_possibilities_after_placing(&mut self, number: u8, row: u8, column: u8)
        requires
            old(self).wf(),
            1 <= number <= 9,
            row < 9,
            column < 9,
        ensures
            final(self).wf(),
            forall|r: int, c: int|
                0 <= r < 9 && 0 <= c < 9 ==> spot_at(final(self)@, r, c) == placed_update(
                    old(self)@,
                    number,
                    row as int,
                    column as int,
                    r,
                    c,
                ),
    {
        let ghost b0 = self@;
        self.update_row_after_placing(number, row);
        let ghost b1 = self@;
        self.update_column_after_placing(number, column);
        let ghost b2 = self@;
        self.update_square_after_placing(number, row, column);
        proof {
            assert forall|r: int, c: int| 0 <= r < 9 && 0 <= c < 9 implies spot_at(self@, r, c)
                == placed_update(b0, number, row as int, column as int, r, c) by {
                let s0 = spot_at(b0, r, c);
                let s1 = spot_at(b1, r, c);
                let s2 = spot_at(b2, r, c);
                let s3 = spot_at(self@, r, c);
                lemma_cleared_spot_idempotent(s0, number);
                lemma_cleared_spot_idempotent(cleared_spot(s0, number), number);
                assert(s1 == if r == row { cleared_spot(s0, number) } else { s0 });
                assert(s2 == if c == column { cleared_spot(s1, number) } else { s1 });
                assert(s3 == if in_square(row as int, column as int, r, c) {
                    cleared_spot(s2, number)
                } else {
                    s2
                });
            }
        }
    }

    /// Overwrites the cell at `(row, column)` with `value`. No sudoku
    /// validity check is made: that is the caller's responsibility.
    pub fn set_tile(&mut self, value: SudokuSpot, row: u8, column: u8)
        requires
            old(self).wf(),
            value.wf(),
            row < 9,
            column < 9,
        ensures
            final(self).wf(),
            final(self)@ == old(self)@.update(row as int * 9 + column as int, value),
            spot_at(final(self)@, row as int, column as int) == value,
            forall|r: int, c: int|
                0 <= r < 9 && 0 <= c < 9 && (r != row || c != column)
                    ==> spot_at(final(self)@, r, c) == spot_at(old(self)@, r, c),
    {
        let i: usize = (row as usize) * 9 + (column as usize);
        self.data[i] = value;
        proof {
            assert forall|r: int, c: int|
                0 <= r < 9 && 0 <= c < 9 && (r != row || c != column) implies spot_at(self@, r, c)
                == spot_at(old(self)@, r, c) by {
                assert(r * 9 + c != row as int * 9 + column as int);
            }
        }
    }
}

impl Default for SudokuBoard {
    /// A fresh board: 81 untouched cells.
    fn default() -> (r: Self)
        ensures
            r.wf(),
            r@.len() == 81,
            forall|i: int| 0 <= i < 81 ==> r@[i] == SudokuSpot::Uninitialized,
    {
        let mut data: Vec<SudokuSpot> = Vec::new();
        let mut i: usize = 0;
        while i < 81
            invariant
                i <= 81,
                data@.len() == i,
                forall|j: int| 0 <= j < i ==> data@[j] == SudokuSpot::Uninitialized,
            decreases 81 - i,
        {
            data.push(SudokuSpot::Uninitialized);
            i = i + 1;
        }
        Self { data }
    }
}

} // verus!
