//! The score of a word in a row and of a whole board.
//!
//! A letter on a cell is worth its points times the multiplier of the cell.
//! The cell that holds the wildcard tile is worth nothing. The sum of a row
//! is raised by three tenths and rounded up; so is the sum of the bonus
//! cells. Where the wildcard letter stands on several cells of a board, the
//! wildcard tile is taken to lie on the cell that costs the least.
//!
//! The raise by three tenths is the bonus for a common word. It is given to
//! every row and to every bonus word: no list of common words is consulted.
//! Each row and the bonus word are rounded up by themselves, not their sum.
//!
//! The raise is reckoned in whole numbers, as thirteen tenths rounded up, so
//! that a sum that is a multiple of ten is raised exactly. Points have 32
//! bits and multipliers 16, and the sums are kept in 64 bits: no score of a
//! board can overflow.

use crate::board::{board_wildcard, fits_row, is_board, Board};
use crate::config::{ConfigError, GameConfig, BOARD_ROWS, BONUS_CELLS, ROW_CELLS};
use crate::words::{CandidateWord, WordView};
use vstd::prelude::*;

verus! {

/// The largest worth of one cell: the largest points times the largest
/// multiplier.
pub const CELL_MAX: u64 = 281470681677825;

/// The largest score of a word in a row: five cells of the largest worth,
/// raised by three tenths.
pub const WORD_SCORE_MAX: u64 = 1829559430905863;

/// A bound for the score of a board: five rows and the bonus word.
pub const BOARD_SCORE_MAX: u64 = 10977356585435178;

/// A sum raised by three tenths and rounded up to a whole number.
pub open spec fn scaled(raw: nat) -> nat {
    (raw * 13 + 9) / 10
}

/// Whether `hole` names the cell in row `row` and column `col`.
pub open spec fn is_hole(hole: Option<(usize, usize)>, row: int, col: int) -> bool {
    hole matches Some(cell) && cell.0 == row && cell.1 == col
}

/// The worth of the letter `letter` on the cell in row `row` and column
/// `col`, where `hole` is the cell on which the wildcard tile lies.
pub open spec fn cell_points(
    config: GameConfig,
    letter: char,
    row: int,
    col: int,
    hole: Option<(usize, usize)>,
) -> nat {
    if is_hole(hole, row, col) {
        0
    } else {
        config.scores.points_of(letter) * config.schema.multiplier(row, col)
    }
}

/// The sum of the first `n` cells of a row that holds `letters`.
pub open spec fn row_raw(
    config: GameConfig,
    letters: Seq<char>,
    row: int,
    hole: Option<(usize, usize)>,
    n: nat,
) -> nat
    decreases n,
{
    if n == 0 {
        0
    } else {
        row_raw(config, letters, row, hole, (n - 1) as nat) + cell_points(
            config,
            letters[n - 1],
            row,
            n - 1,
            hole,
        )
    }
}

/// The score of the word `letters` in row `row`.
pub open spec fn word_score(
    config: GameConfig,
    letters: Seq<char>,
    row: int,
    hole: Option<(usize, usize)>,
) -> nat {
    scaled(row_raw(config, letters, row, hole, letters.len()))
}

/// The larger of a best value so far and a new value; the value so far stays
/// where the new one is not greater.
pub open spec fn better(so_far: Option<nat>, value: nat) -> Option<nat> {
    match so_far {
        Some(best) => if value > best {
            Some(value)
        } else {
            so_far
        },
        None => Some(value),
    }
}

/// The best score of `word` in row `row` over the first `n` columns on which
/// the wildcard tile may lie: the columns that hold the word's wildcard
/// letter. `None` where there is no such column.
pub open spec fn best_hole_in_row(config: GameConfig, word: WordView, row: int, n: nat) -> Option<
    nat,
>
    decreases n,
{
    if n == 0 {
        None
    } else {
        let so_far = best_hole_in_row(config, word, row, (n - 1) as nat);
        if word.wildcard == Some(word.letters[n - 1]) {
            better(
                so_far,
                word_score(config, word.letters, row, Some((row as usize, (n - 1) as usize))),
            )
        } else {
            so_far
        }
    }
}

/// The score of `word` alone in row `row`, the wildcard tile lying where it
/// costs the least.
pub open spec fn word_prescore(config: GameConfig, word: WordView, row: int) -> nat {
    match best_hole_in_row(config, word, row, word.letters.len()) {
        Some(best) => best,
        None => word_score(config, word.letters, row, None),
    }
}

/// The sum of the scores of the first `n` rows.
pub open spec fn rows_total(
    config: GameConfig,
    rows: Seq<WordView>,
    hole: Option<(usize, usize)>,
    n: nat,
) -> nat
    decreases n,
{
    if n == 0 {
        0
    } else {
        rows_total(config, rows, hole, (n - 1) as nat) + word_score(
            config,
            rows[n - 1].letters,
            n - 1,
            hole,
        )
    }
}

/// The sum of the first `n` bonus cells.
pub open spec fn bonus_raw(
    config: GameConfig,
    rows: Seq<WordView>,
    hole: Option<(usize, usize)>,
    n: nat,
) -> nat
    decreases n,
{
    if n == 0 {
        0
    } else {
        bonus_raw(config, rows, hole, (n - 1) as nat) + cell_points(
            config,
            rows[config.bonus.row(n - 1)].letters[config.bonus.col(n - 1)],
            config.bonus.row(n - 1),
            config.bonus.col(n - 1),
            hole,
        )
    }
}

/// The total of a board for one place of the wildcard tile: the scores of
/// the five rows and, where it counts, the score of the bonus word.
pub open spec fn placement_total(
    config: GameConfig,
    rows: Seq<WordView>,
    hole: Option<(usize, usize)>,
    with_bonus: bool,
) -> nat {
    rows_total(config, rows, hole, BOARD_ROWS as nat) + if with_bonus {
        scaled(bonus_raw(config, rows, hole, BONUS_CELLS as nat))
    } else {
        0
    }
}

/// Whether the wildcard tile may lie on the cell in row `row` and column
/// `col`: the cell holds the board's wildcard letter.
pub open spec fn is_candidate_cell(rows: Seq<WordView>, row: int, col: int) -> bool {
    &&& 0 <= row < rows.len()
    &&& 0 <= col < rows[row].letters.len()
    &&& col < ROW_CELLS
    &&& board_wildcard(rows) == Some(rows[row].letters[col])
}

/// The best total over the first `n` cells of the board, counted row by
/// row, on which the wildcard tile may lie. `None` where there is no such
/// cell.
pub open spec fn best_placement(
    config: GameConfig,
    rows: Seq<WordView>,
    with_bonus: bool,
    n: nat,
) -> Option<nat>
    decreases n,
{
    if n == 0 {
        None
    } else {
        let so_far = best_placement(config, rows, with_bonus, (n - 1) as nat);
        let row = (n - 1) / 5;
        let col = (n - 1) % 5;
        if is_candidate_cell(rows, row, col) {
            better(
                so_far,
                placement_total(config, rows, Some((row as usize, col as usize)), with_bonus),
            )
        } else {
            so_far
        }
    }
}

/// The score of a board: the best total over the cells on which the
/// wildcard tile may lie, and the plain total where there is no such cell.
pub open spec fn board_score(config: GameConfig, rows: Seq<WordView>, with_bonus: bool) -> nat {
    match best_placement(config, rows, with_bonus, (BOARD_ROWS * ROW_CELLS) as nat) {
        Some(best) => best,
        None => placement_total(config, rows, None, with_bonus),
    }
}

/// Every bonus cell lies on a letter of the word in its row.
pub open spec fn bonus_cells_inside(config: GameConfig, rows: Seq<WordView>) -> bool {
    forall|k: int| 0 <= k < BONUS_CELLS ==> #[trigger] bonus_cell_inside(config, rows, k)
}

/// The `k`-th bonus cell lies on a letter of the word in its row.
pub open spec fn bonus_cell_inside(config: GameConfig, rows: Seq<WordView>, k: int) -> bool {
    config.bonus.col(k) < rows[config.bonus.row(k)].letters.len()
}

/// No cell is worth more than `CELL_MAX`.
pub proof fn lemma_cell_points_bound(
    config: GameConfig,
    letter: char,
    row: int,
    col: int,
    hole: Option<(usize, usize)>,
)
    requires
        0 <= row < BOARD_ROWS,
        0 <= col < ROW_CELLS,
    ensures
        cell_points(config, letter, row, col, hole) <= CELL_MAX,
{
    let p = config.scores.points_of(letter);
    let m = config.schema.multiplier(row, col);
    assert(p * m <= 0xFFFF_FFFF * 0xFFFF) by (nonlinear_arith)
        requires
            p <= 0xFFFF_FFFF,
            m <= 0xFFFF,
    ;
}

/// The sum of `n` cells of a row is at most `n` times `CELL_MAX`.
pub proof fn lemma_row_raw_bound(
    config: GameConfig,
    letters: Seq<char>,
    row: int,
    hole: Option<(usize, usize)>,
    n: nat,
)
    requires
        0 <= row < BOARD_ROWS,
        n <= ROW_CELLS,
    ensures
        row_raw(config, letters, row, hole, n) <= n * CELL_MAX,
    decreases n,
{
    if n > 0 {
        lemma_row_raw_bound(config, letters, row, hole, (n - 1) as nat);
        lemma_cell_points_bound(config, letters[n - 1], row, n - 1, hole);
    }
}

/// The score of a word that fits into a row is at most `WORD_SCORE_MAX`.
pub proof fn lemma_word_score_bound(
    config: GameConfig,
    letters: Seq<char>,
    row: int,
    hole: Option<(usize, usize)>,
)
    requires
        0 <= row < BOARD_ROWS,
        letters.len() <= ROW_CELLS,
    ensures
        word_score(config, letters, row, hole) <= WORD_SCORE_MAX,
{
    lemma_row_raw_bound(config, letters, row, hole, letters.len());
}

/// The sum of the scores of `n` rows of a board is bounded.
pub proof fn lemma_rows_total_bound(
    config: GameConfig,
    rows: Seq<WordView>,
    hole: Option<(usize, usize)>,
    n: nat,
)
    requires
        is_board(rows),
        n <= BOARD_ROWS,
    ensures
        rows_total(config, rows, hole, n) <= n * WORD_SCORE_MAX,
    decreases n,
{
    if n > 0 {
        lemma_rows_total_bound(config, rows, hole, (n - 1) as nat);
        assert(fits_row(rows, n - 1));
        lemma_word_score_bound(config, rows[n - 1].letters, n - 1, hole);
    }
}

/// Whether `hole` names the cell in row `row` and column `col`.
fn hole_at(hole: Option<(usize, usize)>, row: usize, col: usize) -> (at: bool)
    ensures
        at == is_hole(hole, row as int, col as int),
{
    match hole {
        Some((r, c)) => r == row && c == col,
        None => false,
    }
}

/// The worth of one letter on one cell.
fn cell_worth(
    config: &GameConfig,
    letter: char,
    row: usize,
    col: usize,
    hole: Option<(usize, usize)>,
) -> (worth: u64)
    requires
        row < BOARD_ROWS,
        col < ROW_CELLS,
    ensures
        worth == cell_points(*config, letter, row as int, col as int, hole),
        worth <= CELL_MAX,
{
    proof {
        lemma_cell_points_bound(*config, letter, row as int, col as int, hole);
    }
    if hole_at(hole, row, col) {
        0
    } else {
        let points = config.scores.letter_to_score(letter) as u64;
        let multiplier = config.schema.multiplier_at(row, col) as u64;
        assert(points * multiplier <= 0xFFFF_FFFF * 0xFFFF) by (nonlinear_arith)
            requires
                points <= 0xFFFF_FFFF,
                multiplier <= 0xFFFF,
        ;
        points * multiplier
    }
}

/// A sum raised by three tenths and rounded up.
fn scale(raw: u64) -> (out: u64)
    requires
        raw <= 5 * CELL_MAX,
    ensures
        out == scaled(raw as nat),
{
    (raw * 13 + 9) / 10
}

/// The score of `word` in row `row`: the letters' points times the
/// multipliers of their cells, summed, raised by three tenths and rounded
/// up. The cell named by `wildcard_index`, if it lies in this row, counts
/// nothing.
pub fn score_word(
    config: &GameConfig,
    row: usize,
    word: &CandidateWord,
    wildcard_index: Option<(usize, usize)>,
) -> (score: u64)
    requires
        row < BOARD_ROWS,
        word@.letters.len() <= ROW_CELLS,
    ensures
        score == word_score(*config, word@.letters, row as int, wildcard_index),
{
    let n = word.len();
    let mut raw: u64 = 0;
    let mut col: usize = 0;
    while col < n
        invariant
            0 <= col <= n,
            n == word@.letters.len(),
            n <= ROW_CELLS,
            row < BOARD_ROWS,
            raw == row_raw(*config, word@.letters, row as int, wildcard_index, col as nat),
            raw <= col * CELL_MAX,
        decreases n - col,
    {
        let worth = cell_worth(config, word.letter(col), row, col, wildcard_index);
        raw = raw + worth;
        col = col + 1;
    }
    scale(raw)
}

/// The score of `word` alone in row `row`. Where the word uses the wildcard
/// tile, the tile is tried on every position that holds the wildcard letter,
/// and the best score counts.
pub fn prescore_word_in_row(config: &GameConfig, row: usize, word: &CandidateWord) -> (score: u64)
    requires
        row < BOARD_ROWS,
        word@.letters.len() <= ROW_CELLS,
    ensures
        score == word_prescore(*config, word@, row as int),
{
    let n = word.len();
    let mut best: Option<u64> = None;
    if let Some(covered) = word.wildcard {
        let mut col: usize = 0;
        while col < n
            invariant
                0 <= col <= n,
                n == word@.letters.len(),
                n <= ROW_CELLS,
                row < BOARD_ROWS,
                word.wildcard == Some(covered),
                best is Some <==> best_hole_in_row(*config, word@, row as int, col as nat) is Some,
                best matches Some(b) ==> Some(b as nat) == best_hole_in_row(
                    *config,
                    word@,
                    row as int,
                    col as nat,
                ),
            decreases n - col,
        {
            if word.letter(col) == covered {
                let score = score_word(config, row, word, Some((row, col)));
                best =
                match best {
                    Some(b) => if score > b {
                        Some(score)
                    } else {
                        best
                    },
                    None => Some(score),
                };
            }
            col = col + 1;
        }
    } else {
        proof {
            lemma_no_hole_without_wildcard(*config, word@, row as int, n as nat);
        }
    }
    match best {
        Some(b) => b,
        None => score_word(config, row, word, None),
    }
}

/// A word that does not use the wildcard tile has no place for it.
pub proof fn lemma_no_hole_without_wildcard(config: GameConfig, word: WordView, row: int, n: nat)
    requires
        word.wildcard is None,
    ensures
        best_hole_in_row(config, word, row, n) is None,
    decreases n,
{
    if n > 0 {
        lemma_no_hole_without_wildcard(config, word, row, (n - 1) as nat);
    }
}

/// The total of a board for one place of the wildcard tile.
pub fn placement_score(
    config: &GameConfig,
    board: &Board,
    wildcard_index: Option<(usize, usize)>,
    with_bonus: bool,
) -> (total: u64)
    requires
        config.bonus.wf(),
        board.wf(),
        bonus_cells_inside(*config, board@),
    ensures
        total == placement_total(*config, board@, wildcard_index, with_bonus),
        total <= BOARD_SCORE_MAX,
{
    let mut total: u64 = 0;
    let mut row: usize = 0;
    while row < BOARD_ROWS
        invariant
            0 <= row <= BOARD_ROWS,
            board.wf(),
            total == rows_total(*config, board@, wildcard_index, row as nat),
            total <= row * WORD_SCORE_MAX,
        decreases BOARD_ROWS - row,
    {
        proof {
            assert(fits_row(board@, row as int));
            lemma_rows_total_bound(*config, board@, wildcard_index, (row + 1) as nat);
        }
        let score = score_word(config, row, &board.rows[row], wildcard_index);
        total = total + score;
        row = row + 1;
    }
    if with_bonus {
        let mut raw: u64 = 0;
        let mut k: usize = 0;
        while k < BONUS_CELLS
            invariant
                0 <= k <= BONUS_CELLS,
                config.bonus.wf(),
                board.wf(),
                bonus_cells_inside(*config, board@),
                raw == bonus_raw(*config, board@, wildcard_index, k as nat),
                raw <= k * CELL_MAX,
            decreases BONUS_CELLS - k,
        {
            let (r, c) = config.bonus.cell(k);
            proof {
                assert(config.bonus.on_board(k as int));
                assert(bonus_cell_inside(*config, board@, k as int));
            }
            let letter = board.rows[r].letter(c);
            let worth = cell_worth(config, letter, r, c, wildcard_index);
            raw = raw + worth;
            k = k + 1;
        }
        total = total + scale(raw);
    }
    total
}

/// The score of a complete board. Every cell that holds the board's
/// wildcard letter is tried as the place of the wildcard tile, and the best
/// total counts; a board without such a cell has one total only. With
/// `bonus_word_required` the score of the bonus word is part of each total.
///
/// A bonus cell that lies behind the end of the word in its row is an error
/// of the configuration, whether or not the bonus word is required.
pub fn score_board(config: &GameConfig, board: &Board, bonus_word_required: bool) -> (out: Result<
    u64,
    ConfigError,
>)
    requires
        config.bonus.wf(),
        board.wf(),
    ensures
        out is Ok <==> bonus_cells_inside(*config, board@),
        out matches Ok(score) ==> score == board_score(*config, board@, bonus_word_required),
        out matches Err(e) ==> e == ConfigError::BonusCellOutsideWord,
{
    {
        let mut k: usize = 0;
        while k < BONUS_CELLS
            invariant
                0 <= k <= BONUS_CELLS,
                config.bonus.wf(),
                board.wf(),
                forall|j: int| 0 <= j < k ==> #[trigger] bonus_cell_inside(*config, board@, j),
            decreases BONUS_CELLS - k,
        {
            let (r, c) = config.bonus.cell(k);
            assert(config.bonus.on_board(k as int));
            if c >= board.rows[r].len() {
                assert(!bonus_cell_inside(*config, board@, k as int));
                return Err(ConfigError::BonusCellOutsideWord);
            }
            assert(bonus_cell_inside(*config, board@, k as int));
            k = k + 1;
        }
    }
    let covered = board.wildcard_letter();
    let mut best: Option<u64> = None;
    if let Some(letter) = covered {
        let mut n: usize = 0;
        while n < 25
            invariant
                0 <= n <= 25,
                config.bonus.wf(),
                board.wf(),
                bonus_cells_inside(*config, board@),
                board_wildcard(board@) == Some(letter),
                best is Some <==> best_placement(*config, board@, bonus_word_required, n as nat)
                    is Some,
                best matches Some(b) ==> Some(b as nat) == best_placement(
                    *config,
                    board@,
                    bonus_word_required,
                    n as nat,
                ),
            decreases 25 - n,
        {
            let row = n / 5;
            let col = n % 5;
            let mut candidate = false;
            if col < board.rows[row].len() {
                if board.rows[row].letter(col) == letter {
                    candidate = true;
                }
            }
            assert(candidate == is_candidate_cell(board@, row as int, col as int));
            if candidate {
                let total = placement_score(config, board, Some((row, col)), bonus_word_required);
                best =
                match best {
                    Some(b) => if total > b {
                        Some(total)
                    } else {
                        best
                    },
                    None => Some(total),
                };
            }
            n = n + 1;
        }
    } else {
        proof {
            lemma_no_placement_without_wildcard(*config, board@, bonus_word_required, 25);
        }
    }
    match best {
        Some(b) => Ok(b),
        None => Ok(placement_score(config, board, None, bonus_word_required)),
    }
}

/// Rows of which none uses the wildcard tile have no place for it.
pub proof fn lemma_no_placement_without_wildcard(
    config: GameConfig,
    rows: Seq<WordView>,
    with_bonus: bool,
    n: nat,
)
    requires
        board_wildcard(rows) is None,
    ensures
        best_placement(config, rows, with_bonus, n) is None,
    decreases n,
{
    if n > 0 {
        lemma_no_placement_without_wildcard(config, rows, with_bonus, (n - 1) as nat);
    }
}

/// A board on which no row uses the wildcard tile has one total only: its
/// score is the plain sum, with no place of the wildcard tile to look for.
pub proof fn lemma_score_without_wildcard(config: GameConfig, rows: Seq<WordView>, with_bonus: bool)
    requires
        board_wildcard(rows) is None,
    ensures
        board_score(config, rows, with_bonus) == placement_total(config, rows, None, with_bonus),
{
    lemma_no_placement_without_wildcard(config, rows, with_bonus, (BOARD_ROWS * ROW_CELLS) as nat);
}

/// The best total over the first `n` cells is the total of one of the cells
/// on which the wildcard tile may lie, and no such cell among them has a
/// greater total.
pub proof fn lemma_best_placement_is_best(
    config: GameConfig,
    rows: Seq<WordView>,
    with_bonus: bool,
    n: nat,
)
    ensures
        best_placement(config, rows, with_bonus, n) matches Some(best) ==> exists|
            row: int,
            col: int,
        |
            0 <= row && 0 <= col < ROW_CELLS && row * 5 + col < n && #[trigger] is_candidate_cell(
                rows,
                row,
                col,
            ) && best == placement_total(
                config,
                rows,
                Some((row as usize, col as usize)),
                with_bonus,
            ),
        forall|row: int, col: int|
            0 <= row && 0 <= col < ROW_CELLS && row * 5 + col < n && #[trigger] is_candidate_cell(
                rows,
                row,
                col,
            ) ==> best_placement(config, rows, with_bonus, n) is Some && placement_total(
                config,
                rows,
                Some((row as usize, col as usize)),
                with_bonus,
            ) <= best_placement(config, rows, with_bonus, n)->0,
    decreases n,
{
    if n > 0 {
        lemma_best_placement_is_best(config, rows, with_bonus, (n - 1) as nat);
        let so_far = best_placement(config, rows, with_bonus, (n - 1) as nat);
        let r = (n - 1) / 5;
        let c = (n - 1) % 5;
        let now = best_placement(config, rows, with_bonus, n);
        if now is Some {
            if is_candidate_cell(rows, r, c) && now == Some(
                placement_total(config, rows, Some((r as usize, c as usize)), with_bonus),
            ) {
                assert(r * 5 + c < n && is_candidate_cell(rows, r, c));
            } else {
                assert(now == so_far);
                let (r0, c0) = choose|row: int, col: int|
                    0 <= row && 0 <= col < ROW_CELLS && row * 5 + col < n - 1
                        && #[trigger] is_candidate_cell(rows, row, col) && so_far->0
                        == placement_total(
                        config,
                        rows,
                        Some((row as usize, col as usize)),
                        with_bonus,
                    );
                assert(r0 * 5 + c0 < n && is_candidate_cell(rows, r0, c0));
            }
        }
        assert forall|row: int, col: int|
            0 <= row && 0 <= col < ROW_CELLS && row * 5 + col < n && #[trigger] is_candidate_cell(
                rows,
                row,
                col,
            ) implies now is Some && placement_total(
            config,
            rows,
            Some((row as usize, col as usize)),
            with_bonus,
        ) <= now->0 by {
            if row * 5 + col == n - 1 {
                assert(row == r && col == c);
            }
        }
    }
}

/// The score of a board is the greatest total over the cells on which the
/// wildcard tile may lie: one of them has this total and none has a greater
/// one. A board without such a cell has the plain total.
pub proof fn lemma_board_score_is_best(config: GameConfig, rows: Seq<WordView>, with_bonus: bool)
    requires
        rows.len() <= BOARD_ROWS,
    ensures
        forall|row: int, col: int| #[trigger]
            is_candidate_cell(rows, row, col) ==> placement_total(
                config,
                rows,
                Some((row as usize, col as usize)),
                with_bonus,
            ) <= board_score(config, rows, with_bonus),
        (exists|row: int, col: int| is_candidate_cell(rows, row, col)) ==> exists|
            row: int,
            col: int,
        | #[trigger]
            is_candidate_cell(rows, row, col) && board_score(config, rows, with_bonus)
                == placement_total(
                config,
                rows,
                Some((row as usize, col as usize)),
                with_bonus,
            ),
        (forall|row: int, col: int| !is_candidate_cell(rows, row, col)) ==> board_score(
            config,
            rows,
            with_bonus,
        ) == placement_total(config, rows, None, with_bonus),
{
    lemma_best_placement_is_best(config, rows, with_bonus, 25);
    let best = best_placement(config, rows, with_bonus, 25);
    if exists|row: int, col: int| is_candidate_cell(rows, row, col) {
        let (r, c) = choose|row: int, col: int| is_candidate_cell(rows, row, col);
        assert(0 <= r && 0 <= c < ROW_CELLS && r * 5 + c < 25 && is_candidate_cell(rows, r, c));
        assert(best is Some);
    }
    if best is Some {
        let (r0, c0) = choose|row: int, col: int|
            0 <= row && 0 <= col < ROW_CELLS && row * 5 + col < 25 && #[trigger] is_candidate_cell(
                rows,
                row,
                col,
            ) && best->0 == placement_total(
                config,
                rows,
                Some((row as usize, col as usize)),
                with_bonus,
            );
        assert(is_candidate_cell(rows, r0, c0));
    }
    assert forall|row: int, col: int| #[trigger] is_candidate_cell(rows, row, col) implies placement_total(
        config,
        rows,
        Some((row as usize, col as usize)),
        with_bonus,
    ) <= board_score(config, rows, with_bonus) by {
        assert(0 <= row && 0 <= col < ROW_CELLS && row * 5 + col < 25);
    }
}

/// No letter has fewer points and no cell of the board a smaller multiplier
/// in `high` than in `low`, and the bonus cells are the same.
pub open spec fn worth_no_less(low: GameConfig, high: GameConfig) -> bool {
    &&& low.bonus == high.bonus
    &&& forall|c: char| #[trigger] low.scores.points_of(c) <= high.scores.points_of(c)
    &&& forall|row: int, col: int|
        0 <= row < BOARD_ROWS && 0 <= col < ROW_CELLS ==> #[trigger] low.schema.multiplier(
            row,
            col,
        ) <= high.schema.multiplier(row, col)
}

/// Raising points or multipliers lowers the worth of no cell.
proof fn lemma_cell_points_monotone(
    low: GameConfig,
    high: GameConfig,
    letter: char,
    row: int,
    col: int,
    hole: Option<(usize, usize)>,
)
    requires
        worth_no_less(low, high),
        0 <= row < BOARD_ROWS,
        0 <= col < ROW_CELLS,
    ensures
        cell_points(low, letter, row, col, hole) <= cell_points(high, letter, row, col, hole),
{
    let a = low.scores.points_of(letter);
    let b = high.scores.points_of(letter);
    let m = low.schema.multiplier(row, col);
    let n = high.schema.multiplier(row, col);
    assert(a * m <= b * n) by (nonlinear_arith)
        requires
            0 <= a <= b,
            0 <= m <= n,
    ;
}

/// Raising points or multipliers lowers no sum of a row's cells.
proof fn lemma_row_raw_monotone(
    low: GameConfig,
    high: GameConfig,
    letters: Seq<char>,
    row: int,
    hole: Option<(usize, usize)>,
    n: nat,
)
    requires
        worth_no_less(low, high),
        0 <= row < BOARD_ROWS,
        n <= ROW_CELLS,
    ensures
        row_raw(low, letters, row, hole, n) <= row_raw(high, letters, row, hole, n),
    decreases n,
{
    if n > 0 {
        lemma_row_raw_monotone(low, high, letters, row, hole, (n - 1) as nat);
        lemma_cell_points_monotone(low, high, letters[n - 1], row, n - 1, hole);
    }
}

/// Raising points or multipliers lowers the sum of no rows.
proof fn lemma_rows_total_monotone(
    low: GameConfig,
    high: GameConfig,
    rows: Seq<WordView>,
    hole: Option<(usize, usize)>,
    n: nat,
)
    requires
        worth_no_less(low, high),
        is_board(rows),
        n <= BOARD_ROWS,
    ensures
        rows_total(low, rows, hole, n) <= rows_total(high, rows, hole, n),
    decreases n,
{
    if n > 0 {
        lemma_rows_total_monotone(low, high, rows, hole, (n - 1) as nat);
        assert(fits_row(rows, n - 1));
        lemma_row_raw_monotone(
            low,
            high,
            rows[n - 1].letters,
            n - 1,
            hole,
            rows[n - 1].letters.len(),
        );
    }
}

/// Raising points or multipliers lowers the sum of no bonus cells.
proof fn lemma_bonus_raw_monotone(
    low: GameConfig,
    high: GameConfig,
    rows: Seq<WordView>,
    hole: Option<(usize, usize)>,
    n: nat,
)
    requires
        worth_no_less(low, high),
        low.bonus.wf(),
        n <= BONUS_CELLS,
    ensures
        bonus_raw(low, rows, hole, n) <= bonus_raw(high, rows, hole, n),
    decreases n,
{
    if n > 0 {
        lemma_bonus_raw_monotone(low, high, rows, hole, (n - 1) as nat);
        assert(low.bonus.on_board(n - 1));
        lemma_cell_points_monotone(
            low,
            high,
            rows[low.bonus.row(n - 1)].letters[low.bonus.col(n - 1)],
            low.bonus.row(n - 1),
            low.bonus.col(n - 1),
            hole,
        );
    }
}

/// Raising points or multipliers lowers the total for no place of the
/// wildcard tile.
pub proof fn lemma_placement_total_monotone(
    low: GameConfig,
    high: GameConfig,
    rows: Seq<WordView>,
    hole: Option<(usize, usize)>,
    with_bonus: bool,
)
    requires
        worth_no_less(low, high),
        low.bonus.wf(),
        is_board(rows),
    ensures
        placement_total(low, rows, hole, with_bonus) <= placement_total(
            high,
            rows,
            hole,
            with_bonus,
        ),
{
    lemma_rows_total_monotone(low, high, rows, hole, BOARD_ROWS as nat);
    lemma_bonus_raw_monotone(low, high, rows, hole, BONUS_CELLS as nat);
}

/// Raising points or multipliers lowers the best total of no prefix of the
/// board's cells.
proof fn lemma_best_placement_monotone(
    low: GameConfig,
    high: GameConfig,
    rows: Seq<WordView>,
    with_bonus: bool,
    n: nat,
)
    requires
        worth_no_less(low, high),
        low.bonus.wf(),
        is_board(rows),
    ensures
        best_placement(low, rows, with_bonus, n) is Some <==> best_placement(
            high,
            rows,
            with_bonus,
            n,
        ) is Some,
        best_placement(low, rows, with_bonus, n) is Some ==> best_placement(
            low,
            rows,
            with_bonus,
            n,
        )->0 <= best_placement(high, rows, with_bonus, n)->0,
    decreases n,
{
    if n > 0 {
        lemma_best_placement_monotone(low, high, rows, with_bonus, (n - 1) as nat);
        let row = (n - 1) / 5;
        let col = (n - 1) % 5;
        lemma_placement_total_monotone(
            low,
            high,
            rows,
            Some((row as usize, col as usize)),
            with_bonus,
        );
    }
}

/// The score of a board never falls when the worth of a cell rises and
/// everything else stays as it is: when a letter gets more points, or a cell
/// a greater multiplier.
pub proof fn lemma_board_score_monotone(
    low: GameConfig,
    high: GameConfig,
    rows: Seq<WordView>,
    with_bonus: bool,
)
    requires
        worth_no_less(low, high),
        low.bonus.wf(),
        is_board(rows),
    ensures
        board_score(low, rows, with_bonus) <= board_score(high, rows, with_bonus),
{
    lemma_best_placement_monotone(low, high, rows, with_bonus, (BOARD_ROWS * ROW_CELLS) as nat);
    lemma_placement_total_monotone(low, high, rows, None, with_bonus);
}

/// The scores of `words` alone in row `row`, in the same order.
pub open spec fn prescores(config: GameConfig, words: Seq<CandidateWord>, row: int) -> Seq<nat> {
    Seq::new(words.len(), |i: int| word_prescore(config, words[i]@, row))
}

/// The word at position `a` comes before the word at position `b` when the
/// words are put in order by `keys`: it has the smaller key, or the same key
/// and the earlier position.
pub open spec fn comes_before(keys: Seq<nat>, a: int, b: int) -> bool {
    keys[a] < keys[b] || (keys[a] == keys[b] && a < b)
}

/// `order` lists the positions of `keys` by rising key, positions with the
/// same key staying in their order.
pub open spec fn is_stable_order(keys: Seq<nat>, order: Seq<int>) -> bool {
    &&& order.len() == keys.len()
    &&& forall|i: int| 0 <= i < order.len() ==> 0 <= #[trigger] order[i] < keys.len()
    &&& forall|i: int, j: int|
        0 <= i < j < order.len() ==> comes_before(keys, #[trigger] order[i], #[trigger] order[j])
}

/// `out` holds the words of `words` in the order that `order` gives: the
/// word at each place of `out` is the word at the position that `order` names
/// for that place.
pub open spec fn arranged_by(
    order: Seq<int>,
    words: Seq<CandidateWord>,
    out: Seq<CandidateWord>,
) -> bool {
    &&& out.len() == words.len()
    &&& forall|i: int| 0 <= i < out.len() ==> (#[trigger] out[i])@ == words[order[i]]@
}

/// The words in the order of their scores in row `row`, smallest score
/// first. Words with the same score stay in the order in which they came.
pub fn order_by_prescore(config: &GameConfig, row: usize, words: &Vec<CandidateWord>) -> (out: Vec<
    CandidateWord,
>)
    requires
        row < BOARD_ROWS,
        forall|i: int| 0 <= i < words@.len() ==> (#[trigger] words@[i])@.letters.len() <= ROW_CELLS,
    ensures
        exists|order: Seq<int>| #[trigger]
            is_stable_order(prescores(*config, words@, row as int), order) && arranged_by(
                order,
                words@,
                out@,
            ),
{
    let ghost keys = prescores(*config, words@, row as int);
    let ghost mut order: Seq<int> = Seq::empty();
    let mut out: Vec<CandidateWord> = Vec::new();
    let mut out_keys: Vec<u64> = Vec::new();
    let mut m: usize = 0;
    while m < words.len()
        invariant
            0 <= m <= words@.len(),
            row < BOARD_ROWS,
            keys == prescores(*config, words@, row as int),
            forall|i: int|
                0 <= i < words@.len() ==> (#[trigger] words@[i])@.letters.len() <= ROW_CELLS,
            order.len() == m,
            out@.len() == m,
            out_keys@.len() == m,
            forall|i: int| 0 <= i < m ==> 0 <= #[trigger] order[i] < m,
            forall|i: int| 0 <= i < m ==> (#[trigger] out@[i])@ == words@[order[i]]@,
            forall|i: int| 0 <= i < m ==> #[trigger] out_keys@[i] == keys[order[i]],
            forall|i: int, j: int|
                0 <= i < j < m ==> comes_before(keys, #[trigger] order[i], #[trigger] order[j]),
        decreases words@.len() - m,
    {
        let key = prescore_word_in_row(config, row, &words[m]);
        assert(key == keys[m as int]);
        let mut p: usize = m;
        while p > 0 && out_keys[p - 1] > key
            invariant
                0 <= p <= m,
                out_keys@.len() == m,
                forall|j: int| p <= j < m ==> #[trigger] out_keys@[j] > key,
            decreases p,
        {
            p = p - 1;
        }
        let ghost old_order = order;
        let ghost old_out = out@;
        let ghost old_keys = out_keys@;
        out.insert(p, words[m].duplicate());
        out_keys.insert(p, key);
        proof {
            order = old_order.insert(p as int, m as int);
            old_order.insert_ensures(p as int, m as int);
            old_out.insert_ensures(p as int, out@[p as int]);
            old_keys.insert_ensures(p as int, key);
            assert forall|i: int| 0 <= i < p implies old_keys[i] <= key by {
                if i < p - 1 {
                    assert(comes_before(keys, old_order[i], old_order[p - 1]));
                }
                assert(old_keys[p - 1] == keys[old_order[p - 1]]);
                assert(old_keys[i] == keys[old_order[i]]);
            }
            assert forall|i: int| 0 <= i < m + 1 implies 0 <= #[trigger] order[i] < m + 1 by {
                if i < p {
                    assert(order[i] == old_order[i]);
                } else if i > p {
                    assert(order[i] == old_order[i - 1]);
                }
            }
            assert forall|i: int| 0 <= i < m + 1 implies (#[trigger] out@[i])@
                == words@[order[i]]@ by {
                if i < p {
                    assert(out@[i] == old_out[i] && order[i] == old_order[i]);
                } else if i > p {
                    assert(out@[i] == old_out[i - 1] && order[i] == old_order[i - 1]);
                }
            }
            assert forall|i: int| 0 <= i < m + 1 implies #[trigger] out_keys@[i]
                == keys[order[i]] by {
                if i < p {
                    assert(out_keys@[i] == old_keys[i] && order[i] == old_order[i]);
                } else if i > p {
                    assert(out_keys@[i] == old_keys[i - 1] && order[i] == old_order[i - 1]);
                }
            }
            assert forall|i: int, j: int| 0 <= i < j < m + 1 implies comes_before(
                keys,
                #[trigger] order[i],
                #[trigger] order[j],
            ) by {
                if j < p {
                    assert(order[i] == old_order[i] && order[j] == old_order[j]);
                } else if j == p {
                    assert(order[i] == old_order[i] && order[j] == m);
                    assert(old_keys[i] == keys[old_order[i]]);
                } else if i < p {
                    assert(order[i] == old_order[i] && order[j] == old_order[j - 1]);
                } else if i == p {
                    assert(order[i] == m && order[j] == old_order[j - 1]);
                    assert(old_keys[j - 1] == keys[old_order[j - 1]]);
                    assert(old_keys[j - 1] > key);
                } else {
                    assert(order[i] == old_order[i - 1] && order[j] == old_order[j - 1]);
                }
            }
        }
        m = m + 1;
    }
    assert(is_stable_order(keys, order) && arranged_by(order, words@, out@));
    out
}

} // verus!
