//! The fixed configuration of a game: the letter table, the multipliers of
//! the board's cells and the cells that spell the bonus word.

use vstd::prelude::*;
use crate::letters::{
    is_letter, letter_slot, slot_of, Bag, Letter, LetterInventory, LETTER_KINDS, TILE_KINDS,
    WILDCARD, WILDCARD_SLOT,
};

verus! {

/// Number of rows of a board.
pub const BOARD_ROWS: usize = 5;

/// Number of cells in a row.
pub const ROW_CELLS: usize = 5;

/// Number of cells that spell the bonus word.
pub const BONUS_CELLS: usize = 4;

/// What can be wrong with a configuration.
#[derive(Clone, Copy, Debug, PartialEq, Eq, Structural)]
pub enum ConfigError {
    /// An entry of the letter table names neither a letter nor the wildcard.
    UnknownLetter,
    /// The wildcard entry of the letter table carries points.
    WildcardScored,
    /// Two entries of the letter table name the same tile kind.
    DuplicateLetter,
    /// A cell of the schema has the multiplier zero.
    ZeroMultiplier,
    /// A bonus cell lies in a row that the board does not have.
    BonusRowOutOfRange,
    /// A bonus cell lies in a column that the board does not have.
    BonusColumnOutOfRange,
    /// A bonus cell lies behind the end of the word in its row.
    BonusCellOutsideWord,
}

/// The points of each letter. The wildcard and every character that is no
/// letter are worth nothing.
#[derive(Clone, Copy, Debug)]
pub struct ScoreTable {
    /// The points for `A` to `Z`.
    pub points: [u32; 26],
}

impl ScoreTable {
    /// The points for one tile that shows `c`.
    pub open spec fn points_of(&self, c: char) -> nat {
        if is_letter(c) {
            self.points@[slot_of(c)] as nat
        } else {
            0
        }
    }

    /// The points for one tile that shows `c`.
    pub fn letter_to_score(&self, c: char) -> (points: u32)
        ensures
            points == self.points_of(c),
    {
        match letter_slot(c) {
            Some(k) => self.points[k],
            None => 0,
        }
    }
}

/// The multipliers of the board's cells, row by row.
#[derive(Clone, Copy, Debug)]
pub struct PositionSchema {
    /// `cells[r][c]` is the multiplier of the cell in row `r` and column `c`.
    pub cells: [[u16; 5]; 5],
}

impl PositionSchema {
    /// The multiplier of the cell in row `row` and column `col`.
    pub open spec fn multiplier(&self, row: int, col: int) -> nat {
        self.cells@[row]@[col] as nat
    }

    /// Every multiplier is positive.
    pub open spec fn wf(&self) -> bool {
        forall|r: int, c: int|
            0 <= r < BOARD_ROWS && 0 <= c < ROW_CELLS ==> #[trigger] self.multiplier(r, c) >= 1
    }

    /// The schema with the given multipliers, if all of them are positive.
    pub fn new(cells: [[u16; 5]; 5]) -> (out: Result<PositionSchema, ConfigError>)
        ensures
            out matches Ok(schema) ==> schema.cells == cells && schema.wf(),
            out matches Err(e) ==> e == ConfigError::ZeroMultiplier,
            out is Ok <==> (PositionSchema { cells }).wf(),
    {
        let schema = PositionSchema { cells };
        let mut n: usize = 0;
        while n < 25
            invariant
                0 <= n <= 25,
                schema.cells == cells,
                forall|r: int, c: int|
                    0 <= r < BOARD_ROWS && 0 <= c < ROW_CELLS && r * 5 + c < n
                        ==> #[trigger] schema.multiplier(r, c) >= 1,
            decreases 25 - n,
        {
            let r = n / 5;
            let c = n % 5;
            if schema.cells[r][c] == 0 {
                assert(schema.multiplier(r as int, c as int) == 0);
                return Err(ConfigError::ZeroMultiplier);
            }
            assert forall|r2: int, c2: int|
                0 <= r2 < BOARD_ROWS && 0 <= c2 < ROW_CELLS && r2 * 5 + c2 < n + 1
                    implies #[trigger] schema.multiplier(r2, c2) >= 1 by {
                if r2 * 5 + c2 == n {
                    assert(r2 == r && c2 == c);
                }
            }
            n = n + 1;
        }
        Ok(schema)
    }

    /// The multiplier of the cell in row `row` and column `col`.
    pub fn multiplier_at(&self, row: usize, col: usize) -> (m: u16)
        requires
            row < BOARD_ROWS,
            col < ROW_CELLS,
        ensures
            m == self.multiplier(row as int, col as int),
    {
        self.cells[row][col]
    }
}

/// The cells whose letters, read in the order given, spell the bonus word.
#[derive(Clone, Copy, Debug)]
pub struct BonusSpec {
    /// Row and column of each bonus cell.
    pub cells: [(usize, usize); 4],
}

impl BonusSpec {
    /// The row of the `k`-th bonus cell.
    pub open spec fn row(&self, k: int) -> int {
        self.cells@[k].0 as int
    }

    /// The column of the `k`-th bonus cell.
    pub open spec fn col(&self, k: int) -> int {
        self.cells@[k].1 as int
    }

    /// Whether the `k`-th bonus cell lies on the board.
    pub open spec fn on_board(&self, k: int) -> bool {
        self.row(k) < BOARD_ROWS && self.col(k) < ROW_CELLS
    }

    /// Every bonus cell lies on the board.
    pub open spec fn wf(&self) -> bool {
        forall|k: int| 0 <= k < BONUS_CELLS ==> #[trigger] self.on_board(k)
    }

    /// The first bonus cell that lies off the board is the `k`-th, and `e`
    /// says in which direction: the row is looked at before the column.
    pub open spec fn first_fault(&self, k: int, e: ConfigError) -> bool {
        &&& 0 <= k < BONUS_CELLS
        &&& forall|j: int| 0 <= j < k ==> #[trigger] self.on_board(j)
        &&& !self.on_board(k)
        &&& e == if self.row(k) >= BOARD_ROWS {
            ConfigError::BonusRowOutOfRange
        } else {
            ConfigError::BonusColumnOutOfRange
        }
    }

    /// The bonus cells as given, if all of them lie on the board.
    pub fn new(cells: [(usize, usize); 4]) -> (out: Result<BonusSpec, ConfigError>)
        ensures
            out matches Ok(bonus) ==> bonus.cells == cells && bonus.wf(),
            out matches Err(e) ==> exists|k: int| (BonusSpec { cells }).first_fault(k, e),
            out is Ok <==> (BonusSpec { cells }).wf(),
    {
        let bonus = BonusSpec { cells };
        let mut k: usize = 0;
        while k < 4
            invariant
                0 <= k <= 4,
                bonus.cells == cells,
                forall|j: int| 0 <= j < k ==> #[trigger] bonus.on_board(j),
            decreases 4 - k,
        {
            let (row, col) = bonus.cells[k];
            if row >= BOARD_ROWS {
                assert(!bonus.on_board(k as int));
                assert(bonus.first_fault(k as int, ConfigError::BonusRowOutOfRange));
                return Err(ConfigError::BonusRowOutOfRange);
            }
            if col >= ROW_CELLS {
                assert(!bonus.on_board(k as int));
                assert(bonus.first_fault(k as int, ConfigError::BonusColumnOutOfRange));
                return Err(ConfigError::BonusColumnOutOfRange);
            }
            assert(bonus.on_board(k as int));
            k = k + 1;
        }
        Ok(bonus)
    }

    /// Row and column of the `k`-th bonus cell.
    pub fn cell(&self, k: usize) -> (rc: (usize, usize))
        requires
            k < BONUS_CELLS,
        ensures
            rc.0 == self.row(k as int),
            rc.1 == self.col(k as int),
    {
        self.cells[k]
    }
}

/// What is wrong with the `i`-th entry of a letter table, if anything.
pub open spec fn letter_entry_error(letters: Seq<Letter>, i: int) -> Option<ConfigError> {
    let entry = letters[i];
    if !is_letter(entry.ch) && entry.ch != WILDCARD {
        Some(ConfigError::UnknownLetter)
    } else if entry.ch == WILDCARD && entry.score != 0 {
        Some(ConfigError::WildcardScored)
    } else if exists|j: int| 0 <= j < i && (#[trigger] letters[j]).ch == entry.ch {
        Some(ConfigError::DuplicateLetter)
    } else {
        None
    }
}

/// No entry of the letter table is at fault.
pub open spec fn letters_valid(letters: Seq<Letter>) -> bool {
    forall|i: int| 0 <= i < letters.len() ==> (#[trigger] letter_entry_error(letters, i)) is None
}

/// The first entry of the letter table that is at fault is the `i`-th, and
/// its fault is `e`.
pub open spec fn letters_first_fault(letters: Seq<Letter>, i: int, e: ConfigError) -> bool {
    &&& 0 <= i < letters.len()
    &&& letter_entry_error(letters, i) == Some(e)
    &&& forall|j: int| 0 <= j < i ==> (#[trigger] letter_entry_error(letters, j)) is None
}

/// Whether the letter table has an entry for the tile kind `c`.
pub open spec fn listed(letters: Seq<Letter>, c: char) -> bool {
    exists|i: int| 0 <= i < letters.len() && (#[trigger] letters[i]).ch == c
}

/// The bag and the points are what the letter table says: each entry gives
/// its tile kind its count and its points, and a tile kind without an entry
/// has neither tiles nor points.
pub open spec fn tables_match(letters: Seq<Letter>, bag: Bag, scores: ScoreTable) -> bool {
    &&& bag.wf()
    &&& forall|i: int|
        0 <= i < letters.len() && is_letter((#[trigger] letters[i]).ch) ==> bag.supply(
            letters[i].ch,
        ) == letters[i].count
    &&& forall|i: int|
        0 <= i < letters.len() && is_letter((#[trigger] letters[i]).ch) ==> scores.points_of(
            letters[i].ch,
        ) == letters[i].score
    &&& forall|i: int|
        0 <= i < letters.len() && (#[trigger] letters[i]).ch == WILDCARD ==> bag.wildcards
            == letters[i].count
    &&& forall|c: char| is_letter(c) && !listed(letters, c) ==> #[trigger] bag.supply(c) == 0
    &&& forall|c: char| is_letter(c) && !listed(letters, c) ==> #[trigger] scores.points_of(c) == 0
    &&& !listed(letters, WILDCARD) ==> bag.wildcards == 0
}

/// Builds the starting inventory and the points of the letters from a letter
/// table. An entry has to name a letter from `A` to `Z` or the wildcard, the
/// wildcard carries no points, and no tile kind is named twice. The first
/// entry at fault gives the error.
pub fn letter_tables(letters: &Vec<Letter>) -> (out: Result<
    (LetterInventory, ScoreTable),
    ConfigError,
>)
    ensures
        out is Ok <==> letters_valid(letters@),
        out matches Ok((inventory, scores)) ==> tables_match(letters@, inventory@, scores),
        out matches Err(e) ==> exists|i: int| letters_first_fault(letters@, i, e),
{
    let mut tiles = [0u32; 27];
    let mut points = [0u32; 26];
    let mut seen = [false; 27];
    let mut i: usize = 0;
    while i < letters.len()
        invariant
            0 <= i <= letters.len(),
            forall|j: int| 0 <= j < i ==> (#[trigger] letter_entry_error(letters@, j)) is None,
            forall|k: int|
                0 <= k < TILE_KINDS ==> (#[trigger] seen@[k] <==> exists|j: int|
                    0 <= j < i && kind_slot((#[trigger] letters@[j]).ch) == k),
            forall|j: int|
                0 <= j < i && is_letter((#[trigger] letters@[j]).ch) ==> tiles@[slot_of(
                    letters@[j].ch,
                )] == letters@[j].count,
            forall|j: int|
                0 <= j < i && is_letter((#[trigger] letters@[j]).ch) ==> points@[slot_of(
                    letters@[j].ch,
                )] == letters@[j].score,
            forall|j: int|
                0 <= j < i && (#[trigger] letters@[j]).ch == WILDCARD ==> tiles@[WILDCARD_SLOT as int]
                    == letters@[j].count,
            forall|k: int| 0 <= k < TILE_KINDS && !(#[trigger] seen@[k]) ==> tiles@[k] == 0,
            forall|k: int| 0 <= k < LETTER_KINDS && !(#[trigger] seen@[k]) ==> points@[k] == 0,
        decreases letters.len() - i,
    {
        let entry = letters[i];
        let slot = match letter_slot(entry.ch) {
            Some(k) => k,
            None => {
                if entry.ch != WILDCARD {
                    assert(letters_first_fault(letters@, i as int, ConfigError::UnknownLetter));
                    return Err(ConfigError::UnknownLetter);
                }
                if entry.score != 0 {
                    assert(letters_first_fault(letters@, i as int, ConfigError::WildcardScored));
                    return Err(ConfigError::WildcardScored);
                }
                WILDCARD_SLOT
            },
        };
        assert(slot == kind_slot(entry.ch));
        if seen[slot] {
            proof {
                let j = choose|j: int| 0 <= j < i && kind_slot((#[trigger] letters@[j]).ch) == slot;
                assert(letter_entry_error(letters@, j) is None);
                assert(letters@[j].ch == entry.ch);
                assert(letters_first_fault(letters@, i as int, ConfigError::DuplicateLetter));
            }
            return Err(ConfigError::DuplicateLetter);
        }
        proof {
            assert forall|j: int| 0 <= j < i implies (#[trigger] letters@[j]).ch != entry.ch by {
                if letters@[j].ch == entry.ch {
                    assert(kind_slot(letters@[j].ch) == slot);
                }
            }
            assert(letter_entry_error(letters@, i as int) is None);
        }
        let ghost old_seen = seen@;
        let ghost old_tiles = tiles@;
        let ghost old_points = points@;
        tiles[slot] = entry.count;
        if slot < LETTER_KINDS {
            points[slot] = entry.score;
        }
        seen[slot] = true;
        proof {
            assert forall|k: int| 0 <= k < TILE_KINDS implies (#[trigger] seen@[k] <==> exists|
                j: int,
            |
                0 <= j < i + 1 && kind_slot((#[trigger] letters@[j]).ch) == k) by {
                if k == slot {
                    assert(kind_slot(letters@[i as int].ch) == k);
                } else if old_seen[k] {
                    let j = choose|j: int|
                        0 <= j < i && kind_slot((#[trigger] letters@[j]).ch) == k;
                    assert(0 <= j < i + 1 && kind_slot(letters@[j].ch) == k);
                } else {
                    assert forall|j: int| 0 <= j < i + 1 implies kind_slot(
                        (#[trigger] letters@[j]).ch,
                    ) != k by {}
                }
            }
            assert forall|j: int|
                0 <= j < i + 1 && is_letter((#[trigger] letters@[j]).ch) implies tiles@[slot_of(
                letters@[j].ch,
            )] == letters@[j].count && points@[slot_of(letters@[j].ch)] == letters@[j].score by {
                if j < i {
                    assert(letter_entry_error(letters@, j) is None);
                    assert(letters@[j].ch != entry.ch);
                    assert(slot_of(letters@[j].ch) != slot);
                }
            }
            assert forall|j: int| 0 <= j < i + 1 && (#[trigger] letters@[j]).ch == WILDCARD implies tiles@[WILDCARD_SLOT as int]
                == letters@[j].count by {
                if j < i {
                    assert(letters@[j].ch != entry.ch);
                }
            }
        }
        i = i + 1;
    }
    let inventory = LetterInventory { tiles };
    let scores = ScoreTable { points };
    proof {
        assert forall|c: char| is_letter(c) && !listed(letters@, c) implies tiles@[slot_of(c)] == 0
            && points@[slot_of(c)] == 0 by {
            let k = slot_of(c);
            if seen@[k] {
                let j = choose|j: int| 0 <= j < i && kind_slot((#[trigger] letters@[j]).ch) == k;
                assert(letter_entry_error(letters@, j) is None);
                assert(letters@[j].ch == c);
            }
        }
        if !listed(letters@, WILDCARD) {
            if seen@[WILDCARD_SLOT as int] {
                let j = choose|j: int|
                    0 <= j < i && kind_slot((#[trigger] letters@[j]).ch) == WILDCARD_SLOT;
                assert(letter_entry_error(letters@, j) is None);
                assert(letters@[j].ch == WILDCARD);
            }
        }
    }
    Ok((inventory, scores))
}

/// The position of a tile kind in a table of tile counts: a letter's own
/// position, and the last position for everything else.
pub open spec fn kind_slot(c: char) -> int {
    if is_letter(c) {
        slot_of(c)
    } else {
        WILDCARD_SLOT as int
    }
}

/// Everything that is fixed before a search: the tiles of the bag, the points
/// of the letters, the multipliers of the cells and the bonus cells.
#[derive(Clone, Copy, Debug)]
pub struct GameConfig {
    /// The tiles that a board may use.
    pub inventory: LetterInventory,
    /// The points of the letters.
    pub scores: ScoreTable,
    /// The multipliers of the cells.
    pub schema: PositionSchema,
    /// The cells that spell the bonus word.
    pub bonus: BonusSpec,
}

impl GameConfig {
    /// The multipliers are positive and the bonus cells lie on the board.
    pub open spec fn wf(&self) -> bool {
        self.schema.wf() && self.bonus.wf()
    }

    /// Checks a configuration and puts it together. The letter table is
    /// checked first, then the schema, then the bonus cells, and the first
    /// fault found gives the error.
    pub fn new(letters: &Vec<Letter>, schema: [[u16; 5]; 5], bonus: [(usize, usize); 4]) -> (out:
        Result<GameConfig, ConfigError>)
        ensures
            out is Ok <==> letters_valid(letters@) && (PositionSchema { cells: schema }).wf() && (
            BonusSpec { cells: bonus }).wf(),
            out matches Ok(config) ==> {
                &&& config.wf()
                &&& tables_match(letters@, config.inventory@, config.scores)
                &&& config.schema.cells == schema
                &&& config.bonus.cells == bonus
            },
            out matches Err(e) ==> {
                if !letters_valid(letters@) {
                    exists|i: int| letters_first_fault(letters@, i, e)
                } else if !(PositionSchema { cells: schema }).wf() {
                    e == ConfigError::ZeroMultiplier
                } else {
                    exists|k: int| (BonusSpec { cells: bonus }).first_fault(k, e)
                }
            },
    {
        let (inventory, scores) = match letter_tables(letters) {
            Ok(tables) => tables,
            Err(e) => {
                return Err(e);
            },
        };
        let schema = match PositionSchema::new(schema) {
            Ok(s) => s,
            Err(e) => {
                return Err(e);
            },
        };
        let bonus = match BonusSpec::new(bonus) {
            Ok(b) => b,
            Err(e) => {
                return Err(e);
            },
        };
        Ok(GameConfig { inventory, scores, schema, bonus })
    }
}

} // verus!
