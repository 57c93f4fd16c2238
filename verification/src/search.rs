//! The board generator: every way to fill the five rows with words.
//!
//! The rows are filled from the top. A word can be placed on a row if it fits
//! into the row, agrees with the bonus word on the bonus cells of that row,
//! and can be spelled from the tiles that the rows above have left. The
//! wildcard tile covers at most one letter of the whole board.
//!
//! The words have to go with the bonus cells: a bonus word needs a letter
//! for every bonus cell, and every candidate word has to reach the column of
//! every bonus cell in the rows that are filled. Words that do not are an
//! error of the configuration; they are never passed over in silence.

use crate::board::{
    board_wildcard, demand, fits_row, holds_own_wildcard, is_board, lemma_board_wildcard_is,
    lemma_board_wildcard_skip, lemma_no_wildcard_row, one_wildcard_at_most, uses_wildcard,
    wildcard_credit, within_inventory, Board,
};
use crate::config::{ConfigError, GameConfig, BOARD_ROWS, BONUS_CELLS, ROW_CELLS};
use crate::letters::{
    lemma_after_conserves, lemma_covers_needs_no_wildcard, lemma_spellable_from_larger, Bag,
    LetterInventory,
};
use crate::score::{bonus_cell_inside, bonus_cells_inside};
use crate::words::{views, CandidateWord, WordView};
use vstd::prelude::*;

verus! {

/// The letters that the bonus cells have to spell, if a bonus word is
/// required.
pub open spec fn target_of(bonus_word: Option<&CandidateWord>) -> Option<Seq<char>> {
    match bonus_word {
        Some(word) => Some(word@.letters),
        None => None,
    }
}

/// The word `letters` holds the `k`-th letter of the bonus word `target` in
/// the column of the `k`-th bonus cell.
pub open spec fn bonus_letter_matches(
    config: GameConfig,
    target: Seq<char>,
    letters: Seq<char>,
    k: int,
) -> bool {
    letters[config.bonus.col(k)] == target[k]
}

/// The word `letters` in row `row` agrees with the bonus word on every bonus
/// cell of that row. Without a bonus word every word agrees.
pub open spec fn bonus_allows(
    config: GameConfig,
    target: Option<Seq<char>>,
    row: int,
    letters: Seq<char>,
) -> bool {
    match target {
        Some(t) => spells_bonus_in_row(config, t, row, letters),
        None => true,
    }
}

/// The word `letters` in row `row` holds the letters of the bonus word
/// `target` on every bonus cell of that row.
pub open spec fn spells_bonus_in_row(
    config: GameConfig,
    target: Seq<char>,
    row: int,
    letters: Seq<char>,
) -> bool {
    forall|k: int|
        0 <= k < BONUS_CELLS && config.bonus.row(k) == row ==> #[trigger] bonus_letter_matches(
            config,
            target,
            letters,
            k,
        )
}

/// Whether `letters` is one of the candidate words.
pub open spec fn is_word_of(words: Seq<WordView>, letters: Seq<char>) -> bool {
    exists|i: int| 0 <= i < words.len() && (#[trigger] words[i]).letters == letters
}

/// The word `letters` can be placed on row `row`, the rows above having left
/// the tiles of `bag`, and the wildcard tile being free where
/// `allow_wildcard` holds.
pub open spec fn can_place(
    config: GameConfig,
    target: Option<Seq<char>>,
    words: Seq<WordView>,
    bag: Bag,
    allow_wildcard: bool,
    row: int,
    letters: Seq<char>,
) -> bool {
    &&& is_word_of(words, letters)
    &&& letters.len() <= ROW_CELLS
    &&& bonus_allows(config, target, row, letters)
    &&& bag.spellable(letters, allow_wildcard)
}

/// The words `rows` fill the board from row `row` down to the last row: each
/// can be placed on its row with the tiles that the rows before it have
/// left, and each records the letter that the wildcard tile covers in it.
pub open spec fn valid_rows(
    config: GameConfig,
    target: Option<Seq<char>>,
    words: Seq<WordView>,
    bag: Bag,
    allow_wildcard: bool,
    row: int,
    rows: Seq<WordView>,
) -> bool
    decreases rows.len(),
{
    if rows.len() == 0 {
        row == BOARD_ROWS
    } else {
        &&& row < BOARD_ROWS
        &&& can_place(config, target, words, bag, allow_wildcard, row, rows[0].letters)
        &&& rows[0].wildcard == bag.wildcard_for(rows[0].letters)
        &&& valid_rows(
            config,
            target,
            words,
            bag.after(rows[0].letters),
            allow_wildcard && rows[0].wildcard is None,
            row + 1,
            rows.skip(1),
        )
    }
}

/// The rows make a complete board that the generator accepts: five candidate
/// words, placed from the top row down, spelled from the tiles of the
/// configuration with at most one letter covered by the wildcard tile, and
/// in agreement with the bonus word.
pub open spec fn feasible(
    config: GameConfig,
    target: Option<Seq<char>>,
    words: Seq<WordView>,
    rows: Seq<WordView>,
) -> bool {
    valid_rows(config, target, words, config.inventory@, true, 0, rows)
}

/// Whether the candidate word with index `k` is among the live ones.
pub open spec fn is_live(live: Seq<usize>, k: int) -> bool {
    exists|i: int| 0 <= i < live.len() && #[trigger] live[i] == k
}

/// Every candidate word that the bag can still spell is live.
pub open spec fn keeps_spellable(
    words: Seq<WordView>,
    live: Seq<usize>,
    bag: Bag,
    allow_wildcard: bool,
) -> bool {
    forall|k: int|
        0 <= k < words.len() && bag.spellable((#[trigger] words[k]).letters, allow_wildcard)
            ==> is_live(live, k)
}

/// Every live index names a candidate word.
pub open spec fn live_in_range(words: Seq<WordView>, live: Seq<usize>) -> bool {
    forall|i: int| 0 <= i < live.len() ==> (#[trigger] live[i]) < words.len()
}

/// What holds of rows that fill the board from row `row`: there are as many
/// as rows are left, each fits into its row and agrees with the bonus word,
/// and at most one uses the wildcard tile, none where it is not free.
pub proof fn lemma_valid_rows_shape(
    config: GameConfig,
    target: Option<Seq<char>>,
    words: Seq<WordView>,
    bag: Bag,
    allow_wildcard: bool,
    row: int,
    rows: Seq<WordView>,
)
    requires
        0 <= row <= BOARD_ROWS,
        valid_rows(config, target, words, bag, allow_wildcard, row, rows),
    ensures
        rows.len() == BOARD_ROWS - row,
        forall|r: int| 0 <= r < rows.len() ==> #[trigger] fits_row(rows, r),
        forall|r: int|
            0 <= r < rows.len() ==> bonus_allows(config, target, row + r, (#[trigger] rows[r]).letters),
        one_wildcard_at_most(rows),
        !allow_wildcard ==> forall|r: int| !uses_wildcard(rows, r),
        forall|r: int| uses_wildcard(rows, r) ==> #[trigger] holds_own_wildcard(rows, r),
        forall|r: int| 0 <= r < rows.len() ==> is_word_of(words, (#[trigger] rows[r]).letters),
    decreases rows.len(),
{
    if rows.len() > 0 {
        let first = rows[0];
        let tail = rows.skip(1);
        let next_allow = allow_wildcard && first.wildcard is None;
        lemma_valid_rows_shape(
            config,
            target,
            words,
            bag.after(first.letters),
            next_allow,
            row + 1,
            tail,
        );
        assert forall|r: int| uses_wildcard(rows, r) implies #[trigger] holds_own_wildcard(
            rows,
            r,
        ) by {
            if r > 0 {
                assert(tail[r - 1] == rows[r]);
                assert(uses_wildcard(tail, r - 1));
                assert(holds_own_wildcard(tail, r - 1));
            } else {
                let w = choose|w: char| bag.covers_but_one(first.letters, w);
                assert(bag.covers_but_one(first.letters, w));
            }
        }
        if !allow_wildcard {
            lemma_covers_needs_no_wildcard(bag, first.letters);
        }
        assert forall|r: int| 0 <= r < rows.len() implies #[trigger] fits_row(rows, r) by {
            if r > 0 {
                assert(fits_row(tail, r - 1));
                assert(tail[r - 1] == rows[r]);
            }
        }
        assert forall|r: int| 0 <= r < rows.len() implies is_word_of(
            words,
            (#[trigger] rows[r]).letters,
        ) by {
            if r > 0 {
                assert(tail[r - 1] == rows[r]);
            }
        }
        assert forall|r: int| 0 <= r < rows.len() implies bonus_allows(
            config,
            target,
            row + r,
            (#[trigger] rows[r]).letters,
        ) by {
            if r > 0 {
                assert(tail[r - 1] == rows[r]);
            }
        }
        assert forall|r: int, s: int|
            #![trigger uses_wildcard(rows, r), uses_wildcard(rows, s)]
            uses_wildcard(rows, r) && uses_wildcard(rows, s) implies r == s by {
            if r > 0 {
                assert(tail[r - 1] == rows[r]);
                assert(uses_wildcard(tail, r - 1));
            }
            if s > 0 {
                assert(tail[s - 1] == rows[s]);
                assert(uses_wildcard(tail, s - 1));
            }
        }
        if !allow_wildcard {
            assert forall|r: int| !uses_wildcard(rows, r) by {
                if r > 0 && uses_wildcard(rows, r) {
                    assert(tail[r - 1] == rows[r]);
                    assert(uses_wildcard(tail, r - 1));
                }
            }
        }
    }
}

/// The word `letters` reaches the `k`-th bonus cell, if that cell lies in
/// row `row` or below it.
pub open spec fn reaches_bonus_cell(config: GameConfig, letters: Seq<char>, row: int, k: int) -> bool {
    config.bonus.row(k) >= row ==> config.bonus.col(k) < letters.len()
}

/// The word `letters` reaches the column of every bonus cell that lies in
/// row `row` or below it.
pub open spec fn reaches_bonus_cells(config: GameConfig, letters: Seq<char>, row: int) -> bool {
    forall|k: int| 0 <= k < BONUS_CELLS ==> #[trigger] reaches_bonus_cell(config, letters, row, k)
}

/// Every candidate word reaches the column of every bonus cell that lies in
/// row `row` or below it.
pub open spec fn words_reach_bonus_cells(config: GameConfig, words: Seq<WordView>, row: int) -> bool {
    forall|i: int|
        0 <= i < words.len() ==> reaches_bonus_cells(config, (#[trigger] words[i]).letters, row)
}

/// The bonus word, if there is one, has a letter for every bonus cell.
pub open spec fn bonus_word_complete(target: Option<Seq<char>>) -> bool {
    match target {
        Some(t) => t.len() >= BONUS_CELLS,
        None => true,
    }
}

/// The words do not go with the bonus cells: the bonus word is too short
/// for them, or a candidate word ends before the column of a bonus cell that
/// lies in row `row` or below it.
pub open spec fn bonus_fault(
    config: GameConfig,
    target: Option<Seq<char>>,
    words: Seq<WordView>,
    row: int,
) -> bool {
    !bonus_word_complete(target) || !words_reach_bonus_cells(config, words, row)
}

/// A board that the generator accepts is well formed, and where every
/// candidate word reaches the bonus cells, every bonus cell of the board lies
/// on a letter.
pub proof fn lemma_feasible_is_board(
    config: GameConfig,
    target: Option<Seq<char>>,
    words: Seq<WordView>,
    rows: Seq<WordView>,
)
    requires
        feasible(config, target, words, rows),
    ensures
        is_board(rows),
        config.bonus.wf() && words_reach_bonus_cells(config, words, 0) ==> bonus_cells_inside(
            config,
            rows,
        ),
{
    lemma_valid_rows_shape(config, target, words, config.inventory@, true, 0, rows);
    if config.bonus.wf() && words_reach_bonus_cells(config, words, 0) {
        assert forall|k: int| 0 <= k < BONUS_CELLS implies #[trigger] bonus_cell_inside(
            config,
            rows,
            k,
        ) by {
            assert(config.bonus.on_board(k));
            let r = config.bonus.row(k);
            assert(is_word_of(words, rows[r].letters));
            let i = choose|i: int|
                0 <= i < words.len() && (#[trigger] words[i]).letters == rows[r].letters;
            assert(reaches_bonus_cells(config, words[i].letters, 0));
            assert(reaches_bonus_cell(config, words[i].letters, 0, k));
        }
    }
}

/// Whether the words go with the bonus cells from row `row` down: the bonus
/// word, if there is one, has a letter for every bonus cell, and every
/// candidate word reaches the column of every bonus cell in these rows.
pub fn bonus_cells_reached(
    config: &GameConfig,
    bonus_word: Option<&CandidateWord>,
    words: &Vec<CandidateWord>,
    row: usize,
) -> (ok: bool)
    ensures
        ok == !bonus_fault(*config, target_of(bonus_word), views(words@), row as int),
{
    let ghost pool = views(words@);
    if let Some(target) = bonus_word {
        if target.len() < BONUS_CELLS {
            return false;
        }
    }
    let mut i: usize = 0;
    while i < words.len()
        invariant
            0 <= i <= words@.len(),
            pool == views(words@),
            bonus_word_complete(target_of(bonus_word)),
            forall|j: int|
                0 <= j < i ==> reaches_bonus_cells(*config, (#[trigger] pool[j]).letters, row as int),
        decreases words@.len() - i,
    {
        let n = words[i].len();
        assert(pool[i as int] == words@[i as int]@);
        let mut k: usize = 0;
        while k < BONUS_CELLS
            invariant
                0 <= k <= BONUS_CELLS,
                0 <= i < words@.len(),
                pool == views(words@),
                n == pool[i as int].letters.len(),
                forall|j: int|
                    0 <= j < k ==> #[trigger] reaches_bonus_cell(
                        *config,
                        pool[i as int].letters,
                        row as int,
                        j,
                    ),
            decreases BONUS_CELLS - k,
        {
            let (r, c) = config.bonus.cell(k);
            if r >= row && c >= n {
                assert(!reaches_bonus_cell(*config, pool[i as int].letters, row as int, k as int));
                assert(!reaches_bonus_cells(*config, pool[i as int].letters, row as int));
                return false;
            }
            k = k + 1;
        }
        assert(reaches_bonus_cells(*config, pool[i as int].letters, row as int));
        i = i + 1;
    }
    true
}

/// Whether `word` in row `row` agrees with the bonus word on the bonus cells
/// of that row. The bonus word has a letter for every bonus cell, and the
/// word reaches the bonus cells of its row.
pub fn bonus_permits(
    config: &GameConfig,
    bonus_word: Option<&CandidateWord>,
    row: usize,
    word: &CandidateWord,
) -> (ok: bool)
    requires
        bonus_word_complete(target_of(bonus_word)),
        reaches_bonus_cells(*config, word@.letters, row as int),
    ensures
        ok == bonus_allows(*config, target_of(bonus_word), row as int, word@.letters),
{
    let target = match bonus_word {
        Some(t) => t,
        None => {
            return true;
        },
    };
    let mut k: usize = 0;
    while k < BONUS_CELLS
        invariant
            0 <= k <= BONUS_CELLS,
            bonus_word == Some(target),
            target@.letters.len() >= BONUS_CELLS,
            reaches_bonus_cells(*config, word@.letters, row as int),
            forall|j: int|
                0 <= j < k && config.bonus.row(j) == row ==> #[trigger] bonus_letter_matches(
                    *config,
                    target@.letters,
                    word@.letters,
                    j,
                ),
        decreases BONUS_CELLS - k,
    {
        let (r, c) = config.bonus.cell(k);
        if r == row {
            assert(reaches_bonus_cell(*config, word@.letters, row as int, k as int));
            let same = word.letter(c) == target.letter(k);
            assert(same == bonus_letter_matches(*config, target@.letters, word@.letters, k as int));
            if !same {
                return false;
            }
        }
        k = k + 1;
    }
    true
}

/// The word `letters` may stand on row `row`: it fits into the row, agrees
/// with the bonus word, and the bag can spell it.
pub open spec fn placeable(
    config: GameConfig,
    target: Option<Seq<char>>,
    bag: Bag,
    allow_wildcard: bool,
    row: int,
    letters: Seq<char>,
) -> bool {
    &&& letters.len() <= ROW_CELLS
    &&& bonus_allows(config, target, row, letters)
    &&& bag.spellable(letters, allow_wildcard)
}

/// The word `head` put in front of each of `tails`.
pub open spec fn prepend_each(head: WordView, tails: Seq<Seq<WordView>>) -> Seq<Seq<WordView>> {
    Seq::new(tails.len(), |j: int| seq![head] + tails[j])
}

/// All ways to fill the rows from `row` down, in the order in which the
/// generator finds them: the candidate words are tried in their order, and
/// for each word that may stand on the row, every way to fill the rows
/// below it follows, that word in front.
pub open spec fn fillings(
    config: GameConfig,
    target: Option<Seq<char>>,
    words: Seq<WordView>,
    bag: Bag,
    allow_wildcard: bool,
    row: int,
) -> Seq<Seq<WordView>>
    decreases BOARD_ROWS - row, words.len() + 1,
{
    if row >= BOARD_ROWS {
        seq![Seq::<WordView>::empty()]
    } else {
        fillings_from(config, target, words, bag, allow_wildcard, row, words.len())
    }
}

/// The ways to fill the rows from `row` down that begin with one of the
/// first `n` candidate words.
pub open spec fn fillings_from(
    config: GameConfig,
    target: Option<Seq<char>>,
    words: Seq<WordView>,
    bag: Bag,
    allow_wildcard: bool,
    row: int,
    n: nat,
) -> Seq<Seq<WordView>>
    decreases BOARD_ROWS - row, n,
{
    if n == 0 || row >= BOARD_ROWS || n > words.len() {
        Seq::empty()
    } else {
        let before = fillings_from(config, target, words, bag, allow_wildcard, row, (n - 1) as nat);
        let letters = words[n - 1].letters;
        if placeable(config, target, bag, allow_wildcard, row, letters) {
            let head = WordView { letters, wildcard: bag.wildcard_for(letters) };
            before + prepend_each(
                head,
                fillings(
                    config,
                    target,
                    words,
                    bag.after(letters),
                    allow_wildcard && head.wildcard is None,
                    row + 1,
                ),
            )
        } else {
            before
        }
    }
}

/// The boards that the generator returns, in its order.
pub open spec fn all_boards(
    config: GameConfig,
    target: Option<Seq<char>>,
    words: Seq<WordView>,
) -> Seq<Seq<WordView>> {
    fillings(config, target, words, config.inventory@, true, 0)
}

/// The models of a sequence of boards, in the same order.
pub open spec fn board_views(boards: Seq<Board>) -> Seq<Seq<WordView>> {
    Seq::new(boards.len(), |j: int| boards[j]@)
}

/// The positions rise strictly.
pub open spec fn rising(live: Seq<usize>) -> bool {
    forall|i: int, j: int| 0 <= i < j < live.len() ==> #[trigger] live[i] < #[trigger] live[j]
}

/// The positions of `live` whose words the bag can spell, in the order of
/// `live`.
pub open spec fn spellable_among(
    words: Seq<WordView>,
    live: Seq<usize>,
    bag: Bag,
    allow_wildcard: bool,
) -> Seq<usize>
    decreases live.len(),
{
    if live.len() == 0 {
        Seq::empty()
    } else {
        let front = spellable_among(words, live.drop_last(), bag, allow_wildcard);
        if bag.spellable(words[live.last() as int].letters, allow_wildcard) {
            front.push(live.last())
        } else {
            front
        }
    }
}

/// A position is among those that `spellable_among` keeps if and only if it
/// is live and the bag can spell its word; the positions kept are positions
/// of `live`, and they rise where those of `live` do.
pub proof fn lemma_spellable_among(
    words: Seq<WordView>,
    live: Seq<usize>,
    bag: Bag,
    allow_wildcard: bool,
)
    ensures
        forall|k: int|
            is_live(spellable_among(words, live, bag, allow_wildcard), k) <==> #[trigger] is_live(
                live,
                k,
            ) && bag.spellable(words[k].letters, allow_wildcard),
        live_in_range(words, live) ==> live_in_range(
            words,
            spellable_among(words, live, bag, allow_wildcard),
        ),
        rising(live) ==> rising(spellable_among(words, live, bag, allow_wildcard)),
    decreases live.len(),
{
    let kept = spellable_among(words, live, bag, allow_wildcard);
    if live.len() > 0 {
        let front_live = live.drop_last();
        let front = spellable_among(words, front_live, bag, allow_wildcard);
        let last = live.last();
        lemma_spellable_among(words, front_live, bag, allow_wildcard);
        assert(forall|k: int|
            is_live(front, k) <==> #[trigger] is_live(front_live, k) && bag.spellable(
                words[k].letters,
                allow_wildcard,
            ));
        let keep = bag.spellable(words[last as int].letters, allow_wildcard);
        assert forall|k: int|
            is_live(kept, k) <==> #[trigger] is_live(live, k) && bag.spellable(
                words[k].letters,
                allow_wildcard,
            ) by {
            if is_live(kept, k) {
                let i = choose|i: int| 0 <= i < kept.len() && #[trigger] kept[i] == k;
                if i < front.len() {
                    assert(front[i] == k);
                    assert(is_live(front, k));
                    assert(is_live(front_live, k));
                    let t = choose|t: int| 0 <= t < front_live.len() && #[trigger] front_live[t] == k;
                    assert(live[t] == k);
                } else {
                    assert(k == last);
                    assert(live[live.len() - 1] == k);
                }
            }
            if is_live(live, k) && bag.spellable(words[k].letters, allow_wildcard) {
                let t = choose|t: int| 0 <= t < live.len() && #[trigger] live[t] == k;
                if t < live.len() - 1 {
                    assert(front_live[t] == k);
                    assert(is_live(front_live, k));
                    assert(is_live(front, k));
                    let i = choose|i: int| 0 <= i < front.len() && #[trigger] front[i] == k;
                    assert(kept[i] == k);
                } else {
                    assert(kept[front.len() as int] == k);
                }
            }
        }
        if live_in_range(words, live) {
            assert forall|i: int| 0 <= i < front_live.len() implies (#[trigger] front_live[i])
                < words.len() by {
                assert(live[i] < words.len());
            }
            assert forall|i: int| 0 <= i < kept.len() implies (#[trigger] kept[i]) < words.len() by {
                if i < front.len() {
                    assert(front[i] < words.len());
                } else {
                    assert(live[live.len() - 1] < words.len());
                }
            }
        }
        if rising(live) {
            assert forall|i: int, j: int| 0 <= i < j < front_live.len() implies #[trigger] front_live[i]
                < #[trigger] front_live[j] by {
                assert(live[i] < live[j]);
            }
            assert forall|i: int| 0 <= i < front.len() implies #[trigger] front[i] < last by {
                let k = front[i] as int;
                assert(is_live(front, k));
                assert(is_live(front_live, k));
                let t = choose|t: int| 0 <= t < front_live.len() && #[trigger] front_live[t] == k;
                assert(live[t] == k);
                assert(live[t] < live[live.len() - 1]);
            }
            assert forall|i: int, j: int| 0 <= i < j < kept.len() implies #[trigger] kept[i]
                < #[trigger] kept[j] by {
                if j < front.len() {
                    assert(front[i] < front[j]);
                } else {
                    assert(front[i] < last);
                }
            }
        }
    }
}

/// The live words that the inventory can still spell, in the same order.
pub fn still_spellable(
    words: &Vec<CandidateWord>,
    live: &Vec<usize>,
    inventory: &LetterInventory,
    allow_wildcard: bool,
) -> (kept: Vec<usize>)
    requires
        live_in_range(views(words@), live@),
    ensures
        kept@ == spellable_among(views(words@), live@, inventory@, allow_wildcard),
{
    let ghost pool = views(words@);
    let mut kept: Vec<usize> = Vec::new();
    let mut i: usize = 0;
    while i < live.len()
        invariant
            0 <= i <= live@.len(),
            pool == views(words@),
            live_in_range(pool, live@),
            kept@ == spellable_among(pool, live@.take(i as int), inventory@, allow_wildcard),
        decreases live@.len() - i,
    {
        let index = live[i];
        proof {
            assert(live@.take(i as int + 1).drop_last() =~= live@.take(i as int));
            assert(live@.take(i as int + 1).last() == index);
            assert(pool[index as int] == words@[index as int]@);
        }
        if inventory.try_consume(words[index].word.as_str(), allow_wildcard).is_some() {
            kept.push(index);
        }
        i = i + 1;
    }
    assert(live@.take(live@.len() as int) =~= live@);
    kept
}

/// Puts the word `head` in front of each of the row lists `tails`.
fn prepend_all(head: &CandidateWord, tails: &Vec<Board>) -> (out: Vec<Board>)
    ensures
        board_views(out@) == prepend_each(head@, board_views(tails@)),
{
    let mut out: Vec<Board> = Vec::new();
    let mut j: usize = 0;
    while j < tails.len()
        invariant
            0 <= j <= tails@.len(),
            out@.len() == j,
            forall|q: int| 0 <= q < j ==> (#[trigger] out@[q])@ == seq![head@] + tails@[q]@,
        decreases tails@.len() - j,
    {
        let tail = &tails[j];
        let mut rows: Vec<CandidateWord> = Vec::new();
        rows.push(head.duplicate());
        let mut r: usize = 0;
        while r < tail.rows.len()
            invariant
                0 <= r <= tail.rows@.len(),
                rows@.len() == r + 1,
                rows@[0]@ == head@,
                forall|s: int| 1 <= s < r + 1 ==> (#[trigger] rows@[s])@ == tail.rows@[s - 1]@,
            decreases tail.rows@.len() - r,
        {
            rows.push(tail.rows[r].duplicate());
            r = r + 1;
        }
        let board = Board { rows };
        assert(board@ =~= seq![head@] + tail@);
        out.push(board);
        j = j + 1;
    }
    assert(board_views(out@) =~= prepend_each(head@, board_views(tails@)));
    out
}

/// Words that reach the bonus cells from a row down reach those from the
/// next row down.
pub proof fn lemma_words_reach_lower_rows(config: GameConfig, words: Seq<WordView>, row: int)
    requires
        words_reach_bonus_cells(config, words, row),
    ensures
        words_reach_bonus_cells(config, words, row + 1),
{
    assert forall|i: int| 0 <= i < words.len() implies reaches_bonus_cells(
        config,
        (#[trigger] words[i]).letters,
        row + 1,
    ) by {
        assert(reaches_bonus_cells(config, words[i].letters, row));
        assert forall|k: int| 0 <= k < BONUS_CELLS implies #[trigger] reaches_bonus_cell(
            config,
            words[i].letters,
            row + 1,
            k,
        ) by {
            assert(reaches_bonus_cell(config, words[i].letters, row, k));
        }
    }
}

/// Candidate words that may not stand on the row add no fillings.
pub proof fn lemma_fillings_gap(
    config: GameConfig,
    target: Option<Seq<char>>,
    words: Seq<WordView>,
    bag: Bag,
    allow_wildcard: bool,
    row: int,
    lo: nat,
    hi: nat,
)
    requires
        lo <= hi <= words.len(),
        0 <= row < BOARD_ROWS,
        forall|j: int|
            lo <= j < hi ==> !placeable(
                config,
                target,
                bag,
                allow_wildcard,
                row,
                (#[trigger] words[j]).letters,
            ),
    ensures
        fillings_from(config, target, words, bag, allow_wildcard, row, hi) == fillings_from(
            config,
            target,
            words,
            bag,
            allow_wildcard,
            row,
            lo,
        ),
    decreases hi - lo,
{
    if hi > lo {
        lemma_fillings_gap(config, target, words, bag, allow_wildcard, row, lo, (hi - 1) as nat);
        assert(!placeable(config, target, bag, allow_wildcard, row, words[hi - 1].letters));
    }
}

/// All ways to fill the rows from `row` down with live words.
fn fill_rows(
    config: &GameConfig,
    bonus_word: Option<&CandidateWord>,
    words: &Vec<CandidateWord>,
    live: &Vec<usize>,
    inventory: &LetterInventory,
    allow_wildcard: bool,
    row: usize,
) -> (out: Vec<Board>)
    requires
        row <= BOARD_ROWS,
        live_in_range(views(words@), live@),
        rising(live@),
        keeps_spellable(views(words@), live@, inventory@, allow_wildcard),
        !bonus_fault(*config, target_of(bonus_word), views(words@), row as int),
    ensures
        board_views(out@) == fillings(
            *config,
            target_of(bonus_word),
            views(words@),
            inventory@,
            allow_wildcard,
            row as int,
        ),
    decreases BOARD_ROWS - row,
{
    let ghost target = target_of(bonus_word);
    let ghost pool = views(words@);
    let ghost bag = inventory@;
    let mut out: Vec<Board> = Vec::new();
    if row >= BOARD_ROWS {
        let empty = Board { rows: Vec::new() };
        assert(empty@ =~= Seq::<WordView>::empty());
        out.push(empty);
        assert(board_views(out@) =~= seq![Seq::<WordView>::empty()]);
        return out;
    }
    let ghost mut done: nat = 0;
    let mut i: usize = 0;
    while i < live.len()
        invariant
            0 <= i <= live@.len(),
            row < BOARD_ROWS,
            target == target_of(bonus_word),
            pool == views(words@),
            bag == inventory@,
            live_in_range(pool, live@),
            rising(live@),
            keeps_spellable(pool, live@, bag, allow_wildcard),
            !bonus_fault(*config, target, pool, row as int),
            done <= pool.len(),
            i == 0 ==> done == 0,
            i > 0 ==> done == live@[i - 1] + 1,
            board_views(out@) == fillings_from(
                *config,
                target,
                pool,
                bag,
                allow_wildcard,
                row as int,
                done,
            ),
        decreases live@.len() - i,
    {
        let index = live[i];
        let word = &words[index];
        let ghost letters = word@.letters;
        let ghost before = board_views(out@);
        proof {
            assert(pool[index as int] == word@);
            if i > 0 {
                assert(live@[i - 1] < live@[i as int]);
            }
            assert forall|j: int| done <= j < index implies !placeable(
                *config,
                target,
                bag,
                allow_wildcard,
                row as int,
                (#[trigger] pool[j]).letters,
            ) by {
                if is_live(live@, j) {
                    let t = choose|t: int| 0 <= t < live@.len() && #[trigger] live@[t] == j;
                    if t < i {
                        if t < i - 1 {
                            assert(live@[t] < live@[i - 1]);
                        }
                    } else if t > i {
                        assert(live@[i as int] < live@[t]);
                    }
                }
            }
            lemma_fillings_gap(
                *config,
                target,
                pool,
                bag,
                allow_wildcard,
                row as int,
                done,
                index as nat,
            );
        }
        let mut placed = false;
        assert(reaches_bonus_cells(*config, pool[index as int].letters, row as int));
        if word.len() <= ROW_CELLS && bonus_permits(config, bonus_word, row, word) {
            match inventory.try_consume(word.word.as_str(), allow_wildcard) {
                Some((rest, covered)) => {
                    placed = true;
                    let next_allow = allow_wildcard && covered.is_none();
                    let next_live = still_spellable(words, live, &rest, next_allow);
                    proof {
                        lemma_after_conserves(bag, letters, allow_wildcard, 'A');
                        lemma_spellable_among(pool, live@, rest@, next_allow);
                        assert forall|k: int|
                            0 <= k < pool.len() && rest@.spellable(
                                (#[trigger] pool[k]).letters,
                                next_allow,
                            ) implies is_live(next_live@, k) by {
                            lemma_spellable_from_larger(
                                rest@,
                                bag,
                                pool[k].letters,
                                next_allow,
                                allow_wildcard,
                            );
                            assert(is_live(live@, k));
                        }
                        lemma_words_reach_lower_rows(*config, pool, row as int);
                    }
                    let tails = fill_rows(
                        config,
                        bonus_word,
                        words,
                        &next_live,
                        &rest,
                        next_allow,
                        row + 1,
                    );
                    let head = CandidateWord { word: word.word.clone(), wildcard: covered };
                    let mut batch = prepend_all(&head, &tails);
                    let ghost added = board_views(batch@);
                    let ghost old_out = out@;
                    let ghost old_batch = batch@;
                    out.append(&mut batch);
                    proof {
                        assert(out@ =~= old_out + old_batch);
                        assert(board_views(out@) =~= before + added);
                        assert(head@ == (WordView {
                            letters,
                            wildcard: bag.wildcard_for(letters),
                        }));
                    }
                },
                None => {},
            }
        }
        proof {
            assert(placed == placeable(*config, target, bag, allow_wildcard, row as int, letters));
            done = (index + 1) as nat;
        }
        i = i + 1;
    }
    proof {
        assert forall|j: int| done <= j < pool.len() implies !placeable(
            *config,
            target,
            bag,
            allow_wildcard,
            row as int,
            (#[trigger] pool[j]).letters,
        ) by {
            if is_live(live@, j) {
                let t = choose|t: int| 0 <= t < live@.len() && #[trigger] live@[t] == j;
                if t < live@.len() - 1 {
                    assert(live@[t] < live@[live@.len() - 1]);
                }
            }
        }
        lemma_fillings_gap(
            *config,
            target,
            pool,
            bag,
            allow_wildcard,
            row as int,
            done,
            pool.len(),
        );
    }
    out
}

/// Every filling is made of rows that can be placed one after the other.
pub proof fn lemma_fillings_sound(
    config: GameConfig,
    target: Option<Seq<char>>,
    words: Seq<WordView>,
    bag: Bag,
    allow_wildcard: bool,
    row: int,
    j: int,
)
    requires
        0 <= row <= BOARD_ROWS,
        0 <= j < fillings(config, target, words, bag, allow_wildcard, row).len(),
    ensures
        valid_rows(
            config,
            target,
            words,
            bag,
            allow_wildcard,
            row,
            fillings(config, target, words, bag, allow_wildcard, row)[j],
        ),
    decreases BOARD_ROWS - row, words.len() + 1,
{
    if row < BOARD_ROWS {
        lemma_fillings_from_sound(config, target, words, bag, allow_wildcard, row, words.len(), j);
    }
}

/// Every filling that begins with one of the first `n` candidate words is
/// made of rows that can be placed one after the other.
pub proof fn lemma_fillings_from_sound(
    config: GameConfig,
    target: Option<Seq<char>>,
    words: Seq<WordView>,
    bag: Bag,
    allow_wildcard: bool,
    row: int,
    n: nat,
    j: int,
)
    requires
        0 <= row < BOARD_ROWS,
        n <= words.len(),
        0 <= j < fillings_from(config, target, words, bag, allow_wildcard, row, n).len(),
    ensures
        valid_rows(
            config,
            target,
            words,
            bag,
            allow_wildcard,
            row,
            fillings_from(config, target, words, bag, allow_wildcard, row, n)[j],
        ),
    decreases BOARD_ROWS - row, n,
{
    let before = fillings_from(config, target, words, bag, allow_wildcard, row, (n - 1) as nat);
    if j < before.len() {
        lemma_fillings_from_sound(
            config,
            target,
            words,
            bag,
            allow_wildcard,
            row,
            (n - 1) as nat,
            j,
        );
    } else {
        let letters = words[n - 1].letters;
        let head = WordView { letters, wildcard: bag.wildcard_for(letters) };
        let rest = bag.after(letters);
        let next_allow = allow_wildcard && head.wildcard is None;
        let tails = fillings(config, target, words, rest, next_allow, row + 1);
        let q = j - before.len();
        lemma_fillings_sound(config, target, words, rest, next_allow, row + 1, q);
        let rows = seq![head] + tails[q];
        assert(fillings_from(config, target, words, bag, allow_wildcard, row, n)[j] == rows);
        assert(rows[0] == head);
        assert(rows.skip(1) =~= tails[q]);
        assert(is_word_of(words, letters));
    }
}

/// Rows that can be placed one after the other, the first being spelled
/// like one of the first `n` candidate words, are among the fillings that
/// begin with one of these words.
pub proof fn lemma_fillings_complete(
    config: GameConfig,
    target: Option<Seq<char>>,
    words: Seq<WordView>,
    bag: Bag,
    allow_wildcard: bool,
    row: int,
    n: nat,
    rows: Seq<WordView>,
) -> (j: int)
    requires
        0 <= row <= BOARD_ROWS,
        n <= words.len(),
        valid_rows(config, target, words, bag, allow_wildcard, row, rows),
        row < BOARD_ROWS ==> exists|k: int|
            0 <= k < n && (#[trigger] words[k]).letters == rows[0].letters,
    ensures
        row < BOARD_ROWS ==> 0 <= j < fillings_from(
            config,
            target,
            words,
            bag,
            allow_wildcard,
            row,
            n,
        ).len() && fillings_from(config, target, words, bag, allow_wildcard, row, n)[j] == rows,
        row == BOARD_ROWS ==> j == 0 && fillings(config, target, words, bag, allow_wildcard, row)[0]
            == rows,
    decreases BOARD_ROWS - row, n,
{
    if row == BOARD_ROWS {
        assert(rows =~= Seq::<WordView>::empty());
        0
    } else {
        let letters = words[n - 1].letters;
        let before = fillings_from(config, target, words, bag, allow_wildcard, row, (n - 1) as nat);
        if letters == rows[0].letters {
            let head = WordView { letters, wildcard: bag.wildcard_for(letters) };
            let rest = bag.after(letters);
            let next_allow = allow_wildcard && head.wildcard is None;
            let tail = rows.skip(1);
            assert(rows[0] == head);
            let q = lemma_rows_in_fillings(config, target, words, rest, next_allow, row + 1, tail);
            let tails = fillings(config, target, words, rest, next_allow, row + 1);
            assert(seq![head] + tails[q] =~= rows);
            before.len() + q
        } else {
            let k = choose|k: int| 0 <= k < n && (#[trigger] words[k]).letters == rows[0].letters;
            assert(k < n - 1);
            lemma_fillings_complete(
                config,
                target,
                words,
                bag,
                allow_wildcard,
                row,
                (n - 1) as nat,
                rows,
            )
        }
    }
}

/// Rows that can be placed one after the other are among the fillings: the
/// generator leaves no board out.
pub proof fn lemma_rows_in_fillings(
    config: GameConfig,
    target: Option<Seq<char>>,
    words: Seq<WordView>,
    bag: Bag,
    allow_wildcard: bool,
    row: int,
    rows: Seq<WordView>,
) -> (j: int)
    requires
        0 <= row <= BOARD_ROWS,
        valid_rows(config, target, words, bag, allow_wildcard, row, rows),
    ensures
        0 <= j < fillings(config, target, words, bag, allow_wildcard, row).len(),
        fillings(config, target, words, bag, allow_wildcard, row)[j] == rows,
    decreases BOARD_ROWS - row, words.len() + 1,
{
    if row < BOARD_ROWS {
        assert(is_word_of(words, rows[0].letters));
    }
    lemma_fillings_complete(config, target, words, bag, allow_wildcard, row, words.len(), rows)
}

/// The boards of the generator are the boards that can be made: each of its
/// boards is feasible, and each feasible board is one of its boards.
pub proof fn lemma_all_boards_exactly_feasible(
    config: GameConfig,
    target: Option<Seq<char>>,
    words: Seq<WordView>,
)
    ensures
        forall|j: int|
            0 <= j < all_boards(config, target, words).len() ==> feasible(
                config,
                target,
                words,
                #[trigger] all_boards(config, target, words)[j],
            ),
        forall|rows: Seq<WordView>|
            #[trigger] feasible(config, target, words, rows) ==> exists|j: int|
                0 <= j < all_boards(config, target, words).len() && #[trigger] all_boards(
                    config,
                    target,
                    words,
                )[j] == rows,
{
    let bag = config.inventory@;
    assert forall|j: int| 0 <= j < all_boards(config, target, words).len() implies feasible(
        config,
        target,
        words,
        #[trigger] all_boards(config, target, words)[j],
    ) by {
        lemma_fillings_sound(config, target, words, bag, true, 0, j);
    }
    assert forall|rows: Seq<WordView>| #[trigger]
        feasible(config, target, words, rows) implies exists|j: int|
        0 <= j < all_boards(config, target, words).len() && #[trigger] all_boards(
            config,
            target,
            words,
        )[j] == rows by {
        let j = lemma_rows_in_fillings(config, target, words, bag, true, 0, rows);
    }
}

/// The board generator from a row on. Returns every way to fill the rows
/// from `row` down to the last row with candidate words, the rows above
/// having left the tiles of `inventory`, and the wildcard tile being free
/// where `allow_wildcard` holds. Each returned value holds the words of
/// these rows only, the word of row `row` first; below the last row there is
/// one way, which holds no word.
///
/// The ways come in the order of the candidate words, first by the word of
/// row `row`, then by the word of the row below it, and so on.
///
/// A bonus word that has no letter for one of the bonus cells, or a
/// candidate word that ends before the column of a bonus cell in one of these
/// rows, is an error of the configuration.
pub fn generate_boards_from_row(
    config: &GameConfig,
    bonus_word: Option<&CandidateWord>,
    words: &Vec<CandidateWord>,
    inventory: &LetterInventory,
    allow_wildcard: bool,
    row: usize,
) -> (out: Result<Vec<Board>, ConfigError>)
    requires
        row <= BOARD_ROWS,
    ensures
        out is Err <==> bonus_fault(*config, target_of(bonus_word), views(words@), row as int),
        out matches Err(e) ==> e == ConfigError::BonusCellOutsideWord,
        out matches Ok(boards) ==> board_views(boards@) == fillings(
            *config,
            target_of(bonus_word),
            views(words@),
            inventory@,
            allow_wildcard,
            row as int,
        ),
{
    if !bonus_cells_reached(config, bonus_word, words, row) {
        return Err(ConfigError::BonusCellOutsideWord);
    }
    let ghost pool = views(words@);
    let mut all: Vec<usize> = Vec::new();
    let mut k: usize = 0;
    while k < words.len()
        invariant
            0 <= k <= words@.len(),
            all@.len() == k,
            forall|i: int| 0 <= i < k ==> #[trigger] all@[i] == i,
        decreases words@.len() - k,
    {
        all.push(k);
        k = k + 1;
    }
    let live = still_spellable(words, &all, inventory, allow_wildcard);
    proof {
        lemma_spellable_among(pool, all@, inventory@, allow_wildcard);
        assert forall|k: int|
            0 <= k < pool.len() && inventory@.spellable(
                (#[trigger] pool[k]).letters,
                allow_wildcard,
            ) implies is_live(live@, k) by {
            assert(all@[k] == k);
            assert(is_live(all@, k));
        }
    }
    Ok(fill_rows(config, bonus_word, words, &live, inventory, allow_wildcard, row))
}

/// The board generator. Returns every complete board that can be made of
/// the candidate words: each row holds one of `words`, the letters of all
/// five rows come from the inventory of the configuration, the wildcard
/// tile covers at most one letter of the board, and, where a bonus word is
/// given, the bonus cells spell it. No such board is left out.
///
/// The boards come in the order of the candidate words: first by the word
/// of the top row, then by the word of the second row, and so on. Each row
/// of a returned board records the letter that the wildcard tile covers in
/// it; the wildcard letters that the candidate words bring along are not
/// looked at.
///
/// A bonus word that has no letter for one of the bonus cells, or a
/// candidate word that ends before the column of a bonus cell, is an error
/// of the configuration.
pub fn generate_boards_from_bonus(
    config: &GameConfig,
    bonus_word: Option<&CandidateWord>,
    words: &Vec<CandidateWord>,
) -> (out: Result<Vec<Board>, ConfigError>)
    ensures
        out is Err <==> bonus_fault(*config, target_of(bonus_word), views(words@), 0),
        out matches Err(e) ==> e == ConfigError::BonusCellOutsideWord,
        out matches Ok(boards) ==> board_views(boards@) == all_boards(
            *config,
            target_of(bonus_word),
            views(words@),
        ) && forall|j: int| 0 <= j < boards@.len() ==> (#[trigger] boards@[j]).wf(),
{
    let inventory = config.inventory;
    let ghost pool = views(words@);
    let boards = match generate_boards_from_row(config, bonus_word, words, &inventory, true, 0) {
        Ok(boards) => boards,
        Err(e) => {
            return Err(e);
        },
    };
    proof {
        lemma_all_boards_exactly_feasible(*config, target_of(bonus_word), pool);
        assert forall|j: int| 0 <= j < boards@.len() implies (#[trigger] boards@[j]).wf() by {
            assert(board_views(boards@)[j] == boards@[j]@);
            assert(all_boards(*config, target_of(bonus_word), pool)[j] == boards@[j]@);
            lemma_feasible_is_board(*config, target_of(bonus_word), pool, boards@[j]@);
        }
    }
    Ok(boards)
}

/// A candidate word that the bag can spell, alone on the last row, gives one
/// filling: the word itself, with the letter that the wildcard tile covers in
/// it. So a word that the admissibility filter lets through is placed again
/// by the generator, from the same bag.
pub proof fn lemma_one_word_fills_last_row(
    config: GameConfig,
    target: Option<Seq<char>>,
    bag: Bag,
    word: WordView,
)
    requires
        bag.spellable(word.letters, true),
        word.letters.len() <= ROW_CELLS,
        bonus_allows(config, target, BOARD_ROWS - 1, word.letters),
    ensures
        fillings(config, target, seq![word], bag, true, BOARD_ROWS - 1) == seq![
            seq![WordView { letters: word.letters, wildcard: bag.wildcard_for(word.letters) }],
        ],
{
    let letters = word.letters;
    let placed = WordView { letters, wildcard: bag.wildcard_for(letters) };
    let words = seq![word];
    let row = BOARD_ROWS - 1;
    let below = fillings(config, target, words, bag.after(letters), placed.wildcard is None, row + 1);
    assert(below == seq![Seq::<WordView>::empty()]);
    assert(fillings_from(config, target, words, bag, true, row, 0) == Seq::<Seq<WordView>>::empty());
    assert(placeable(config, target, bag, true, row, words[0].letters));
    let got = fillings_from(config, target, words, bag, true, row, 1);
    assert(got == Seq::<Seq<WordView>>::empty() + prepend_each(placed, below));
    assert(got.len() == 1);
    assert(got[0] =~= seq![placed]);
    assert(got =~= seq![seq![placed]]);
}

/// Rows that fill the board from some row down take no more of a letter
/// than the bag that the rows above have left, one occurrence of the
/// wildcard letter not counted, and use the wildcard tile only where it is
/// free and the bag has one.
pub proof fn lemma_valid_rows_within(
    config: GameConfig,
    target: Option<Seq<char>>,
    words: Seq<WordView>,
    bag: Bag,
    allow_wildcard: bool,
    row: int,
    rows: Seq<WordView>,
    c: char,
)
    requires
        bag.wf(),
        0 <= row <= BOARD_ROWS,
        valid_rows(config, target, words, bag, allow_wildcard, row, rows),
    ensures
        demand(rows, c) <= bag.supply(c) + wildcard_credit(rows, c),
        board_wildcard(rows) is Some ==> allow_wildcard && bag.wildcards >= 1,
    decreases rows.len(),
{
    lemma_valid_rows_shape(config, target, words, bag, allow_wildcard, row, rows);
    if rows.len() == 0 {
        lemma_no_wildcard_row(rows);
    } else {
        let first = rows[0];
        let tail = rows.skip(1);
        let rest = bag.after(first.letters);
        let next_allow = allow_wildcard && first.wildcard is None;
        lemma_after_conserves(bag, first.letters, allow_wildcard, c);
        lemma_valid_rows_within(config, target, words, rest, next_allow, row + 1, tail, c);
        lemma_valid_rows_shape(config, target, words, rest, next_allow, row + 1, tail);
        if first.wildcard is Some {
            assert(uses_wildcard(rows, 0));
            lemma_board_wildcard_is(rows, 0);
            lemma_no_wildcard_row(tail);
        } else {
            lemma_board_wildcard_skip(rows);
        }
    }
}

/// No board of the generator takes more tiles than the inventory of the
/// configuration holds: every letter is taken no more often than there are
/// tiles of it, one occurrence of the wildcard letter, on the whole board,
/// being covered by the wildcard tile.
pub proof fn lemma_feasible_within_inventory(
    config: GameConfig,
    target: Option<Seq<char>>,
    words: Seq<WordView>,
    rows: Seq<WordView>,
)
    requires
        feasible(config, target, words, rows),
    ensures
        within_inventory(config.inventory@, rows),
{
    let bag = config.inventory@;
    lemma_valid_rows_shape(config, target, words, bag, true, 0, rows);
    assert forall|c: char| #[trigger] demand(rows, c) <= bag.supply(c) + wildcard_credit(rows, c) by {
        lemma_valid_rows_within(config, target, words, bag, true, 0, rows, c);
    }
    lemma_valid_rows_within(config, target, words, bag, true, 0, rows, 'A');
}

/// Every board that the generator returns stays within the inventory of
/// the configuration.
pub proof fn lemma_generated_boards_within_inventory(
    config: GameConfig,
    target: Option<Seq<char>>,
    words: Seq<WordView>,
    j: int,
)
    requires
        0 <= j < all_boards(config, target, words).len(),
    ensures
        within_inventory(config.inventory@, all_boards(config, target, words)[j]),
{
    lemma_all_boards_exactly_feasible(config, target, words);
    lemma_feasible_within_inventory(config, target, words, all_boards(config, target, words)[j]);
}

} // verus!
