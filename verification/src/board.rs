//! Boards: five rows of words, of which at most one uses the wildcard tile.

use crate::config::{BOARD_ROWS, ROW_CELLS};
use crate::letters::{
    is_letter, lemma_occurrences_prefix, lemma_occurrences_step, letter_slot, occurrences, slot_of,
    Bag, LetterInventory, LETTER_KINDS,
};
use crate::words::{views, CandidateWord, WordView};
use vstd::prelude::*;

verus! {

/// Why a sequence of words is no board.
#[derive(Clone, Copy, Debug, PartialEq, Eq, Structural)]
pub enum BoardError {
    /// The number of rows is not five.
    WrongRowCount,
    /// A word is longer than a row.
    WordTooLong,
    /// Two rows use the wildcard tile.
    SecondWildcard,
}

/// Whether the `r`-th of `rows` uses the wildcard tile.
pub open spec fn uses_wildcard(rows: Seq<WordView>, r: int) -> bool {
    0 <= r < rows.len() && rows[r].wildcard is Some
}

/// Whether the `r`-th of `rows` fits into a row of the board.
pub open spec fn fits_row(rows: Seq<WordView>, r: int) -> bool {
    rows[r].letters.len() <= ROW_CELLS
}

/// At most one of `rows` uses the wildcard tile.
pub open spec fn one_wildcard_at_most(rows: Seq<WordView>) -> bool {
    forall|r: int, s: int|
        #![trigger uses_wildcard(rows, r), uses_wildcard(rows, s)]
        uses_wildcard(rows, r) && uses_wildcard(rows, s) ==> r == s
}

/// The rows make a board: there are five of them, each fits into a row, and
/// at most one of them uses the wildcard tile.
pub open spec fn is_board(rows: Seq<WordView>) -> bool {
    &&& rows.len() == BOARD_ROWS
    &&& forall|r: int| 0 <= r < rows.len() ==> #[trigger] fits_row(rows, r)
    &&& one_wildcard_at_most(rows)
}

/// The letter that the wildcard tile stands for on these rows, if one of
/// them uses it.
pub open spec fn board_wildcard(rows: Seq<WordView>) -> Option<char> {
    if exists|r: int| uses_wildcard(rows, r) {
        rows[choose|r: int| uses_wildcard(rows, r)].wildcard
    } else {
        None
    }
}

/// Row `r` is the first that keeps `rows` from being a board, and `e` says
/// why. A word that is too long is found before a second wildcard in the
/// same row.
pub open spec fn first_row_fault(rows: Seq<WordView>, r: int, e: BoardError) -> bool {
    &&& 0 <= r < rows.len()
    &&& is_board_prefix(rows, r)
    &&& if !fits_row(rows, r) {
        e == BoardError::WordTooLong
    } else {
        &&& e == BoardError::SecondWildcard
        &&& uses_wildcard(rows, r)
        &&& exists|s: int| 0 <= s < r && uses_wildcard(rows, s)
    }
}

/// The first `n` rows fit and at most one of them uses the wildcard tile.
pub open spec fn is_board_prefix(rows: Seq<WordView>, n: int) -> bool {
    &&& forall|r: int| 0 <= r < n ==> #[trigger] fits_row(rows, r)
    &&& forall|r: int, s: int|
        #![trigger uses_wildcard(rows, r), uses_wildcard(rows, s)]
        0 <= r < n && 0 <= s < n && uses_wildcard(rows, r) && uses_wildcard(rows, s) ==> r == s
}

/// A complete board: one word in each of the five rows.
#[derive(Clone, Debug, PartialEq, Eq)]
pub struct Board {
    /// The words of the rows, top row first.
    pub rows: Vec<CandidateWord>,
}

impl View for Board {
    type V = Seq<WordView>;

    open spec fn view(&self) -> Seq<WordView> {
        views(self.rows@)
    }
}

impl Board {
    /// The board is well formed.
    pub open spec fn wf(&self) -> bool {
        is_board(self@)
    }

    /// Makes a board of five words. The words are looked at from the top
    /// row down, and the first that does not fit, or that uses the wildcard
    /// tile after another row has used it, gives the error.
    pub fn new(rows: Vec<CandidateWord>) -> (out: Result<Board, BoardError>)
        ensures
            out is Ok <==> is_board(views(rows@)),
            out matches Ok(board) ==> board.rows == rows,
            out matches Err(e) ==> if rows@.len() != BOARD_ROWS {
                e == BoardError::WrongRowCount
            } else {
                exists|r: int| first_row_fault(views(rows@), r, e)
            },
    {
        if rows.len() != BOARD_ROWS {
            return Err(BoardError::WrongRowCount);
        }
        let ghost model = views(rows@);
        let mut seen: bool = false;
        let mut r: usize = 0;
        while r < BOARD_ROWS
            invariant
                0 <= r <= BOARD_ROWS,
                rows@.len() == BOARD_ROWS,
                model == views(rows@),
                is_board_prefix(model, r as int),
                seen <==> exists|s: int| 0 <= s < r && uses_wildcard(model, s),
            decreases BOARD_ROWS - r,
        {
            if rows[r].len() > ROW_CELLS {
                assert(!fits_row(model, r as int));
                assert(first_row_fault(model, r as int, BoardError::WordTooLong));
                return Err(BoardError::WordTooLong);
            }
            assert(fits_row(model, r as int));
            if rows[r].wildcard.is_some() {
                assert(uses_wildcard(model, r as int));
                if seen {
                    assert(first_row_fault(model, r as int, BoardError::SecondWildcard));
                    proof {
                        let s = choose|s: int| 0 <= s < r && uses_wildcard(model, s);
                        assert(uses_wildcard(model, s) && uses_wildcard(model, r as int));
                    }
                    return Err(BoardError::SecondWildcard);
                }
                seen = true;
            }
            r = r + 1;
        }
        assert(is_board(model));
        Ok(Board { rows })
    }

    /// A copy of the board.
    pub fn duplicate(&self) -> (out: Board)
        ensures
            out@ == self@,
    {
        let mut rows: Vec<CandidateWord> = Vec::new();
        let mut r: usize = 0;
        while r < self.rows.len()
            invariant
                0 <= r <= self.rows@.len(),
                rows@.len() == r,
                forall|s: int| 0 <= s < r ==> (#[trigger] rows@[s])@ == self.rows@[s]@,
            decreases self.rows@.len() - r,
        {
            rows.push(self.rows[r].duplicate());
            r = r + 1;
        }
        let out = Board { rows };
        assert(out@ =~= self@);
        out
    }

    /// The letter that the wildcard tile stands for on this board, if a row
    /// uses it.
    pub fn wildcard_letter(&self) -> (letter: Option<char>)
        requires
            self.wf(),
        ensures
            letter == board_wildcard(self@),
    {
        let mut r: usize = 0;
        while r < self.rows.len()
            invariant
                0 <= r <= self.rows@.len(),
                self.wf(),
                forall|s: int| 0 <= s < r ==> !uses_wildcard(self@, s),
            decreases self.rows@.len() - r,
        {
            if self.rows[r].wildcard.is_some() {
                proof {
                    assert(uses_wildcard(self@, r as int));
                    lemma_board_wildcard_is(self@, r as int);
                }
                return self.rows[r].wildcard;
            }
            r = r + 1;
        }
        None
    }
}

/// Where exactly one row uses the wildcard tile, the board's wildcard letter
/// is that row's.
pub proof fn lemma_board_wildcard_is(rows: Seq<WordView>, r: int)
    requires
        one_wildcard_at_most(rows),
        uses_wildcard(rows, r),
    ensures
        board_wildcard(rows) == rows[r].wildcard,
{
    let s = choose|s: int| uses_wildcard(rows, s);
    assert(uses_wildcard(rows, s) && uses_wildcard(rows, r));
}

/// How many cells of `rows` hold the character `c`.
pub open spec fn demand(rows: Seq<WordView>, c: char) -> nat
    decreases rows.len(),
{
    if rows.len() == 0 {
        0
    } else {
        occurrences(rows[0].letters, c) + demand(rows.skip(1), c)
    }
}

/// One, if `c` is the letter that the wildcard tile stands for on `rows`,
/// and nothing else.
pub open spec fn wildcard_credit(rows: Seq<WordView>, c: char) -> nat {
    if board_wildcard(rows) == Some(c) {
        1
    } else {
        0
    }
}

/// The rows take no more tiles than the bag holds: at most one row uses the
/// wildcard tile, the bag has a wildcard tile if one is used, the row that
/// uses it holds the letter it covers, and every letter is taken no more
/// often than the bag has tiles of it, one occurrence of the wildcard letter
/// not counted.
pub open spec fn within_inventory(bag: Bag, rows: Seq<WordView>) -> bool {
    &&& one_wildcard_at_most(rows)
    &&& board_wildcard(rows) is Some ==> bag.wildcards >= 1
    &&& forall|r: int| uses_wildcard(rows, r) ==> #[trigger] holds_own_wildcard(rows, r)
    &&& forall|c: char| #[trigger] demand(rows, c) <= bag.supply(c) + wildcard_credit(rows, c)
}

/// The `r`-th of `rows` holds the letter that the wildcard tile covers in
/// it.
pub open spec fn holds_own_wildcard(rows: Seq<WordView>, r: int) -> bool {
    occurrences(rows[r].letters, rows[r].wildcard->0) >= 1
}

/// Rows of which none uses the wildcard tile have no wildcard letter.
pub proof fn lemma_no_wildcard_row(rows: Seq<WordView>)
    requires
        forall|r: int| !uses_wildcard(rows, r),
    ensures
        board_wildcard(rows) is None,
{
}

/// Where the first row does not use the wildcard tile, the wildcard letter
/// of the rows is that of the rows after the first.
pub proof fn lemma_board_wildcard_skip(rows: Seq<WordView>)
    requires
        rows.len() > 0,
        rows[0].wildcard is None,
        one_wildcard_at_most(rows),
    ensures
        board_wildcard(rows) == board_wildcard(rows.skip(1)),
        one_wildcard_at_most(rows.skip(1)),
{
    let tail = rows.skip(1);
    assert forall|r: int, s: int|
        #![trigger uses_wildcard(tail, r), uses_wildcard(tail, s)]
        uses_wildcard(tail, r) && uses_wildcard(tail, s) implies r == s by {
        assert(tail[r] == rows[r + 1] && tail[s] == rows[s + 1]);
        assert(uses_wildcard(rows, r + 1) && uses_wildcard(rows, s + 1));
    }
    if exists|r: int| uses_wildcard(tail, r) {
        let r = choose|r: int| uses_wildcard(tail, r);
        assert(tail[r] == rows[r + 1]);
        assert(uses_wildcard(rows, r + 1));
        lemma_board_wildcard_is(rows, r + 1);
        lemma_board_wildcard_is(tail, r);
    } else {
        assert forall|r: int| !uses_wildcard(rows, r) by {
            if uses_wildcard(rows, r) {
                assert(r > 0);
                assert(tail[r - 1] == rows[r]);
                assert(uses_wildcard(tail, r - 1));
            }
        }
    }
}

/// The cells of the first `i + 1` rows are those of the first `i` rows and
/// those of the row after them.
pub proof fn lemma_demand_step(rows: Seq<WordView>, i: int, c: char)
    requires
        0 <= i < rows.len(),
    ensures
        demand(rows.take(i + 1), c) == demand(rows.take(i), c) + occurrences(rows[i].letters, c),
    decreases i,
{
    if i == 0 {
        assert(rows.take(1).skip(1) =~= Seq::<WordView>::empty());
        assert(rows.take(0) =~= Seq::<WordView>::empty());
    } else {
        let tail = rows.skip(1);
        lemma_demand_step(tail, i - 1, c);
        assert(rows.take(i + 1).skip(1) =~= tail.take(i));
        assert(rows.take(i).skip(1) =~= tail.take(i - 1));
        assert(tail[i - 1] == rows[i]);
    }
}

/// The first rows hold no more cells with a character than all rows.
pub proof fn lemma_demand_prefix(rows: Seq<WordView>, i: int, c: char)
    requires
        0 <= i <= rows.len(),
    ensures
        demand(rows.take(i), c) <= demand(rows, c),
    decreases rows.len() - i,
{
    if i == rows.len() {
        assert(rows.take(i) =~= rows);
    } else {
        lemma_demand_step(rows, i, c);
        lemma_demand_prefix(rows, i + 1, c);
    }
}

/// Finds the row that uses the wildcard tile. `Ok(None)` where no row uses
/// it, `Err` where more than one does.
fn find_wildcard_row(rows: &Vec<CandidateWord>) -> (out: Result<Option<usize>, ()>)
    ensures
        out is Ok <==> one_wildcard_at_most(views(rows@)),
        out matches Ok(Some(at)) ==> uses_wildcard(views(rows@), at as int),
        out matches Ok(None) ==> forall|r: int| !uses_wildcard(views(rows@), r),
{
    let ghost model = views(rows@);
    let mut found: Option<usize> = None;
    let mut r: usize = 0;
    while r < rows.len()
        invariant
            0 <= r <= rows@.len(),
            model == views(rows@),
            found matches Some(at) ==> at < r && uses_wildcard(model, at as int),
            forall|s: int|
                0 <= s < r && uses_wildcard(model, s) ==> found == Some(s as usize),
        decreases rows@.len() - r,
    {
        if rows[r].wildcard.is_some() {
            assert(uses_wildcard(model, r as int));
            if found.is_some() {
                assert(uses_wildcard(model, found->0 as int));
                return Err(());
            }
            found = Some(r);
        }
        r = r + 1;
    }
    proof {
        assert forall|a: int, b: int|
            #![trigger uses_wildcard(model, a), uses_wildcard(model, b)]
            uses_wildcard(model, a) && uses_wildcard(model, b) implies a == b by {}
    }
    Ok(found)
}

/// Whether `word` holds the character `c`.
fn holds_letter(word: &CandidateWord, c: char) -> (yes: bool)
    ensures
        yes == (occurrences(word@.letters, c) >= 1),
{
    let n = word.len();
    let mut j: usize = 0;
    while j < n
        invariant
            0 <= j <= n,
            n == word@.letters.len(),
            occurrences(word@.letters.take(j as int), c) == 0,
        decreases n - j,
    {
        proof {
            lemma_occurrences_step(word@.letters, j as int, c);
        }
        if word.letter(j) == c {
            proof {
                lemma_occurrences_prefix(word@.letters, j as int + 1, c);
            }
            return true;
        }
        j = j + 1;
    }
    assert(word@.letters.take(n as int) =~= word@.letters);
    false
}

/// Checks that the words can lie on one board together: at most one of them
/// uses the wildcard tile, the inventory has a wildcard tile if one does,
/// the word that uses it holds the letter it covers, and no letter is taken
/// more often than the inventory has tiles of it, one occurrence of the
/// wildcard letter not counted.
pub fn validate_sub_board(inventory: &LetterInventory, rows: &Vec<CandidateWord>) -> (ok: bool)
    ensures
        ok == within_inventory(inventory@, views(rows@)),
{
    let ghost model = views(rows@);
    let ghost bag = inventory@;
    let covered: Option<char> = match find_wildcard_row(rows) {
        Err(_) => {
            return false;
        },
        Ok(None) => {
            proof {
                lemma_no_wildcard_row(model);
            }
            None
        },
        Ok(Some(at)) => {
            proof {
                lemma_board_wildcard_is(model, at as int);
            }
            let letter = match rows[at].wildcard {
                Some(letter) => letter,
                None => {
                    return false;
                },
            };
            if inventory.wildcard_count() == 0 {
                return false;
            }
            if !holds_letter(&rows[at], letter) {
                assert(!holds_own_wildcard(model, at as int));
                return false;
            }
            assert forall|r: int| uses_wildcard(model, r) implies #[trigger] holds_own_wildcard(
                model,
                r,
            ) by {
                assert(uses_wildcard(model, r) && uses_wildcard(model, at as int));
            }
            Some(letter)
        },
    };
    assert(covered == board_wildcard(model));
    let mut used = [0u64; 26];
    let mut odd: u64 = 0;
    let mut i: usize = 0;
    while i < rows.len()
        invariant
            0 <= i <= rows@.len(),
            model == views(rows@),
            bag == inventory@,
            covered == board_wildcard(model),
            odd <= 1,
            forall|c: char|
                is_letter(c) ==> used@[slot_of(c)] == #[trigger] demand(model.take(i as int), c),
            forall|c: char|
                is_letter(c) ==> #[trigger] demand(model.take(i as int), c) <= bag.supply(c)
                    + wildcard_credit(model, c),
            forall|c: char|
                !is_letter(c) ==> #[trigger] demand(model.take(i as int), c) == if covered == Some(
                    c,
                ) {
                    odd as nat
                } else {
                    0nat
                },
        decreases rows@.len() - i,
    {
        let word = &rows[i];
        let n = word.len();
        let ghost letters = word@.letters;
        let ghost base = model.take(i as int);
        assert(model[i as int] == word@);
        let mut j: usize = 0;
        while j < n
            invariant
                0 <= j <= n,
                0 <= i < rows@.len(),
                n == letters.len(),
                letters == word@.letters,
                model == views(rows@),
                model[i as int].letters == letters,
                base == model.take(i as int),
                bag == inventory@,
                covered == board_wildcard(model),
                odd <= 1,
                forall|c: char|
                    is_letter(c) ==> used@[slot_of(c)] == demand(base, c) + #[trigger] occurrences(
                        letters.take(j as int),
                        c,
                    ),
                forall|c: char|
                    is_letter(c) ==> demand(base, c) + #[trigger] occurrences(
                        letters.take(j as int),
                        c,
                    ) <= bag.supply(c) + wildcard_credit(model, c),
                forall|c: char|
                    !is_letter(c) ==> demand(base, c) + #[trigger] occurrences(
                        letters.take(j as int),
                        c,
                    ) == if covered == Some(c) {
                        odd as nat
                    } else {
                        0nat
                    },
            decreases n - j,
        {
            let c = word.letter(j);
            let ghost was = used@;
            let ghost was_odd = odd;
            proof {
                lemma_occurrences_step(letters, j as int, c);
                lemma_occurrences_prefix(letters, j as int + 1, c);
                lemma_demand_step(model, i as int, c);
                lemma_demand_prefix(model, i as int + 1, c);
            }
            match letter_slot(c) {
                Some(k) => {
                    let credit: u64 = if covered == Some(c) {
                        1
                    } else {
                        0
                    };
                    assert(credit == wildcard_credit(model, c));
                    assert(used@[k as int] == demand(base, c) + occurrences(
                        letters.take(j as int),
                        c,
                    ));
                    if used[k] >= inventory.tiles[k] as u64 + credit {
                        assert(demand(model, c) > bag.supply(c) + wildcard_credit(model, c));
                        return false;
                    }
                    used[k] = used[k] + 1;
                },
                None => {
                    if covered == Some(c) && odd == 0 {
                        odd = 1;
                    } else {
                        assert(demand(base, c) + occurrences(letters.take(j as int), c) == if covered
                            == Some(c) {
                            was_odd as nat
                        } else {
                            0nat
                        });
                        assert(demand(model, c) > bag.supply(c) + wildcard_credit(model, c));
                        return false;
                    }
                },
            }
            proof {
                assert forall|d: char| is_letter(d) implies used@[slot_of(d)] == demand(base, d)
                    + #[trigger] occurrences(letters.take(j as int + 1), d) by {
                    lemma_occurrences_step(letters, j as int, d);
                    assert(was[slot_of(d)] == demand(base, d) + occurrences(
                        letters.take(j as int),
                        d,
                    ));
                }
                assert forall|d: char| is_letter(d) implies demand(base, d)
                    + #[trigger] occurrences(letters.take(j as int + 1), d) <= bag.supply(d)
                    + wildcard_credit(model, d) by {
                    lemma_occurrences_step(letters, j as int, d);
                    assert(demand(base, d) + occurrences(letters.take(j as int), d) <= bag.supply(d)
                        + wildcard_credit(model, d));
                }
                assert forall|d: char| !is_letter(d) implies demand(base, d)
                    + #[trigger] occurrences(letters.take(j as int + 1), d) == if covered == Some(
                    d,
                ) {
                    odd as nat
                } else {
                    0nat
                } by {
                    lemma_occurrences_step(letters, j as int, d);
                    assert(demand(base, d) + occurrences(letters.take(j as int), d) == if covered
                        == Some(d) {
                        was_odd as nat
                    } else {
                        0nat
                    });
                }
            }
            j = j + 1;
        }
        proof {
            assert(letters.take(n as int) =~= letters);
            assert forall|c: char| is_letter(c) implies used@[slot_of(c)] == #[trigger] demand(
                model.take(i as int + 1),
                c,
            ) by {
                lemma_demand_step(model, i as int, c);
                assert(used@[slot_of(c)] == demand(base, c) + occurrences(
                    letters.take(n as int),
                    c,
                ));
            }
            assert forall|c: char| is_letter(c) implies #[trigger] demand(
                model.take(i as int + 1),
                c,
            ) <= bag.supply(c) + wildcard_credit(model, c) by {
                lemma_demand_step(model, i as int, c);
                assert(demand(base, c) + occurrences(letters.take(n as int), c) <= bag.supply(c)
                    + wildcard_credit(model, c));
            }
            assert forall|c: char| !is_letter(c) implies #[trigger] demand(
                model.take(i as int + 1),
                c,
            ) == if covered == Some(c) {
                odd as nat
            } else {
                0nat
            } by {
                lemma_demand_step(model, i as int, c);
                assert(demand(base, c) + occurrences(letters.take(n as int), c) == if covered
                    == Some(c) {
                    odd as nat
                } else {
                    0nat
                });
            }
        }
        i = i + 1;
    }
    proof {
        assert(model.take(rows@.len() as int) =~= model);
        assert forall|c: char| #[trigger] demand(model, c) <= bag.supply(c) + wildcard_credit(
            model,
            c,
        ) by {
            if is_letter(c) {
                assert(demand(model.take(rows@.len() as int), c) <= bag.supply(c)
                    + wildcard_credit(model, c));
            } else {
                assert(demand(model.take(rows@.len() as int), c) == if covered == Some(c) {
                    odd as nat
                } else {
                    0nat
                });
            }
        }
    }
    true
}

/// Rows read from the last to the first hold as many cells with a character
/// as the rows read from the first to the last.
pub proof fn lemma_demand_reversed(rows: Seq<WordView>, c: char)
    ensures
        demand(rows.reverse(), c) == demand(rows, c),
    decreases rows.len(),
{
    let back = rows.reverse();
    if rows.len() == 0 {
        assert(back =~= rows);
    } else {
        let n = rows.len() as int;
        let tail = rows.skip(1);
        lemma_demand_reversed(tail, c);
        lemma_demand_step(back, n - 1, c);
        assert(back.take(n) =~= back);
        assert(back.take(n - 1) =~= tail.reverse());
        assert(back[n - 1] == rows[0]);
    }
}

/// Words that can lie on one board together can do so in the opposite order
/// as well.
pub proof fn lemma_within_inventory_reversed(bag: Bag, rows: Seq<WordView>)
    requires
        within_inventory(bag, rows),
    ensures
        within_inventory(bag, rows.reverse()),
{
    let back = rows.reverse();
    let n = rows.len() as int;
    assert forall|r: int| uses_wildcard(back, r) implies uses_wildcard(rows, n - 1 - r)
        && #[trigger] holds_own_wildcard(back, r) by {
        assert(back[r] == rows[n - 1 - r]);
        assert(uses_wildcard(rows, n - 1 - r));
        assert(holds_own_wildcard(rows, n - 1 - r));
    }
    assert forall|r: int, s: int|
        #![trigger uses_wildcard(back, r), uses_wildcard(back, s)]
        uses_wildcard(back, r) && uses_wildcard(back, s) implies r == s by {
        assert(back[r] == rows[n - 1 - r] && back[s] == rows[n - 1 - s]);
        assert(uses_wildcard(rows, n - 1 - r) && uses_wildcard(rows, n - 1 - s));
    }
    if exists|r: int| uses_wildcard(rows, r) {
        let r = choose|r: int| uses_wildcard(rows, r);
        assert(back[n - 1 - r] == rows[r]);
        assert(uses_wildcard(back, n - 1 - r));
        lemma_board_wildcard_is(rows, r);
        lemma_board_wildcard_is(back, n - 1 - r);
    } else {
        assert forall|r: int| !uses_wildcard(back, r) by {
            if uses_wildcard(back, r) {
                assert(back[r] == rows[n - 1 - r]);
                assert(uses_wildcard(rows, n - 1 - r));
            }
        }
        lemma_no_wildcard_row(rows);
        lemma_no_wildcard_row(back);
    }
    assert(board_wildcard(back) == board_wildcard(rows));
    assert forall|c: char| #[trigger] demand(back, c) <= bag.supply(c) + wildcard_credit(back, c) by {
        lemma_demand_reversed(rows, c);
        assert(demand(rows, c) <= bag.supply(c) + wildcard_credit(rows, c));
    }
}

} // verus!
