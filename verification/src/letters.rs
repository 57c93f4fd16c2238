//! Letter tiles and the bag they are drawn from.
//!
//! A bag holds tiles for the letters `A` to `Z` and a number of wildcard
//! tiles. A word is spelled from a bag tile by tile; a letter for which no
//! tile is left may be covered by a wildcard tile, at most once per word.

use vstd::prelude::*;

verus! {

/// Number of letters that have tiles of their own.
pub const LETTER_KINDS: usize = 26;

/// Number of tile kinds: the letters and the wildcard.
pub const TILE_KINDS: usize = 27;

/// Position of the wildcard count in a table of tile counts.
pub const WILDCARD_SLOT: usize = 26;

/// The symbol that stands for the wildcard tile in a letter table.
pub const WILDCARD: char = '*';

/// Whether `c` is one of the letters that have tiles.
pub open spec fn is_letter(c: char) -> bool {
    'A' <= c && c <= 'Z'
}

/// Position of the letter `c` in a table of tile counts.
pub open spec fn slot_of(c: char) -> int {
    c as int - 'A' as int
}

/// The letter whose count stands at position `k`.
pub open spec fn letter_at(k: int) -> char {
    (k + 'A' as int) as char
}

/// How many positions of `word` hold the character `c`.
pub open spec fn occurrences(word: Seq<char>, c: char) -> nat
    decreases word.len(),
{
    if word.len() == 0 {
        0
    } else {
        occurrences(word.drop_last(), c) + if word.last() == c {
            1nat
        } else {
            0nat
        }
    }
}

/// A prefix extended by the next character of the word.
pub proof fn lemma_occurrences_step(word: Seq<char>, i: int, c: char)
    requires
        0 <= i < word.len(),
    ensures
        occurrences(word.take(i + 1), c) == occurrences(word.take(i), c) + if word[i] == c {
            1nat
        } else {
            0nat
        },
{
    assert(word.take(i + 1).drop_last() =~= word.take(i));
}

/// A prefix never holds more occurrences than the whole word.
pub proof fn lemma_occurrences_prefix(word: Seq<char>, i: int, c: char)
    requires
        0 <= i <= word.len(),
    ensures
        occurrences(word.take(i), c) <= occurrences(word, c),
    decreases word.len() - i,
{
    if i == word.len() {
        assert(word.take(i) =~= word);
    } else {
        lemma_occurrences_step(word, i, c);
        lemma_occurrences_prefix(word, i + 1, c);
    }
}

/// The mathematical model of a bag of tiles: how many tiles of each letter
/// are left, and how many wildcard tiles.
pub struct Bag {
    /// One count per letter, `A` first.
    pub letters: Seq<nat>,
    /// The number of wildcard tiles.
    pub wildcards: nat,
}

impl Bag {
    /// How many tiles the bag holds for the character `c`. Characters that
    /// are no letters have no tiles.
    pub open spec fn supply(self, c: char) -> nat {
        if is_letter(c) {
            self.letters[slot_of(c)]
        } else {
            0
        }
    }

    /// Every letter of `word` has a tile of its own.
    pub open spec fn covers(self, word: Seq<char>) -> bool {
        forall|c: char| occurrences(word, c) <= self.supply(c)
    }

    /// Every letter of `word` has a tile of its own but one occurrence of `c`.
    pub open spec fn covers_but_one(self, word: Seq<char>, c: char) -> bool {
        &&& occurrences(word, c) == self.supply(c) + 1
        &&& forall|d: char| d != c ==> occurrences(word, d) <= self.supply(d)
    }

    /// The word can be spelled from the bag, with a wildcard tile covering at
    /// most one of its letters, and none where `allow_wildcard` is false.
    pub open spec fn spellable(self, word: Seq<char>, allow_wildcard: bool) -> bool {
        ||| self.covers(word)
        ||| (allow_wildcard && self.wildcards >= 1 && exists|c: char|
            self.covers_but_one(word, c))
    }

    /// The letter that a wildcard tile has to stand for when `word` is
    /// spelled from the bag, if there is one.
    pub open spec fn wildcard_for(self, word: Seq<char>) -> Option<char> {
        if exists|c: char| self.covers_but_one(word, c) {
            Some(choose|c: char| self.covers_but_one(word, c))
        } else {
            None
        }
    }

    /// The bag that is left when `word` has been spelled from it.
    pub open spec fn after(self, word: Seq<char>) -> Bag {
        Bag {
            letters: Seq::new(
                LETTER_KINDS as nat,
                |k: int|
                    if self.letters[k] >= occurrences(word, letter_at(k)) {
                        (self.letters[k] - occurrences(word, letter_at(k))) as nat
                    } else {
                        0nat
                    },
            ),
            wildcards: if self.wildcard_for(word) is Some && self.wildcards >= 1 {
                (self.wildcards - 1) as nat
            } else {
                self.wildcards
            },
        }
    }

    /// Every count of `self` is at most the matching count of `other`.
    pub open spec fn within(self, other: Bag) -> bool {
        &&& self.wildcards <= other.wildcards
        &&& forall|c: char| self.supply(c) <= other.supply(c)
    }

    /// The bag has one count per letter.
    pub open spec fn wf(self) -> bool {
        self.letters.len() == LETTER_KINDS
    }
}

/// At most one letter can be the one that is short by one tile.
pub proof fn lemma_short_letter_unique(bag: Bag, word: Seq<char>, c: char, d: char)
    requires
        bag.covers_but_one(word, c),
        bag.covers_but_one(word, d),
    ensures
        c == d,
{
}

/// Where one letter is short by one tile, that letter is the one the
/// wildcard stands for, and the bag does not cover the word by itself.
pub proof fn lemma_wildcard_for_is(bag: Bag, word: Seq<char>, c: char)
    requires
        bag.covers_but_one(word, c),
    ensures
        bag.wildcard_for(word) == Some(c),
        !bag.covers(word),
{
    let d = choose|d: char| bag.covers_but_one(word, d);
    lemma_short_letter_unique(bag, word, c, d);
}

/// A bag that covers a word needs no wildcard for it.
pub proof fn lemma_covers_needs_no_wildcard(bag: Bag, word: Seq<char>)
    requires
        bag.covers(word),
    ensures
        bag.wildcard_for(word) is None,
{
    if exists|c: char| bag.covers_but_one(word, c) {
        let c = choose|c: char| bag.covers_but_one(word, c);
        assert(occurrences(word, c) <= bag.supply(c));
    }
}

/// Tiles are conserved: what is left after a word, together with the word's
/// letters, is what was there before, the wildcard standing in for one
/// occurrence of the letter it covers.
pub proof fn lemma_after_conserves(bag: Bag, word: Seq<char>, allow_wildcard: bool, c: char)
    requires
        bag.wf(),
        bag.spellable(word, allow_wildcard),
    ensures
        bag.after(word).wf(),
        bag.after(word).supply(c) + occurrences(word, c) == bag.supply(c) + if bag.wildcard_for(
            word,
        ) == Some(c) {
            1nat
        } else {
            0nat
        },
        bag.after(word).wildcards + if bag.wildcard_for(word) is Some {
            1nat
        } else {
            0nat
        } == bag.wildcards,
        bag.wildcard_for(word) is Some ==> allow_wildcard,
        bag.after(word).within(bag),
{
    if bag.covers(word) {
        lemma_covers_needs_no_wildcard(bag, word);
        assert(occurrences(word, c) <= bag.supply(c));
    } else {
        let w = choose|w: char| bag.covers_but_one(word, w);
        lemma_wildcard_for_is(bag, word, w);
        if c != w {
            assert(occurrences(word, c) <= bag.supply(c));
        }
    }
    if is_letter(c) {
        assert(letter_at(slot_of(c)) == c);
    }
    assert forall|d: char| bag.after(word).supply(d) <= bag.supply(d) by {
        if is_letter(d) {
            assert(letter_at(slot_of(d)) == d);
        }
    }
}

/// A word that can be spelled from a bag can be spelled from any bag that
/// holds at least the same tiles.
pub proof fn lemma_spellable_from_larger(
    small: Bag,
    large: Bag,
    word: Seq<char>,
    allow_small: bool,
    allow_large: bool,
)
    requires
        small.within(large),
        allow_small ==> allow_large,
        small.spellable(word, allow_small),
    ensures
        large.spellable(word, allow_large),
{
    if small.covers(word) {
        assert forall|c: char| occurrences(word, c) <= large.supply(c) by {
            assert(occurrences(word, c) <= small.supply(c));
        }
    } else {
        let w = choose|w: char| small.covers_but_one(word, w);
        assert forall|d: char| d != w implies occurrences(word, d) <= large.supply(d) by {
            assert(occurrences(word, d) <= small.supply(d));
        }
        if occurrences(word, w) <= large.supply(w) {
            assert(large.covers(word));
        } else {
            assert(large.covers_but_one(word, w));
        }
    }
}

/// One entry of a letter table: a tile kind, how many tiles of it the bag
/// holds, and what a tile of it is worth.
#[derive(Clone, Copy, Debug)]
pub struct Letter {
    /// A letter from `A` to `Z`, or the wildcard symbol.
    pub ch: char,
    /// The number of tiles of this kind.
    pub count: u32,
    /// The points for one tile of this kind.
    pub score: u32,
}

/// The position of a letter in a table of tile counts; `None` for a character
/// that has no tiles of its own.
pub fn letter_slot(c: char) -> (slot: Option<usize>)
    ensures
        slot is Some <==> is_letter(c),
        slot matches Some(k) ==> k == slot_of(c) && k < LETTER_KINDS,
{
    if 'A' <= c && c <= 'Z' {
        Some((c as u32 - 'A' as u32) as usize)
    } else {
        None
    }
}

/// The tiles that are left: one count for each letter and one for the
/// wildcard. A value is never changed in place; spelling a word gives a new
/// inventory.
#[derive(Clone, Copy, Debug)]
pub struct LetterInventory {
    /// The counts for `A` to `Z`, then the wildcard count.
    pub tiles: [u32; 27],
}

impl View for LetterInventory {
    type V = Bag;

    open spec fn view(&self) -> Bag {
        Bag {
            letters: Seq::new(LETTER_KINDS as nat, |k: int| self.tiles@[k] as nat),
            wildcards: self.tiles@[WILDCARD_SLOT as int] as nat,
        }
    }
}

impl LetterInventory {
    /// An inventory without tiles.
    pub fn empty() -> (inv: LetterInventory)
        ensures
            inv@.wildcards == 0,
            forall|c: char| inv@.supply(c) == 0,
    {
        LetterInventory { tiles: [0u32; 27] }
    }

    /// The inventory with the given counts, `A` to `Z` and then the wildcard.
    pub fn from_counts(tiles: [u32; 27]) -> (inv: LetterInventory)
        ensures
            inv.tiles == tiles,
    {
        LetterInventory { tiles }
    }

    /// The number of tiles left for the character `c`.
    pub fn count(&self, c: char) -> (n: u32)
        ensures
            n == self@.supply(c),
    {
        match letter_slot(c) {
            Some(k) => self.tiles[k],
            None => 0,
        }
    }

    /// The number of wildcard tiles left.
    pub fn wildcard_count(&self) -> (n: u32)
        ensures
            n == self@.wildcards,
    {
        self.tiles[WILDCARD_SLOT]
    }

    /// Spells `word` from the inventory. Each character takes a tile of its
    /// own letter where one is left. Where none is left, a wildcard tile
    /// covers the character, if `allow_wildcard` holds, a wildcard tile is
    /// left and the word has not used one yet. Otherwise the word cannot be
    /// spelled and the result is `None`.
    ///
    /// On success the result holds the inventory that is left and the letter
    /// that the wildcard covered, if any.
    pub fn try_consume(&self, word: &str, allow_wildcard: bool) -> (out: Option<
        (LetterInventory, Option<char>),
    >)
        ensures
            out is Some <==> self@.spellable(word@, allow_wildcard),
            out matches Some((rest, covered)) ==> rest@ == self@.after(word@) && covered
                == self@.wildcard_for(word@),
    {
        let n = word.unicode_len();
        let mut tiles = self.tiles;
        let mut covered: Option<char> = None;
        let mut i: usize = 0;
        let ghost start = self@;
        while i < n
            invariant
                0 <= i <= n,
                n == word@.len(),
                start == self@,
                covered is Some ==> allow_wildcard && start.wildcards >= 1,
                tiles@[WILDCARD_SLOT as int] + if covered is Some {
                    1nat
                } else {
                    0nat
                } == start.wildcards,
                forall|c: char|
                    #![trigger occurrences(word@.take(i as int), c)]
                    (LetterInventory { tiles })@.supply(c) + occurrences(word@.take(i as int), c)
                        == start.supply(c) + if covered == Some(c) {
                        1nat
                    } else {
                        0nat
                    },
                covered matches Some(w) ==> (LetterInventory { tiles })@.supply(w) == 0,
            decreases n - i,
        {
            let c = word.get_char(i);
            let ghost before = LetterInventory { tiles };
            let slot = letter_slot(c);
            let mut has_tile = false;
            if let Some(k) = slot {
                if tiles[k] > 0 {
                    has_tile = true;
                }
            }
            if has_tile {
                let k = slot.unwrap();
                tiles[k] = tiles[k] - 1;
                proof {
                    let now = LetterInventory { tiles };
                    if covered is Some {
                        let w = covered->0;
                        assert(before@.supply(w) == 0);
                        assert(now@.supply(w) == 0);
                    }
                    assert forall|d: char|
                        #![trigger occurrences(word@.take(i as int + 1), d)]
                        now@.supply(d) + occurrences(word@.take(i as int + 1), d) == start.supply(
                            d,
                        ) + if covered == Some(d) {
                            1nat
                        } else {
                            0nat
                        } by {
                        lemma_occurrences_step(word@, i as int, d);
                        assert(before@.supply(d) + occurrences(word@.take(i as int), d)
                            == start.supply(d) + if covered == Some(d) {
                            1nat
                        } else {
                            0nat
                        });
                    }
                }
            } else if allow_wildcard && covered.is_none() && tiles[WILDCARD_SLOT] > 0 {
                tiles[WILDCARD_SLOT] = tiles[WILDCARD_SLOT] - 1;
                covered = Some(c);
                proof {
                    let now = LetterInventory { tiles };
                    assert(before@.supply(c) == 0);
                    assert(now@.supply(c) == 0);
                    assert forall|d: char|
                        #![trigger occurrences(word@.take(i as int + 1), d)]
                        now@.supply(d) + occurrences(word@.take(i as int + 1), d) == start.supply(
                            d,
                        ) + if covered == Some(d) {
                            1nat
                        } else {
                            0nat
                        } by {
                        lemma_occurrences_step(word@, i as int, d);
                        assert(before@.supply(d) + occurrences(word@.take(i as int), d)
                            == start.supply(d));
                    }
                }
            } else {
                proof {
                    lemma_occurrences_step(word@, i as int, c);
                    lemma_occurrences_prefix(word@, i as int + 1, c);
                    assert(before@.supply(c) == 0);
                    assert(occurrences(word@.take(i as int), c) == start.supply(c) + if covered
                        == Some(c) {
                        1nat
                    } else {
                        0nat
                    });
                    assert(occurrences(word@, c) > start.supply(c));
                    assert(!start.covers(word@));
                    if covered is Some {
                        let w = covered->0;
                        lemma_occurrences_prefix(word@, i as int, w);
                        assert(before@.supply(w) == 0);
                        assert(occurrences(word@.take(i as int), w) == start.supply(w) + 1);
                        assert forall|x: char| !start.covers_but_one(word@, x) by {
                            if x == c {
                                if w == c {
                                    assert(occurrences(word@, c) >= start.supply(c) + 2);
                                } else {
                                    assert(occurrences(word@, w) > start.supply(w));
                                }
                            } else {
                                assert(occurrences(word@, c) > start.supply(c));
                            }
                        }
                    }
                }
                return None;
            }
            i = i + 1;
        }
        let rest = LetterInventory { tiles };
        proof {
            assert(word@.take(n as int) =~= word@);
            assert forall|c: char| occurrences(word@, c) + rest@.supply(c) == start.supply(c) + if covered
                == Some(c) {
                1nat
            } else {
                0nat
            } by {
                assert(rest@.supply(c) + occurrences(word@.take(n as int), c) == start.supply(c)
                    + if covered == Some(c) {
                    1nat
                } else {
                    0nat
                });
            }
            match covered {
                Some(w) => {
                    assert(rest@.supply(w) == 0);
                    assert(start.covers_but_one(word@, w)) by {
                        assert(occurrences(word@, w) + rest@.supply(w) == start.supply(w) + 1);
                        assert forall|d: char| d != w implies occurrences(word@, d)
                            <= start.supply(d) by {
                            assert(occurrences(word@, d) + rest@.supply(d) == start.supply(d));
                        }
                    }
                    lemma_wildcard_for_is(start, word@, w);
                },
                None => {
                    assert(start.covers(word@)) by {
                        assert forall|d: char| occurrences(word@, d) <= start.supply(d) by {
                            assert(occurrences(word@, d) + rest@.supply(d) == start.supply(d));
                        }
                    }
                    lemma_covers_needs_no_wildcard(start, word@);
                },
            }
            assert(rest@.letters =~= start.after(word@).letters) by {
                assert forall|k: int| 0 <= k < LETTER_KINDS implies rest@.letters[k]
                    == start.after(word@).letters[k] by {
                    let c = letter_at(k);
                    assert(is_letter(c) && slot_of(c) == k);
                    assert(occurrences(word@, c) + rest@.supply(c) == start.supply(c) + if covered
                        == Some(c) {
                        1nat
                    } else {
                        0nat
                    });
                    if covered == Some(c) {
                        assert(rest@.supply(c) == 0);
                    }
                }
            }
        }
        Some((rest, covered))
    }
}

} // verus!
