//! Candidate words: the words of a dictionary that the bag can spell.

use crate::letters::{lemma_after_conserves, occurrences, Bag, LetterInventory};
use crate::parallel::par_map;
use vstd::prelude::*;

verus! {

/// The mathematical model of a word on a board: its letters, and the letter
/// that the wildcard tile stands for, if it covers one of them.
pub struct WordView {
    /// The letters of the word, first letter first.
    pub letters: Seq<char>,
    /// The letter that the wildcard tile covers, if any.
    pub wildcard: Option<char>,
}

/// A word together with the letter that the wildcard tile stands for, if the
/// word needs one.
#[derive(Clone, Debug, PartialEq, Eq)]
pub struct CandidateWord {
    /// The word, in upper case.
    pub word: String,
    /// The letter that the wildcard tile covers, if any.
    pub wildcard: Option<char>,
}

impl View for CandidateWord {
    type V = WordView;

    open spec fn view(&self) -> WordView {
        WordView { letters: self.word@, wildcard: self.wildcard }
    }
}

/// The models of a sequence of words, in the same order.
pub open spec fn views(words: Seq<CandidateWord>) -> Seq<WordView> {
    Seq::new(words.len(), |i: int| words[i]@)
}

impl CandidateWord {
    /// The word `word` with the wildcard letter `wildcard`.
    pub fn new(word: &str, wildcard: Option<char>) -> (out: CandidateWord)
        ensures
            out@ == (WordView { letters: word@, wildcard }),
    {
        CandidateWord { word: word.to_owned(), wildcard }
    }

    /// A copy of the word.
    pub fn duplicate(&self) -> (out: CandidateWord)
        ensures
            out@ == self@,
    {
        CandidateWord { word: self.word.clone(), wildcard: self.wildcard }
    }

    /// The number of letters of the word.
    pub fn len(&self) -> (n: usize)
        ensures
            n == self@.letters.len(),
    {
        self.word.as_str().unicode_len()
    }

    /// The letter at position `i`.
    pub fn letter(&self, i: usize) -> (c: char)
        requires
            i < self@.letters.len(),
        ensures
            c == self@.letters[i as int],
    {
        self.word.as_str().get_char(i)
    }
}

/// What the admissibility filter says of one word: `None` where the bag
/// cannot spell it, else the word with the letter that the wildcard covers.
pub open spec fn admission(bag: Bag, word: Seq<char>) -> Option<WordView> {
    if bag.spellable(word, true) {
        Some(WordView { letters: word, wildcard: bag.wildcard_for(word) })
    } else {
        None
    }
}

/// The words of `dictionary` that the bag can spell, in the order of the
/// dictionary, each with the letter that the wildcard covers.
pub open spec fn admitted(bag: Bag, dictionary: Seq<String>) -> Seq<WordView>
    decreases dictionary.len(),
{
    if dictionary.len() == 0 {
        Seq::empty()
    } else {
        let front = admitted(bag, dictionary.drop_last());
        match admission(bag, dictionary.last()@) {
            Some(w) => front.push(w),
            None => front,
        }
    }
}

/// The words of `words` that have `n` letters, in the same order.
pub open spec fn with_length(words: Seq<WordView>, n: nat) -> Seq<WordView>
    decreases words.len(),
{
    if words.len() == 0 {
        Seq::empty()
    } else {
        let front = with_length(words.drop_last(), n);
        if words.last().letters.len() == n {
            front.push(words.last())
        } else {
            front
        }
    }
}

/// Decides whether the full inventory can spell `word` with at most one
/// letter covered by the wildcard tile, and if so, which letter that is.
pub fn admissible_word(inventory: &LetterInventory, word: &str) -> (out: Option<CandidateWord>)
    ensures
        out is Some <==> inventory@.spellable(word@, true),
        out matches Some(w) ==> Some(w@) == admission(inventory@, word@),
{
    match inventory.try_consume(word, true) {
        Some((_, covered)) => Some(CandidateWord::new(word, covered)),
        None => None,
    }
}

/// The admissibility filter: the words of the dictionary that the inventory
/// can spell, in the order of the dictionary. The words are looked at in
/// parallel.
pub fn admissible_words(inventory: &LetterInventory, dictionary: &Vec<String>) -> (out: Vec<
    CandidateWord,
>)
    ensures
        views(out@) == admitted(inventory@, dictionary@),
{
    let bag = *inventory;
    let verdict = |word: &String| -> (v: Option<CandidateWord>)
        ensures
            v is Some <==> bag@.spellable(word@, true),
            v matches Some(w) ==> Some(w@) == admission(bag@, word@),
        { admissible_word(&bag, word.as_str()) };
    let verdicts = par_map(dictionary, verdict);
    let mut out: Vec<CandidateWord> = Vec::new();
    let n = dictionary.len();
    let mut i: usize = 0;
    while i < n
        invariant
            0 <= i <= n,
            n == dictionary@.len(),
            n == verdicts@.len(),
            bag == *inventory,
            views(out@) == admitted(bag@, dictionary@.take(i as int)),
            forall|j: int|
                0 <= j < n ==> ((#[trigger] verdicts@[j]) is Some <==> bag@.spellable(
                    dictionary@[j]@,
                    true,
                )),
            forall|j: int|
                0 <= j < n ==> ((#[trigger] verdicts@[j]) matches Some(w) ==> Some(w@) == admission(
                    bag@,
                    dictionary@[j]@,
                )),
        decreases n - i,
    {
        let ghost before = views(out@);
        proof {
            assert(dictionary@.take(i as int + 1).drop_last() =~= dictionary@.take(i as int));
            assert(dictionary@.take(i as int + 1).last() == dictionary@[i as int]);
        }
        match &verdicts[i] {
            Some(w) => {
                out.push(w.duplicate());
                assert(views(out@) =~= before.push(w@));
            },
            None => {},
        }
        i = i + 1;
    }
    assert(dictionary@.take(n as int) =~= dictionary@);
    out
}

/// The words of `words` that have `n` letters, in the same order.
pub fn words_of_length(words: &Vec<CandidateWord>, n: usize) -> (out: Vec<CandidateWord>)
    ensures
        views(out@) == with_length(views(words@), n as nat),
{
    let mut out: Vec<CandidateWord> = Vec::new();
    let mut i: usize = 0;
    while i < words.len()
        invariant
            0 <= i <= words@.len(),
            views(out@) == with_length(views(words@).take(i as int), n as nat),
        decreases words@.len() - i,
    {
        let ghost before = views(out@);
        proof {
            assert(views(words@).take(i as int + 1).drop_last() =~= views(words@).take(i as int));
            assert(views(words@).take(i as int + 1).last() == words@[i as int]@);
        }
        if words[i].len() == n {
            out.push(words[i].duplicate());
            assert(views(out@) =~= before.push(words@[i as int]@));
        }
        i = i + 1;
    }
    assert(views(words@).take(words@.len() as int) =~= views(words@));
    out
}

/// Every word that the filter lets through is a word of the dictionary that
/// the bag can spell, and the wildcard letter it carries is the one that the
/// bag needs for it.
pub proof fn lemma_admitted_from_dictionary(bag: Bag, dictionary: Seq<String>, i: int) -> (k: int)
    requires
        0 <= i < admitted(bag, dictionary).len(),
    ensures
        0 <= k < dictionary.len(),
        admission(bag, dictionary[k]@) == Some(admitted(bag, dictionary)[i]),
    decreases dictionary.len(),
{
    let front = admitted(bag, dictionary.drop_last());
    if i < front.len() {
        lemma_admitted_from_dictionary(bag, dictionary.drop_last(), i)
    } else {
        dictionary.len() - 1
    }
}

/// For every word that the filter lets through, the letters it takes can be
/// counted again against the same bag: no letter is taken more often than
/// the bag has tiles of it, one occurrence of the word's wildcard letter not
/// counted, and a wildcard letter is there only if the bag has a wildcard
/// tile.
pub proof fn lemma_admitted_word_within_inventory(
    bag: Bag,
    dictionary: Seq<String>,
    i: int,
    c: char,
)
    requires
        bag.wf(),
        0 <= i < admitted(bag, dictionary).len(),
    ensures
        bag.spellable(admitted(bag, dictionary)[i].letters, true),
        admitted(bag, dictionary)[i].wildcard == bag.wildcard_for(
            admitted(bag, dictionary)[i].letters,
        ),
        occurrences(admitted(bag, dictionary)[i].letters, c) <= bag.supply(c) + if admitted(
            bag,
            dictionary,
        )[i].wildcard == Some(c) {
            1nat
        } else {
            0nat
        },
        admitted(bag, dictionary)[i].wildcard is Some ==> bag.wildcards >= 1,
{
    let k = lemma_admitted_from_dictionary(bag, dictionary, i);
    lemma_after_conserves(bag, dictionary[k]@, true, c);
}

/// Appends one character to a string.
///
/// This is `String::push` of the standard library. Not proved: that the
/// string afterwards holds the characters it held before, followed by `c`.
#[verifier::external_body]
fn push_char(text: &mut String, c: char)
    ensures
        final(text)@ == old(text)@.push(c),
{
    text.push(c);
}

/// The word that the five letters spell.
pub fn print_five_word(word: [char; 5]) -> (out: String)
    ensures
        out@ == word@,
{
    let mut out = String::new();
    let mut i: usize = 0;
    while i < 5
        invariant
            0 <= i <= 5,
            out@ == word@.take(i as int),
        decreases 5 - i,
    {
        push_char(&mut out, word[i]);
        assert(out@ =~= word@.take(i as int + 1));
        i = i + 1;
    }
    assert(word@.take(5) =~= word@);
    out
}

/// Every word that `with_length` keeps has `n` letters.
pub proof fn lemma_with_length_has_length(words: Seq<WordView>, n: nat, i: int)
    requires
        0 <= i < with_length(words, n).len(),
    ensures
        with_length(words, n)[i].letters.len() == n,
    decreases words.len(),
{
    let front = with_length(words.drop_last(), n);
    if i < front.len() {
        lemma_with_length_has_length(words.drop_last(), n, i);
    }
}

} // verus!
