//! Sets of candidate words that can lie on one board together.
//!
//! A set is given by the positions of its words in the list of candidates.
//! The sets of a given size are found by extending smaller sets, and a set
//! whose words take more tiles than the inventory holds is dropped at once.
//! One generator gives the positions of a set in rising order, the other in
//! falling order, the word that was chosen first standing last.

use crate::board::{
    board_wildcard, demand, holds_own_wildcard, lemma_board_wildcard_is,
    lemma_board_wildcard_skip, lemma_no_wildcard_row, lemma_within_inventory_reversed,
    one_wildcard_at_most, uses_wildcard, validate_sub_board, wildcard_credit, within_inventory,
};
use crate::letters::{Bag, LetterInventory};
use crate::parallel::par_map;
use crate::words::{views, CandidateWord, WordView};
use vstd::prelude::*;

verus! {

/// The words at the positions `set`, in the order of `set`.
pub open spec fn picked(words: Seq<WordView>, set: Seq<usize>) -> Seq<WordView> {
    Seq::new(set.len(), |i: int| words[set[i] as int])
}

/// The positions of `set` rise strictly and lie from `start` up to, but not
/// including, `end`.
pub open spec fn rising_within(set: Seq<usize>, start: int, end: int) -> bool {
    &&& forall|i: int| 0 <= i < set.len() ==> start <= #[trigger] set[i] < end
    &&& forall|i: int, j: int| 0 <= i < j < set.len() ==> #[trigger] set[i] < #[trigger] set[j]
}

/// `set` names `k` of the candidate words, none before position `start`,
/// that can lie on one board together.
pub open spec fn is_k_set(
    bag: Bag,
    words: Seq<WordView>,
    k: nat,
    start: int,
    set: Seq<usize>,
) -> bool {
    &&& set.len() == k
    &&& rising_within(set, start, words.len() as int)
    &&& within_inventory(bag, picked(words, set))
}

/// `a` comes before `b` in the order of a dictionary: at the first place
/// where the two differ, `a` has the smaller position.
pub open spec fn precedes(a: Seq<usize>, b: Seq<usize>) -> bool
    decreases a.len(),
{
    &&& a.len() > 0
    &&& b.len() > 0
    &&& (a[0] < b[0] || (a[0] == b[0] && precedes(a.skip(1), b.skip(1))))
}

/// Each of `sets` comes before all that follow it: the sets stand in the
/// order of a dictionary, and none stands there twice.
pub open spec fn in_order(sets: Seq<Vec<usize>>) -> bool {
    forall|a: int, b: int|
        0 <= a < b < sets.len() ==> precedes((#[trigger] sets[a])@, (#[trigger] sets[b])@)
}

/// Putting the same position in front of two sets keeps their order.
pub proof fn lemma_precedes_with_first(first: usize, a: Seq<usize>, b: Seq<usize>)
    requires
        precedes(a, b),
    ensures
        precedes(seq![first] + a, seq![first] + b),
{
    assert((seq![first] + a).skip(1) =~= a);
    assert((seq![first] + b).skip(1) =~= b);
}

/// `sets` holds the sets of `k` words that can lie on one board together
/// and begin with the word at position `first`: each of its entries is such
/// a set, and each such set is among its entries.
pub open spec fn holds_sets_with_first(
    bag: Bag,
    words: Seq<WordView>,
    k: nat,
    first: int,
    sets: Seq<Vec<usize>>,
) -> bool {
    &&& forall|j: int|
        0 <= j < sets.len() ==> is_k_set(bag, words, k, first, (#[trigger] sets[j])@)
    &&& forall|j: int| 0 <= j < sets.len() ==> (#[trigger] sets[j])@[0] == first
    &&& forall|set: Seq<usize>|
        #[trigger] is_k_set(bag, words, k, first, set) && set[0] == first ==> exists|j: int|
            0 <= j < sets.len() && (#[trigger] sets[j])@ == set
    &&& in_order(sets)
}

/// Words that can lie on one board together still can when the first of
/// them is taken away.
pub proof fn lemma_within_inventory_skip(bag: Bag, rows: Seq<WordView>)
    requires
        rows.len() > 0,
        within_inventory(bag, rows),
    ensures
        within_inventory(bag, rows.skip(1)),
{
    let tail = rows.skip(1);
    assert forall|r: int, s: int|
        #![trigger uses_wildcard(tail, r), uses_wildcard(tail, s)]
        uses_wildcard(tail, r) && uses_wildcard(tail, s) implies r == s by {
        assert(tail[r] == rows[r + 1] && tail[s] == rows[s + 1]);
        assert(uses_wildcard(rows, r + 1) && uses_wildcard(rows, s + 1));
    }
    assert forall|r: int| uses_wildcard(tail, r) implies #[trigger] holds_own_wildcard(tail, r) by {
        assert(tail[r] == rows[r + 1]);
        assert(uses_wildcard(rows, r + 1));
        assert(holds_own_wildcard(rows, r + 1));
    }
    if rows[0].wildcard is Some {
        assert(uses_wildcard(rows, 0));
        lemma_board_wildcard_is(rows, 0);
        assert(holds_own_wildcard(rows, 0));
        assert forall|r: int| !uses_wildcard(tail, r) by {
            if uses_wildcard(tail, r) {
                assert(tail[r] == rows[r + 1]);
                assert(uses_wildcard(rows, r + 1) && uses_wildcard(rows, 0));
            }
        }
        lemma_no_wildcard_row(tail);
    } else {
        lemma_board_wildcard_skip(rows);
    }
    assert forall|c: char| #[trigger] demand(tail, c) <= bag.supply(c) + wildcard_credit(tail, c) by {
        assert(demand(rows, c) <= bag.supply(c) + wildcard_credit(rows, c));
    }
}

/// Copies of the words at the positions `set`.
pub fn pick_words(words: &Vec<CandidateWord>, set: &Vec<usize>) -> (out: Vec<CandidateWord>)
    requires
        forall|i: int| 0 <= i < set@.len() ==> (#[trigger] set@[i]) < words@.len(),
    ensures
        views(out@) == picked(views(words@), set@),
{
    let mut out: Vec<CandidateWord> = Vec::new();
    let mut i: usize = 0;
    while i < set.len()
        invariant
            0 <= i <= set@.len(),
            out@.len() == i,
            forall|j: int| 0 <= j < set@.len() ==> (#[trigger] set@[j]) < words@.len(),
            forall|j: int| 0 <= j < i ==> (#[trigger] out@[j])@ == words@[set@[j] as int]@,
        decreases set@.len() - i,
    {
        out.push(words[set[i]].duplicate());
        i = i + 1;
    }
    assert(views(out@) =~= picked(views(words@), set@));
    out
}

/// The sets of `k` words that can lie on one board together and whose first
/// word is the one at position `first`.
fn sets_with_first(
    inventory: &LetterInventory,
    words: &Vec<CandidateWord>,
    k: usize,
    first: usize,
) -> (out: Vec<Vec<usize>>)
    requires
        k >= 1,
        first < words@.len(),
    ensures
        holds_sets_with_first(inventory@, views(words@), k as nat, first as int, out@),
    decreases k, 0nat,
{
    let ghost bag = inventory@;
    let ghost pool = views(words@);
    let n = words.len();
    assert(first < n);
    let tails = rising_sets_from(inventory, words, k - 1, first + 1);
    let mut out: Vec<Vec<usize>> = Vec::new();
    let ghost mut origin: Seq<int> = Seq::empty();
    let mut t: usize = 0;
    while t < tails.len()
        invariant
            0 <= t <= tails@.len(),
            origin.len() == out@.len(),
            forall|q: int| 0 <= q < origin.len() ==> 0 <= #[trigger] origin[q] < t,
            forall|q: int, r: int|
                0 <= q < r < origin.len() ==> #[trigger] origin[q] < #[trigger] origin[r],
            forall|q: int|
                0 <= q < out@.len() ==> (#[trigger] out@[q])@ == seq![first] + tails@[origin[q]]@,
            in_order(tails@),
            k >= 1,
            first < words@.len(),
            bag == inventory@,
            pool == views(words@),
            forall|j: int|
                0 <= j < tails@.len() ==> is_k_set(
                    bag,
                    pool,
                    (k - 1) as nat,
                    first + 1,
                    (#[trigger] tails@[j])@,
                ),
            forall|j: int|
                0 <= j < out@.len() ==> is_k_set(bag, pool, k as nat, first as int, (#[trigger] out@[j])@),
            forall|j: int| 0 <= j < out@.len() ==> (#[trigger] out@[j])@[0] == first,
            forall|j: int|
                0 <= j < t && is_k_set(
                    bag,
                    pool,
                    k as nat,
                    first as int,
                    seq![first] + (#[trigger] tails@[j])@,
                ) ==> exists|q: int|
                    0 <= q < out@.len() && (#[trigger] out@[q])@ == seq![first] + tails@[j]@,
        decreases tails@.len() - t,
    {
        let tail = &tails[t];
        let ghost before = out@;
        let mut set: Vec<usize> = Vec::new();
        set.push(first);
        let mut i: usize = 0;
        while i < tail.len()
            invariant
                0 <= i <= tail@.len(),
                set@ == seq![first] + tail@.take(i as int),
            decreases tail@.len() - i,
        {
            set.push(tail[i]);
            assert(set@ =~= seq![first] + tail@.take(i as int + 1));
            i = i + 1;
        }
        assert(tail@.take(tail@.len() as int) =~= tail@);
        proof {
            assert(is_k_set(bag, pool, (k - 1) as nat, first + 1, tail@));
            assert forall|a: int| 0 <= a < set@.len() implies first <= #[trigger] set@[a]
                < pool.len() by {
                if a > 0 {
                    assert(set@[a] == tail@[a - 1]);
                }
            }
            assert forall|a: int, b: int| 0 <= a < b < set@.len() implies #[trigger] set@[a]
                < #[trigger] set@[b] by {
                assert(set@[b] == tail@[b - 1]);
                if a > 0 {
                    assert(set@[a] == tail@[a - 1]);
                }
            }
        }
        let rows = pick_words(words, &set);
        if validate_sub_board(inventory, &rows) {
            out.push(set);
            proof {
                origin = origin.push(t as int);
                assert forall|j: int| 0 <= j < t + 1 && is_k_set(
                    bag,
                    pool,
                    k as nat,
                    first as int,
                    seq![first] + (#[trigger] tails@[j])@,
                ) implies exists|q: int|
                    0 <= q < out@.len() && (#[trigger] out@[q])@ == seq![first] + tails@[j]@ by {
                    if j < t {
                        let q = choose|q: int|
                            0 <= q < before.len() && (#[trigger] before[q])@ == seq![first]
                                + tails@[j]@;
                        assert(out@[q] == before[q]);
                    } else {
                        assert(out@[before.len() as int]@ == seq![first] + tails@[j]@);
                    }
                }
            }
        }
        t = t + 1;
    }
    proof {
        assert forall|a: int, b: int| 0 <= a < b < out@.len() implies precedes(
            (#[trigger] out@[a])@,
            (#[trigger] out@[b])@,
        ) by {
            assert(origin[a] < origin[b]);
            assert(precedes(tails@[origin[a]]@, tails@[origin[b]]@));
            lemma_precedes_with_first(first, tails@[origin[a]]@, tails@[origin[b]]@);
        }
        assert forall|set: Seq<usize>| #[trigger]
            is_k_set(bag, pool, k as nat, first as int, set) && set[0] == first implies exists|
            j: int,
        | 0 <= j < out@.len() && (#[trigger] out@[j])@ == set by {
            let tail = set.skip(1);
            assert(picked(pool, set).skip(1) =~= picked(pool, tail));
            lemma_within_inventory_skip(bag, picked(pool, set));
            assert forall|a: int| 0 <= a < tail.len() implies first + 1 <= #[trigger] tail[a]
                < pool.len() by {
                assert(tail[a] == set[a + 1]);
                assert(set[0] < set[a + 1]);
            }
            assert forall|a: int, b: int| 0 <= a < b < tail.len() implies #[trigger] tail[a]
                < #[trigger] tail[b] by {
                assert(tail[a] == set[a + 1] && tail[b] == set[b + 1]);
            }
            assert(is_k_set(bag, pool, (k - 1) as nat, first + 1, tail));
            let j = choose|j: int| 0 <= j < tails@.len() && (#[trigger] tails@[j])@ == tail;
            assert(seq![first] + tails@[j]@ =~= set);
        }
    }
    out
}

/// `sets` holds the sets of `k` words, none before position `start`, that
/// can lie on one board together and begin with a word before position
/// `first`: each of its entries is such a set, each such set is among its
/// entries, and the entries stand in order.
pub open spec fn holds_sets_before(
    bag: Bag,
    words: Seq<WordView>,
    k: nat,
    start: int,
    first: int,
    sets: Seq<Vec<usize>>,
) -> bool {
    &&& forall|j: int|
        0 <= j < sets.len() ==> is_k_set(bag, words, k, start, (#[trigger] sets[j])@)
    &&& forall|j: int| 0 <= j < sets.len() ==> (#[trigger] sets[j])@[0] < first
    &&& forall|set: Seq<usize>|
        #[trigger] is_k_set(bag, words, k, start, set) && set[0] < first ==> exists|j: int|
            0 <= j < sets.len() && (#[trigger] sets[j])@ == set
    &&& in_order(sets)
}

/// `out` holds the sets of `before`, followed by those of `added`.
pub open spec fn joined(before: Seq<Vec<usize>>, added: Seq<Vec<usize>>, out: Seq<Vec<usize>>) -> bool {
    &&& out.len() == before.len() + added.len()
    &&& forall|j: int| 0 <= j < before.len() ==> (#[trigger] out[j])@ == before[j]@
    &&& forall|j: int|
        before.len() <= j < out.len() ==> (#[trigger] out[j])@ == added[j - before.len()]@
}

/// The sets that begin before position `first`, followed by the sets that
/// begin with the word at position `first`, are the sets that begin before
/// the position after it.
pub proof fn lemma_sets_of_next_first(
    bag: Bag,
    words: Seq<WordView>,
    k: nat,
    start: int,
    first: int,
    before: Seq<Vec<usize>>,
    added: Seq<Vec<usize>>,
    out: Seq<Vec<usize>>,
)
    requires
        k >= 1,
        0 <= start <= first,
        holds_sets_before(bag, words, k, start, first, before),
        holds_sets_with_first(bag, words, k, first, added),
        joined(before, added, out),
    ensures
        holds_sets_before(bag, words, k, start, first + 1, out),
{
    assert forall|j: int| 0 <= j < out.len() implies is_k_set(
        bag,
        words,
        k,
        start,
        (#[trigger] out[j])@,
    ) by {
        if j < before.len() {
            assert(is_k_set(bag, words, k, start, before[j]@));
        } else {
            assert(is_k_set(bag, words, k, first, added[j - before.len()]@));
        }
    }
    assert forall|j: int| 0 <= j < out.len() implies (#[trigger] out[j])@[0] < first + 1 by {
        if j < before.len() {
            assert(before[j]@[0] < first);
        } else {
            assert(added[j - before.len()]@[0] == first);
        }
    }
    assert forall|a: int, b: int| 0 <= a < b < out.len() implies precedes(
        (#[trigger] out[a])@,
        (#[trigger] out[b])@,
    ) by {
        if b < before.len() {
            assert(precedes(before[a]@, before[b]@));
        } else if a >= before.len() {
            assert(precedes(added[a - before.len()]@, added[b - before.len()]@));
        } else {
            assert(before[a]@[0] < first);
            assert(added[b - before.len()]@[0] == first);
            assert(is_k_set(bag, words, k, start, before[a]@));
            assert(is_k_set(bag, words, k, first, added[b - before.len()]@));
        }
    }
    assert forall|set: Seq<usize>| #[trigger]
        is_k_set(bag, words, k, start, set) && set[0] < first + 1 implies exists|j: int|
        0 <= j < out.len() && (#[trigger] out[j])@ == set by {
        if set[0] < first {
            let j = choose|j: int| 0 <= j < before.len() && (#[trigger] before[j])@ == set;
            assert(out[j]@ == set);
        } else {
            assert forall|a: int| 0 <= a < set.len() implies first <= #[trigger] set[a] by {
                if a > 0 {
                    assert(set[0] < set[a]);
                }
            }
            assert(is_k_set(bag, words, k, first, set));
            let j = choose|j: int| 0 <= j < added.len() && (#[trigger] added[j])@ == set;
            assert(out[before.len() + j]@ == set);
        }
    }
}

/// The sets of `k` candidate words that can lie on one board together, none
/// of the words standing before position `start` in the list, each set with
/// its positions in rising order. The sets are found in parallel, one branch
/// for each word that a set may begin with.
fn rising_sets_from(
    inventory: &LetterInventory,
    words: &Vec<CandidateWord>,
    k: usize,
    start: usize,
) -> (out: Vec<Vec<usize>>)
    ensures
        forall|j: int|
            0 <= j < out@.len() ==> is_k_set(
                inventory@,
                views(words@),
                k as nat,
                start as int,
                (#[trigger] out@[j])@,
            ),
        forall|set: Seq<usize>|
            #[trigger] is_k_set(inventory@, views(words@), k as nat, start as int, set) ==> exists|
                j: int,
            | 0 <= j < out@.len() && (#[trigger] out@[j])@ == set,
        in_order(out@),
    decreases k, 1nat,
{
    let ghost bag = inventory@;
    let ghost pool = views(words@);
    let mut out: Vec<Vec<usize>> = Vec::new();
    if k == 0 {
        out.push(Vec::new());
        proof {
            let none = out@[0]@;
            assert(picked(pool, none) =~= Seq::<WordView>::empty());
            lemma_no_wildcard_row(picked(pool, none));
            assert forall|set: Seq<usize>| #[trigger]
                is_k_set(bag, pool, 0, start as int, set) implies exists|j: int|
                0 <= j < out@.len() && (#[trigger] out@[j])@ == set by {
                assert(set =~= out@[0]@);
            }
        }
        return out;
    }
    let n = words.len();
    if start >= n {
        assert forall|set: Seq<usize>| #[trigger]
            is_k_set(bag, pool, k as nat, start as int, set) implies exists|j: int|
            0 <= j < out@.len() && (#[trigger] out@[j])@ == set by {
            assert(set[0] < pool.len());
        }
        return out;
    }
    let mut firsts: Vec<usize> = Vec::new();
    let mut i: usize = start;
    while i < n
        invariant
            start <= i <= n,
            firsts@.len() == i - start,
            forall|j: int| 0 <= j < i - start ==> #[trigger] firsts@[j] == start + j,
        decreases n - i,
    {
        firsts.push(i);
        i = i + 1;
    }
    let fixed = *inventory;
    let branch = |first: &usize| -> (sets: Vec<Vec<usize>>)
        requires
            k >= 1,
            *first < words@.len(),
        ensures
            holds_sets_with_first(fixed@, views(words@), k as nat, *first as int, sets@),
        { sets_with_first(&fixed, words, k, *first) };
    let found = par_map(&firsts, branch);
    let ghost batches = found@;
    assert forall|f: int| 0 <= f < n - start implies holds_sets_with_first(
        bag,
        pool,
        k as nat,
        start + f,
        (#[trigger] batches[f])@,
    ) by {
        assert(call_ensures(branch, (&firsts@[f],), batches[f]));
        assert(firsts@[f] == start + f);
    }
    let mut b: usize = 0;
    while b < n - start
        invariant
            0 <= b <= n - start,
            start < n,
            k >= 1,
            n == words@.len(),
            bag == inventory@,
            pool == views(words@),
            batches == found@,
            batches.len() == n - start,
            forall|f: int|
                0 <= f < n - start ==> holds_sets_with_first(
                    bag,
                    pool,
                    k as nat,
                    start + f,
                    (#[trigger] batches[f])@,
                ),
            holds_sets_before(bag, pool, k as nat, start as int, start + b, out@),
        decreases n - start - b,
    {
        let ghost before = out@;
        let ghost added = batches[b as int]@;
        assert(holds_sets_with_first(bag, pool, k as nat, start + b, added));
        append_copies(&mut out, &found[b]);
        proof {
            assert forall|j: int| 0 <= j < before.len() implies (#[trigger] out@[j])@
                == before[j]@ by {
                assert(out@[j] == before[j]);
            }
            lemma_sets_of_next_first(
                bag,
                pool,
                k as nat,
                start as int,
                start + b,
                before,
                added,
                out@,
            );
        }
        b = b + 1;
    }
    proof {
        assert forall|set: Seq<usize>| #[trigger]
            is_k_set(bag, pool, k as nat, start as int, set) implies exists|j: int|
            0 <= j < out@.len() && (#[trigger] out@[j])@ == set by {
            assert(set[0] < pool.len());
        }
    }
    out
}

/// The positions of `set` fall strictly and lie from `start` up to, but not
/// including, `end`: the greatest position stands first.
pub open spec fn falling_within(set: Seq<usize>, start: int, end: int) -> bool {
    &&& forall|i: int| 0 <= i < set.len() ==> start <= #[trigger] set[i] < end
    &&& forall|i: int, j: int| 0 <= i < j < set.len() ==> #[trigger] set[i] > #[trigger] set[j]
}

/// `set` names `k` of the candidate words, none before position `start`,
/// the word with the greatest position first, that can lie on one board
/// together.
pub open spec fn is_falling_k_set(
    bag: Bag,
    words: Seq<WordView>,
    k: nat,
    start: int,
    set: Seq<usize>,
) -> bool {
    &&& set.len() == k
    &&& falling_within(set, start, words.len() as int)
    &&& within_inventory(bag, picked(words, set))
}

/// A set with falling positions, read from the back, is a set with rising
/// positions, and the other way round.
pub proof fn lemma_falling_is_rising_reversed(
    bag: Bag,
    words: Seq<WordView>,
    k: nat,
    start: int,
    set: Seq<usize>,
)
    ensures
        is_falling_k_set(bag, words, k, start, set) <==> is_k_set(
            bag,
            words,
            k,
            start,
            set.reverse(),
        ),
        set.reverse().reverse() == set,
{
    let back = set.reverse();
    assert(back.reverse() =~= set);
    assert(picked(words, back) =~= picked(words, set).reverse());
    assert(picked(words, back).reverse() =~= picked(words, set));
    if within_inventory(bag, picked(words, set)) {
        lemma_within_inventory_reversed(bag, picked(words, set));
    }
    if within_inventory(bag, picked(words, back)) {
        lemma_within_inventory_reversed(bag, picked(words, back));
    }
    if is_falling_k_set(bag, words, k, start, set) {
        assert forall|i: int| 0 <= i < back.len() implies start <= #[trigger] back[i]
            < words.len() by {
            assert(back[i] == set[set.len() - 1 - i]);
        }
        assert forall|i: int, j: int| 0 <= i < j < back.len() implies #[trigger] back[i]
            < #[trigger] back[j] by {
            assert(back[i] == set[set.len() - 1 - i]);
            assert(back[j] == set[set.len() - 1 - j]);
        }
    }
    if is_k_set(bag, words, k, start, back) {
        assert forall|i: int| 0 <= i < set.len() implies start <= #[trigger] set[i]
            < words.len() by {
            assert(set[i] == back[set.len() - 1 - i]);
        }
        assert forall|i: int, j: int| 0 <= i < j < set.len() implies #[trigger] set[i]
            > #[trigger] set[j] by {
            assert(set[i] == back[set.len() - 1 - i]);
            assert(set[j] == back[set.len() - 1 - j]);
        }
    }
}

/// The positions of `set`, last first.
fn reversed(set: &Vec<usize>) -> (out: Vec<usize>)
    ensures
        out@ == set@.reverse(),
{
    let n = set.len();
    let mut out: Vec<usize> = Vec::new();
    let mut i: usize = 0;
    while i < n
        invariant
            0 <= i <= n,
            n == set@.len(),
            out@.len() == i,
            forall|j: int| 0 <= j < i ==> #[trigger] out@[j] == set@[n - 1 - j],
        decreases n - i,
    {
        out.push(set[n - 1 - i]);
        i = i + 1;
    }
    assert(out@ =~= set@.reverse());
    out
}

/// The sets of `k` candidate words that can lie on one board together, none
/// of the words standing before position `start` in the list. Each set is
/// given by the positions of its words in falling order: the word that was
/// chosen first, which has the smallest position, stands last. No such set
/// is left out, and the sets stand in the order of the words chosen first,
/// then of the words chosen second, and so on.
pub fn generate_k_sets_memo(
    inventory: &LetterInventory,
    words: &Vec<CandidateWord>,
    k: usize,
    start: usize,
) -> (out: Vec<Vec<usize>>)
    ensures
        forall|j: int|
            0 <= j < out@.len() ==> is_falling_k_set(
                inventory@,
                views(words@),
                k as nat,
                start as int,
                (#[trigger] out@[j])@,
            ),
        forall|set: Seq<usize>|
            #[trigger] is_falling_k_set(inventory@, views(words@), k as nat, start as int, set)
                ==> exists|j: int| 0 <= j < out@.len() && (#[trigger] out@[j])@ == set,
        forall|a: int, b: int|
            0 <= a < b < out@.len() ==> precedes(
                (#[trigger] out@[a])@.reverse(),
                (#[trigger] out@[b])@.reverse(),
            ),
{
    let ghost bag = inventory@;
    let ghost pool = views(words@);
    let rising = rising_sets_from(inventory, words, k, start);
    let mut out: Vec<Vec<usize>> = Vec::new();
    let mut j: usize = 0;
    while j < rising.len()
        invariant
            0 <= j <= rising@.len(),
            out@.len() == j,
            forall|q: int| 0 <= q < j ==> (#[trigger] out@[q])@ == rising@[q]@.reverse(),
        decreases rising@.len() - j,
    {
        out.push(reversed(&rising[j]));
        j = j + 1;
    }
    proof {
        assert forall|q: int| 0 <= q < out@.len() implies is_falling_k_set(
            bag,
            pool,
            k as nat,
            start as int,
            (#[trigger] out@[q])@,
        ) by {
            lemma_falling_is_rising_reversed(bag, pool, k as nat, start as int, out@[q]@);
            lemma_falling_is_rising_reversed(bag, pool, k as nat, start as int, rising@[q]@);
            assert(is_k_set(bag, pool, k as nat, start as int, rising@[q]@));
        }
        assert forall|set: Seq<usize>| #[trigger]
            is_falling_k_set(bag, pool, k as nat, start as int, set) implies exists|q: int|
            0 <= q < out@.len() && (#[trigger] out@[q])@ == set by {
            lemma_falling_is_rising_reversed(bag, pool, k as nat, start as int, set);
            assert(is_k_set(bag, pool, k as nat, start as int, set.reverse()));
            let q = choose|q: int| 0 <= q < rising@.len() && (#[trigger] rising@[q])@ == set.reverse();
            assert(out@[q]@ == rising@[q]@.reverse());
        }
        assert forall|a: int, b: int| 0 <= a < b < out@.len() implies precedes(
            (#[trigger] out@[a])@.reverse(),
            (#[trigger] out@[b])@.reverse(),
        ) by {
            lemma_falling_is_rising_reversed(bag, pool, k as nat, start as int, rising@[a]@);
            lemma_falling_is_rising_reversed(bag, pool, k as nat, start as int, rising@[b]@);
            assert(precedes(rising@[a]@, rising@[b]@));
        }
    }
    out
}

/// The sets of `k` candidate words that can lie on one board together, each
/// set given by the positions of its words in rising order. The sets are
/// found in parallel, one branch for each word that a set may begin with,
/// and come out in the order of their first words, then of their second
/// words, and so on. No such set is left out.
pub fn generate_k_sets(inventory: &LetterInventory, words: &Vec<CandidateWord>, k: usize) -> (out:
    Vec<Vec<usize>>)
    ensures
        forall|j: int|
            0 <= j < out@.len() ==> is_k_set(
                inventory@,
                views(words@),
                k as nat,
                0,
                (#[trigger] out@[j])@,
            ),
        forall|set: Seq<usize>|
            #[trigger] is_k_set(inventory@, views(words@), k as nat, 0, set) ==> exists|j: int|
                0 <= j < out@.len() && (#[trigger] out@[j])@ == set,
        in_order(out@),
{
    rising_sets_from(inventory, words, k, 0)
}

/// Appends a copy of every set of `batch` to `out`.
fn append_copies(out: &mut Vec<Vec<usize>>, batch: &Vec<Vec<usize>>)
    ensures
        final(out)@.len() == old(out)@.len() + batch@.len(),
        forall|j: int| 0 <= j < old(out)@.len() ==> #[trigger] final(out)@[j] == old(out)@[j],
        forall|j: int|
            old(out)@.len() <= j < final(out)@.len() ==> (#[trigger] final(out)@[j])@ == batch@[j
                - old(out)@.len()]@,
{
    let ghost start = out@;
    let mut t: usize = 0;
    while t < batch.len()
        invariant
            0 <= t <= batch@.len(),
            out@.len() == start.len() + t,
            forall|j: int| 0 <= j < start.len() ==> #[trigger] out@[j] == start[j],
            forall|j: int|
                start.len() <= j < start.len() + t ==> (#[trigger] out@[j])@ == batch@[j
                    - start.len()]@,
        decreases batch@.len() - t,
    {
        let source = &batch[t];
        let mut copy: Vec<usize> = Vec::new();
        let mut i: usize = 0;
        while i < source.len()
            invariant
                0 <= i <= source@.len(),
                copy@ == source@.take(i as int),
            decreases source@.len() - i,
        {
            copy.push(source[i]);
            assert(copy@ =~= source@.take(i as int + 1));
            i = i + 1;
        }
        assert(source@.take(source@.len() as int) =~= source@);
        out.push(copy);
        t = t + 1;
    }
}

} // verus!
