//! The search for the best board: the boards of the generator are scored
//! and the best is kept, for one bonus word or for many in parallel.

use crate::board::Board;
use crate::config::{ConfigError, GameConfig, BONUS_CELLS, ROW_CELLS};
use crate::parallel::par_map;
use crate::score::{board_score, bonus_cells_inside, score_board};
use crate::search::{
    all_boards, board_views, bonus_fault, feasible, generate_boards_from_bonus,
    lemma_all_boards_exactly_feasible, lemma_feasible_is_board, reaches_bonus_cell,
    reaches_bonus_cells, target_of, words_reach_bonus_cells,
};
use crate::words::{
    admissible_words, admitted, lemma_with_length_has_length, views, with_length, words_of_length,
    CandidateWord, WordView,
};
use vstd::prelude::*;

verus! {

/// A complete board with its score.
#[derive(Clone, Debug, PartialEq, Eq)]
pub struct ScoredBoard {
    /// The board.
    pub board: Board,
    /// The score of the board.
    pub score: u64,
}

/// The scores of `boards`, in the same order.
pub open spec fn scores_of(config: GameConfig, boards: Seq<Seq<WordView>>, with_bonus: bool) -> Seq<
    nat,
> {
    Seq::new(boards.len(), |j: int| board_score(config, boards[j], with_bonus))
}

/// The value at `i` is the greatest of `values`, and no value before it is
/// as great: a later value takes the lead only if it is strictly greater.
pub open spec fn leads(values: Seq<nat>, i: int) -> bool {
    &&& 0 <= i < values.len()
    &&& forall|j: int| 0 <= j < values.len() ==> #[trigger] values[j] <= values[i]
    &&& forall|j: int| 0 <= j < i ==> #[trigger] values[j] < values[i]
}

/// The `j`-th of `boards` has every bonus cell on a letter.
pub open spec fn bonus_inside_at(config: GameConfig, boards: Seq<Board>, j: int) -> bool {
    bonus_cells_inside(config, boards[j]@)
}

/// Scores every board and returns the one with the greatest score, and of
/// several with that score the first. An empty sequence gives `None`.
///
/// A board on which a bonus cell lies behind the end of a word is an error
/// of the configuration, with or without `with_bonus`.
pub fn best_of(config: &GameConfig, boards: &Vec<Board>, with_bonus: bool) -> (out: Result<
    Option<ScoredBoard>,
    ConfigError,
>)
    requires
        config.bonus.wf(),
        forall|j: int| 0 <= j < boards@.len() ==> (#[trigger] boards@[j]).wf(),
    ensures
        out is Ok <==> forall|j: int|
            0 <= j < boards@.len() ==> #[trigger] bonus_inside_at(*config, boards@, j),
        out matches Err(e) ==> e == ConfigError::BonusCellOutsideWord,
        out matches Ok(found) ==> (found is None <==> boards@.len() == 0),
        out matches Ok(Some(best)) ==> exists|i: int|
            leads(scores_of(*config, board_views(boards@), with_bonus), i) && best.board@ == (
            #[trigger] boards@[i])@ && best.score == board_score(
                *config,
                boards@[i]@,
                with_bonus,
            ),
{
    let ghost scores = scores_of(*config, board_views(boards@), with_bonus);
    let mut lead: usize = 0;
    let mut lead_score: u64 = 0;
    let mut j: usize = 0;
    while j < boards.len()
        invariant
            0 <= j <= boards@.len(),
            config.bonus.wf(),
            scores == scores_of(*config, board_views(boards@), with_bonus),
            forall|k: int| 0 <= k < boards@.len() ==> (#[trigger] boards@[k]).wf(),
            forall|k: int| 0 <= k < j ==> #[trigger] bonus_inside_at(*config, boards@, k),
            j > 0 ==> leads(scores.take(j as int), lead as int) && lead_score == scores[lead as int],
        decreases boards@.len() - j,
    {
        let score = match score_board(config, &boards[j], with_bonus) {
            Ok(score) => score,
            Err(e) => {
                assert(!bonus_inside_at(*config, boards@, j as int));
                return Err(e);
            },
        };
        assert(bonus_inside_at(*config, boards@, j as int));
        assert(score == scores[j as int]);
        proof {
            let now = scores.take(j as int + 1);
            let was = scores.take(j as int);
            assert(forall|k: int| 0 <= k < j ==> now[k] == was[k]);
            assert(now[j as int] == score);
        }
        if j == 0 || score > lead_score {
            lead = j;
            lead_score = score;
        }
        j = j + 1;
    }
    if boards.len() == 0 {
        return Ok(None);
    }
    assert(scores.take(boards@.len() as int) =~= scores);
    Ok(Some(ScoredBoard { board: boards[lead].duplicate(), score: lead_score }))
}

/// What the search for one bonus word, or for none, has to return: `None`
/// where no board can be made, else a board that can be made, with its
/// score, which no board that can be made exceeds.
pub open spec fn best_outcome(
    config: GameConfig,
    target: Option<Seq<char>>,
    words: Seq<WordView>,
    out: Option<ScoredBoard>,
) -> bool {
    match out {
        None => forall|rows: Seq<WordView>| !feasible(config, target, words, rows),
        Some(best) => {
            &&& best.board.wf()
            &&& feasible(config, target, words, best.board@)
            &&& best.score == board_score(config, best.board@, target is Some)
            &&& forall|rows: Seq<WordView>| #[trigger]
                feasible(config, target, words, rows) ==> board_score(
                    config,
                    rows,
                    target is Some,
                ) <= best.score
        },
    }
}

/// What the search for one bonus word, or for none, returns: `None` where
/// the generator has no board, else the first of the generator's boards
/// whose score no other of them exceeds, with that score.
pub open spec fn first_best(
    config: GameConfig,
    target: Option<Seq<char>>,
    words: Seq<WordView>,
    out: Option<ScoredBoard>,
) -> bool {
    match out {
        None => all_boards(config, target, words).len() == 0,
        Some(best) => {
            &&& best.board.wf()
            &&& exists|i: int|
                leads(scores_of(config, all_boards(config, target, words), target is Some), i)
                    && #[trigger] all_boards(config, target, words)[i] == best.board@
            &&& best.score == board_score(config, best.board@, target is Some)
        },
    }
}

/// The first of the greatest values is one value only.
pub proof fn lemma_leader_unique(values: Seq<nat>, i: int, j: int)
    requires
        leads(values, i),
        leads(values, j),
    ensures
        i == j,
{
    if i < j {
        assert(values[i] < values[j]);
        assert(values[j] <= values[i]);
    } else if j < i {
        assert(values[j] < values[i]);
        assert(values[i] <= values[j]);
    }
}

/// The first best board of the generator is a best board: it can be made,
/// and no board that can be made has a greater score.
pub proof fn lemma_first_best_is_best(
    config: GameConfig,
    target: Option<Seq<char>>,
    words: Seq<WordView>,
    out: Option<ScoredBoard>,
)
    requires
        first_best(config, target, words, out),
    ensures
        best_outcome(config, target, words, out),
{
    let boards = all_boards(config, target, words);
    let scores = scores_of(config, boards, target is Some);
    lemma_all_boards_exactly_feasible(config, target, words);
    match out {
        None => {
            assert forall|rows: Seq<WordView>| !feasible(config, target, words, rows) by {
                if feasible(config, target, words, rows) {
                    let j = choose|j: int| 0 <= j < boards.len() && #[trigger] boards[j] == rows;
                }
            }
        },
        Some(best) => {
            let i = choose|i: int| leads(scores, i) && #[trigger] boards[i] == best.board@;
            assert(feasible(config, target, words, boards[i]));
            assert forall|rows: Seq<WordView>| #[trigger]
                feasible(config, target, words, rows) implies board_score(
                config,
                rows,
                target is Some,
            ) <= best.score by {
                let j = choose|j: int| 0 <= j < boards.len() && #[trigger] boards[j] == rows;
                assert(scores[j] <= scores[i]);
            }
        },
    }
}

/// Two runs of the search on the same configuration, bonus word and
/// candidate words return the same: the same board with the same score, or
/// no board both times.
pub proof fn lemma_first_best_unique(
    config: GameConfig,
    target: Option<Seq<char>>,
    words: Seq<WordView>,
    first: Option<ScoredBoard>,
    second: Option<ScoredBoard>,
)
    requires
        first_best(config, target, words, first),
        first_best(config, target, words, second),
    ensures
        first is Some <==> second is Some,
        first is Some ==> first->0.board@ == second->0.board@ && first->0.score
            == second->0.score,
{
    let boards = all_boards(config, target, words);
    let scores = scores_of(config, boards, target is Some);
    if first is Some && second is Some {
        let i = choose|i: int| leads(scores, i) && #[trigger] boards[i] == first->0.board@;
        let j = choose|j: int| leads(scores, j) && #[trigger] boards[j] == second->0.board@;
        lemma_leader_unique(scores, i, j);
    } else if first is Some {
        let i = choose|i: int| leads(scores, i) && #[trigger] boards[i] == first->0.board@;
    } else if second is Some {
        let j = choose|j: int| leads(scores, j) && #[trigger] boards[j] == second->0.board@;
    }
}

/// The best board that can be made of `words` for one bonus word, or
/// without the bonus rule where `bonus_word` is `None`. The boards of the
/// generator are scored one by one, with the bonus word's score where there
/// is a bonus word, and a board replaces the best so far only if its score
/// is strictly greater: of several boards with the greatest score the first
/// is returned.
///
/// A bonus word that has no letter for one of the bonus cells, or a
/// candidate word that ends before the column of a bonus cell, is an error
/// of the configuration.
pub fn best_board(
    config: &GameConfig,
    bonus_word: Option<&CandidateWord>,
    words: &Vec<CandidateWord>,
) -> (out: Result<Option<ScoredBoard>, ConfigError>)
    requires
        config.bonus.wf(),
    ensures
        out is Err <==> bonus_fault(*config, target_of(bonus_word), views(words@), 0),
        out matches Err(e) ==> e == ConfigError::BonusCellOutsideWord,
        out matches Ok(found) ==> first_best(*config, target_of(bonus_word), views(words@), found)
            && best_outcome(*config, target_of(bonus_word), views(words@), found),
{
    let ghost target = target_of(bonus_word);
    let ghost pool = views(words@);
    let with_bonus = bonus_word.is_some();
    let boards = match generate_boards_from_bonus(config, bonus_word, words) {
        Ok(boards) => boards,
        Err(e) => {
            return Err(e);
        },
    };
    let ghost listed = all_boards(*config, target, pool);
    proof {
        lemma_all_boards_exactly_feasible(*config, target, pool);
        assert forall|j: int| 0 <= j < boards@.len() implies #[trigger] bonus_inside_at(
            *config,
            boards@,
            j,
        ) by {
            assert(board_views(boards@)[j] == boards@[j]@);
            assert(feasible(*config, target, pool, listed[j]));
            lemma_feasible_is_board(*config, target, pool, boards@[j]@);
        }
    }
    let out = match best_of(config, &boards, with_bonus) {
        Ok(Some(best)) => {
            proof {
                let scores = scores_of(*config, listed, with_bonus);
                let i = choose|i: int|
                    leads(scores, i) && best.board@ == (#[trigger] boards@[i])@ && best.score
                        == board_score(*config, boards@[i]@, with_bonus);
                assert(boards@[i].wf());
                assert(board_views(boards@)[i] == boards@[i]@);
                assert(leads(scores, i) && listed[i] == best.board@);
            }
            Some(best)
        },
        Ok(None) => None,
        Err(_) => {
            assert(false);
            None
        },
    };
    proof {
        lemma_first_best_is_best(*config, target, pool, out);
    }
    Ok(out)
}

/// The score of the `j`-th candidate, if there is a board at that position.
pub open spec fn score_at(candidates: Seq<Option<ScoredBoard>>, j: int) -> Option<nat> {
    match candidates[j] {
        Some(c) => Some(c.score as nat),
        None => None,
    }
}

/// The candidate at `i` is a board whose score is the greatest of all
/// candidates, and no candidate before it has a score as great.
pub open spec fn leads_among(candidates: Seq<Option<ScoredBoard>>, i: int) -> bool {
    &&& 0 <= i < candidates.len()
    &&& candidates[i] is Some
    &&& forall|j: int|
        0 <= j < candidates.len() && (#[trigger] score_at(candidates, j)) is Some ==> score_at(
            candidates,
            j,
        )->0 <= score_at(candidates, i)->0
    &&& forall|j: int|
        0 <= j < i && (#[trigger] score_at(candidates, j)) is Some ==> score_at(candidates, j)->0
            < score_at(candidates, i)->0
}

/// The final reduction: of the boards that the branches of a search have
/// found, the one with the greatest score, and of several with that score
/// the first. `None` where no branch has found a board.
pub fn pick_best(candidates: &Vec<Option<ScoredBoard>>) -> (out: Option<ScoredBoard>)
    ensures
        out is None <==> forall|j: int|
            0 <= j < candidates@.len() ==> (#[trigger] score_at(candidates@, j)) is None,
        out matches Some(best) ==> exists|i: int|
            #![trigger candidates@[i]]
            leads_among(candidates@, i) && best.board@ == candidates@[i]->0.board@ && best.score
                == candidates@[i]->0.score,
{
    let mut lead: Option<usize> = None;
    let mut lead_score: u64 = 0;
    let mut j: usize = 0;
    while j < candidates.len()
        invariant
            0 <= j <= candidates@.len(),
            lead is None ==> forall|k: int|
                0 <= k < j ==> (#[trigger] score_at(candidates@, k)) is None,
            lead matches Some(i) ==> leads_among(candidates@.take(j as int), i as int)
                && lead_score == candidates@[i as int]->0.score,
        decreases candidates@.len() - j,
    {
        let ghost was_lead = lead;
        match &candidates[j] {
            Some(candidate) => {
                let take = match lead {
                    Some(_) => candidate.score > lead_score,
                    None => true,
                };
                if take {
                    lead = Some(j);
                    lead_score = candidate.score;
                }
            },
            None => {},
        }
        proof {
            let now = candidates@.take(j as int + 1);
            let was = candidates@.take(j as int);
            assert forall|k: int| 0 <= k < j implies #[trigger] score_at(now, k) == score_at(
                was,
                k,
            ) && score_at(now, k) == score_at(candidates@, k) by {
                assert(now[k] == was[k]);
            }
            assert(score_at(now, j as int) == score_at(candidates@, j as int));
            if lead is Some {
                let i = lead->0 as int;
                assert(now[i] == candidates@[i]);
                if was_lead is Some {
                    let h = was_lead->0 as int;
                    assert(leads_among(was, h));
                    assert(score_at(was, h) == score_at(now, h));
                    assert(now[h] == was[h]);
                }
                assert forall|k: int|
                    0 <= k < now.len() && (#[trigger] score_at(now, k)) is Some implies score_at(
                    now,
                    k,
                )->0 <= score_at(now, i)->0 by {
                    if k < j {
                        assert(score_at(was, k) == score_at(now, k));
                    }
                }
                assert forall|k: int|
                    0 <= k < i && (#[trigger] score_at(now, k)) is Some implies score_at(now, k)->0
                    < score_at(now, i)->0 by {
                    assert(score_at(was, k) == score_at(now, k));
                }
            } else {
                assert forall|k: int| 0 <= k < j + 1 implies (#[trigger] score_at(
                    candidates@,
                    k,
                )) is None by {}
            }
        }
        j = j + 1;
    }
    assert(candidates@.take(candidates@.len() as int) =~= candidates@);
    match lead {
        Some(i) => {
            match &candidates[i] {
                Some(best) => Some(
                    ScoredBoard { board: best.board.duplicate(), score: best.score },
                ),
                None => None,
            }
        },
        None => None,
    }
}

/// What the search over several bonus words has to return: `None` where no
/// board can be made for any of them, else a board that can be made for one
/// of them, with its score, which no board that can be made for any of them
/// exceeds.
pub open spec fn best_outcome_over(
    config: GameConfig,
    bonus_words: Seq<WordView>,
    words: Seq<WordView>,
    out: Option<ScoredBoard>,
) -> bool {
    match out {
        None => forall|k: int, rows: Seq<WordView>|
            0 <= k < bonus_words.len() ==> !#[trigger] feasible(
                config,
                Some(bonus_words[k].letters),
                words,
                rows,
            ),
        Some(best) => {
            &&& best.board.wf()
            &&& exists|k: int|
                0 <= k < bonus_words.len() && #[trigger] feasible(
                    config,
                    Some(bonus_words[k].letters),
                    words,
                    best.board@,
                )
            &&& best.score == board_score(config, best.board@, true)
            &&& forall|k: int, rows: Seq<WordView>|
                0 <= k < bonus_words.len() && #[trigger] feasible(
                    config,
                    Some(bonus_words[k].letters),
                    words,
                    rows,
                ) ==> board_score(config, rows, true) <= best.score
        },
    }
}

/// `found` holds, for each bonus word in turn, what the search for that
/// bonus word returns.
pub open spec fn branch_results(
    config: GameConfig,
    bonus_words: Seq<WordView>,
    words: Seq<WordView>,
    found: Seq<Option<ScoredBoard>>,
) -> bool {
    &&& found.len() == bonus_words.len()
    &&& forall|k: int|
        0 <= k < found.len() ==> first_best(
            config,
            Some(bonus_words[k].letters),
            words,
            #[trigger] found[k],
        )
}

/// `out` is the first of the greatest among `found`: `None` where no branch
/// has found a board, else the board and the score of the first branch
/// whose score no other branch exceeds.
pub open spec fn first_of_greatest(found: Seq<Option<ScoredBoard>>, out: Option<ScoredBoard>) -> bool {
    match out {
        None => forall|j: int| 0 <= j < found.len() ==> (#[trigger] score_at(found, j)) is None,
        Some(best) => exists|i: int|
            #![trigger found[i]]
            leads_among(found, i) && best.board@ == found[i]->0.board@ && best.score
                == found[i]->0.score,
    }
}

/// What the search over several bonus words returns: the searches for the
/// single bonus words, reduced to the first of the greatest.
pub open spec fn first_best_over(
    config: GameConfig,
    bonus_words: Seq<WordView>,
    words: Seq<WordView>,
    out: Option<ScoredBoard>,
) -> bool {
    exists|found: Seq<Option<ScoredBoard>>| #[trigger]
        branch_results(config, bonus_words, words, found) && first_of_greatest(found, out)
}

/// The words do not go with the bonus cells for the `k`-th bonus word.
pub open spec fn branch_fault(
    config: GameConfig,
    bonus_words: Seq<WordView>,
    words: Seq<WordView>,
    k: int,
) -> bool {
    bonus_fault(config, Some(bonus_words[k].letters), words, 0)
}

/// The words do not go with the bonus cells for one of the bonus words.
pub open spec fn some_branch_fault(
    config: GameConfig,
    bonus_words: Seq<WordView>,
    words: Seq<WordView>,
) -> bool {
    exists|k: int| 0 <= k < bonus_words.len() && #[trigger] branch_fault(config, bonus_words, words, k)
}

/// The searches for the single bonus words. Each bonus word is a branch of
/// its own and the branches run in parallel. The result holds, for each
/// bonus word in turn, the best board of its branch, or `None` where the
/// branch has no board.
///
/// A bonus word that has no letter for one of the bonus cells, or a
/// candidate word that ends before the column of a bonus cell, is an error
/// of the configuration.
pub fn best_per_bonus_word(
    config: &GameConfig,
    bonus_words: &Vec<CandidateWord>,
    words: &Vec<CandidateWord>,
) -> (out: Result<Vec<Option<ScoredBoard>>, ConfigError>)
    requires
        config.bonus.wf(),
    ensures
        out is Err <==> some_branch_fault(*config, views(bonus_words@), views(words@)),
        out matches Err(e) ==> e == ConfigError::BonusCellOutsideWord,
        out matches Ok(found) ==> branch_results(
            *config,
            views(bonus_words@),
            views(words@),
            found@,
        ),
{
    let fixed = *config;
    let ghost pool = views(words@);
    let ghost targets = views(bonus_words@);
    let branch = |bonus_word: &CandidateWord| -> (found: Result<Option<ScoredBoard>, ConfigError>)
        requires
            fixed.bonus.wf(),
        ensures
            found is Err <==> bonus_fault(fixed, Some(bonus_word@.letters), views(words@), 0),
            found matches Err(e) ==> e == ConfigError::BonusCellOutsideWord,
            found matches Ok(best) ==> first_best(
                fixed,
                Some(bonus_word@.letters),
                views(words@),
                best,
            ),
        { best_board(&fixed, Some(bonus_word), words) };
    let results = par_map(bonus_words, branch);
    proof {
        assert forall|k: int| 0 <= k < targets.len() implies ((#[trigger] results@[k]) is Err
            <==> branch_fault(fixed, targets, pool, k)) && (results@[k] matches Err(e) ==> e
            == ConfigError::BonusCellOutsideWord) && (results@[k] matches Ok(best) ==> first_best(
            fixed,
            Some(targets[k].letters),
            pool,
            best,
        )) by {
            assert(call_ensures(branch, (&bonus_words@[k],), results@[k]));
        }
    }
    let mut found: Vec<Option<ScoredBoard>> = Vec::new();
    let mut k: usize = 0;
    while k < results.len()
        invariant
            0 <= k <= results@.len(),
            results@.len() == targets.len(),
            fixed == *config,
            pool == views(words@),
            targets == views(bonus_words@),
            found@.len() == k,
            forall|j: int|
                0 <= j < targets.len() ==> ((#[trigger] results@[j]) is Err <==> branch_fault(
                    fixed,
                    targets,
                    pool,
                    j,
                )),
            forall|j: int|
                0 <= j < targets.len() ==> ((#[trigger] results@[j]) matches Err(e) ==> e
                    == ConfigError::BonusCellOutsideWord),
            forall|j: int|
                0 <= j < targets.len() ==> ((#[trigger] results@[j]) matches Ok(best)
                    ==> first_best(fixed, Some(targets[j].letters), pool, best)),
            forall|j: int| 0 <= j < k ==> !#[trigger] branch_fault(fixed, targets, pool, j),
            forall|j: int|
                0 <= j < k ==> first_best(
                    fixed,
                    Some(targets[j].letters),
                    pool,
                    #[trigger] found@[j],
                ),
        decreases results@.len() - k,
    {
        match &results[k] {
            Ok(Some(best)) => {
                let copy = ScoredBoard { board: best.board.duplicate(), score: best.score };
                assert(first_best(fixed, Some(targets[k as int].letters), pool, Some(copy))) by {
                    let boards = all_boards(fixed, Some(targets[k as int].letters), pool);
                    let i = choose|i: int|
                        leads(scores_of(fixed, boards, true), i) && #[trigger] boards[i]
                            == best.board@;
                    assert(boards[i] == copy.board@);
                }
                found.push(Some(copy));
            },
            Ok(None) => {
                found.push(None);
            },
            Err(e) => {
                assert(branch_fault(fixed, targets, pool, k as int));
                return Err(*e);
            },
        }
        assert(!branch_fault(fixed, targets, pool, k as int));
        k = k + 1;
    }
    Ok(found)
}

/// The search over several bonus words. Each bonus word is a branch of its
/// own, the branches run in parallel, and the best boards of the branches
/// are reduced to one: the first with the greatest score.
///
/// A bonus word that has no letter for one of the bonus cells, or, where
/// there is a bonus word, a candidate word that ends before the column of a
/// bonus cell, is an error of the configuration.
pub fn best_over_bonus_words(
    config: &GameConfig,
    bonus_words: &Vec<CandidateWord>,
    words: &Vec<CandidateWord>,
) -> (out: Result<Option<ScoredBoard>, ConfigError>)
    requires
        config.bonus.wf(),
    ensures
        out is Err <==> some_branch_fault(*config, views(bonus_words@), views(words@)),
        out matches Err(e) ==> e == ConfigError::BonusCellOutsideWord,
        out matches Ok(best) ==> first_best_over(*config, views(bonus_words@), views(words@), best)
            && best_outcome_over(*config, views(bonus_words@), views(words@), best),
{
    let found = match best_per_bonus_word(config, bonus_words, words) {
        Ok(found) => found,
        Err(e) => {
            return Err(e);
        },
    };
    let out = pick_best(&found);
    proof {
        let fixed = *config;
        let pool = views(words@);
        let targets = views(bonus_words@);
        assert(first_of_greatest(found@, out));
        lemma_first_best_over_is_best(fixed, targets, pool, found@, out);
    }
    Ok(out)
}

/// The first of the greatest among the results of the branches is a best
/// board over all branches.
pub proof fn lemma_first_best_over_is_best(
    config: GameConfig,
    bonus_words: Seq<WordView>,
    words: Seq<WordView>,
    found: Seq<Option<ScoredBoard>>,
    out: Option<ScoredBoard>,
)
    requires
        branch_results(config, bonus_words, words, found),
        first_of_greatest(found, out),
    ensures
        first_best_over(config, bonus_words, words, out),
        best_outcome_over(config, bonus_words, words, out),
{
    assert forall|k: int| 0 <= k < bonus_words.len() implies best_outcome(
        config,
        Some((#[trigger] bonus_words[k]).letters),
        words,
        found[k],
    ) by {
        assert(first_best(config, Some(bonus_words[k].letters), words, found[k]));
        lemma_first_best_is_best(config, Some(bonus_words[k].letters), words, found[k]);
    }
    if out is Some {
        let best = out->0;
        let i = choose|i: int|
            #![trigger found[i]]
            leads_among(found, i) && best.board@ == found[i]->0.board@ && best.score
                == found[i]->0.score;
        let winner = found[i]->0;
        assert(best_outcome(config, Some(bonus_words[i].letters), words, found[i]));
        assert(winner.board.wf());
        assert(feasible(config, Some(bonus_words[i].letters), words, best.board@));
        assert forall|k: int, rows: Seq<WordView>|
            0 <= k < bonus_words.len() && #[trigger] feasible(
                config,
                Some(bonus_words[k].letters),
                words,
                rows,
            ) implies board_score(config, rows, true) <= best.score by {
            assert(best_outcome(config, Some(bonus_words[k].letters), words, found[k]));
            assert(found[k] is Some);
            assert(score_at(found, k) is Some);
            assert(board_score(config, rows, true) <= found[k]->0.score);
        }
    } else {
        assert forall|k: int, rows: Seq<WordView>| 0 <= k < bonus_words.len() implies !#[trigger] feasible(
            config,
            Some(bonus_words[k].letters),
            words,
            rows,
        ) by {
            assert(best_outcome(config, Some(bonus_words[k].letters), words, found[k]));
            assert(score_at(found, k) is None);
        }
    }
}

/// The whole search, from a dictionary to the best board. The words of the
/// dictionary that the inventory can spell are the candidates: those of five
/// letters for the rows and, with `with_bonus`, those of four letters as
/// bonus words, each of which is tried. Without `with_bonus` the bonus cells
/// are free and the bonus word does not count.
pub fn find_best_board(config: &GameConfig, dictionary: &Vec<String>, with_bonus: bool) -> (out:
    Option<ScoredBoard>)
    requires
        config.bonus.wf(),
    ensures
        with_bonus ==> first_best_over(
            *config,
            with_length(admitted(config.inventory@, dictionary@), BONUS_CELLS as nat),
            with_length(admitted(config.inventory@, dictionary@), ROW_CELLS as nat),
            out,
        ),
        with_bonus ==> best_outcome_over(
            *config,
            with_length(admitted(config.inventory@, dictionary@), BONUS_CELLS as nat),
            with_length(admitted(config.inventory@, dictionary@), ROW_CELLS as nat),
            out,
        ),
        !with_bonus ==> first_best(
            *config,
            None,
            with_length(admitted(config.inventory@, dictionary@), ROW_CELLS as nat),
            out,
        ),
        !with_bonus ==> best_outcome(
            *config,
            None,
            with_length(admitted(config.inventory@, dictionary@), ROW_CELLS as nat),
            out,
        ),
{
    let candidates = admissible_words(&config.inventory, dictionary);
    let row_words = words_of_length(&candidates, ROW_CELLS);
    let ghost pool = views(row_words@);
    proof {
        // words of five letters reach every column of the board
        assert forall|i: int| 0 <= i < pool.len() implies reaches_bonus_cells(
            *config,
            (#[trigger] pool[i]).letters,
            0,
        ) by {
            lemma_with_length_has_length(views(candidates@), ROW_CELLS as nat, i);
            assert forall|k: int| 0 <= k < BONUS_CELLS implies #[trigger] reaches_bonus_cell(
                *config,
                pool[i].letters,
                0,
                k,
            ) by {
                assert(config.bonus.on_board(k));
            }
        }
        assert(words_reach_bonus_cells(*config, pool, 0));
    }
    if with_bonus {
        let bonus_words = words_of_length(&candidates, BONUS_CELLS);
        proof {
            let targets = views(bonus_words@);
            assert forall|k: int| 0 <= k < targets.len() implies !#[trigger] branch_fault(
                *config,
                targets,
                pool,
                k,
            ) by {
                lemma_with_length_has_length(views(candidates@), BONUS_CELLS as nat, k);
            }
        }
        match best_over_bonus_words(config, &bonus_words, &row_words) {
            Ok(best) => best,
            Err(_) => {
                assert(false);
                None
            },
        }
    } else {
        match best_board(config, None, &row_words) {
            Ok(best) => best,
            Err(_) => {
                assert(false);
                None
            },
        }
    }
}

/// Two runs of the search on the same configuration, bonus word and
/// candidate words find a board or find none alike, and where they find one
/// the scores are the same; the boards may differ where the score is
/// reached by several.
pub proof fn lemma_best_outcome_same_score(
    config: GameConfig,
    target: Option<Seq<char>>,
    words: Seq<WordView>,
    first: Option<ScoredBoard>,
    second: Option<ScoredBoard>,
)
    requires
        best_outcome(config, target, words, first),
        best_outcome(config, target, words, second),
    ensures
        first is Some <==> second is Some,
        first is Some ==> first->0.score == second->0.score,
{
}

/// Two runs of the search over the same bonus words find a board or find
/// none alike, and where they find one the scores are the same.
pub proof fn lemma_best_outcome_over_same_score(
    config: GameConfig,
    bonus_words: Seq<WordView>,
    words: Seq<WordView>,
    first: Option<ScoredBoard>,
    second: Option<ScoredBoard>,
)
    requires
        best_outcome_over(config, bonus_words, words, first),
        best_outcome_over(config, bonus_words, words, second),
    ensures
        first is Some <==> second is Some,
        first is Some ==> first->0.score == second->0.score,
{
}

/// Two runs of the search over the same bonus words return the same: the
/// same board with the same score, or no board both times.
pub proof fn lemma_first_best_over_unique(
    config: GameConfig,
    bonus_words: Seq<WordView>,
    words: Seq<WordView>,
    first: Option<ScoredBoard>,
    second: Option<ScoredBoard>,
)
    requires
        first_best_over(config, bonus_words, words, first),
        first_best_over(config, bonus_words, words, second),
    ensures
        first is Some <==> second is Some,
        first is Some ==> first->0.board@ == second->0.board@ && first->0.score
            == second->0.score,
{
    let a = choose|found: Seq<Option<ScoredBoard>>| #[trigger]
        branch_results(config, bonus_words, words, found) && first_of_greatest(found, first);
    let b = choose|found: Seq<Option<ScoredBoard>>| #[trigger]
        branch_results(config, bonus_words, words, found) && first_of_greatest(found, second);
    assert forall|k: int| 0 <= k < a.len() implies (#[trigger] score_at(a, k)) == score_at(b, k) by {
        assert(first_best(config, Some(bonus_words[k].letters), words, a[k]));
        assert(first_best(config, Some(bonus_words[k].letters), words, b[k]));
        lemma_first_best_unique(config, Some(bonus_words[k].letters), words, a[k], b[k]);
    }
    if first is Some {
        let i = choose|i: int|
            #![trigger a[i]]
            leads_among(a, i) && first->0.board@ == a[i]->0.board@ && first->0.score
                == a[i]->0.score;
        assert(score_at(a, i) == score_at(b, i));
        assert(score_at(b, i) is Some);
        assert(second is Some);
    }
    if second is Some {
        let j = choose|j: int|
            #![trigger b[j]]
            leads_among(b, j) && second->0.board@ == b[j]->0.board@ && second->0.score
                == b[j]->0.score;
        assert(score_at(a, j) == score_at(b, j));
        assert(score_at(a, j) is Some);
        assert(first is Some);
        let i = choose|i: int|
            #![trigger a[i]]
            leads_among(a, i) && first->0.board@ == a[i]->0.board@ && first->0.score
                == a[i]->0.score;
        assert(score_at(a, i) == score_at(b, i));
        if i < j {
            assert(score_at(b, i)->0 < score_at(b, j)->0);
            assert(score_at(a, j)->0 <= score_at(a, i)->0);
        } else if j < i {
            assert(score_at(a, j)->0 < score_at(a, i)->0);
            assert(score_at(b, i)->0 <= score_at(b, j)->0);
        }
        assert(i == j);
        assert(first_best(config, Some(bonus_words[i].letters), words, a[i]));
        assert(first_best(config, Some(bonus_words[i].letters), words, b[i]));
        lemma_first_best_unique(config, Some(bonus_words[i].letters), words, a[i], b[i]);
    }
}

} // verus!
