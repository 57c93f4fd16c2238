use bongo_solver::board::Board;
use bongo_solver::config::{ConfigError, GameConfig};
use bongo_solver::letters::Letter;
use bongo_solver::score::score_board;
use bongo_solver::search::{
    bonus_cells_reached, bonus_permits, generate_boards_from_bonus, generate_boards_from_row,
    still_spellable,
};
use bongo_solver::solve::{
    best_board, best_of, best_over_bonus_words, best_per_bonus_word, find_best_board, pick_best,
    ScoredBoard,
};
use bongo_solver::words::{admissible_words, words_of_length, CandidateWord};

const GAME_SCHEMA: [[u16; 5]; 5] =
    [[1, 1, 1, 1, 1], [1, 1, 1, 1, 1], [1, 1, 1, 1, 1], [1, 2, 1, 3, 1], [1, 1, 1, 2, 1]];

const GAME_BONUS: [(usize, usize); 4] = [(0, 2), (1, 2), (2, 2), (3, 3)];

fn letters(table: &[(char, u32, u32)]) -> Vec<Letter> {
    table.iter().map(|&(ch, count, score)| Letter { ch, count, score }).collect()
}

fn words(texts: &[&str]) -> Vec<CandidateWord> {
    texts.iter().map(|t| CandidateWord::new(t, None)).collect()
}

fn texts(board: &Board) -> Vec<String> {
    board.rows.iter().map(|w| w.word.clone()).collect()
}

/// Places the rows one after the other as a player would, with a bag of
/// single tiles, and says which letter the wildcard covered in each row.
fn place_by_hand(config: &GameConfig, rows: &[&str]) -> Option<Vec<Option<char>>> {
    let mut bag: Vec<char> = Vec::new();
    for k in 0..26 {
        for _ in 0..config.inventory.tiles[k] {
            bag.push((b'A' + k as u8) as char);
        }
    }
    let mut wildcards = config.inventory.tiles[26];
    let mut used = false;
    let mut covered = Vec::new();
    for row in rows {
        let mut here = None;
        for c in row.chars() {
            if let Some(p) = bag.iter().position(|&x| x == c) {
                bag.remove(p);
            } else if !used && wildcards > 0 {
                wildcards -= 1;
                used = true;
                here = Some(c);
            } else {
                return None;
            }
        }
        covered.push(here);
    }
    Some(covered)
}

fn agrees_with_bonus(config: &GameConfig, bonus: Option<&str>, rows: &[&str]) -> bool {
    match bonus {
        None => true,
        Some(b) => config.bonus.cells.iter().enumerate().all(|(k, &(r, c))| {
            let have = rows[r].chars().nth(c);
            have.is_some() && have == b.chars().nth(k)
        }),
    }
}

/// Every board, by trying all tuples of five words.
fn all_boards_by_hand(config: &GameConfig, bonus: Option<&str>, pool: &[&str]) -> Vec<Board> {
    let n = pool.len();
    let mut out = Vec::new();
    for idx in 0..n.pow(5) {
        let pick = [
            pool[idx / (n * n * n * n) % n],
            pool[idx / (n * n * n) % n],
            pool[idx / (n * n) % n],
            pool[idx / n % n],
            pool[idx % n],
        ];
        if pick.iter().any(|w| w.chars().count() > 5) {
            continue;
        }
        if !agrees_with_bonus(config, bonus, &pick) {
            continue;
        }
        if let Some(covered) = place_by_hand(config, &pick) {
            let rows: Vec<CandidateWord> =
                pick.iter().zip(covered).map(|(w, c)| CandidateWord::new(w, c)).collect();
            out.push(Board::new(rows).unwrap());
        }
    }
    out
}

/// Whether the words do not go with the bonus cells: a bonus word without a
/// letter for each cell, or a word that ends before a bonus column.
fn at_fault(config: &GameConfig, bonus: Option<&str>, pool: &[&str]) -> bool {
    let short_bonus = bonus.map_or(false, |b| b.chars().count() < config.bonus.cells.len());
    let short_word = pool
        .iter()
        .any(|w| config.bonus.cells.iter().any(|&(_, c)| c >= w.chars().count()));
    short_bonus || short_word
}

fn check_against_hand_search(config: &GameConfig, bonus: Option<&str>, pool: &[&str]) -> usize {
    let candidates = words(pool);
    let bonus_word = bonus.map(|b| CandidateWord::new(b, None));
    let boards = generate_boards_from_bonus(config, bonus_word.as_ref(), &candidates);
    let best = best_board(config, bonus_word.as_ref(), &candidates);
    assert_eq!(bonus_cells_reached(config, bonus_word.as_ref(), &candidates, 0), boards.is_ok());
    if at_fault(config, bonus, pool) {
        assert_eq!(boards, Err(ConfigError::BonusCellOutsideWord));
        assert_eq!(best, Err(ConfigError::BonusCellOutsideWord));
        return 0;
    }
    let boards = boards.unwrap();
    let best = best.unwrap();
    let by_hand = all_boards_by_hand(config, bonus, pool);
    // the same boards in the same order, none twice
    assert_eq!(boards, by_hand);
    let mut expected: Option<(u64, &Board)> = None;
    for b in &by_hand {
        let s = score_board(config, b, bonus.is_some()).unwrap();
        if expected.map_or(true, |(e, _)| s > e) {
            expected = Some((s, b));
        }
    }
    match (best, expected) {
        (None, None) => {},
        (Some(found), Some((score, board))) => {
            assert_eq!(found.score, score);
            assert_eq!(&found.board, board);
        },
        (found, expected) => panic!("{:?} against {:?}", found, expected),
    }
    by_hand.len()
}

#[test]
fn five_words_that_share_no_letter() {
    let table = letters(&[('A', 5, 1), ('B', 5, 2), ('C', 5, 3), ('D', 5, 4), ('E', 5, 5)]);
    let schema = [[1; 5], [2; 5], [3; 5], [4; 5], [5; 5]];
    let config = GameConfig::new(&table, schema, GAME_BONUS).unwrap();
    let pool = ["CCCCC", "AAAAA", "EEEEE", "BBBBB", "DDDDD"];
    let boards = generate_boards_from_bonus(&config, None, &words(&pool)).unwrap();
    // each word once, in every order
    assert_eq!(boards.len(), 120);
    assert_eq!(texts(&boards[0]), ["CCCCC", "AAAAA", "EEEEE", "BBBBB", "DDDDD"]);
    assert_eq!(texts(&boards[1]), ["CCCCC", "AAAAA", "EEEEE", "DDDDD", "BBBBB"]);
    assert_eq!(texts(&boards[119]), ["DDDDD", "BBBBB", "EEEEE", "AAAAA", "CCCCC"]);
    let best = best_board(&config, None, &words(&pool)).unwrap().unwrap();
    assert_eq!(texts(&best.board), ["AAAAA", "BBBBB", "CCCCC", "DDDDD", "EEEEE"]);
    // ceil(6.5) + 26 + ceil(58.5) + 104 + ceil(162.5)
    assert_eq!(best.score, 7 + 26 + 59 + 104 + 163);
    assert_eq!(check_against_hand_search(&config, None, &pool), 120);
}

#[test]
fn no_board_without_enough_words() {
    let table = letters(&[('A', 5, 1), ('B', 5, 2), ('C', 5, 3), ('D', 5, 4), ('E', 5, 5)]);
    let config = GameConfig::new(&table, GAME_SCHEMA, GAME_BONUS).unwrap();
    let pool = ["AAAAA", "BBBBB", "CCCCC", "DDDDD"];
    assert!(generate_boards_from_bonus(&config, None, &words(&pool)).unwrap().is_empty());
    assert_eq!(best_board(&config, None, &words(&pool)), Ok(None));
    assert!(generate_boards_from_bonus(&config, None, &Vec::new()).unwrap().is_empty());
    assert_eq!(best_board(&config, None, &Vec::new()), Ok(None));
    let dictionary: Vec<String> = pool.iter().map(|w| w.to_string()).collect();
    assert_eq!(find_best_board(&config, &dictionary, false), None);
    assert_eq!(find_best_board(&config, &dictionary, true), None);
    assert_eq!(best_over_bonus_words(&config, &Vec::new(), &words(&pool)), Ok(None));
}

#[test]
fn the_wildcard_is_used_once_on_a_board() {
    // one tile short for each of two words
    let table = letters(&[('A', 24, 1), ('*', 1, 0)]);
    let config = GameConfig::new(&table, GAME_SCHEMA, GAME_BONUS).unwrap();
    let pool = ["AAAAA", "AAAAI", "AAAAO"];
    let boards = generate_boards_from_bonus(&config, None, &words(&pool)).unwrap();
    assert!(!boards.is_empty());
    for b in &boards {
        let with_i = b.rows.iter().filter(|w| w.word == "AAAAI").count();
        let with_o = b.rows.iter().filter(|w| w.word == "AAAAO").count();
        assert!(with_i + with_o <= 1);
        let marked: Vec<&CandidateWord> = b.rows.iter().filter(|w| w.wildcard.is_some()).collect();
        assert!(marked.len() <= 1);
    }
    // 24 A for 25 cells: a board of AAAAA alone needs the wildcard in the last row
    let plain = boards.iter().find(|b| b.rows.iter().all(|w| w.word == "AAAAA")).unwrap();
    assert_eq!(plain.rows[4].wildcard, Some('A'));
    assert!(plain.rows[..4].iter().all(|w| w.wildcard.is_none()));
    // a board with AAAAI uses the wildcard for I and has 24 A left for 24 cells
    let with_i = boards.iter().find(|b| b.rows[2].word == "AAAAI").unwrap();
    assert_eq!(with_i.rows[2].wildcard, Some('I'));
    // two wildcard tiles do not allow two wildcard letters
    let two = letters(&[('A', 24, 1), ('*', 2, 0)]);
    let config = GameConfig::new(&two, GAME_SCHEMA, GAME_BONUS).unwrap();
    for b in &generate_boards_from_bonus(&config, None, &words(&pool)).unwrap() {
        assert!(b.rows.iter().filter(|w| w.wildcard.is_some()).count() <= 1);
    }
    assert_eq!(check_against_hand_search(&config, None, &pool), 11);
}

#[test]
fn a_second_wildcard_word_makes_the_board_infeasible() {
    let table = letters(&[('A', 30, 1), ('*', 1, 0)]);
    let config = GameConfig::new(&table, GAME_SCHEMA, GAME_BONUS).unwrap();
    let pool = ["AAAAA", "AAAAI", "AAAAO"];
    let boards = generate_boards_from_bonus(&config, None, &words(&pool)).unwrap();
    // all plain, or one of the two wildcard words in one of the five rows
    assert_eq!(boards.len(), 1 + 2 * 5);
    for b in &boards {
        let i = b.rows.iter().filter(|w| w.word == "AAAAI").count();
        let o = b.rows.iter().filter(|w| w.word == "AAAAO").count();
        assert!(i + o <= 1);
        for w in &b.rows {
            let expected = match w.word.as_str() {
                "AAAAI" => Some('I'),
                "AAAAO" => Some('O'),
                _ => None,
            };
            assert_eq!(w.wildcard, expected);
        }
    }
    // the two wildcard words alone fill no board
    let two = words(&["AAAAI", "AAAAO"]);
    assert!(generate_boards_from_bonus(&config, None, &two).unwrap().is_empty());
    assert_eq!(best_board(&config, None, &two), Ok(None));
}

#[test]
fn boards_stay_within_the_inventory() {
    let table = letters(&[('A', 7, 1), ('B', 6, 2), ('C', 6, 3), ('D', 5, 4), ('*', 1, 0)]);
    let config = GameConfig::new(&table, GAME_SCHEMA, GAME_BONUS).unwrap();
    let pool = ["ABCDA", "BBCCD", "AACDD", "ABABC", "DCBAX", "CCCAB", "DDBAA"];
    let boards = generate_boards_from_bonus(&config, None, &words(&pool)).unwrap();
    assert!(!boards.is_empty());
    for b in &boards {
        let mut used = [0u32; 27];
        let mut spare = b.wildcard_letter();
        for w in &b.rows {
            for c in w.word.chars() {
                let slot = if c.is_ascii_uppercase() { (c as u8 - b'A') as usize } else { 26 };
                used[slot] += 1;
            }
        }
        if let Some(c) = spare.take() {
            let slot = if c.is_ascii_uppercase() { (c as u8 - b'A') as usize } else { 26 };
            assert!(used[slot] > 0);
            used[slot] -= 1;
            assert!(config.inventory.tiles[26] >= 1);
        }
        for k in 0..26 {
            assert!(used[k] <= config.inventory.tiles[k], "{:?}", texts(b));
        }
        assert_eq!(used[26], 0);
    }
    check_against_hand_search(&config, None, &pool);
}

#[test]
fn bonus_word_fixes_the_bonus_cells() {
    let table = letters(&[('A', 9, 1), ('B', 9, 2), ('C', 9, 3), ('D', 9, 4), ('*', 1, 0)]);
    let config = GameConfig::new(&table, GAME_SCHEMA, GAME_BONUS).unwrap();
    let pool = ["ABCDA", "BBCCD", "AACDD", "ABABC", "DCBAB", "CCCAB", "DDBAA"];
    let bonus = CandidateWord::new("CABA", None);
    let boards = generate_boards_from_bonus(&config, Some(&bonus), &words(&pool)).unwrap();
    assert!(!boards.is_empty());
    for b in &boards {
        assert_eq!(b.rows[0].letter(2), 'C');
        assert_eq!(b.rows[1].letter(2), 'A');
        assert_eq!(b.rows[2].letter(2), 'B');
        assert_eq!(b.rows[3].letter(3), 'A');
    }
    let n = check_against_hand_search(&config, Some("CABA"), &pool);
    assert_eq!(n, boards.len());
    assert!(n < check_against_hand_search(&config, None, &pool));
    // a bonus word that no row can hold
    let none = CandidateWord::new("XXXX", None);
    assert!(generate_boards_from_bonus(&config, Some(&none), &words(&pool)).unwrap().is_empty());
    // a bonus word that is longer than the bonus cells: the letters behind count for nothing
    let long = CandidateWord::new("CABAZ", None);
    assert_eq!(generate_boards_from_bonus(&config, Some(&long), &words(&pool)).unwrap(), boards);
}

#[test]
fn bonus_cells_in_one_row_and_out_of_order() {
    let table = letters(&[('A', 9, 1), ('B', 9, 2), ('C', 9, 3), ('D', 9, 4), ('*', 1, 0)]);
    let config =
        GameConfig::new(&table, GAME_SCHEMA, [(4, 0), (1, 1), (1, 4), (0, 0)]).unwrap();
    let pool = ["ABCDA", "BBCCD", "AACDD", "ABABC", "DCBAB", "CCCAB"];
    let bonus = CandidateWord::new("CBDA", None);
    let boards = generate_boards_from_bonus(&config, Some(&bonus), &words(&pool)).unwrap();
    assert!(!boards.is_empty());
    for b in &boards {
        assert_eq!(b.rows[4].letter(0), 'C');
        assert_eq!(b.rows[1].word, "BBCCD");
        assert_eq!(b.rows[0].letter(0), 'A');
    }
    check_against_hand_search(&config, Some("CBDA"), &pool);
}

#[test]
fn words_that_are_too_long_are_passed_over() {
    let table = letters(&[('A', 30, 1), ('B', 9, 2)]);
    let config = GameConfig::new(&table, GAME_SCHEMA, GAME_BONUS).unwrap();
    let pool = ["AAAAAA", "ABBA", "AAAAA", "BABABAB"];
    let boards = generate_boards_from_bonus(&config, None, &words(&pool)).unwrap();
    assert!(boards.iter().all(|b| b.rows.iter().all(|w| w.word.len() <= 5)));
    assert_eq!(boards.len(), check_against_hand_search(&config, None, &pool));
    assert!(boards.len() > 1);
    let bonus = CandidateWord::new("BAAA", None);
    let boards = generate_boards_from_bonus(&config, Some(&bonus), &words(&pool)).unwrap();
    for b in &boards {
        assert_eq!(b.rows[0].word, "ABBA");
        assert!(b.rows[1..3].iter().all(|w| w.word == "AAAAA"));
        assert!(score_board(&config, b, true).is_ok());
    }
    // the two rows below may each hold either word
    assert_eq!(boards.len(), 4);
}

#[test]
fn a_word_that_ends_before_a_bonus_column_is_a_configuration_error() {
    let table = letters(&[('A', 30, 1), ('B', 9, 2)]);
    let config = GameConfig::new(&table, GAME_SCHEMA, GAME_BONUS).unwrap();
    let fault = Err(ConfigError::BonusCellOutsideWord);
    let bonus = CandidateWord::new("AAAA", None);
    // AAA reaches column two but not column three
    for pool in [vec!["AAAAA", "AAA"], vec!["AB", "AAAAA"], vec![""], vec!["AAAAA", "AAAAA", "A"]] {
        let pool = words(&pool);
        assert!(!bonus_cells_reached(&config, Some(&bonus), &pool, 0));
        assert!(!bonus_cells_reached(&config, None, &pool, 0));
        assert_eq!(generate_boards_from_bonus(&config, Some(&bonus), &pool), fault);
        assert_eq!(generate_boards_from_bonus(&config, None, &pool), fault);
        assert_eq!(best_board(&config, Some(&bonus), &pool), Err(ConfigError::BonusCellOutsideWord));
        assert_eq!(best_board(&config, None, &pool), Err(ConfigError::BonusCellOutsideWord));
        assert_eq!(
            best_over_bonus_words(&config, &vec![bonus.duplicate()], &pool),
            Err(ConfigError::BonusCellOutsideWord)
        );
        assert_eq!(
            best_per_bonus_word(&config, &vec![bonus.duplicate()], &pool),
            Err(ConfigError::BonusCellOutsideWord)
        );
        // without a bonus word no branch runs
        assert_eq!(best_over_bonus_words(&config, &Vec::new(), &pool), Ok(None));
    }
    // a word of four letters reaches every bonus column of this configuration
    let pool = words(&["AAAAA", "ABBA"]);
    assert!(bonus_cells_reached(&config, Some(&bonus), &pool, 0));
    assert!(generate_boards_from_bonus(&config, Some(&bonus), &pool).is_ok());
    // on the last row no bonus cell lies: every word reaches
    let short = words(&["", "A"]);
    assert!(bonus_cells_reached(&config, None, &short, 4));
    assert!(!bonus_cells_reached(&config, None, &short, 3));
    // column four on a word of four letters
    let edge = GameConfig::new(&table, GAME_SCHEMA, [(0, 4), (1, 4), (2, 4), (3, 4)]).unwrap();
    assert_eq!(generate_boards_from_bonus(&edge, Some(&bonus), &pool), fault);
    check_against_hand_search(&edge, Some("AAAA"), &["AAAAA", "ABBA"]);
}

#[test]
fn a_bonus_word_without_a_letter_for_each_cell_is_a_configuration_error() {
    let table = letters(&[('A', 30, 1), ('B', 9, 2)]);
    let config = GameConfig::new(&table, GAME_SCHEMA, GAME_BONUS).unwrap();
    let pool = words(&["AAAAA", "ABABA"]);
    for text in ["", "A", "AAA"] {
        let short = CandidateWord::new(text, None);
        assert!(!bonus_cells_reached(&config, Some(&short), &pool, 0));
        assert!(!bonus_cells_reached(&config, Some(&short), &pool, 4));
        assert_eq!(
            generate_boards_from_bonus(&config, Some(&short), &pool),
            Err(ConfigError::BonusCellOutsideWord)
        );
        assert_eq!(best_board(&config, Some(&short), &pool), Err(ConfigError::BonusCellOutsideWord));
        let bonus = vec![CandidateWord::new("AAAA", None), short];
        assert_eq!(
            best_over_bonus_words(&config, &bonus, &pool),
            Err(ConfigError::BonusCellOutsideWord)
        );
    }
    check_against_hand_search(&config, Some("AAA"), &["AAAAA", "ABABA"]);
    assert!(check_against_hand_search(&config, Some("AAAA"), &["AAAAA", "ABABA"]) > 0);
}

#[test]
fn filling_from_a_row_on() {
    let table = letters(&[('A', 8, 1), ('B', 2, 2), ('*', 1, 0)]);
    let config = GameConfig::new(&table, GAME_SCHEMA, GAME_BONUS).unwrap();
    let bag = config.inventory;
    let pool = words(&["AAAAA", "ABABA", "ABBBA"]);
    // below the last row there is one way, without a word
    let none = generate_boards_from_row(&config, None, &pool, &bag, true, 5).unwrap();
    assert_eq!(none.len(), 1);
    assert!(none[0].rows.is_empty());
    // one word alone on the last row gives one way: the word with its wildcard letter
    for (text, covered) in [("AAAAA", None), ("ABABA", None), ("ABBBA", Some('B'))] {
        let one = words(&[text]);
        let ways = generate_boards_from_row(&config, None, &one, &bag, true, 4).unwrap();
        assert_eq!(ways.len(), 1);
        assert_eq!(ways[0].rows, vec![CandidateWord::new(text, covered)]);
    }
    // without the wildcard the word that needs it gives no way
    let ways = generate_boards_from_row(&config, None, &words(&["ABBBA"]), &bag, false, 4).unwrap();
    assert!(ways.is_empty());
    // two rows: the second row is spelled from what the first has left
    let ways = generate_boards_from_row(&config, None, &pool, &bag, true, 3).unwrap();
    let found: Vec<Vec<(&str, Option<char>)>> = ways
        .iter()
        .map(|b| b.rows.iter().map(|w| (w.word.as_str(), w.wildcard)).collect())
        .collect();
    let expected: Vec<Vec<(&str, Option<char>)>> = vec![
        vec![("AAAAA", None), ("ABABA", None)],
        vec![("AAAAA", None), ("ABBBA", Some('B'))],
        vec![("ABABA", None), ("AAAAA", None)],
        vec![("ABBBA", Some('B')), ("AAAAA", None)],
    ];
    assert_eq!(found, expected);
    // the bonus word counts on the rows that are filled: row three, column three
    let bonus = CandidateWord::new("ZZZB", None);
    let ways = generate_boards_from_row(&config, Some(&bonus), &pool, &bag, true, 3).unwrap();
    let firsts: Vec<&str> = ways.iter().map(|b| b.rows[0].word.as_str()).collect();
    assert_eq!(firsts, ["ABABA", "ABBBA"]);
    // a word that ends before the bonus column of a row that is filled
    let short = words(&["AAA"]);
    assert_eq!(
        generate_boards_from_row(&config, None, &short, &bag, true, 3),
        Err(ConfigError::BonusCellOutsideWord)
    );
    assert!(generate_boards_from_row(&config, None, &short, &bag, true, 4).is_ok());
}

#[test]
fn search_agrees_with_trying_every_tuple() {
    let pools: [&[&str]; 3] = [
        &["ROAST", "BOMBS", "SALAD", "TUNER", "BEGAN", "STAGE", "TRAIN"],
        &["ABBEY", "BASES", "SEATS", "TEASE", "EASES", "BEATS", "BEAST", "TASTE"],
        &["GAMES", "MAGES", "SAGES", "GAGES", "MESAS", "SEAMS"],
    ];
    let tables = [
        letters(&[
            ('G', 1, 45),
            ('B', 3, 50),
            ('M', 1, 35),
            ('D', 1, 30),
            ('N', 2, 20),
            ('U', 1, 15),
            ('L', 1, 9),
            ('T', 2, 10),
            ('O', 2, 7),
            ('R', 2, 7),
            ('S', 3, 5),
            ('A', 4, 5),
            ('E', 2, 5),
            ('*', 1, 0),
        ]),
        letters(&[
            ('A', 6, 5),
            ('B', 3, 50),
            ('E', 8, 5),
            ('S', 8, 5),
            ('T', 4, 10),
            ('Y', 0, 35),
            ('*', 1, 0),
        ]),
        letters(&[('A', 5, 5), ('E', 5, 5), ('G', 3, 45), ('M', 3, 35), ('S', 8, 5), ('*', 1, 0)]),
    ];
    let mut found = 0;
    for (pool, table) in pools.iter().zip(tables.iter()) {
        let config = GameConfig::new(table, GAME_SCHEMA, GAME_BONUS).unwrap();
        found += check_against_hand_search(&config, None, pool);
        for bonus in ["SEES", "AMSG", "ASAE", "AAAA", "EEEE", "MGSE"] {
            found += check_against_hand_search(&config, Some(bonus), pool);
        }
    }
    assert!(found > 100);
}

#[test]
fn search_twice_gives_the_same() {
    let table = letters(&[('A', 7, 1), ('B', 6, 2), ('C', 6, 3), ('D', 5, 4), ('*', 1, 0)]);
    let config = GameConfig::new(&table, GAME_SCHEMA, GAME_BONUS).unwrap();
    let pool = words(&["ABCDA", "BBCCD", "AACDD", "ABABC", "DCBAX", "CCCAB", "DDBAA"]);
    let first = best_board(&config, None, &pool).unwrap().unwrap();
    let second = best_board(&config, None, &pool).unwrap().unwrap();
    assert_eq!(first.score, second.score);
    assert_eq!(first, second);
    let bonus = words(&["CBCA", "AAAA", "BCAB", "CCDB"]);
    let first = best_over_bonus_words(&config, &bonus, &pool);
    for _ in 0..5 {
        assert_eq!(best_over_bonus_words(&config, &bonus, &pool), first);
    }
}

#[test]
fn best_of_keeps_the_first_of_equal_scores() {
    let table = letters(&[('A', 30, 1), ('B', 30, 1)]);
    let first_column = [(0, 0), (1, 0), (2, 0), (3, 0)];
    let config = GameConfig::new(&table, [[1; 5]; 5], first_column).unwrap();
    let make = |rows: [&str; 5]| Board::new(words(&rows)).unwrap();
    let boards = vec![
        make(["A", "A", "A", "A", "A"]),
        make(["AB", "A", "A", "A", "A"]),
        make(["BA", "A", "A", "A", "A"]),
        make(["A", "AB", "A", "A", "A"]),
        make(["A", "A", "A", "A", ""]),
    ];
    let best = best_of(&config, &boards, false).unwrap().unwrap();
    // 3 + 4 * 2 = 11, reached first by the second board
    assert_eq!(best.score, 11);
    assert_eq!(best.board, boards[1]);
    // with the bonus word of four A: ceil(5.2) more for each
    let best = best_of(&config, &boards, true).unwrap().unwrap();
    assert_eq!(best.score, 17);
    assert_eq!(best.board, boards[1]);
    assert_eq!(best_of(&config, &Vec::new(), false), Ok(None));
    assert_eq!(best_of(&config, &Vec::new(), true), Ok(None));
    // a board on which a word does not reach a bonus cell cannot be scored
    let mut faulty = boards.clone();
    faulty.push(make(["A", "", "A", "A", "A"]));
    assert_eq!(best_of(&config, &faulty, true), Err(ConfigError::BonusCellOutsideWord));
    assert_eq!(best_of(&config, &faulty, false), Err(ConfigError::BonusCellOutsideWord));
    // letters without points
    let single = vec![make(["C", "C", "C", "C", ""])];
    let zero = best_of(&config, &single, false).unwrap().unwrap();
    assert_eq!(zero.score, 0);
    assert_eq!(zero.board, single[0]);
}

#[test]
fn pick_best_keeps_the_first_of_equal_scores() {
    let make = |text: &str, score: u64| {
        Some(ScoredBoard { board: Board::new(words(&[text, "", "", "", ""])).unwrap(), score })
    };
    assert_eq!(pick_best(&Vec::new()), None);
    assert_eq!(pick_best(&vec![None, None]), None);
    let candidates =
        vec![None, make("A", 3), make("B", 7), None, make("C", 7), make("D", 5), None];
    assert_eq!(pick_best(&candidates), make("B", 7));
    assert_eq!(pick_best(&vec![make("A", 0), make("B", 0)]), make("A", 0));
    assert_eq!(pick_best(&vec![None, make("Z", 0)]), make("Z", 0));
    assert_eq!(pick_best(&vec![make("A", 1), make("B", 2), make("C", 3)]), make("C", 3));
}

#[test]
fn branches_in_parallel_agree_with_branches_in_turn() {
    let table = letters(&[
        ('A', 7, 1),
        ('B', 6, 20),
        ('C', 6, 3),
        ('D', 5, 4),
        ('E', 2, 9),
        ('*', 1, 0),
    ]);
    let config = GameConfig::new(&table, GAME_SCHEMA, GAME_BONUS).unwrap();
    let pool = words(&["ABCDA", "BBCCD", "AACDD", "ABABC", "DCBAE", "CCCAB", "DDBAA", "EBCAD"]);
    let bonus: Vec<CandidateWord> = words(&[
        "CBCA", "AAAA", "BCAB", "CCDB", "CCBA", "ZZZZ", "BBCC", "CCCC", "ACBC", "BCBA", "CBBA",
    ]);
    let mut in_turn: Vec<Option<ScoredBoard>> = Vec::new();
    for b in &bonus {
        in_turn.push(best_board(&config, Some(b), &pool).unwrap());
    }
    assert!(in_turn.iter().any(|b| b.is_some()));
    assert!(in_turn.iter().any(|b| b.is_none()));
    let expected = pick_best(&in_turn);
    let top = in_turn.iter().flatten().map(|b| b.score).max().unwrap();
    assert_eq!(expected.as_ref().unwrap().score, top);
    assert_eq!(best_per_bonus_word(&config, &bonus, &pool), Ok(in_turn));
    assert_eq!(best_over_bonus_words(&config, &bonus, &pool), Ok(expected));
}

#[test]
fn from_the_dictionary_to_the_best_board() {
    let table = letters(&[
        ('A', 7, 1),
        ('B', 6, 20),
        ('C', 6, 3),
        ('D', 5, 4),
        ('E', 2, 9),
        ('*', 1, 0),
    ]);
    let config = GameConfig::new(&table, GAME_SCHEMA, GAME_BONUS).unwrap();
    let dictionary: Vec<String> = [
        "ABCDA", "CBCA", "BBCCD", "ZEBRA", "AACDD", "AB", "ABABC", "CCBA", "DCBAE", "EEEEE",
        "CCCAB", "DDBAA", "BCAB", "EBCAD", "ABCDEA", "QQQQ",
    ]
    .iter()
    .map(|w| w.to_string())
    .collect();
    let candidates = admissible_words(&config.inventory, &dictionary);
    let rows = words_of_length(&candidates, 5);
    let bonus = words_of_length(&candidates, 4);
    assert_eq!(rows.len(), 8);
    assert_eq!(bonus.len(), 3);
    let best = find_best_board(&config, &dictionary, true);
    assert!(best.is_some());
    assert_eq!(Ok(best.clone()), best_over_bonus_words(&config, &bonus, &rows));
    let free = find_best_board(&config, &dictionary, false);
    assert_eq!(Ok(free.clone()), best_board(&config, None, &rows));
    let free = free.unwrap();
    assert_eq!(Ok(free.score), score_board(&config, &free.board, false));
    let best = best.unwrap();
    assert_eq!(Ok(best.score), score_board(&config, &best.board, true));
}

#[test]
fn pruning_keeps_what_can_still_be_spelled() {
    let table = letters(&[('A', 2, 1), ('B', 1, 2), ('*', 1, 0)]);
    let config = GameConfig::new(&table, GAME_SCHEMA, GAME_BONUS).unwrap();
    let pool = words(&["AB", "BB", "AAA", "BBB", "ABC", "", "AABX", "CC"]);
    let live: Vec<usize> = vec![7, 0, 1, 2, 3, 4, 5, 6];
    assert_eq!(still_spellable(&pool, &live, &config.inventory, true), vec![0, 1, 2, 4, 5, 6]);
    assert_eq!(still_spellable(&pool, &live, &config.inventory, false), vec![0, 5]);
    assert_eq!(still_spellable(&pool, &vec![3, 0, 3, 0], &config.inventory, true), vec![0, 0]);
    assert!(still_spellable(&pool, &Vec::new(), &config.inventory, true).is_empty());
}

#[test]
fn bonus_check_of_one_row() {
    let config = GameConfig::new(&Vec::new(), GAME_SCHEMA, GAME_BONUS).unwrap();
    let bomb = CandidateWord::new("BOMB", None);
    let word = |t: &str| CandidateWord::new(t, None);
    assert!(bonus_permits(&config, Some(&bomb), 0, &word("ROBOT")));
    assert!(!bonus_permits(&config, Some(&bomb), 0, &word("ROAST")));
    assert!(bonus_permits(&config, Some(&bomb), 1, &word("ROOST")));
    assert!(!bonus_permits(&config, Some(&bomb), 1, &word("ROBOT")));
    assert!(bonus_permits(&config, Some(&bomb), 3, &word("TUNBR")));
    assert!(bonus_permits(&config, Some(&bomb), 3, &word("TUNB")));
    assert!(!bonus_permits(&config, Some(&bomb), 3, &word("TUNER")));
    assert!(bonus_permits(&config, Some(&bomb), 4, &word("ANYTH")));
    assert!(bonus_permits(&config, Some(&bomb), 4, &word("")));
    assert!(bonus_permits(&config, None, 0, &word("ROAST")));
}
