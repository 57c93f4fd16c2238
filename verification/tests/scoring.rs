use bongo_solver::board::{Board, BoardError};
use bongo_solver::config::{BonusSpec, ConfigError, GameConfig, PositionSchema};
use bongo_solver::letters::Letter;
use bongo_solver::score::{
    order_by_prescore, placement_score, prescore_word_in_row, score_board, score_word,
};
use bongo_solver::words::CandidateWord;

const SCHEMA: [[u16; 5]; 5] =
    [[1, 1, 1, 1, 1], [1, 1, 1, 1, 1], [1, 1, 1, 1, 1], [1, 2, 1, 3, 1], [1, 1, 1, 2, 1]];

const BONUS: [(usize, usize); 4] = [(0, 2), (1, 2), (2, 2), (3, 3)];

fn letters(table: &[(char, u32, u32)]) -> Vec<Letter> {
    table.iter().map(|&(ch, count, score)| Letter { ch, count, score }).collect()
}

fn game_config() -> GameConfig {
    let table = letters(&[
        ('G', 1, 45),
        ('B', 3, 50),
        ('M', 1, 35),
        ('D', 1, 30),
        ('N', 2, 20),
        ('U', 1, 15),
        ('L', 1, 9),
        ('T', 2, 10),
        ('O', 2, 7),
        ('R', 2, 7),
        ('S', 3, 5),
        ('A', 4, 5),
        ('E', 2, 5),
        ('*', 1, 0),
    ]);
    GameConfig::new(&table, SCHEMA, BONUS).unwrap()
}

/// The bag of the game with its points: seven for R and five for O, A, S
/// and T.
fn example_config() -> GameConfig {
    let table = letters(&[
        ('G', 1, 45),
        ('B', 3, 50),
        ('M', 1, 35),
        ('D', 1, 30),
        ('N', 2, 20),
        ('U', 1, 15),
        ('L', 1, 9),
        ('T', 2, 5),
        ('O', 2, 5),
        ('R', 2, 7),
        ('S', 3, 5),
        ('A', 4, 5),
        ('E', 2, 5),
        ('*', 1, 0),
    ]);
    GameConfig::new(&table, SCHEMA, BONUS).unwrap()
}

fn word(text: &str) -> CandidateWord {
    CandidateWord::new(text, None)
}

fn board(rows: [&str; 5], wildcard: Option<(usize, char)>) -> Board {
    let mut words: Vec<CandidateWord> = Vec::new();
    for (r, text) in rows.iter().enumerate() {
        let covered = match wildcard {
            Some((row, c)) if row == r => Some(c),
            _ => None,
        };
        words.push(CandidateWord::new(text, covered));
    }
    Board::new(words).unwrap()
}

/// Three tenths more, rounded up, in floating point.
fn raised(raw: u64) -> u64 {
    f64::ceil(raw as f64 * 1.3) as u64
}

#[test]
fn roast_in_row_three() {
    let config = example_config();
    // (7*1) + (5*2) + (5*1) + (5*3) + (5*1) = 42, and ceil(54.6) = 55
    assert_eq!(score_word(&config, 3, &word("ROAST"), None), 55);
    assert_eq!(prescore_word_in_row(&config, 3, &word("ROAST")), 55);
}

#[test]
fn roast_where_o_and_t_count_more() {
    let config = game_config();
    // 7 + 14 + 5 + 15 + 10 = 51, and ceil(66.3) = 67
    assert_eq!(score_word(&config, 3, &word("ROAST"), None), 67);
    // all multipliers one: 7 + 7 + 5 + 5 + 10 = 34, and ceil(44.2) = 45
    assert_eq!(score_word(&config, 0, &word("ROAST"), None), 45);
    // row four: 7 + 7 + 5 + 10 + 10 = 39, and ceil(50.7) = 51
    assert_eq!(score_word(&config, 4, &word("ROAST"), None), 51);
}

#[test]
fn wildcard_cell_counts_nothing() {
    let config = game_config();
    // the S on the cell with multiplier three is the wildcard: 51 - 15 = 36
    assert_eq!(score_word(&config, 3, &word("ROAST"), Some((3, 3))), raised(36));
    assert_eq!(raised(36), 47);
    // a wildcard cell in another row changes nothing
    assert_eq!(score_word(&config, 3, &word("ROAST"), Some((2, 3))), 67);
    // a wildcard cell behind the end of the word changes nothing
    assert_eq!(score_word(&config, 3, &word("ROA"), Some((3, 3))), raised(7 + 14 + 5));
}

#[test]
fn empty_word_scores_nothing() {
    let config = game_config();
    assert_eq!(score_word(&config, 0, &word(""), None), 0);
    assert_eq!(prescore_word_in_row(&config, 0, &word("")), 0);
}

#[test]
fn rounding_is_exact_where_the_sum_is_a_multiple_of_ten() {
    let table = letters(&[('A', 9, 10), ('B', 9, 1)]);
    let config = GameConfig::new(&table, SCHEMA, BONUS).unwrap();
    // 10 * 1.3 = 13, not 14
    assert_eq!(score_word(&config, 0, &word("A"), None), 13);
    // 50 * 1.3 = 65
    assert_eq!(score_word(&config, 0, &word("AAAAA"), None), 65);
    // 1 * 1.3 rounds up to 2
    assert_eq!(score_word(&config, 0, &word("B"), None), 2);
    // 3 * 1.3 = 3.9 rounds up to 4
    assert_eq!(score_word(&config, 0, &word("BBB"), None), 4);
}

#[test]
fn integer_rounding_agrees_with_floating_point() {
    for points in 0..400u32 {
        let table = letters(&[('A', 9, points), ('B', 9, 1), ('C', 9, 10 * points)]);
        let config = GameConfig::new(&table, SCHEMA, BONUS).unwrap();
        for text in ["A", "AB", "ABB", "AAB", "ABBBB", "AAAAA", "C", "CCB", "CCCCC", "BACAB"] {
            let mut raw: u64 = 0;
            for (col, c) in text.chars().enumerate() {
                let p = match c {
                    'A' => points as u64,
                    'B' => 1,
                    _ => 10 * points as u64,
                };
                raw += p * SCHEMA[3][col] as u64;
            }
            assert_eq!(score_word(&config, 3, &word(text), None), raised(raw));
        }
    }
}

#[test]
fn largest_points_and_multipliers_do_not_overflow() {
    let table = letters(&[('A', 9, u32::MAX)]);
    let config = GameConfig::new(&table, [[u16::MAX; 5]; 5], BONUS).unwrap();
    let cell = u32::MAX as u64 * u16::MAX as u64;
    let row = (5 * cell * 13 + 9) / 10;
    assert_eq!(score_word(&config, 0, &word("AAAAA"), None), row);
    let full = board(["AAAAA"; 5], None);
    let bonus = (4 * cell * 13 + 9) / 10;
    assert_eq!(score_board(&config, &full, true), Ok(5 * row + bonus));
    assert_eq!(score_board(&config, &full, false), Ok(5 * row));
}

#[test]
fn prescore_puts_the_wildcard_where_it_costs_least() {
    let config = game_config();
    // SASSY in row three: S on columns 0, 2 and 3 (multipliers 1, 1, 3)
    let sassy = CandidateWord::new("SASSS", Some('S'));
    let plain: u64 = 5 + 10 + 5 + 15 + 5;
    // the wildcard on a cell with multiplier one costs five, on column three fifteen
    assert_eq!(prescore_word_in_row(&config, 3, &sassy), raised(plain - 5));
    assert_eq!(score_word(&config, 3, &sassy, Some((3, 3))), raised(plain - 15));
    // in a row of ones every place costs the same
    assert_eq!(prescore_word_in_row(&config, 0, &sassy), raised(25 - 5));
    // a wildcard letter that the word does not hold leaves the plain score
    let odd = CandidateWord::new("ROAST", Some('Q'));
    assert_eq!(prescore_word_in_row(&config, 3, &odd), 67);
    // a single place
    let train = CandidateWord::new("TRAIN", Some('I'));
    assert_eq!(prescore_word_in_row(&config, 4, &train), raised(10 + 7 + 5 + 0 + 20));
}

#[test]
fn board_without_wildcard_is_a_single_pass() {
    let config = game_config();
    let b = board(["ROAST", "BOMBS", "SALAD", "TUNER", "BEGAN"], None);
    let rows: [u64; 5] = [
        raised(7 + 7 + 5 + 5 + 10),
        raised(50 + 7 + 35 + 50 + 5),
        raised(5 + 5 + 9 + 5 + 30),
        raised(10 + 15 * 2 + 20 + 5 * 3 + 7),
        raised(50 + 5 + 45 + 5 * 2 + 20),
    ];
    let total: u64 = rows.iter().sum();
    assert_eq!(score_board(&config, &b, false), Ok(total));
    assert_eq!(placement_score(&config, &b, None, false), total);
    // bonus cells (0,2) (1,2) (2,2) (3,3): A, M, L, E
    let bonus = raised(5 + 35 + 9 + 5 * 3);
    assert_eq!(score_board(&config, &b, true), Ok(total + bonus));
    assert_eq!(placement_score(&config, &b, None, true), total + bonus);
    // scoring again gives the same
    assert_eq!(score_board(&config, &b, true), score_board(&config, &b, true));
}

/// The board's score in the plain way: every cell that holds the wildcard
/// letter is tried, in floating point.
fn reference_score(config: &GameConfig, rows: &[&str; 5], covered: Option<char>, bonus: bool) -> u64 {
    let points = |c: char| -> u64 {
        if c.is_ascii_uppercase() {
            config.scores.points[(c as u8 - b'A') as usize] as u64
        } else {
            0
        }
    };
    let total = |hole: Option<(usize, usize)>| -> u64 {
        let mut sum = 0;
        for (r, text) in rows.iter().enumerate() {
            let mut raw = 0.0;
            for (c, ch) in text.chars().enumerate() {
                if hole != Some((r, c)) {
                    raw += (points(ch) * config.schema.cells[r][c] as u64) as f64;
                }
            }
            sum += f64::ceil(raw * 1.3) as u64;
        }
        if bonus {
            let mut raw = 0.0;
            for &(r, c) in config.bonus.cells.iter() {
                if hole != Some((r, c)) {
                    let ch = rows[r].chars().nth(c).unwrap();
                    raw += (points(ch) * config.schema.cells[r][c] as u64) as f64;
                }
            }
            sum += f64::ceil(raw * 1.3) as u64;
        }
        sum
    };
    let mut best: Option<u64> = None;
    if let Some(w) = covered {
        for (r, text) in rows.iter().enumerate() {
            for (c, ch) in text.chars().enumerate() {
                if ch == w {
                    let t = total(Some((r, c)));
                    best = Some(best.map_or(t, |b| b.max(t)));
                }
            }
        }
    }
    best.unwrap_or_else(|| total(None))
}

#[test]
fn board_with_wildcard_takes_the_best_place() {
    let config = game_config();
    let rows = ["ROAST", "BOMBS", "SALAD", "TUNER", "BEGAN"];
    // the wildcard stands for B: cells (1,0), (1,3) and (4,0)
    let b = board(rows, Some((1, 'B')));
    let plain = score_board(&config, &board(rows, None), true).unwrap();
    let with_hole = score_board(&config, &b, true).unwrap();
    assert_eq!(with_hole, reference_score(&config, &rows, Some('B'), true));
    assert_eq!(with_hole, plain - 65);
    assert_eq!(score_board(&config, &b, false), Ok(reference_score(&config, &rows, Some('B'), false)));
    // each single place is no better
    for hole in [(1, 0), (1, 3), (4, 0)] {
        assert!(placement_score(&config, &b, Some(hole), true) <= with_hole);
    }
    // every row of the board is looked at, and every column of a row
    for (row, letter) in [(0, 'S'), (2, 'A'), (3, 'E'), (4, 'N'), (0, 'T'), (2, 'L')] {
        let b = board(rows, Some((row, letter)));
        for bonus in [false, true] {
            assert_eq!(
                score_board(&config, &b, bonus),
                Ok(reference_score(&config, &rows, Some(letter), bonus)),
                "wildcard {} in row {}",
                letter,
                row
            );
        }
    }
}

#[test]
fn wildcard_on_a_bonus_cell_is_left_out_of_the_bonus_word() {
    let table = letters(&[('A', 9, 10), ('B', 9, 1), ('*', 1, 0)]);
    let config = GameConfig::new(&table, [[1; 5]; 5], BONUS).unwrap();
    // the only B of the board lies on the bonus cell (0, 2)
    let rows = ["AABAA", "AAAAA", "AAAAA", "AAAAA", "AAAAA"];
    let b = board(rows, Some((0, 'B')));
    let expected = raised(40) + 4 * raised(50) + raised(30);
    assert_eq!(score_board(&config, &b, true), Ok(expected));
    assert_eq!(score_board(&config, &b, true), Ok(reference_score(&config, &rows, Some('B'), true)));
    assert_eq!(score_board(&config, &b, false), Ok(raised(40) + 4 * raised(50)));
}

#[test]
fn wildcard_letter_that_is_not_on_the_board() {
    let config = game_config();
    let rows = ["ROAST", "BOMBS", "SALAD", "TUNER", "BEGAN"];
    let b = board(rows, Some((2, 'Q')));
    assert_eq!(score_board(&config, &b, true), score_board(&config, &board(rows, None), true));
}

#[test]
fn raising_the_points_of_a_letter_never_lowers_the_score() {
    let rows = ["ROAST", "BOMBS", "SALAD", "TUNER", "BEGAN"];
    let base = [
        ('A', 4, 5),
        ('B', 3, 50),
        ('D', 1, 30),
        ('E', 2, 5),
        ('G', 1, 45),
        ('L', 1, 9),
        ('M', 1, 35),
        ('N', 2, 20),
        ('O', 2, 7),
        ('R', 2, 7),
        ('S', 3, 5),
        ('T', 2, 10),
        ('U', 1, 15),
        ('*', 1, 0),
    ];
    let low = GameConfig::new(&letters(&base), SCHEMA, BONUS).unwrap();
    for raised_letter in 0..13 {
        let mut table = base;
        table[raised_letter].2 += 3;
        let high = GameConfig::new(&letters(&table), SCHEMA, BONUS).unwrap();
        for covered in [None, Some((1, 'B')), Some((0, 'S')), Some((2, 'A'))] {
            let b = board(rows, covered);
            for bonus in [false, true] {
                assert!(
                    score_board(&low, &b, bonus).unwrap() <= score_board(&high, &b, bonus).unwrap()
                );
            }
        }
    }
}

#[test]
fn raising_the_multiplier_of_a_cell_never_lowers_the_score() {
    let rows = ["ROAST", "BOMBS", "SALAD", "TUNER", "BEGAN"];
    let low = game_config();
    for r in 0..5 {
        for c in 0..5 {
            let mut high = low;
            high.schema.cells[r][c] += 2;
            for covered in [None, Some((1, 'B')), Some((0, 'S')), Some((2, 'A')), Some((3, 'E'))] {
                let b = board(rows, covered);
                for bonus in [false, true] {
                    let before = score_board(&low, &b, bonus).unwrap();
                    let after = score_board(&high, &b, bonus).unwrap();
                    assert!(before <= after);
                }
            }
        }
    }
    // a greater multiplier under the only place of the wildcard changes nothing
    let mut high = low;
    high.schema.cells[3][1] = 9;
    let b = board(rows, Some((3, 'U')));
    assert_eq!(score_board(&low, &b, true), score_board(&high, &b, true));
}

#[test]
fn bonus_cell_behind_the_end_of_a_word() {
    let config = game_config();
    // row three holds a word of three letters, the bonus cell is (3, 3)
    let short = board(["ROAST", "BOMBS", "SALAD", "TUN", "BEGAN"], None);
    assert_eq!(score_board(&config, &short, true), Err(ConfigError::BonusCellOutsideWord));
    // the board has no score without the bonus word either
    assert_eq!(score_board(&config, &short, false), Err(ConfigError::BonusCellOutsideWord));
    // the word alone has a score
    assert_eq!(score_word(&config, 3, &word("TUN"), None), raised(10 + 30 + 20));
    // a short word in a row without bonus cell is in order
    let last = board(["ROAST", "BOMBS", "SALAD", "TUNER", "BE"], None);
    let rows = raised(34) + raised(147) + raised(54) + raised(10 + 30 + 20 + 15 + 7) + raised(55);
    assert_eq!(score_board(&config, &last, false), Ok(rows));
    assert!(score_board(&config, &last, true).is_ok());
    // a word that just reaches its bonus cell
    let just = board(["ROA", "BOM", "SAL", "TUNE", ""], None);
    assert!(score_board(&config, &just, true).is_ok());
    // column four on a word of four letters
    let edge = GameConfig::new(&Vec::new(), SCHEMA, [(0, 4), (1, 4), (2, 4), (3, 4)]).unwrap();
    let four = board(["ROAS", "BOMBS", "SALAD", "TUNER", "BEGAN"], None);
    assert_eq!(score_board(&edge, &four, true), Err(ConfigError::BonusCellOutsideWord));
    assert_eq!(score_board(&edge, &four, false), Err(ConfigError::BonusCellOutsideWord));
}

#[test]
fn bonus_cell_off_the_board_is_a_configuration_error() {
    assert_eq!(
        BonusSpec::new([(0, 2), (1, 2), (2, 2), (5, 3)]).err(),
        Some(ConfigError::BonusRowOutOfRange)
    );
    assert_eq!(
        BonusSpec::new([(0, 2), (1, 5), (2, 2), (3, 3)]).err(),
        Some(ConfigError::BonusColumnOutOfRange)
    );
    assert_eq!(
        BonusSpec::new([(0, 2), (7, 9), (2, 2), (3, 3)]).err(),
        Some(ConfigError::BonusRowOutOfRange)
    );
    assert_eq!(
        BonusSpec::new([(0, 9), (7, 0), (2, 2), (3, 3)]).err(),
        Some(ConfigError::BonusColumnOutOfRange)
    );
    let spec = BonusSpec::new([(4, 4), (0, 0), (2, 2), (2, 3)]).unwrap();
    assert_eq!(spec.cell(0), (4, 4));
    assert_eq!(spec.cell(3), (2, 3));
    assert_eq!(
        GameConfig::new(&Vec::new(), SCHEMA, [(0, 2), (1, 2), (2, 2), (3, 5)]).err(),
        Some(ConfigError::BonusColumnOutOfRange)
    );
}

#[test]
fn schema_needs_positive_multipliers() {
    let mut cells = SCHEMA;
    assert!(PositionSchema::new(cells).is_ok());
    assert_eq!(PositionSchema::new(cells).unwrap().multiplier_at(3, 3), 3);
    cells[4][4] = 0;
    assert_eq!(PositionSchema::new(cells).err(), Some(ConfigError::ZeroMultiplier));
    assert_eq!(GameConfig::new(&Vec::new(), cells, BONUS).err(), Some(ConfigError::ZeroMultiplier));
    // the letter table is checked before the schema, the schema before the bonus cells
    let bad_letter = vec![Letter { ch: '1', count: 1, score: 1 }];
    assert_eq!(
        GameConfig::new(&bad_letter, cells, [(9, 9); 4]).err(),
        Some(ConfigError::UnknownLetter)
    );
    assert_eq!(
        GameConfig::new(&Vec::new(), cells, [(9, 9); 4]).err(),
        Some(ConfigError::ZeroMultiplier)
    );
}

#[test]
fn boards_are_checked() {
    let five = |texts: [&str; 5]| -> Vec<CandidateWord> { texts.iter().map(|t| word(t)).collect() };
    assert!(Board::new(five(["ROAST", "BOMBS", "SALAD", "TUNER", "BEGAN"])).is_ok());
    assert!(Board::new(five(["", "B", "SA", "TUN", "BEGA"])).is_ok());
    let mut four = five(["ROAST", "BOMBS", "SALAD", "TUNER", "BEGAN"]);
    four.pop();
    assert_eq!(Board::new(four).err(), Some(BoardError::WrongRowCount));
    assert_eq!(Board::new(Vec::new()).err(), Some(BoardError::WrongRowCount));
    assert_eq!(
        Board::new(five(["ROAST", "BOMBER", "SALAD", "TUNER", "BEGAN"])).err(),
        Some(BoardError::WordTooLong)
    );
    let mut two = five(["ROAST", "BOMBS", "SALAD", "TUNER", "BEGAN"]);
    two[1].wildcard = Some('B');
    assert_eq!(Board::new(two.clone()).unwrap().wildcard_letter(), Some('B'));
    two[4].wildcard = Some('B');
    assert_eq!(Board::new(two.clone()).err(), Some(BoardError::SecondWildcard));
    // the first fault from the top counts
    two[2] = word("SALADS");
    assert_eq!(Board::new(two).err(), Some(BoardError::WordTooLong));
    let b = Board::new(five(["ROAST", "BOMBS", "SALAD", "TUNER", "BEGAN"])).unwrap();
    assert_eq!(b.wildcard_letter(), None);
    assert_eq!(b.duplicate(), b);
}

#[test]
fn words_in_the_order_of_their_scores() {
    let config = game_config();
    let texts = ["BOMBS", "ROAST", "SALAD", "TUNER", "STORA", "BEGAN", "TARSO", "ASSET"];
    let words: Vec<CandidateWord> = texts.iter().map(|t| word(t)).collect();
    let sorted = order_by_prescore(&config, 4, &words);
    let mut expected = words.clone();
    expected.sort_by_key(|w| prescore_word_in_row(&config, 4, w));
    assert_eq!(sorted, expected);
    let scores: Vec<u64> = sorted.iter().map(|w| prescore_word_in_row(&config, 4, w)).collect();
    assert!(scores.windows(2).all(|p| p[0] <= p[1]));
    // equal scores keep their order: ROAST, STORA and TARSO hold the same letters,
    // the first two with the same letter on the cell that counts twice
    let same: Vec<&str> =
        sorted.iter().map(|w| w.word.as_str()).filter(|w| *w == "ROAST" || *w == "TARSO").collect();
    assert_eq!(same, ["ROAST", "TARSO"]);
    assert_eq!(prescore_word_in_row(&config, 4, &word("ROAST")), prescore_word_in_row(&config, 4, &word("TARSO")));
    assert!(order_by_prescore(&config, 0, &Vec::new()).is_empty());
    // in a row of ones words of the same letters are equal and stay as they came
    let again = order_by_prescore(&config, 0, &words);
    let roast = again.iter().position(|w| w.word == "ROAST").unwrap();
    let stora = again.iter().position(|w| w.word == "STORA").unwrap();
    let tarso = again.iter().position(|w| w.word == "TARSO").unwrap();
    assert!(roast + 1 == stora && stora + 1 == tarso);
}
