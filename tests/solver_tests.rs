use scrabble_solver::char_counter::CharCounter;
use scrabble_solver::char_scorer::get_char_score;
use scrabble_solver::dictionary::Dictionary;
use scrabble_solver::field::{decode_token, Field, EMPTY_CELL_CHAR, FIELD_WIDTH};
use scrabble_solver::solver::{get_score_and_new_field, search_words, solve, solve_both_orientations};
use scrabble_solver::word::create_word;

fn empty_field() -> Field {
    Field {
        cells: [[EMPTY_CELL_CHAR; FIELD_WIDTH]; FIELD_WIDTH],
        is_placeholder_char: [[false; FIELD_WIDTH]; FIELD_WIDTH],
    }
}

fn put(field: &mut Field, i: usize, j: usize, s: &str) {
    for (k, c) in s.chars().enumerate() {
        field.cells[i][j + k] = c;
    }
}

fn dictionary_of(words: &[&str]) -> Dictionary {
    let mut d = Dictionary::new();
    for w in words {
        d.insert(w.to_string());
    }
    d
}

fn same_board(a: &Field, b: &Field) -> bool {
    a.cells == b.cells && a.is_placeholder_char == b.is_placeholder_char
}

#[test]
fn counter_counts_letters() {
    let c = CharCounter::from_str("кот");
    assert_eq!(c.sum(), 3);
    assert_eq!(c.score_sum(), 4);
    let e = CharCounter::new();
    assert_eq!(e.sum(), 0);
    assert_eq!(e.score_sum(), 0);
}

#[test]
fn counter_ignores_markers() {
    let mut c = CharCounter::new();
    c.increment('.');
    c.increment('-');
    assert_eq!(c.sum(), 0);
    c.increment('ё');
    assert_eq!(c.sum(), 1);
    assert_eq!(c.score_sum(), 3);
}

#[test]
fn counter_comparison() {
    let a = CharCounter::from_str("кот");
    let b = CharCounter::from_str("кота");
    assert!(a.is_less_than_or_eq(&a));
    assert!(a.is_less_than_or_eq(&b));
    assert!(!b.is_less_than_or_eq(&a));
    let x = CharCounter::from_str("к");
    let y = CharCounter::from_str("о");
    assert!(!x.is_less_than_or_eq(&y));
    assert!(!y.is_less_than_or_eq(&x));
    let twice = CharCounter::from_str("кк");
    assert!(!twice.is_less_than_or_eq(&a));
}

#[test]
fn letter_scores() {
    assert_eq!(get_char_score('а'), 1);
    assert_eq!(get_char_score('к'), 2);
    assert_eq!(get_char_score('ф'), 10);
    assert_eq!(get_char_score('я'), 3);
    assert_eq!(get_char_score('ё'), 3);
}

#[test]
fn create_word_lays_out_letters() {
    let w = create_word("кот", 2, 12).unwrap();
    assert_eq!(w, vec![(2, 12, 'к'), (2, 13, 'о'), (2, 14, 'т')]);
    assert!(create_word("кот", 2, 13).is_err());
    assert_eq!(create_word("", 0, 20).unwrap(), vec![]);
}

#[test]
fn transpose_twice_restores_board() {
    let mut f = empty_field();
    put(&mut f, 3, 4, "кот");
    f.is_placeholder_char[3][5] = true;
    let original = f;
    f.transpose();
    assert_eq!(f.cells[4][3], 'к');
    assert_eq!(f.cells[5][3], 'о');
    assert!(f.is_placeholder_char[5][3]);
    assert_eq!(f.cells[3][4], EMPTY_CELL_CHAR);
    f.transpose();
    assert!(same_board(&f, &original));
}

#[test]
fn isolated_word_is_rejected() {
    let mut f = empty_field();
    put(&mut f, 0, 0, "да");
    let w = create_word("кот", 7, 7).unwrap();
    let mut g = f;
    assert!(g.try_add_word_and_get_new_letters_counter(&w).is_err());
    let d = dictionary_of(&["кот"]);
    let hand = CharCounter::from_str("кот");
    assert!(get_score_and_new_field(&f, &d, &hand, &w).is_err());
    assert!(f.is_word_isolated(&w));
}

#[test]
fn conflicting_letter_is_rejected() {
    let mut f = empty_field();
    put(&mut f, 7, 7, "кит");
    let w = create_word("кот", 7, 7).unwrap();
    assert!(f.try_add_word_and_get_new_letters_counter(&w).is_err());
}

#[test]
fn reused_letter_is_not_counted() {
    let mut f = empty_field();
    put(&mut f, 7, 7, "к");
    let w = create_word("кот", 7, 7).unwrap();
    let counter = f.try_add_word_and_get_new_letters_counter(&w).unwrap();
    assert_eq!(counter.sum(), 2);
    assert!(counter.is_less_than_or_eq(&CharCounter::from_str("от")));
    assert!(CharCounter::from_str("от").is_less_than_or_eq(&counter));
    assert_eq!(f.cells[7][8], 'о');
    assert_eq!(f.cells[7][9], 'т');
}

#[test]
fn plain_word_scores_sum_of_letters() {
    let old = empty_field();
    let mut new = old;
    put(&mut new, 4, 5, "нос");
    let w = new.select_horizontal_word(4, 5, 7);
    assert_eq!(w, vec![(4, 5, 'н'), (4, 6, 'о'), (4, 7, 'с')]);
    assert_eq!(new.get_word_score(&old, &w), Ok(3));
}

#[test]
fn premiums_apply_to_new_letters_only() {
    let old = empty_field();
    let mut new = old;
    put(&mut new, 0, 0, "кот");
    let w = new.select_horizontal_word(0, 0, 2);
    // 'к' on a triple-word cell.
    assert_eq!(new.get_word_score(&old, &w), Ok(12));
    assert_eq!(new.get_word_score(&new, &w), Ok(4));
}

#[test]
fn placeholder_scores_nothing() {
    let old = empty_field();
    let mut new = old;
    put(&mut new, 0, 0, "кот");
    new.is_placeholder_char[0][0] = true;
    let w = new.select_horizontal_word(0, 0, 2);
    assert_eq!(new.get_word_score(&old, &w), Ok(2));
}

#[test]
fn vertical_selection() {
    let mut f = empty_field();
    put(&mut f, 2, 3, "к");
    put(&mut f, 3, 3, "о");
    let w = f.select_vertical_word(2, 4, 3);
    assert_eq!(w, vec![(2, 3, 'к'), (3, 3, 'о'), (4, 3, EMPTY_CELL_CHAR)]);
}

#[test]
fn seven_tiles_earn_bonus() {
    let mut old = empty_field();
    put(&mut old, 6, 4, "а");
    let mut new = old;
    put(&mut new, 7, 4, "абвгдеж");
    let w = create_word("абвгдеж", 7, 4).unwrap();
    let d = dictionary_of(&["абвгдеж", "аа"]);
    let six = new.get_horizontal_move_score(&old, &w, &d, 6).unwrap();
    let seven = new.get_horizontal_move_score(&old, &w, &d, 7).unwrap();
    assert_eq!(seven, six + 50);
}

#[test]
fn move_needs_a_new_tile_and_known_words() {
    let mut f = empty_field();
    put(&mut f, 7, 7, "кот");
    let w = create_word("кот", 7, 7).unwrap();
    let d = dictionary_of(&["кот"]);
    assert!(f.get_horizontal_move_score(&f, &w, &d, 0).is_err());
    let other = dictionary_of(&["кит"]);
    assert!(f.get_horizontal_move_score(&f, &w, &other, 1).is_err());
}

#[test]
fn cross_word_is_scored_and_checked() {
    let mut old = empty_field();
    put(&mut old, 6, 5, "д");
    let mut new = old;
    put(&mut new, 7, 5, "а");
    let w = create_word("а", 7, 5).unwrap();
    let d = dictionary_of(&["а", "да"]);
    // Cross word "да": 2 + 1; the one-letter row word "а": 1.
    assert_eq!(new.get_horizontal_move_score(&old, &w, &d, 1), Ok(4));
    let without = dictionary_of(&["а"]);
    assert!(new.get_horizontal_move_score(&old, &w, &without, 1).is_err());
}

#[test]
fn dictionary_membership() {
    let d = dictionary_of(&["кот", "кота"]);
    assert!(d.contains_word(&create_word("кот", 0, 0).unwrap()));
    assert!(!d.contains_word(&create_word("ко", 0, 0).unwrap()));
    let mut words = d.words();
    words.sort();
    assert_eq!(words, vec!["кот".to_string(), "кота".to_string()]);
}

#[test]
fn empty_board_has_no_move() {
    let f = empty_field();
    let d = dictionary_of(&["кот"]);
    let hand = CharCounter::from_str("кот");
    let (score, count, board) = solve(&f, &d, &hand);
    assert_eq!(score, 0);
    assert_eq!(count, 0);
    assert!(same_board(&board, &f));
}

#[test]
fn appending_a_letter_scores_only_the_new_cell() {
    let mut f = empty_field();
    put(&mut f, 7, 7, "кот");
    let d = dictionary_of(&["кота"]);
    let hand = CharCounter::from_str("а");
    let (score, count, board) = solve(&f, &d, &hand);
    assert_eq!(score, 50001);
    assert_eq!(score / 10_000, 5);
    assert_eq!(count, 1);
    let mut expected = f;
    expected.cells[7][10] = 'а';
    assert!(same_board(&board, &expected));
}

#[test]
fn existing_premium_is_not_scored_again() {
    let mut f = empty_field();
    put(&mut f, 3, 5, "кот");
    let d = dictionary_of(&["кота"]);
    let hand = CharCounter::from_str("а");
    let w = create_word("кота", 3, 5).unwrap();
    let (rank, board) = get_score_and_new_field(&f, &d, &hand, &w).unwrap();
    // 'т' sits on a double-letter cell but was already there.
    assert_eq!(rank, 5 * 10_000 + 1);
    assert_eq!(board.cells[3][8], 'а');
}

#[test]
fn hand_must_hold_new_letters() {
    let mut f = empty_field();
    put(&mut f, 7, 7, "кот");
    let d = dictionary_of(&["кота"]);
    let hand = CharCounter::from_str("о");
    let w = create_word("кота", 7, 7).unwrap();
    assert!(get_score_and_new_field(&f, &d, &hand, &w).is_err());
}

#[test]
fn tokens_decode_placeholders() {
    assert_eq!(decode_token('К'), ('к', true));
    assert_eq!(decode_token('Ё'), ('ё', true));
    assert_eq!(decode_token('к'), ('к', false));
    assert_eq!(decode_token('.'), ('.', false));
}

#[test]
fn board_from_cells() {
    let rows = vec![
        vec![('.', false), ('к', true)],
        vec![],
        vec![('о', false)],
    ];
    let f = Field::from_cells(&rows).unwrap();
    assert_eq!(f.cells[0][1], 'к');
    assert!(f.is_placeholder_char[0][1]);
    assert_eq!(f.cells[2][0], 'о');
    assert!(!f.is_placeholder_char[2][0]);
    assert_eq!(f.cells[5][5], EMPTY_CELL_CHAR);
    let too_long = vec![vec![('.', false); 16]];
    assert!(Field::from_cells(&too_long).is_err());
    let bad = vec![vec![('x', false)]];
    assert!(Field::from_cells(&bad).is_err());
}

#[test]
fn every_letter_value() {
    let expected = [
        ('а', 1), ('б', 3), ('в', 1), ('г', 3), ('д', 2), ('е', 1), ('ж', 5), ('з', 5),
        ('и', 1), ('й', 4), ('к', 2), ('л', 2), ('м', 2), ('н', 1), ('о', 1), ('п', 2),
        ('р', 1), ('с', 1), ('т', 1), ('у', 2), ('ф', 10), ('х', 5), ('ц', 5), ('ч', 5),
        ('ш', 8), ('щ', 10), ('ъ', 10), ('ы', 4), ('ь', 3), ('э', 8), ('ю', 8), ('я', 3),
        ('ё', 3),
    ];
    for (c, v) in expected {
        assert_eq!(get_char_score(c), v, "{c}");
    }
}

#[test]
fn vertical_move_is_found_and_turned_back() {
    let mut f = empty_field();
    f.cells[7][7] = 'к';
    f.cells[8][7] = 'о';
    f.cells[9][7] = 'т';
    let d = dictionary_of(&["кота"]);
    let hand = CharCounter::from_str("а");
    assert_eq!(solve(&f, &d, &hand).0, 0);
    let (score, count, board) = solve_both_orientations(&f, &d, &hand);
    assert_eq!(score, 50001);
    assert_eq!(count, 1);
    let mut expected = f;
    expected.cells[10][7] = 'а';
    assert!(same_board(&board, &expected));
}

#[test]
fn equal_orientations_add_counts() {
    let mut f = empty_field();
    put(&mut f, 7, 7, "к");
    let d = dictionary_of(&["ка"]);
    let hand = CharCounter::from_str("а");
    let (score, count, board) = solve_both_orientations(&f, &d, &hand);
    // "ка" to the right of or below 'к': both on plain cells.
    assert_eq!(score, 3 * 10_000 + 1);
    assert_eq!(count, 2);
    assert_eq!(board.cells[7][8], 'а');
    assert_eq!(board.cells[8][7], EMPTY_CELL_CHAR);
}

#[test]
fn first_best_board_is_kept() {
    let mut f = empty_field();
    put(&mut f, 7, 7, "к");
    put(&mut f, 3, 5, "к");
    let d = dictionary_of(&["ка"]);
    let hand = CharCounter::from_str("а");
    let words = vec!["ка".to_string()];
    let (score, count, board) = search_words(&f, &d, &hand, &words);
    // Both placements score 3; the one in the upper row is found first.
    assert_eq!(score, 3 * 10_000 + 1);
    assert_eq!(count, 2);
    assert_eq!(board.cells[3][6], 'а');
    assert_eq!(board.cells[7][8], EMPTY_CELL_CHAR);
}

#[test]
fn higher_rank_replaces_board() {
    let mut f = empty_field();
    put(&mut f, 7, 7, "к");
    put(&mut f, 3, 5, "к");
    let d = dictionary_of(&["ка", "кафе"]);
    let hand = CharCounter::from_str("афе");
    let words = vec!["ка".to_string(), "кафе".to_string()];
    let (score, count, board) = search_words(&f, &d, &hand, &words);
    // 'ф' on a double-letter cell: 2 + 1 + 20 + 1.
    assert_eq!(score, 24 * 10_000 + 12);
    assert_eq!(count, 1);
    assert_eq!(board.cells[3][7], 'ф');
}

#[test]
fn counter_takes_long_strings() {
    let mut s = String::new();
    for _ in 0..200 {
        s.push('а');
    }
    for _ in 0..100 {
        s.push('б');
    }
    for _ in 0..300 {
        s.push('.');
    }
    let c = CharCounter::from_str(&s);
    assert_eq!(c.sum(), 300);
    assert_eq!(c.score_sum(), 200 + 300);
}

#[test]
fn rejected_isolated_word_leaves_board() {
    let mut f = empty_field();
    put(&mut f, 0, 0, "да");
    let before = f;
    let w = create_word("кот", 7, 7).unwrap();
    assert!(f.try_add_word_and_get_new_letters_counter(&w).is_err());
    assert!(same_board(&f, &before));
}
