use vstd::prelude::*;

use crate::char_counter::{
    lemma_occurrences_bound, lemma_occurrences_subrange, lemma_tally_entry_le_sum, lemma_tally_sum_le,
    lemma_view_len, occurrences, tally_le, tally_of, tally_points, tally_sum, CharCounter,
};
use crate::char_scorer::{is_letter, ALPHABET_SIZE};
use crate::dictionary::{string_views, Dictionary};
use crate::field::{
    lemma_transpose_unique, fresh_letters, move_score, move_valid, on_board, placed_cell, Field, FIELD_WIDTH,
};
use crate::word::{create_word, is_run, Word};

verus! {

/// `new` is `old` with the run `w` laid on it; placeholder flags are unchanged.
pub open spec fn is_placement(old: Field, w: Seq<(usize, usize, char)>, new: Field) -> bool {
    &&& forall|i: int, j: int| on_board(i, j) ==> #[trigger] new.cell(i, j) == placed_cell(old, w, i, j)
    &&& new.is_placeholder_char == old.is_placeholder_char
}

/// Laying `w` on `old` with tiles from `hand` is a legal move that gives board `new`
/// and ranks `s`: the move's score times 10 000, plus the value of the tiles used,
/// which breaks ties.
pub open spec fn move_outcome(
    old: Field,
    words: Set<Seq<char>>,
    hand: Seq<nat>,
    w: Seq<(usize, usize, char)>,
    s: int,
    new: Field,
) -> bool {
    let fresh = tally_of(fresh_letters(old, w));
    let used = tally_sum(fresh, ALPHABET_SIZE as int);
    &&& !old.isolated(w)
    &&& !old.conflicts(w)
    &&& tally_le(fresh, hand)
    &&& is_placement(old, w, new)
    &&& move_valid(new, old, words, w, used)
    &&& s == 10000 * move_score(new, old, w, used) + tally_points(fresh, ALPHABET_SIZE as int)
    &&& s <= i32::MAX
}

/// The run that lays `text` from cell (`i`, `j`) to the right.
pub open spec fn run_of(text: Seq<char>, i: int, j: int) -> Seq<(usize, usize, char)> {
    Seq::new(text.len(), |k: int| (i as usize, (j + k) as usize, text[k]))
}

/// Every character of `text` is a letter.
pub open spec fn all_letters(text: Seq<char>) -> bool {
    forall|k: int| 0 <= k < text.len() ==> is_letter(#[trigger] text[k])
}

/// The cells of row `i` of `f`, left to right.
pub open spec fn row_letters(f: Field, i: int) -> Seq<char> {
    Seq::new(FIELD_WIDTH as nat, |j: int| f.cell(i, j))
}

/// Tiles that the hand and row `i` of `f` hold together.
pub open spec fn line_tally(f: Field, hand: Seq<nat>, i: int) -> Seq<nat> {
    Seq::new(ALPHABET_SIZE as nat, |k: int| hand[k] + occurrences(row_letters(f, i), k))
}

/// Along the first `p` letters of a word laid without conflict from cell (`i`, `j`),
/// each letter either is new or already stands in the row.
proof fn lemma_word_prefix_split(old: Field, text: Seq<char>, i: int, j: int, p: int, x: int)
    requires
        0 <= i < FIELD_WIDTH,
        0 <= j,
        j + text.len() <= FIELD_WIDTH,
        0 <= p <= text.len(),
        !old.conflicts(run_of(text, i, j)),
    ensures
        occurrences(text.take(p), x) == occurrences(fresh_letters(old, run_of(text, i, j).take(p)), x)
            + occurrences(row_letters(old, i).subrange(j, j + p), x),
    decreases p,
{
    let w = run_of(text, i, j);
    let row = row_letters(old, i);
    if p > 0 {
        lemma_word_prefix_split(old, text, i, j, p - 1, x);
        assert(text.take(p).drop_last() =~= text.take(p - 1));
        assert(w.take(p).drop_last() =~= w.take(p - 1));
        assert(row.subrange(j, j + p).drop_last() =~= row.subrange(j, j + p - 1));
        assert(w.take(p).last() == w[p - 1]);
        let c = old.cell(i, j + p - 1);
        assert(old.cell(w[p - 1].0 as int, w[p - 1].1 as int) == c);
        let fresh = fresh_letters(old, w.take(p - 1));
        if c == '.' {
            assert(fresh.push(text[p - 1]).drop_last() =~= fresh);
        } else {
            assert(c == text[p - 1]);
        }
    } else {
        assert(text.take(0) =~= Seq::<char>::empty());
        assert(row.subrange(j, j) =~= Seq::<char>::empty());
    }
}

/// A legal move's word uses no more of any letter than the hand and the row hold
/// together, so the search loses no move by passing over rows that fall short.
pub proof fn lemma_move_within_line(
    old: Field,
    words: Set<Seq<char>>,
    hand: Seq<nat>,
    text: Seq<char>,
    i: int,
    j: int,
    s: int,
    new: Field,
)
    requires
        0 <= i < FIELD_WIDTH,
        0 <= j,
        j + text.len() <= FIELD_WIDTH,
        move_outcome(old, words, hand, run_of(text, i, j), s, new),
    ensures
        tally_le(tally_of(text), line_tally(old, hand, i)),
{
    let w = run_of(text, i, j);
    assert forall|x: int| 0 <= x < ALPHABET_SIZE implies #[trigger] tally_of(text)[x] <= line_tally(
        old,
        hand,
        i,
    )[x] by {
        lemma_word_prefix_split(old, text, i, j, text.len() as int, x);
        assert(text.take(text.len() as int) =~= text);
        assert(w.take(text.len() as int) =~= w);
        lemma_occurrences_subrange(row_letters(old, i), j, j + text.len(), x);
        assert(tally_of(fresh_letters(old, w))[x] <= hand[x]);
    }
}

/// A word that touches nothing on the board is no move, whatever the dictionary holds.
pub proof fn lemma_isolated_word_rejected(
    old: Field,
    words: Set<Seq<char>>,
    hand: Seq<nat>,
    w: Seq<(usize, usize, char)>,
    s: int,
    new: Field,
)
    requires
        old.isolated(w),
    ensures
        !move_outcome(old, words, hand, w, s, new),
{
}

/// On a board with no letters every word touches nothing, so no placement is a move:
/// the first word cannot be laid through this search.
pub proof fn lemma_empty_board_has_no_move(
    old: Field,
    words: Set<Seq<char>>,
    hand: Seq<nat>,
    w: Seq<(usize, usize, char)>,
    s: int,
    new: Field,
)
    requires
        forall|i: int, j: int| on_board(i, j) ==> #[trigger] old.cell(i, j) == '.',
    ensures
        !move_outcome(old, words, hand, w, s, new),
{
    assert(old.isolated(w));
}

/// A word that meets a cell holding another letter is no move.
pub proof fn lemma_conflicting_word_rejected(
    old: Field,
    words: Set<Seq<char>>,
    hand: Seq<nat>,
    w: Seq<(usize, usize, char)>,
    s: int,
    new: Field,
)
    requires
        old.conflicts(w),
    ensures
        !move_outcome(old, words, hand, w, s, new),
{
}

/// Laying a run on a board gives one board only.
pub proof fn lemma_placement_unique(old: Field, w: Seq<(usize, usize, char)>, a: Field, b: Field)
    requires
        is_placement(old, w, a),
        is_placement(old, w, b),
    ensures
        a == b,
{
    assert forall|i: int| 0 <= i < FIELD_WIDTH implies a.cells@[i] == b.cells@[i] by {
        assert forall|j: int| 0 <= j < FIELD_WIDTH implies #[trigger] a.cells@[i]@[j] == b.cells@[i]@[j] by {
            assert(a.cell(i, j) == b.cell(i, j));
        }
        assert(a.cells@[i]@ =~= b.cells@[i]@);
    }
    assert(a.cells@ =~= b.cells@);
    assert(a.cells == b.cells);
}

/// Tries the move that lays `word` on `old_field` with tiles from `on_hand_letters`.
/// On success returns its rank (the score times 10 000, plus the value of the tiles
/// used) and the new board.
pub fn get_score_and_new_field(
    old_field: &Field,
    dictionary: &Dictionary,
    on_hand_letters: &CharCounter,
    word: &Word,
) -> (r: Result<(i32, Field), ()>)
    requires
        old_field.wf(),
        is_run(word@),
        forall|k: int| 0 <= k < word@.len() ==> is_letter(#[trigger] word@[k].2),
        tally_sum(on_hand_letters@, ALPHABET_SIZE as int) <= 7,
    ensures
        r matches Ok((rank, _)) ==> rank >= 1,
        r matches Ok((rank, after)) ==> move_outcome(
            *old_field,
            dictionary@,
            on_hand_letters@,
            word@,
            rank as int,
            after,
        ),
        r is Err ==> forall|s: int, new: Field|
            !move_outcome(*old_field, dictionary@, on_hand_letters@, word@, s, new),
{
    let ghost w = word@;
    let mut new_field = *old_field;
    let new_letters_counter = match new_field.try_add_word_and_get_new_letters_counter(word) {
        Ok(c) => c,
        Err(()) => {
            return Err(());
        },
    };
    if !new_letters_counter.is_less_than_or_eq(on_hand_letters) {
        return Err(());
    }
    let used = new_letters_counter.sum();
    proof {
        lemma_view_len(new_letters_counter);
        lemma_view_len(*on_hand_letters);
        lemma_tally_sum_le(new_letters_counter@, on_hand_letters@, ALPHABET_SIZE as int);
        assert forall|new: Field| #[trigger] is_placement(*old_field, w, new) implies new == new_field by {
            lemma_placement_unique(*old_field, w, new, new_field);
        }
    }
    if word.len() == 0 {
        return Err(());
    }
    let points = new_letters_counter.score_sum();
    let score = match new_field.get_horizontal_move_score(old_field, word, dictionary, used) {
        Ok(s) => s,
        Err(()) => {
            return Err(());
        },
    };
    let total = score as i64 * 10000 + points as i64;
    if total > i32::MAX as i64 {
        return Err(());
    }
    Ok((total as i32, new_field))
}

/// A placement that the search weighs: a word of `words` made of letters only, laid
/// from cell (`i`, `j`) to the right without leaving the board.
pub open spec fn considered(
    old: Field,
    words: Set<Seq<char>>,
    hand: Seq<nat>,
    text: Seq<char>,
    i: int,
    j: int,
) -> bool {
    &&& words.contains(text)
    &&& all_letters(text)
    &&& 0 <= i < FIELD_WIDTH
    &&& 0 <= j
    &&& j + text.len() <= FIELD_WIDTH
}

/// Some move lays `text` from cell (`i`, `j`) among the placements that the search weighs.
pub open spec fn has_move(
    old: Field,
    words: Set<Seq<char>>,
    hand: Seq<nat>,
    text: Seq<char>,
    i: int,
    j: int,
) -> bool {
    exists|s: int, new: Field|
        considered(old, words, hand, text, i, j) && #[trigger] move_outcome(
            old,
            words,
            hand,
            run_of(text, i, j),
            s,
            new,
        )
}

/// Rank and board of the move that lays `text` from cell (`i`, `j`), where there is one.
pub open spec fn move_choice(
    old: Field,
    words: Set<Seq<char>>,
    hand: Seq<nat>,
    text: Seq<char>,
    i: int,
    j: int,
) -> (int, Field) {
    choose|s: int, new: Field|
        considered(old, words, hand, text, i, j) && #[trigger] move_outcome(
            old,
            words,
            hand,
            run_of(text, i, j),
            s,
            new,
        )
}

/// The search's state — best rank, number of placements that reached it, board of the
/// first that did — after it has also tried `text` at cell (`i`, `j`): a higher rank
/// takes over, an equal one is counted (up to `i32::MAX`), anything else changes nothing.
pub open spec fn after_placement(
    st: (int, int, Field),
    old: Field,
    words: Set<Seq<char>>,
    hand: Seq<nat>,
    text: Seq<char>,
    i: int,
    j: int,
) -> (int, int, Field) {
    if has_move(old, words, hand, text, i, j) {
        let (s, new) = move_choice(old, words, hand, text, i, j);
        if s > st.0 {
            (s, 1, new)
        } else if s == st.0 {
            (st.0, if st.1 < i32::MAX {
                st.1 + 1
            } else {
                st.1
            }, st.2)
        } else {
            st
        }
    } else {
        st
    }
}

/// The search's state after trying `text` in row `i` at the first `n` columns.
pub open spec fn row_search(
    st: (int, int, Field),
    old: Field,
    words: Set<Seq<char>>,
    hand: Seq<nat>,
    text: Seq<char>,
    i: int,
    n: int,
) -> (int, int, Field)
    decreases n,
{
    if n <= 0 {
        st
    } else {
        after_placement(row_search(st, old, words, hand, text, i, n - 1), old, words, hand, text, i, n - 1)
    }
}

/// The search's state after trying `text` in the first `n` rows.
pub open spec fn word_search(
    st: (int, int, Field),
    old: Field,
    words: Set<Seq<char>>,
    hand: Seq<nat>,
    text: Seq<char>,
    n: int,
) -> (int, int, Field)
    decreases n,
{
    if n <= 0 {
        st
    } else {
        row_search(
            word_search(st, old, words, hand, text, n - 1),
            old,
            words,
            hand,
            text,
            n - 1,
            FIELD_WIDTH as int,
        )
    }
}

/// The search's state after trying the first `n` words of `ws`, starting from no move
/// and the board `old`.
pub open spec fn list_search(
    old: Field,
    words: Set<Seq<char>>,
    hand: Seq<nat>,
    ws: Seq<Seq<char>>,
    n: int,
) -> (int, int, Field)
    decreases n,
{
    if n <= 0 {
        (0, 0, old)
    } else {
        word_search(list_search(old, words, hand, ws, n - 1), old, words, hand, ws[n - 1], FIELD_WIDTH as int)
    }
}

/// Trying placements that are no moves leaves the search's state as it was.
proof fn lemma_row_idle(
    st: (int, int, Field),
    old: Field,
    words: Set<Seq<char>>,
    hand: Seq<nat>,
    text: Seq<char>,
    i: int,
    n: int,
)
    requires
        forall|j: int| 0 <= j < n ==> !#[trigger] has_move(old, words, hand, text, i, j),
    ensures
        row_search(st, old, words, hand, text, i, n) == st,
    decreases n,
{
    if n > 0 {
        lemma_row_idle(st, old, words, hand, text, i, n - 1);
        assert(!has_move(old, words, hand, text, i, n - 1));
    }
}

/// A word too long for a row leaves the search's state as it was.
proof fn lemma_word_idle(
    st: (int, int, Field),
    old: Field,
    words: Set<Seq<char>>,
    hand: Seq<nat>,
    text: Seq<char>,
    n: int,
)
    requires
        text.len() > FIELD_WIDTH,
    ensures
        word_search(st, old, words, hand, text, n) == st,
    decreases n,
{
    if n > 0 {
        lemma_word_idle(st, old, words, hand, text, n - 1);
        lemma_row_idle(st, old, words, hand, text, n - 1, FIELD_WIDTH as int);
    }
}

/// Searches the horizontal moves on `old_field` with tiles from `on_hand_letters`, trying
/// the words of `words` in order, each on every row from the top and every column from
/// the left. Returns the best rank found (0 when there is no move), how many placements
/// reached it, and the board of the first placement that reached it (`old_field` itself
/// when there is no move): only a strictly higher rank replaces the board.
pub fn search_words(
    old_field: &Field,
    dictionary: &Dictionary,
    on_hand_letters: &CharCounter,
    words: &Vec<String>,
) -> (r: (i32, i32, Field))
    requires
        old_field.wf(),
        tally_sum(on_hand_letters@, ALPHABET_SIZE as int) <= 7,
        forall|k: int|
            0 <= k < words@.len() ==> dictionary@.contains(#[trigger] words@[k]@) && all_letters(
                words@[k]@,
            ),
    ensures
        (r.0 as int, r.1 as int, r.2) == list_search(
            *old_field,
            dictionary@,
            on_hand_letters@,
            string_views(words@),
            words@.len() as int,
        ),
        r.1 == capped(
            list_ties(
                *old_field,
                dictionary@,
                on_hand_letters@,
                string_views(words@),
                words@.len() as int,
                r.0 as int,
            ) as int,
        ),
        forall|m: int, i: int, j: int, s: int, new: Field|
            0 <= m < words@.len() && considered(*old_field, dictionary@, on_hand_letters@, words@[m]@, i, j)
                && #[trigger] move_outcome(
                *old_field,
                dictionary@,
                on_hand_letters@,
                run_of(words@[m]@, i, j),
                s,
                new,
            ) ==> s <= r.0,
        r.0 >= 0,
        r.0 == 0 ==> r.2 == *old_field && r.1 == 0,
        r.1 >= 0,
        r.0 > 0 ==> r.1 >= 1,
        r.0 > 0 ==> exists|text: Seq<char>, i: int, j: int|
            considered(*old_field, dictionary@, on_hand_letters@, text, i, j) && #[trigger] move_outcome(
                *old_field,
                dictionary@,
                on_hand_letters@,
                run_of(text, i, j),
                r.0 as int,
                r.2,
            ),
{
    let ghost old = *old_field;
    let ghost dict = dictionary@;
    let ghost hand = on_hand_letters@;
    let mut best_score: i32 = 0;
    let mut best_field = *old_field;
    let mut best_cnt: i32 = 0;
    proof {
        lemma_view_len(*on_hand_letters);
        assert forall|k: int| 0 <= k < ALPHABET_SIZE implies #[trigger] hand[k] <= 7 by {
            lemma_tally_entry_le_sum(hand, ALPHABET_SIZE as int, k);
        }
    }
    let ghost ws = string_views(words@);
    let mut wi: usize = 0;
    while wi < words.len()
        invariant
            old == *old_field,
            dict == dictionary@,
            hand == on_hand_letters@,
            old.wf(),
            tally_sum(hand, ALPHABET_SIZE as int) <= 7,
            forall|k: int| 0 <= k < ALPHABET_SIZE ==> #[trigger] hand[k] <= 7,
            forall|k: int| 0 <= k < words@.len() ==> dict.contains(#[trigger] words@[k]@) && all_letters(words@[k]@),
            ws == string_views(words@),
            wi <= words@.len(),
            (best_score as int, best_cnt as int, best_field) == list_search(old, dict, hand, ws, wi as int),
            best_score >= 0,
            best_score == 0 ==> best_field == old && best_cnt == 0,
            best_cnt >= 0,
            best_score > 0 ==> best_cnt >= 1 && exists|text: Seq<char>, i: int, j: int|
                considered(old, dict, hand, text, i, j) && #[trigger] move_outcome(
                    old,
                    dict,
                    hand,
                    run_of(text, i, j),
                    best_score as int,
                    best_field,
                ),
            forall|m: int, i: int, j: int, s: int, new: Field|
                0 <= m < wi && considered(old, dict, hand, words@[m]@, i, j) && #[trigger] move_outcome(
                    old,
                    dict,
                    hand,
                    run_of(words@[m]@, i, j),
                    s,
                    new,
                ) ==> s <= best_score,
        decreases words@.len() - wi,
    {
        let word_str = words[wi].as_str();
        let ghost text = word_str@;
        let n = word_str.unicode_len();
        assert(text == ws[wi as int]);
        if n <= FIELD_WIDTH {
            proof {
                assert forall|x: int| 0 <= x < ALPHABET_SIZE implies #[trigger] occurrences(text, x) <= 255 by {
                    lemma_occurrences_bound(text, x);
                }
            }
            let word_letters = CharCounter::from_str(word_str);
            proof {
                lemma_view_len(word_letters);
            }
            let mut i: usize = 0;
            while i < FIELD_WIDTH
                invariant
                    old == *old_field,
                    dict == dictionary@,
                    hand == on_hand_letters@,
                    old.wf(),
                    tally_sum(hand, ALPHABET_SIZE as int) <= 7,
                    forall|k: int| 0 <= k < ALPHABET_SIZE ==> #[trigger] hand[k] <= 7,
                    forall|k: int| 0 <= k < words@.len() ==> dict.contains(#[trigger] words@[k]@) && all_letters(words@[k]@),
                    ws == string_views(words@),
                    wi < words@.len(),
                    (best_score as int, best_cnt as int, best_field) == word_search(
                        list_search(old, dict, hand, ws, wi as int),
                        old,
                        dict,
                        hand,
                        text,
                        i as int,
                    ),
                    text == words@[wi as int]@,
                    text == word_str@,
                    n == text.len(),
                    n <= FIELD_WIDTH,
                    all_letters(text),
                    word_letters@.len() == ALPHABET_SIZE,
                    forall|k: int| 0 <= k < ALPHABET_SIZE ==> #[trigger] word_letters@[k] == occurrences(text, k),
                    i <= FIELD_WIDTH,
                    best_score >= 0,
                    best_score == 0 ==> best_field == old && best_cnt == 0,
            best_cnt >= 0,
                    best_score > 0 ==> best_cnt >= 1 && exists|text: Seq<char>, i: int, j: int|
                        considered(old, dict, hand, text, i, j) && #[trigger] move_outcome(
                            old,
                            dict,
                            hand,
                            run_of(text, i, j),
                            best_score as int,
                            best_field,
                        ),
                    forall|m: int, i: int, j: int, s: int, new: Field|
                        0 <= m < wi && considered(old, dict, hand, words@[m]@, i, j) && #[trigger] move_outcome(
                            old,
                            dict,
                            hand,
                            run_of(words@[m]@, i, j),
                            s,
                            new,
                        ) ==> s <= best_score,
                    forall|i2: int, j: int, s: int, new: Field|
                        0 <= i2 < i && considered(old, dict, hand, text, i2, j) && #[trigger] move_outcome(
                            old,
                            dict,
                            hand,
                            run_of(text, i2, j),
                            s,
                            new,
                        ) ==> s <= best_score,
                decreases FIELD_WIDTH - i,
            {
                let ghost row = row_letters(old, i as int);
                let mut line_chars_counter = *on_hand_letters;
                proof {
                    lemma_view_len(line_chars_counter);
                    assert(row.take(0) =~= Seq::<char>::empty());
                }
                let mut c_j: usize = 0;
                while c_j < FIELD_WIDTH
                    invariant
                        old == *old_field,
                        hand == on_hand_letters@,
                        old.wf(),
                        forall|k: int| 0 <= k < ALPHABET_SIZE ==> #[trigger] hand[k] <= 7,
                        i < FIELD_WIDTH,
                        row == row_letters(old, i as int),
                        c_j <= FIELD_WIDTH,
                        line_chars_counter@.len() == ALPHABET_SIZE,
                        forall|k: int|
                            0 <= k < ALPHABET_SIZE ==> #[trigger] line_chars_counter@[k] == hand[k] + occurrences(
                                row.take(c_j as int),
                                k,
                            ) && line_chars_counter@[k] <= 7 + c_j,
                    decreases FIELD_WIDTH - c_j,
                {
                    let c = old_field.cells[i][c_j];
                    assert(row.take(c_j as int + 1).drop_last() =~= row.take(c_j as int));
                    assert(row.take(c_j as int + 1).last() == c);
                    assert(old.cell(i as int, c_j as int) == c);
                    line_chars_counter.increment(c);
                    proof {
                        lemma_view_len(line_chars_counter);
                    }
                    c_j += 1;
                }
                assert(row.take(FIELD_WIDTH as int) =~= row);
                let ghost line = line_tally(old, hand, i as int);
                assert(line_chars_counter@ =~= line);
                assert(word_letters@ =~= tally_of(text));
                if word_letters.is_less_than_or_eq(&line_chars_counter) {
                    let mut j: usize = 0;
                    while j < FIELD_WIDTH
                        invariant
                            old == *old_field,
                            dict == dictionary@,
                            hand == on_hand_letters@,
                            old.wf(),
                            tally_sum(hand, ALPHABET_SIZE as int) <= 7,
                            forall|k: int| 0 <= k < words@.len() ==> dict.contains(#[trigger] words@[k]@) && all_letters(words@[k]@),
                            ws == string_views(words@),
                            wi < words@.len(),
                            (best_score as int, best_cnt as int, best_field) == row_search(
                                word_search(list_search(old, dict, hand, ws, wi as int), old, dict, hand, text, i as int),
                                old,
                                dict,
                                hand,
                                text,
                                i as int,
                                j as int,
                            ),
                            text == words@[wi as int]@,
                            text == word_str@,
                            n == text.len(),
                            all_letters(text),
                            dict.contains(text),
                            tally_le(tally_of(text), line_tally(old, hand, i as int)),
                            i < FIELD_WIDTH,
                            j <= FIELD_WIDTH,
                            forall|m: int, i: int, j: int, s: int, new: Field|
                                0 <= m < wi && considered(old, dict, hand, words@[m]@, i, j)
                                    && #[trigger] move_outcome(
                                    old,
                                    dict,
                                    hand,
                                    run_of(words@[m]@, i, j),
                                    s,
                                    new,
                                ) ==> s <= best_score,
                            forall|i2: int, j: int, s: int, new: Field|
                                0 <= i2 < i && considered(old, dict, hand, text, i2, j)
                                    && #[trigger] move_outcome(
                                    old,
                                    dict,
                                    hand,
                                    run_of(text, i2, j),
                                    s,
                                    new,
                                ) ==> s <= best_score,
                            best_score >= 0,
                            best_score == 0 ==> best_field == old && best_cnt == 0,
            best_cnt >= 0,
                            best_score > 0 ==> best_cnt >= 1 && exists|text: Seq<char>, i: int, j: int|
                                considered(old, dict, hand, text, i, j) && #[trigger] move_outcome(
                                    old,
                                    dict,
                                    hand,
                                    run_of(text, i, j),
                                    best_score as int,
                                    best_field,
                                ),
                            forall|j2: int, s: int, new: Field|
                                0 <= j2 < j && considered(old, dict, hand, text, i as int, j2)
                                    && #[trigger] move_outcome(
                                    old,
                                    dict,
                                    hand,
                                    run_of(text, i as int, j2),
                                    s,
                                    new,
                                ) ==> s <= best_score,
                        decreases FIELD_WIDTH - j,
                    {
                        let ghost before = (best_score as int, best_cnt as int, best_field);
                        if let Ok(word) = create_word(word_str, i, j) {
                            assert(word@ =~= run_of(text, i as int, j as int));
                            if let Ok((score, new_field)) = get_score_and_new_field(
                                old_field,
                                dictionary,
                                on_hand_letters,
                                &word,
                            ) {
                                assert(considered(old, dict, hand, text, i as int, j as int));
                                assert forall|s: int, new: Field|
                                    #[trigger] move_outcome(old, dict, hand, word@, s, new) implies s == score
                                    && new == new_field by {
                                    lemma_placement_unique(old, word@, new, new_field);
                                }
                                assert(has_move(old, dict, hand, text, i as int, j as int));
                                let ghost ch = move_choice(old, dict, hand, text, i as int, j as int);
                                assert(move_outcome(old, dict, hand, word@, ch.0, ch.1));
                                assert(ch.0 == score && ch.1 == new_field);
                                if score > best_score {
                                    best_score = score;
                                    best_field = new_field;
                                    best_cnt = 1;
                                } else if score == best_score {
                                    if best_cnt < i32::MAX {
                                        best_cnt = best_cnt + 1;
                                    }
                                }
                            } else {
                                assert(!has_move(old, dict, hand, text, i as int, j as int));
                            }
                        } else {
                            assert(!has_move(old, dict, hand, text, i as int, j as int));
                        }
                        assert((best_score as int, best_cnt as int, best_field) == after_placement(
                            before,
                            old,
                            dict,
                            hand,
                            text,
                            i as int,
                            j as int,
                        ));
                        j += 1;
                    }
                } else {
                    assert forall|j: int, s: int, new: Field|
                        considered(old, dict, hand, text, i as int, j) && #[trigger] move_outcome(
                            old,
                            dict,
                            hand,
                            run_of(text, i as int, j),
                            s,
                            new,
                        ) implies s <= best_score by {
                        lemma_move_within_line(old, dict, hand, text, i as int, j, s, new);
                    }
                    assert forall|j: int| 0 <= j < FIELD_WIDTH implies !#[trigger] has_move(
                        old,
                        dict,
                        hand,
                        text,
                        i as int,
                        j,
                    ) by {
                        if has_move(old, dict, hand, text, i as int, j) {
                            let ch = move_choice(old, dict, hand, text, i as int, j);
                            lemma_move_within_line(old, dict, hand, text, i as int, j, ch.0, ch.1);
                        }
                    }
                    proof {
                        lemma_row_idle(
                            word_search(list_search(old, dict, hand, ws, wi as int), old, dict, hand, text, i as int),
                            old,
                            dict,
                            hand,
                            text,
                            i as int,
                            FIELD_WIDTH as int,
                        );
                    }
                }
                i += 1;
            }
        } else {
            proof {
                lemma_word_idle(list_search(old, dict, hand, ws, wi as int), old, dict, hand, text, FIELD_WIDTH as int);
            }
        }
        wi += 1;
    }
    let result = (best_score, best_cnt, best_field);
    proof {
        lemma_list_counts_ties(old, dict, hand, ws, words@.len() as int);
        if best_score > 0 {
            let (t, a, b) = choose|t: Seq<char>, a: int, b: int|
                considered(old, dict, hand, t, a, b) && #[trigger] move_outcome(
                    old,
                    dict,
                    hand,
                    run_of(t, a, b),
                    best_score as int,
                    best_field,
                );
            assert(considered(*old_field, dictionary@, on_hand_letters@, t, a, b));
            assert(move_outcome(
                *old_field,
                dictionary@,
                on_hand_letters@,
                run_of(t, a, b),
                result.0 as int,
                result.2,
            ));
        }
    }
    result
}


/// `r` is what the search gives when it tries the words of `words` in some order that
/// lists each of them once; its count is the number of placements whose move ranks
/// `r.0`, up to `i32::MAX`.
pub open spec fn search_result(
    old: Field,
    words: Set<Seq<char>>,
    hand: Seq<nat>,
    r: (int, int, Field),
) -> bool {
    exists|ws: Seq<Seq<char>>|
        ws.no_duplicates() && (forall|w: Seq<char>| #[trigger] ws.contains(w) <==> words.contains(w)) && r
            == #[trigger] list_search(old, words, hand, ws, ws.len() as int) && r.1 == capped(
            list_ties(old, words, hand, ws, ws.len() as int, r.0) as int,
        )
}

/// Every word of the dictionary is made of letters.
pub open spec fn letters_only(words: Set<Seq<char>>) -> bool {
    forall|w: Seq<char>| #[trigger] words.contains(w) ==> all_letters(w)
}

/// Searches the horizontal moves on `old_field` with tiles from `on_hand_letters`, trying
/// the dictionary's words in the order the dictionary lists them. Returns the best rank
/// (0 when there is no move), how many placements reached it, and the board of the
/// first placement that reached it (`old_field` when there is no move).
pub fn solve(old_field: &Field, dictionary: &Dictionary, on_hand_letters: &CharCounter) -> (r: (
    i32,
    i32,
    Field,
))
    requires
        old_field.wf(),
        tally_sum(on_hand_letters@, ALPHABET_SIZE as int) <= 7,
        letters_only(dictionary@),
    ensures
        search_result(*old_field, dictionary@, on_hand_letters@, (r.0 as int, r.1 as int, r.2)),
        r.0 >= 0,
        r.0 == 0 ==> r.2 == *old_field && r.1 == 0,
        r.1 >= 0,
        r.0 > 0 ==> r.1 >= 1 && exists|text: Seq<char>, i: int, j: int|
            considered(*old_field, dictionary@, on_hand_letters@, text, i, j) && #[trigger] move_outcome(
                *old_field,
                dictionary@,
                on_hand_letters@,
                run_of(text, i, j),
                r.0 as int,
                r.2,
            ),
        forall|text: Seq<char>, i: int, j: int, s: int, new: Field|
            considered(*old_field, dictionary@, on_hand_letters@, text, i, j) && #[trigger] move_outcome(
                *old_field,
                dictionary@,
                on_hand_letters@,
                run_of(text, i, j),
                s,
                new,
            ) ==> s <= r.0,
{
    let words = dictionary.words();
    let r = search_words(old_field, dictionary, on_hand_letters, &words);
    proof {
        let ws = string_views(words@);
        assert forall|w: Seq<char>| #[trigger] ws.contains(w) <==> dictionary@.contains(w) by {
            if dictionary@.contains(w) {
                let k = choose|k: int| 0 <= k < words@.len() && #[trigger] words@[k]@ == w;
                assert(ws[k] == w);
            }
            if ws.contains(w) {
                let k = choose|k: int| 0 <= k < ws.len() && ws[k] == w;
                assert(words@[k]@ == w);
            }
        }
        assert(ws.len() == words@.len());
        lemma_list_counts_ties(*old_field, dictionary@, on_hand_letters@, ws, ws.len() as int);
        assert(search_result(*old_field, dictionary@, on_hand_letters@, (r.0 as int, r.1 as int, r.2)));
        assert forall|text: Seq<char>, i: int, j: int, s: int, new: Field|
            considered(*old_field, dictionary@, on_hand_letters@, text, i, j) && #[trigger] move_outcome(
                *old_field,
                dictionary@,
                on_hand_letters@,
                run_of(text, i, j),
                s,
                new,
            ) implies s <= r.0 by {
            let m = choose|m: int| 0 <= m < words@.len() && #[trigger] words@[m]@ == text;
            assert(move_outcome(
                *old_field,
                dictionary@,
                on_hand_letters@,
                run_of(words@[m]@, i, j),
                s,
                new,
            ));
        }
    }
    r
}

/// How the results of the two orientations combine: the higher rank wins; the vertical
/// result's board is turned back; on equal ranks the counts add up (to at most
/// `i32::MAX`) and the horizontal board is kept.
pub open spec fn combine_orientations(h: (int, int, Field), v: (int, int, Field), r: (int, int, Field)) -> bool {
    if h.0 > v.0 {
        r == h
    } else if h.0 < v.0 {
        r.0 == v.0 && r.1 == v.1 && r.2.is_transpose_of(v.2)
    } else {
        r.0 == h.0 && r.1 == (if h.1 + v.1 > i32::MAX {
            i32::MAX as int
        } else {
            h.1 + v.1
        }) && r.2 == h.2
    }
}

/// Searches horizontal and vertical moves: the vertical ones as horizontal moves on the
/// mirrored board, whose best board is mirrored back.
pub fn solve_both_orientations(
    old_field: &Field,
    dictionary: &Dictionary,
    on_hand_letters: &CharCounter,
) -> (r: (i32, i32, Field))
    requires
        old_field.wf(),
        tally_sum(on_hand_letters@, ALPHABET_SIZE as int) <= 7,
        letters_only(dictionary@),
    ensures
        r.0 >= 0,
        r.0 == 0 ==> r.1 == 0 && r.2 == *old_field,
        exists|h: (int, int, Field), v: (int, int, Field), tf: Field|
            tf.is_transpose_of(*old_field) && search_result(*old_field, dictionary@, on_hand_letters@, h)
                && #[trigger] search_result(tf, dictionary@, on_hand_letters@, v) && #[trigger] combine_orientations(
                h,
                v,
                (r.0 as int, r.1 as int, r.2),
            ),
        forall|text: Seq<char>, i: int, j: int, s: int, new: Field|
            considered(*old_field, dictionary@, on_hand_letters@, text, i, j) && #[trigger] move_outcome(
                *old_field,
                dictionary@,
                on_hand_letters@,
                run_of(text, i, j),
                s,
                new,
            ) ==> s <= r.0,
        forall|tf: Field, text: Seq<char>, i: int, j: int, s: int, new: Field|
            tf.is_transpose_of(*old_field) && considered(tf, dictionary@, on_hand_letters@, text, i, j)
                && #[trigger] move_outcome(tf, dictionary@, on_hand_letters@, run_of(text, i, j), s, new)
                ==> s <= r.0,
{
    let (score1, best_cnt1, new_field1) = solve(old_field, dictionary, on_hand_letters);
    let mut transposed = *old_field;
    transposed.transpose();
    assert forall|i: int, j: int| on_board(i, j) implies #[trigger] transposed.cell(i, j) == '.' || is_letter(
        transposed.cell(i, j),
    ) by {
        assert(transposed.cell(i, j) == old_field.cell(j, i));
    }
    let (score2, best_cnt2, mut new_field2) = solve(&transposed, dictionary, on_hand_letters);
    let ghost vertical_board = new_field2;
    new_field2.transpose();
    let r = if score1 > score2 {
        (score1, best_cnt1, new_field1)
    } else if score1 < score2 {
        (score2, best_cnt2, new_field2)
    } else {
        let cnt = if best_cnt1 as i64 + best_cnt2 as i64 > i32::MAX as i64 {
            i32::MAX
        } else {
            best_cnt1 + best_cnt2
        };
        (score1, cnt, new_field1)
    };
    proof {
        let h = (score1 as int, best_cnt1 as int, new_field1);
        let v = (score2 as int, best_cnt2 as int, vertical_board);
        assert(combine_orientations(h, v, (r.0 as int, r.1 as int, r.2)));
        assert forall|tf: Field, text: Seq<char>, i: int, j: int, s: int, new: Field|
            tf.is_transpose_of(*old_field) && considered(tf, dictionary@, on_hand_letters@, text, i, j)
                && #[trigger] move_outcome(tf, dictionary@, on_hand_letters@, run_of(text, i, j), s, new)
                implies s <= r.0 by {
            lemma_transpose_unique(tf, transposed, *old_field);
        }
    }
    r
}


/// Up to `i32::MAX`.
pub open spec fn capped(n: int) -> int {
    if n > i32::MAX {
        i32::MAX as int
    } else {
        n
    }
}

/// Whether the move that lays `text` from cell (`i`, `j`) exists and ranks `b`.
pub open spec fn ranks(
    old: Field,
    words: Set<Seq<char>>,
    hand: Seq<nat>,
    text: Seq<char>,
    i: int,
    j: int,
    b: int,
) -> bool {
    has_move(old, words, hand, text, i, j) && move_choice(old, words, hand, text, i, j).0 == b
}

/// Number of the first `n` columns of row `i` where `text` makes a move of rank `b`.
pub open spec fn row_ties(
    old: Field,
    words: Set<Seq<char>>,
    hand: Seq<nat>,
    text: Seq<char>,
    i: int,
    n: int,
    b: int,
) -> nat
    decreases n,
{
    if n <= 0 {
        0
    } else {
        row_ties(old, words, hand, text, i, n - 1, b) + if ranks(old, words, hand, text, i, n - 1, b) {
            1nat
        } else {
            0nat
        }
    }
}

/// Number of placements of `text` in the first `n` rows that make a move of rank `b`.
pub open spec fn word_ties(
    old: Field,
    words: Set<Seq<char>>,
    hand: Seq<nat>,
    text: Seq<char>,
    n: int,
    b: int,
) -> nat
    decreases n,
{
    if n <= 0 {
        0
    } else {
        word_ties(old, words, hand, text, n - 1, b) + row_ties(
            old,
            words,
            hand,
            text,
            n - 1,
            FIELD_WIDTH as int,
            b,
        )
    }
}

/// Number of placements of the first `n` words of `ws` that make a move of rank `b`.
pub open spec fn list_ties(
    old: Field,
    words: Set<Seq<char>>,
    hand: Seq<nat>,
    ws: Seq<Seq<char>>,
    n: int,
    b: int,
) -> nat
    decreases n,
{
    if n <= 0 {
        0
    } else {
        list_ties(old, words, hand, ws, n - 1, b) + word_ties(old, words, hand, ws[n - 1], FIELD_WIDTH as int, b)
    }
}

/// The count of a search state is the capped number of ties `p` gives at its rank, and
/// `p` gives no placement above that rank.
pub open spec fn counts_ties(st: (int, int, Field), p: spec_fn(int) -> nat) -> bool {
    &&& st.1 == capped(p(st.0) as int)
    &&& forall|b: int| b > st.0 ==> #[trigger] p(b) == 0
}

proof fn lemma_row_counts_ties(
    st: (int, int, Field),
    p: spec_fn(int) -> nat,
    old: Field,
    words: Set<Seq<char>>,
    hand: Seq<nat>,
    text: Seq<char>,
    i: int,
    n: int,
)
    requires
        counts_ties(st, p),
        st.1 >= 0,
    ensures
        counts_ties(
            row_search(st, old, words, hand, text, i, n),
            |b: int| (p(b) + row_ties(old, words, hand, text, i, n, b)) as nat,
        ),
        row_search(st, old, words, hand, text, i, n).1 >= 0,
    decreases n,
{
    if n > 0 {
        lemma_row_counts_ties(st, p, old, words, hand, text, i, n - 1);
        let q = |b: int| (p(b) + row_ties(old, words, hand, text, i, n - 1, b)) as nat;
        let prev = row_search(st, old, words, hand, text, i, n - 1);
        assert(counts_ties(prev, q));
        let next = row_search(st, old, words, hand, text, i, n);
        assert(next == after_placement(prev, old, words, hand, text, i, n - 1));
        let q2 = |b: int| (p(b) + row_ties(old, words, hand, text, i, n, b)) as nat;
        assert forall|b: int| #[trigger] q2(b) == q(b) + if ranks(old, words, hand, text, i, n - 1, b) {
            1int
        } else {
            0int
        } by {}
        if has_move(old, words, hand, text, i, n - 1) {
            let sc = move_choice(old, words, hand, text, i, n - 1).0;
            assert(ranks(old, words, hand, text, i, n - 1, sc));
            assert forall|b: int| b > next.0 implies #[trigger] q2(b) == 0 by {
                assert(q2(b) == q(b) + if ranks(old, words, hand, text, i, n - 1, b) {
                    1int
                } else {
                    0int
                });
            }
            assert(q2(next.0) == q(next.0) + if ranks(old, words, hand, text, i, n - 1, next.0) {
                1int
            } else {
                0int
            });
            if sc > prev.0 {
                assert(q(sc) == 0);
            }
        } else {
            assert forall|b: int| #[trigger] q2(b) == q(b) by {
                assert(!ranks(old, words, hand, text, i, n - 1, b));
            }
        }
    } else {
        let q = |b: int| (p(b) + row_ties(old, words, hand, text, i, n, b)) as nat;
        assert forall|b: int| #[trigger] q(b) == p(b) by {}
    }
}

proof fn lemma_word_counts_ties(
    st: (int, int, Field),
    p: spec_fn(int) -> nat,
    old: Field,
    words: Set<Seq<char>>,
    hand: Seq<nat>,
    text: Seq<char>,
    n: int,
)
    requires
        counts_ties(st, p),
        st.1 >= 0,
    ensures
        counts_ties(
            word_search(st, old, words, hand, text, n),
            |b: int| (p(b) + word_ties(old, words, hand, text, n, b)) as nat,
        ),
        word_search(st, old, words, hand, text, n).1 >= 0,
    decreases n,
{
    let q2 = |b: int| (p(b) + word_ties(old, words, hand, text, n, b)) as nat;
    if n > 0 {
        lemma_word_counts_ties(st, p, old, words, hand, text, n - 1);
        let q = |b: int| (p(b) + word_ties(old, words, hand, text, n - 1, b)) as nat;
        let prev = word_search(st, old, words, hand, text, n - 1);
        lemma_row_counts_ties(prev, q, old, words, hand, text, n - 1, FIELD_WIDTH as int);
        let q3 = |b: int| (q(b) + row_ties(old, words, hand, text, n - 1, FIELD_WIDTH as int, b)) as nat;
        assert forall|b: int| #[trigger] q2(b) == q3(b) by {}
        assert(q2 =~= q3);
    } else {
        assert(q2 =~= p);
    }
}

/// The count that the search returns is the number of placements whose move ranks the
/// best rank, up to `i32::MAX`, and no placement ranks higher.
pub proof fn lemma_list_counts_ties(old: Field, words: Set<Seq<char>>, hand: Seq<nat>, ws: Seq<Seq<char>>, n: int)
    ensures
        counts_ties(list_search(old, words, hand, ws, n), |b: int| list_ties(old, words, hand, ws, n, b)),
        list_search(old, words, hand, ws, n).1 >= 0,
    decreases n,
{
    let q2 = |b: int| list_ties(old, words, hand, ws, n, b);
    if n > 0 {
        lemma_list_counts_ties(old, words, hand, ws, n - 1);
        let q = |b: int| list_ties(old, words, hand, ws, n - 1, b);
        let prev = list_search(old, words, hand, ws, n - 1);
        lemma_word_counts_ties(prev, q, old, words, hand, ws[n - 1], FIELD_WIDTH as int);
        let q3 = |b: int| (q(b) + word_ties(old, words, hand, ws[n - 1], FIELD_WIDTH as int, b)) as nat;
        assert(q2 =~= q3);
    } else {
        assert forall|b: int| b > 0 implies #[trigger] q2(b) == 0 by {}
    }
}

} // verus!
