use vstd::prelude::*;

use crate::char_counter::{lemma_view_len, occurrences, tally_of, CharCounter};
use crate::char_scorer::{get_char_score, is_letter, letter_points, ALPHABET_SIZE};
use crate::dictionary::Dictionary;
use crate::word::{is_run, word_text, Word};

verus! {

/// Number of rows, and of columns, of the board.
pub const FIELD_WIDTH: usize = 15;

/// The marker of an empty cell.
pub const EMPTY_CELL_CHAR: char = '.';

/// Factor by which a cell multiplies the value of a letter first placed on it.
pub const LETTER_MULTIPLIERS: [[i32; 15]; 15] = [
    [1, 1, 1, 2, 1, 1, 1, 1, 1, 1, 1, 2, 1, 1, 1],
    [1, 1, 1, 1, 1, 3, 1, 1, 1, 3, 1, 1, 1, 1, 1],
    [1, 1, 1, 1, 1, 1, 2, 1, 2, 1, 1, 1, 1, 1, 1],
    [2, 1, 1, 1, 1, 1, 1, 2, 1, 1, 1, 1, 1, 1, 2],
    [1, 1, 1, 1, 1, 1, 1, 1, 1, 1, 1, 1, 1, 1, 1],
    [1, 3, 1, 1, 1, 3, 1, 1, 1, 3, 1, 1, 1, 3, 1],
    [1, 1, 2, 1, 1, 1, 2, 1, 2, 1, 1, 1, 2, 1, 1],
    [1, 1, 1, 2, 1, 1, 1, 1, 1, 1, 1, 2, 1, 1, 1],
    [1, 1, 2, 1, 1, 1, 2, 1, 2, 1, 1, 1, 2, 1, 1],
    [1, 3, 1, 1, 1, 3, 1, 1, 1, 3, 1, 1, 1, 3, 1],
    [1, 1, 1, 1, 1, 1, 1, 1, 1, 1, 1, 1, 1, 1, 1],
    [2, 1, 1, 1, 1, 1, 1, 2, 1, 1, 1, 1, 1, 1, 2],
    [1, 1, 1, 1, 1, 1, 2, 1, 2, 1, 1, 1, 1, 1, 1],
    [1, 1, 1, 1, 1, 3, 1, 1, 1, 3, 1, 1, 1, 1, 1],
    [1, 1, 1, 2, 1, 1, 1, 1, 1, 1, 1, 2, 1, 1, 1],
];

/// Factor by which a cell multiplies the value of a word when a letter is first placed on it.
pub const WORD_MULTIPLIERS: [[i32; 15]; 15] = [
    [3, 1, 1, 1, 1, 1, 1, 3, 1, 1, 1, 1, 1, 1, 3],
    [1, 2, 1, 1, 1, 1, 1, 1, 1, 1, 1, 1, 1, 2, 1],
    [1, 1, 2, 1, 1, 1, 1, 1, 1, 1, 1, 1, 2, 1, 1],
    [1, 1, 1, 2, 1, 1, 1, 1, 1, 1, 1, 2, 1, 1, 1],
    [1, 1, 1, 1, 2, 1, 1, 1, 1, 1, 2, 1, 1, 1, 1],
    [1, 1, 1, 1, 1, 1, 1, 1, 1, 1, 1, 1, 1, 1, 1],
    [1, 1, 1, 1, 1, 1, 1, 1, 1, 1, 1, 1, 1, 1, 1],
    [3, 1, 1, 1, 1, 1, 1, 1, 1, 1, 1, 1, 1, 1, 3],
    [1, 1, 1, 1, 1, 1, 1, 1, 1, 1, 1, 1, 1, 1, 1],
    [1, 1, 1, 1, 1, 1, 1, 1, 1, 1, 1, 1, 1, 1, 1],
    [1, 1, 1, 1, 2, 1, 1, 1, 1, 1, 2, 1, 1, 1, 1],
    [1, 1, 1, 2, 1, 1, 1, 1, 1, 1, 1, 2, 1, 1, 1],
    [1, 1, 2, 1, 1, 1, 1, 1, 1, 1, 1, 1, 2, 1, 1],
    [1, 2, 1, 1, 1, 1, 1, 1, 1, 1, 1, 1, 1, 2, 1],
    [3, 1, 1, 1, 1, 1, 1, 3, 1, 1, 1, 1, 1, 1, 3],
];

/// Letter factor of cell (`i`, `j`).
pub open spec fn letter_factor(i: int, j: int) -> int {
    LETTER_MULTIPLIERS@[i]@[j] as int
}

/// Word factor of cell (`i`, `j`).
pub open spec fn word_factor(i: int, j: int) -> int {
    WORD_MULTIPLIERS@[i]@[j] as int
}

/// Every premium factor of the board lies between 1 and 3.
pub proof fn lemma_factors_range(i: int, j: int)
    requires
        0 <= i < FIELD_WIDTH,
        0 <= j < FIELD_WIDTH,
    ensures
        1 <= letter_factor(i, j) <= 3,
        1 <= word_factor(i, j) <= 3,
{
}

/// A 15×15 board: the letter (or the empty marker) of each cell, and which letters
/// are placeholder tiles.
#[derive(Clone, Copy, Debug)]
pub struct Field {
    pub cells: [[char; 15]; 15],
    pub is_placeholder_char: [[bool; 15]; 15],
}

/// Cell (`i`, `j`) lies on the board.
pub open spec fn on_board(i: int, j: int) -> bool {
    0 <= i < FIELD_WIDTH && 0 <= j < FIELD_WIDTH
}

/// What cell (`i`, `j`) of `old` holds once the run `w` has been laid on it:
/// the run's letter where the cell was empty, the old content elsewhere.
pub open spec fn placed_cell(old: Field, w: Seq<(usize, usize, char)>, i: int, j: int) -> char {
    if w.len() > 0 && i == w[0].0 && w[0].1 <= j < w[0].1 + w.len() && old.cell(i, j) == '.' {
        w[j - w[0].1].2
    } else {
        old.cell(i, j)
    }
}

/// The letters of `w` that go onto empty cells of `f`, in order: the tiles a move takes
/// from the hand.
pub open spec fn fresh_letters(f: Field, w: Seq<(usize, usize, char)>) -> Seq<char>
    decreases w.len(),
{
    if w.len() == 0 {
        Seq::empty()
    } else {
        let t = w.last();
        let rest = fresh_letters(f, w.drop_last());
        if f.cell(t.0 as int, t.1 as int) == '.' {
            rest.push(t.2)
        } else {
            rest
        }
    }
}

/// Points that cell (`i`, `j`) of `new` adds to a word: nothing for a placeholder tile;
/// else the letter's value, times the cell's letter factor where the letter is new
/// against `old`.
pub open spec fn cell_points(new: Field, old: Field, i: int, j: int) -> int {
    if new.placeholder(i, j) {
        0
    } else if old.cell(i, j) != new.cell(i, j) {
        letter_points(new.cell(i, j)) * letter_factor(i, j)
    } else {
        letter_points(new.cell(i, j))
    }
}

/// Factor that cell (`i`, `j`) of `new` puts on a word: the cell's word factor where a
/// letter other than a placeholder is new against `old`, else 1.
pub open spec fn cell_word_factor(new: Field, old: Field, i: int, j: int) -> int {
    if !new.placeholder(i, j) && old.cell(i, j) != new.cell(i, j) {
        word_factor(i, j)
    } else {
        1
    }
}

/// Sum of the cell points of the cells of `w`.
pub open spec fn points_sum(new: Field, old: Field, w: Seq<(usize, usize, char)>) -> int
    decreases w.len(),
{
    if w.len() == 0 {
        0
    } else {
        points_sum(new, old, w.drop_last()) + cell_points(new, old, w.last().0 as int, w.last().1 as int)
    }
}

/// Product of the word factors of the cells of `w`.
pub open spec fn factor_product(new: Field, old: Field, w: Seq<(usize, usize, char)>) -> int
    decreases w.len(),
{
    if w.len() == 0 {
        1
    } else {
        factor_product(new, old, w.drop_last()) * cell_word_factor(
            new,
            old,
            w.last().0 as int,
            w.last().1 as int,
        )
    }
}

/// Score of the word on the cells of `w`, on board `new` that was `old` before the move.
pub open spec fn word_score(new: Field, old: Field, w: Seq<(usize, usize, char)>) -> int {
    points_sum(new, old, w) * factor_product(new, old, w)
}

/// Three to the power `n`.
pub open spec fn pow3(n: nat) -> int
    decreases n,
{
    if n == 0 {
        1
    } else {
        3 * pow3((n - 1) as nat)
    }
}

/// Largest score of a word of at most 15 cells: 15 cells of 10 points times 3, and a
/// factor of 3 on each.
pub const MAX_WORD_SCORE: i64 = 6457008150;

/// Topmost row of the run of filled cells in column `j` that reaches down to row `i`.
pub open spec fn extent_up(f: Field, i: int, j: int) -> int
    decreases i,
{
    if i <= 0 || f.cell(i - 1, j) == '.' {
        i
    } else {
        extent_up(f, i - 1, j)
    }
}

/// Lowest row of the run of filled cells in column `j` that reaches up to row `i`.
pub open spec fn extent_down(f: Field, i: int, j: int) -> int
    decreases FIELD_WIDTH - i,
{
    if i + 1 >= FIELD_WIDTH || f.cell(i + 1, j) == '.' {
        i
    } else {
        extent_down(f, i + 1, j)
    }
}

/// Leftmost column of the run of filled cells in row `i` that reaches right to column `j`.
pub open spec fn extent_left(f: Field, i: int, j: int) -> int
    decreases j,
{
    if j <= 0 || f.cell(i, j - 1) == '.' {
        j
    } else {
        extent_left(f, i, j - 1)
    }
}

/// Rightmost column of the run of filled cells in row `i` that reaches left to column `j`.
pub open spec fn extent_right(f: Field, i: int, j: int) -> int
    decreases FIELD_WIDTH - j,
{
    if j + 1 >= FIELD_WIDTH || f.cell(i, j + 1) == '.' {
        j
    } else {
        extent_right(f, i, j + 1)
    }
}

/// Cells (`i`, `j1`) to (`i`, `j2`) of `f`, with their content.
pub open spec fn row_span(f: Field, i: int, j1: int, j2: int) -> Seq<(usize, usize, char)> {
    Seq::new((j2 - j1 + 1) as nat, |k: int| (i as usize, (j1 + k) as usize, f.cell(i, j1 + k)))
}

/// Cells (`i1`, `j`) to (`i2`, `j`) of `f`, with their content.
pub open spec fn column_span(f: Field, i1: int, i2: int, j: int) -> Seq<(usize, usize, char)> {
    Seq::new((i2 - i1 + 1) as nat, |k: int| ((i1 + k) as usize, j as usize, f.cell(i1 + k, j)))
}

/// The letter `t` is new: the cell held something else before the move.
pub open spec fn is_fresh(old: Field, t: (usize, usize, char)) -> bool {
    old.cell(t.0 as int, t.1 as int) != t.2
}

/// The vertical run of filled cells of `new` through the cell of `t`.
pub open spec fn cross_word(new: Field, t: (usize, usize, char)) -> Seq<(usize, usize, char)> {
    column_span(new, extent_up(new, t.0 as int, t.1 as int), extent_down(new, t.0 as int, t.1 as int), t.1 as int)
}

/// The new letter `t` forms a vertical word of two letters or more.
pub open spec fn forms_cross_word(new: Field, old: Field, t: (usize, usize, char)) -> bool {
    is_fresh(old, t) && extent_up(new, t.0 as int, t.1 as int) != extent_down(new, t.0 as int, t.1 as int)
}

/// Sum of the scores of the vertical words that the new letters of `w` form.
pub open spec fn cross_words_score(new: Field, old: Field, w: Seq<(usize, usize, char)>) -> int
    decreases w.len(),
{
    if w.len() == 0 {
        0
    } else {
        cross_words_score(new, old, w.drop_last()) + if forms_cross_word(new, old, w.last()) {
            word_score(new, old, cross_word(new, w.last()))
        } else {
            0
        }
    }
}

/// Every vertical word that a new letter of `w` forms is in `words`.
pub open spec fn cross_words_valid(
    new: Field,
    old: Field,
    words: Set<Seq<char>>,
    w: Seq<(usize, usize, char)>,
) -> bool {
    forall|k: int|
        0 <= k < w.len() && forms_cross_word(new, old, #[trigger] w[k]) ==> words.contains(
            word_text(cross_word(new, w[k])),
        )
}

/// The whole horizontal run of filled cells of `new` that holds the run `w`.
pub open spec fn main_word(new: Field, w: Seq<(usize, usize, char)>) -> Seq<(usize, usize, char)> {
    row_span(
        new,
        w[0].0 as int,
        extent_left(new, w[0].0 as int, w[0].1 as int),
        extent_right(new, w[0].0 as int, w.last().1 as int),
    )
}

/// A move that lays `w` and takes `used` tiles from the hand is legal: `w` is a word,
/// at least one tile is used, and every vertical word and the whole horizontal word
/// formed are words.
pub open spec fn move_valid(
    new: Field,
    old: Field,
    words: Set<Seq<char>>,
    w: Seq<(usize, usize, char)>,
    used: int,
) -> bool {
    &&& words.contains(word_text(w))
    &&& used != 0
    &&& cross_words_valid(new, old, words, w)
    &&& words.contains(word_text(main_word(new, w)))
}

/// Bonus for using all seven tiles of a hand.
pub open spec fn full_hand_bonus(used: int) -> int {
    if used == 7 {
        50
    } else {
        0
    }
}

/// Score of a move that lays `w` and takes `used` tiles from the hand.
pub open spec fn move_score(new: Field, old: Field, w: Seq<(usize, usize, char)>, used: int) -> int {
    full_hand_bonus(used) + cross_words_score(new, old, w) + word_score(new, old, main_word(new, w))
}

/// A placeholder tile adds no points to a word and puts no factor on it, whatever its
/// letter and whatever the cell's premiums.
pub proof fn lemma_placeholder_scores_nothing(new: Field, old: Field, i: int, j: int)
    requires
        new.placeholder(i, j),
    ensures
        cell_points(new, old, i, j) == 0,
        cell_word_factor(new, old, i, j) == 1,
{
}

/// Using all seven tiles adds exactly 50 to a move's score, against the same move
/// scored as using any other number of tiles; whether the move is legal does not
/// depend on that number, as long as it is not zero.
pub proof fn lemma_full_hand_bonus(
    new: Field,
    old: Field,
    words: Set<Seq<char>>,
    w: Seq<(usize, usize, char)>,
    used: int,
)
    requires
        used != 7,
        used != 0,
    ensures
        move_score(new, old, w, 7) == move_score(new, old, w, used) + 50,
        move_valid(new, old, words, w, 7) == move_valid(new, old, words, w, used),
{
}

/// The cells of `w` that do not hold placeholder tiles of `new`, in order.
pub open spec fn without_placeholders(new: Field, w: Seq<(usize, usize, char)>) -> Seq<(usize, usize, char)>
    decreases w.len(),
{
    if w.len() == 0 {
        w
    } else {
        let rest = without_placeholders(new, w.drop_last());
        if new.placeholder(w.last().0 as int, w.last().1 as int) {
            rest
        } else {
            rest.push(w.last())
        }
    }
}

/// A word scores as the same word with its placeholder tiles left out: they add no
/// points and no factor, whatever their letters and premiums.
pub proof fn lemma_placeholders_drop_out(new: Field, old: Field, w: Seq<(usize, usize, char)>)
    ensures
        points_sum(new, old, w) == points_sum(new, old, without_placeholders(new, w)),
        factor_product(new, old, w) == factor_product(new, old, without_placeholders(new, w)),
        word_score(new, old, w) == word_score(new, old, without_placeholders(new, w)),
    decreases w.len(),
{
    if w.len() > 0 {
        lemma_placeholders_drop_out(new, old, w.drop_last());
        let rest = without_placeholders(new, w.drop_last());
        if !new.placeholder(w.last().0 as int, w.last().1 as int) {
            assert(rest.push(w.last()).drop_last() =~= rest);
        }
    }
}

/// Letters laid on cells that already hold the same letters take no tile from the hand.
pub proof fn lemma_reused_cells_take_no_tiles(f: Field, w: Seq<(usize, usize, char)>)
    requires
        forall|k: int|
            0 <= k < w.len() ==> #[trigger] f.cell(w[k].0 as int, w[k].1 as int) == w[k].2 && w[k].2 != '.',
    ensures
        fresh_letters(f, w) == Seq::<char>::empty(),
    decreases w.len(),
{
    if w.len() > 0 {
        assert(f.cell(w[w.len() - 1].0 as int, w[w.len() - 1].1 as int) == w[w.len() - 1].2);
        lemma_reused_cells_take_no_tiles(f, w.drop_last());
    }
}

/// Whether `c` is an uppercase character, as std's `char::is_uppercase` decides.
pub uninterp spec fn uppercase_flag(c: char) -> bool;

/// First character of the lowercase mapping of `c`, as std's `char::to_lowercase` gives it.
pub uninterp spec fn lowercase_first(c: char) -> char;

/// Relies on `char::is_uppercase`: the result depends on `c` alone.
#[verifier::external_body]
fn char_is_uppercase(c: char) -> (r: bool)
    ensures
        r == uppercase_flag(c),
{
    c.is_uppercase()
}

/// Relies on `char::to_lowercase`: it yields at least one character, and the first
/// depends on `c` alone.
#[verifier::external_body]
fn char_to_lowercase(c: char) -> (r: char)
    ensures
        r == lowercase_first(c),
{
    c.to_lowercase().next().unwrap()
}

/// Content of a cell written as `c` in a board's text: uppercase marks a placeholder
/// tile, whose letter is the lowercase form.
pub open spec fn cell_of_token(c: char) -> char {
    if uppercase_flag(c) {
        lowercase_first(c)
    } else {
        c
    }
}

/// Reads one token of a board's text: the cell's content, and whether it is a
/// placeholder tile (written in uppercase).
pub fn decode_token(c: char) -> (r: (char, bool))
    ensures
        r == (cell_of_token(c), uppercase_flag(c)),
{
    if char_is_uppercase(c) {
        (char_to_lowercase(c), true)
    } else {
        (c, false)
    }
}

/// The first 15 rows of `rows` have at most 15 cells each, and each cell is empty or
/// holds a letter.
pub open spec fn rows_readable(rows: Seq<Seq<(char, bool)>>) -> bool {
    forall|i: int|
        0 <= i < rows.len() && i < FIELD_WIDTH ==> {
            &&& (#[trigger] rows[i]).len() <= FIELD_WIDTH
            &&& forall|j: int|
                0 <= j < rows[i].len() ==> (#[trigger] rows[i][j]).0 == '.' || is_letter(rows[i][j].0)
        }
}

/// The cells of each row.
pub open spec fn token_rows(rows: Seq<Vec<(char, bool)>>) -> Seq<Seq<(char, bool)>> {
    rows.map_values(|row: Vec<(char, bool)>| row@)
}

/// Cell (`i`, `j`) of `rows`, if there is one.
pub open spec fn has_token(rows: Seq<Seq<(char, bool)>>, i: int, j: int) -> bool {
    0 <= i < rows.len() && 0 <= j < rows[i].len()
}

/// `pow3(n)` stays within 3 to the 15th for `n` up to 15.
pub proof fn lemma_pow3_bound(n: nat)
    requires
        n <= 15,
    ensures
        1 <= pow3(n) <= 14348907,
    decreases 15 - n,
{
    if n < 15 {
        lemma_pow3_bound(n + 1);
        assert(pow3(n + 1) == 3 * pow3(n));
    } else {
        reveal_with_fuel(pow3, 16);
    }
}

impl Field {
    /// The content of cell (`i`, `j`).
    pub open spec fn cell(&self, i: int, j: int) -> char {
        self.cells@[i]@[j]
    }

    /// Whether cell (`i`, `j`) holds a placeholder tile.
    pub open spec fn placeholder(&self, i: int, j: int) -> bool {
        self.is_placeholder_char@[i]@[j]
    }

    /// Every cell is empty or holds a letter.
    pub open spec fn wf(&self) -> bool {
        forall|i: int, j: int|
            on_board(i, j) ==> #[trigger] self.cell(i, j) == '.' || is_letter(self.cell(i, j))
    }

    /// Cell (`i`, `j`) lies on the board and is not empty.
    pub open spec fn is_filled(&self, i: int, j: int) -> bool {
        on_board(i, j) && self.cell(i, j) != '.'
    }

    /// One of the four cells beside (`i`, `j`) is filled.
    pub open spec fn touches(&self, i: int, j: int) -> bool {
        self.is_filled(i - 1, j) || self.is_filled(i, j - 1) || self.is_filled(i, j + 1)
            || self.is_filled(i + 1, j)
    }

    /// No cell of `w` has a filled neighbour.
    pub open spec fn isolated(&self, w: Seq<(usize, usize, char)>) -> bool {
        forall|k: int| 0 <= k < w.len() ==> !self.touches(#[trigger] w[k].0 as int, w[k].1 as int)
    }

    /// Some cell of `w` already holds a letter other than the one `w` puts there.
    pub open spec fn conflicts(&self, w: Seq<(usize, usize, char)>) -> bool {
        exists|k: int|
            0 <= k < w.len() && #[trigger] self.cell(w[k].0 as int, w[k].1 as int) != '.'
                && self.cell(w[k].0 as int, w[k].1 as int) != w[k].2
    }

    /// `self` is `other` mirrored across the main diagonal, letters and placeholder flags both.
    pub open spec fn is_transpose_of(&self, other: Field) -> bool {
        forall|i: int, j: int|
            on_board(i, j) ==> #[trigger] self.cell(i, j) == other.cell(j, i) && self.placeholder(i, j)
                == other.placeholder(j, i)
    }

    /// Mirrors the board across its main diagonal, so that columns become rows.
    pub fn transpose(&mut self)
        ensures
            final(self).is_transpose_of(*old(self)),
    {
        let ghost o = *self;
        let mut i: usize = 0;
        while i < FIELD_WIDTH
            invariant
                i <= FIELD_WIDTH,
                forall|a: int, b: int|
                    on_board(a, b) ==> if a < i && b < i {
                        #[trigger] self.cell(a, b) == o.cell(b, a) && self.placeholder(a, b)
                            == o.placeholder(b, a)
                    } else {
                        self.cell(a, b) == o.cell(a, b) && self.placeholder(a, b) == o.placeholder(a, b)
                    },
            decreases FIELD_WIDTH - i,
        {
            let mut j: usize = 0;
            assert forall|a: int, b: int| on_board(a, b) implies if (a < i && b < i) || (a == i && b < j) || (
            b == i && a < j) {
                #[trigger] self.cell(a, b) == o.cell(b, a) && self.placeholder(a, b) == o.placeholder(b, a)
            } else {
                self.cell(a, b) == o.cell(a, b) && self.placeholder(a, b) == o.placeholder(a, b)
            } by {
                if a < i && b < i {
                    assert(self.cell(a, b) == o.cell(b, a));
                } else {
                    assert(self.cell(a, b) == o.cell(a, b));
                }
            }
            while j < i
                invariant
                    i < FIELD_WIDTH,
                    j <= i,
                    forall|a: int, b: int|
                        on_board(a, b) ==> if (a < i && b < i) || (a == i && b < j) || (b == i && a < j) {
                            #[trigger] self.cell(a, b) == o.cell(b, a) && self.placeholder(a, b)
                                == o.placeholder(b, a)
                        } else {
                            self.cell(a, b) == o.cell(a, b) && self.placeholder(a, b) == o.placeholder(
                                a,
                                b,
                            )
                        },
                decreases i - j,
            {
                let ghost before = *self;
                let c = self.cells[i][j];
                self.cells[i][j] = self.cells[j][i];
                self.cells[j][i] = c;
                let p = self.is_placeholder_char[i][j];
                self.is_placeholder_char[i][j] = self.is_placeholder_char[j][i];
                self.is_placeholder_char[j][i] = p;
                assert forall|a: int, b: int| on_board(a, b) implies {
                    &&& self.cell(a, b) == if a == i && b == j {
                        before.cell(b, a)
                    } else if a == j && b == i {
                        before.cell(b, a)
                    } else {
                        before.cell(a, b)
                    }
                    &&& self.placeholder(a, b) == if (a == i && b == j) || (a == j && b == i) {
                        before.placeholder(b, a)
                    } else {
                        before.placeholder(a, b)
                    }
                } by {
                    if a != i && a != j {
                        assert(self.cells@[a] == before.cells@[a]);
                        assert(self.is_placeholder_char@[a] == before.is_placeholder_char@[a]);
                    }
                }
                j += 1;
            }
            i += 1;
        }
    }

    /// Lays `word` on the board and returns the letters it took from the hand: those
    /// that went onto empty cells. Fails when the word touches nothing on the board or
    /// when it meets a cell that holds another letter. On failure the board may have
    /// been partly written.
    pub fn try_add_word_and_get_new_letters_counter(&mut self, word: &Word) -> (r: Result<
        CharCounter,
        (),
    >)
        requires
            old(self).wf(),
            is_run(word@),
            forall|k: int| 0 <= k < word@.len() ==> is_letter(#[trigger] word@[k].2),
        ensures
            r is Err <==> old(self).isolated(word@) || old(self).conflicts(word@),
            old(self).isolated(word@) ==> *final(self) == *old(self),
            final(self).is_placeholder_char == old(self).is_placeholder_char,
            forall|i: int, j: int|
                on_board(i, j) ==> #[trigger] final(self).cell(i, j) == old(self).cell(i, j)
                    || final(self).cell(i, j) == placed_cell(*old(self), word@, i, j),
            r matches Ok(counter) ==> {
                &&& forall|i: int, j: int|
                    on_board(i, j) ==> #[trigger] final(self).cell(i, j) == placed_cell(
                        *old(self),
                        word@,
                        i,
                        j,
                    )
                &&& final(self).is_placeholder_char == old(self).is_placeholder_char
                &&& final(self).wf()
                &&& counter@ == tally_of(fresh_letters(*old(self), word@))
            },
    {
        let ghost o = *self;
        let ghost w = word@;
        if self.is_word_isolated(word) {
            return Err(());
        }
        let mut counter = CharCounter::new();
        let mut k: usize = 0;
        while k < word.len()
            invariant
                w == word@,
                o == *old(self),
                !o.isolated(w),
                o.wf(),
                is_run(w),
                forall|m: int| 0 <= m < w.len() ==> is_letter(#[trigger] w[m].2),
                k <= w.len(),
                forall|i: int, j: int|
                    on_board(i, j) ==> #[trigger] self.cell(i, j) == placed_cell(o, w.take(k as int), i, j),
                self.is_placeholder_char == o.is_placeholder_char,
                forall|m: int|
                    0 <= m < k ==> #[trigger] o.cell(w[m].0 as int, w[m].1 as int) == '.' || o.cell(
                        w[m].0 as int,
                        w[m].1 as int,
                    ) == w[m].2,
                forall|x: int|
                    0 <= x < ALPHABET_SIZE ==> #[trigger] counter@[x] == occurrences(
                        fresh_letters(o, w.take(k as int)),
                        x,
                    ) && counter@[x] <= k,
            decreases w.len() - k,
        {
            let (i, j, c) = word[k];
            let ghost before = *self;
            let ghost before_counter = counter;
            assert(w[k as int] == (i, j, c) && i == w[0].0 && j == w[0].1 + k);
            assert(self.cell(i as int, j as int) == o.cell(i as int, j as int));
            assert(w.take(k as int + 1).drop_last() =~= w.take(k as int));
            let old_c = self.cells[i][j];
            if old_c == EMPTY_CELL_CHAR {
                self.cells[i][j] = c;
                counter.increment(c);
                assert(fresh_letters(o, w.take(k as int + 1)) == fresh_letters(o, w.take(k as int)).push(c));
                assert forall|x: int| 0 <= x < ALPHABET_SIZE implies #[trigger] counter@[x] == occurrences(
                    fresh_letters(o, w.take(k as int + 1)),
                    x,
                ) && counter@[x] <= k + 1 by {
                    assert(fresh_letters(o, w.take(k as int)).push(c).drop_last() =~= fresh_letters(
                        o,
                        w.take(k as int),
                    ));
                }
            } else if old_c != c {
                assert(o.cell(w[k as int].0 as int, w[k as int].1 as int) != '.');
                assert(o.conflicts(w));
                assert forall|a: int, b: int| on_board(a, b) implies #[trigger] self.cell(a, b) == o.cell(a, b)
                    || self.cell(a, b) == placed_cell(o, w, a, b) by {
                    if k > 0 && a == w[0].0 && w[0].1 <= b < w[0].1 + k {
                        assert(w.take(k as int)[b - w[0].1] == w[b - w[0].1]);
                        assert(w.take(k as int)[0] == w[0]);
                    }
                }
                return Err(());
            }
            assert forall|a: int, b: int| on_board(a, b) implies #[trigger] self.cell(a, b) == placed_cell(
                o,
                w.take(k as int + 1),
                a,
                b,
            ) by {
                assert(w.take(k as int + 1)[k as int] == w[k as int]);
                if k > 0 {
                    assert(w.take(k as int)[0] == w[0]);
                }
                assert(w.take(k as int + 1)[0] == w[0]);
                if a != i {
                    assert(self.cells@[a] == before.cells@[a]);
                    assert(self.cell(a, b) == before.cell(a, b));
                } else if b != j {
                    assert(self.cell(a, b) == before.cell(a, b));
                    if w[0].1 <= b < w[0].1 + k {
                        assert(w.take(k as int + 1)[b - w[0].1] == w.take(k as int)[b - w[0].1]);
                    }
                }
            }
            k += 1;
        }
        assert(w.take(w.len() as int) =~= w);
        assert forall|i: int, j: int| on_board(i, j) implies #[trigger] self.cell(i, j) == '.' || is_letter(
            self.cell(i, j),
        ) by {
            assert(self.cell(i, j) == placed_cell(o, w, i, j));
        }
        proof {
            lemma_view_len(counter);
        }
        assert(counter@ =~= tally_of(fresh_letters(o, w)));
        Ok(counter)
    }

    /// Score of the word on the cells of `word`, on this board that was `old_field`
    /// before the move; always within `MAX_WORD_SCORE`.
    fn word_score_exact(&self, old_field: &Self, word: &Word) -> (r: i64)
        requires
            self.wf(),
            word@.len() <= FIELD_WIDTH,
            forall|k: int|
                0 <= k < word@.len() ==> {
                    &&& on_board((#[trigger] word@[k]).0 as int, word@[k].1 as int)
                    &&& word@[k].2 == self.cell(word@[k].0 as int, word@[k].1 as int)
                    &&& word@[k].2 != '.'
                },
        ensures
            r == word_score(*self, *old_field, word@),
            0 <= r <= MAX_WORD_SCORE,
    {
        let ghost w = word@;
        let mut score: i64 = 0;
        let mut word_score_multiplier: i64 = 1;
        let mut k: usize = 0;
        while k < word.len()
            invariant
                w == word@,
                self.wf(),
                w.len() <= FIELD_WIDTH,
                forall|m: int|
                    0 <= m < w.len() ==> {
                        &&& on_board((#[trigger] w[m]).0 as int, w[m].1 as int)
                        &&& w[m].2 == self.cell(w[m].0 as int, w[m].1 as int)
                        &&& w[m].2 != '.'
                    },
                k <= w.len(),
                score == points_sum(*self, *old_field, w.take(k as int)),
                word_score_multiplier == factor_product(*self, *old_field, w.take(k as int)),
                0 <= score <= 30 * k,
                1 <= word_score_multiplier <= pow3(k as nat),
            decreases w.len() - k,
        {
            let (i, j, new_c) = word[k];
            assert(w.take(k as int + 1).drop_last() =~= w.take(k as int));
            assert(w.take(k as int + 1).last() == w[k as int]);
            proof {
                lemma_factors_range(i as int, j as int);
                lemma_pow3_bound(k as nat);
                lemma_pow3_bound(k as nat + 1);
            }
            let ghost before_mult = word_score_multiplier;
            if !self.is_placeholder_char[i][j] {
                let old_c = old_field.cells[i][j];
                let mut char_score = get_char_score(new_c) as i64;
                if old_c != new_c {
                    let lm = LETTER_MULTIPLIERS[i][j] as i64;
                    let f = WORD_MULTIPLIERS[i][j] as i64;
                    assert(lm == letter_factor(i as int, j as int) && f == word_factor(i as int, j as int));
                    assert(char_score * lm <= 30) by (nonlinear_arith)
                        requires
                            1 <= char_score <= 10,
                            1 <= lm <= 3,
                    ;
                    char_score = char_score * lm;
                    assert(word_score_multiplier * f <= pow3(k as nat) * 3) by (nonlinear_arith)
                        requires
                            1 <= word_score_multiplier <= pow3(k as nat),
                            1 <= f <= 3,
                    ;
                    assert(word_score_multiplier * f >= 1) by (nonlinear_arith)
                        requires
                            1 <= word_score_multiplier,
                            1 <= f,
                    ;
                    word_score_multiplier = word_score_multiplier * f;
                    assert(cell_word_factor(*self, *old_field, i as int, j as int) == f);
                } else {
                    assert(cell_word_factor(*self, *old_field, i as int, j as int) == 1);
                }
                assert(char_score == cell_points(*self, *old_field, i as int, j as int));
                score = score + char_score;
            } else {
                assert(cell_word_factor(*self, *old_field, i as int, j as int) == 1);
            }
            assert(factor_product(*self, *old_field, w.take(k as int + 1)) == before_mult
                * cell_word_factor(*self, *old_field, i as int, j as int));
            assert(before_mult * 1 == before_mult);
            assert(pow3(k as nat + 1) == 3 * pow3(k as nat));
            k += 1;
        }
        assert(w.take(w.len() as int) =~= w);
        proof {
            lemma_pow3_bound(k as nat);
        }
        assert(score * word_score_multiplier <= 450 * word_score_multiplier) by (nonlinear_arith)
            requires
                0 <= score <= 450,
                1 <= word_score_multiplier,
        ;
        assert(score * word_score_multiplier >= 0) by (nonlinear_arith)
            requires
                0 <= score,
                1 <= word_score_multiplier,
        ;
        assert(450 * word_score_multiplier <= MAX_WORD_SCORE);
        score * word_score_multiplier
    }

    /// Score of the word on the cells of `word`, on this board that was `old_field`
    /// before the move: each cell's letter value (nothing for a placeholder tile), with
    /// the cell's letter factor where the letter is new, the sum times the word factors
    /// of the cells whose letters are new. Fails when the score does not fit in `i32`.
    pub fn get_word_score(&self, old_field: &Self, word: &Word) -> (r: Result<i32, ()>)
        requires
            self.wf(),
            word@.len() <= FIELD_WIDTH,
            forall|k: int|
                0 <= k < word@.len() ==> {
                    &&& on_board((#[trigger] word@[k]).0 as int, word@[k].1 as int)
                    &&& word@[k].2 == self.cell(word@[k].0 as int, word@[k].1 as int)
                    &&& word@[k].2 != '.'
                },
        ensures
            r == if word_score(*self, *old_field, word@) <= i32::MAX {
                Ok::<i32, ()>(word_score(*self, *old_field, word@) as i32)
            } else {
                Err::<i32, ()>(())
            },
    {
        let score = self.word_score_exact(old_field, word);
        if score > i32::MAX as i64 {
            Err(())
        } else {
            Ok(score as i32)
        }
    }

    /// Cells (`word_i`, `j1`) to (`word_i`, `j2`) with their content.
    pub fn select_horizontal_word(&self, word_i: usize, j1: usize, j2: usize) -> (r: Vec<
        (usize, usize, char),
    >)
        requires
            word_i < FIELD_WIDTH,
            j1 <= j2 < FIELD_WIDTH,
        ensures
            r@ == row_span(*self, word_i as int, j1 as int, j2 as int),
    {
        let mut v: Vec<(usize, usize, char)> = Vec::new();
        let mut j = j1;
        while j <= j2
            invariant
                word_i < FIELD_WIDTH,
                j1 <= j <= j2 + 1,
                j2 < FIELD_WIDTH,
                v@ =~= row_span(*self, word_i as int, j1 as int, j as int - 1),
            decreases j2 + 1 - j,
        {
            v.push((word_i, j, self.cells[word_i][j]));
            j += 1;
        }
        v
    }

    /// Cells (`i1`, `word_j`) to (`i2`, `word_j`) with their content.
    pub fn select_vertical_word(&self, i1: usize, i2: usize, word_j: usize) -> (r: Vec<
        (usize, usize, char),
    >)
        requires
            word_j < FIELD_WIDTH,
            i1 <= i2 < FIELD_WIDTH,
        ensures
            r@ == column_span(*self, i1 as int, i2 as int, word_j as int),
    {
        let mut v: Vec<(usize, usize, char)> = Vec::new();
        let mut i = i1;
        while i <= i2
            invariant
                word_j < FIELD_WIDTH,
                i1 <= i <= i2 + 1,
                i2 < FIELD_WIDTH,
                v@ =~= column_span(*self, i1 as int, i as int - 1, word_j as int),
            decreases i2 + 1 - i,
        {
            v.push((i, word_j, self.cells[i][word_j]));
            i += 1;
        }
        v
    }

    /// First row of the run of filled cells in column `j` that reaches down to row `i`.
    fn top_of_run(&self, i: usize, j: usize) -> (r: usize)
        requires
            on_board(i as int, j as int),
        ensures
            r == extent_up(*self, i as int, j as int),
            r <= i,
            forall|t: int| r <= t < i ==> #[trigger] self.cell(t, j as int) != '.',
    {
        let mut m = i;
        while m > 0 && self.cells[m - 1][j] != EMPTY_CELL_CHAR
            invariant
                on_board(i as int, j as int),
                m <= i,
                extent_up(*self, m as int, j as int) == extent_up(*self, i as int, j as int),
                forall|t: int| m <= t < i ==> #[trigger] self.cell(t, j as int) != '.',
            decreases m,
        {
            m -= 1;
        }
        m
    }

    /// Last row of the run of filled cells in column `j` that reaches up to row `i`.
    fn bottom_of_run(&self, i: usize, j: usize) -> (r: usize)
        requires
            on_board(i as int, j as int),
        ensures
            r == extent_down(*self, i as int, j as int),
            i <= r < FIELD_WIDTH,
            forall|t: int| i < t <= r ==> #[trigger] self.cell(t, j as int) != '.',
    {
        let mut m = i;
        while m + 1 < FIELD_WIDTH && self.cells[m + 1][j] != EMPTY_CELL_CHAR
            invariant
                on_board(i as int, j as int),
                i <= m < FIELD_WIDTH,
                extent_down(*self, m as int, j as int) == extent_down(*self, i as int, j as int),
                forall|t: int| i < t <= m ==> #[trigger] self.cell(t, j as int) != '.',
            decreases FIELD_WIDTH - m,
        {
            m += 1;
        }
        m
    }

    /// First column of the run of filled cells in row `i` that reaches right to column `j`.
    fn left_of_run(&self, i: usize, j: usize) -> (r: usize)
        requires
            on_board(i as int, j as int),
        ensures
            r == extent_left(*self, i as int, j as int),
            r <= j,
            forall|t: int| r <= t < j ==> #[trigger] self.cell(i as int, t) != '.',
    {
        let mut m = j;
        while m > 0 && self.cells[i][m - 1] != EMPTY_CELL_CHAR
            invariant
                on_board(i as int, j as int),
                m <= j,
                extent_left(*self, i as int, m as int) == extent_left(*self, i as int, j as int),
                forall|t: int| m <= t < j ==> #[trigger] self.cell(i as int, t) != '.',
            decreases m,
        {
            m -= 1;
        }
        m
    }

    /// Last column of the run of filled cells in row `i` that reaches left to column `j`.
    fn right_of_run(&self, i: usize, j: usize) -> (r: usize)
        requires
            on_board(i as int, j as int),
        ensures
            r == extent_right(*self, i as int, j as int),
            j <= r < FIELD_WIDTH,
            forall|t: int| j < t <= r ==> #[trigger] self.cell(i as int, t) != '.',
    {
        let mut m = j;
        while m + 1 < FIELD_WIDTH && self.cells[i][m + 1] != EMPTY_CELL_CHAR
            invariant
                on_board(i as int, j as int),
                j <= m < FIELD_WIDTH,
                extent_right(*self, i as int, m as int) == extent_right(*self, i as int, j as int),
                forall|t: int| j < t <= m ==> #[trigger] self.cell(i as int, t) != '.',
            decreases FIELD_WIDTH - m,
        {
            m += 1;
        }
        m
    }

    /// Score of the move that turned `old_field` into this board by laying `word`
    /// (a horizontal run) and taking `used_letters_num` tiles from the hand. Fails when
    /// `word` is not in the dictionary, when no tile was used, when a vertical word that
    /// a new letter forms or the whole horizontal word is not in the dictionary, or when
    /// the score does not fit in `i32`. The score is the sum of the scores of those
    /// vertical words and of the whole horizontal word, plus 50 when all seven tiles
    /// were used.
    pub fn get_horizontal_move_score(
        &self,
        old_field: &Self,
        word: &Word,
        dictionary: &Dictionary,
        used_letters_num: i32,
    ) -> (r: Result<i32, ()>)
        requires
            self.wf(),
            word@.len() > 0,
            is_run(word@),
            forall|k: int|
                0 <= k < word@.len() ==> is_letter((#[trigger] word@[k]).2) && self.cell(
                    word@[k].0 as int,
                    word@[k].1 as int,
                ) == word@[k].2,
            0 <= used_letters_num <= 7,
        ensures
            r is Ok <==> move_valid(*self, *old_field, dictionary@, word@, used_letters_num as int)
                && move_score(*self, *old_field, word@, used_letters_num as int) <= i32::MAX,
            r matches Ok(s) ==> s == move_score(*self, *old_field, word@, used_letters_num as int) && s >= 0,
    {
        let ghost w = word@;
        let ghost used = used_letters_num as int;
        if !dictionary.contains_word(word) {
            return Err(());
        }
        let word_i = word[0].0;
        let word_j1 = word[0].1;
        let word_j2 = word[word.len() - 1].1;
        if used_letters_num == 0 {
            return Err(());
        }
        let mut score: i64 = 0;
        if used_letters_num == 7 {
            score = 50;
        }
        let mut k: usize = 0;
        while k < word.len()
            invariant
                w == word@,
                self.wf(),
                w.len() > 0,
                is_run(w),
                forall|m: int|
                    0 <= m < w.len() ==> is_letter((#[trigger] w[m]).2) && self.cell(
                        w[m].0 as int,
                        w[m].1 as int,
                    ) == w[m].2,
                word_i == w[0].0,
                k <= w.len(),
                score == full_hand_bonus(used) + cross_words_score(*self, *old_field, w.take(k as int)),
                0 <= score <= 50 + k * MAX_WORD_SCORE,
                forall|m: int|
                    0 <= m < k && forms_cross_word(*self, *old_field, #[trigger] w[m]) ==> dictionary@.contains(
                        word_text(cross_word(*self, w[m])),
                    ),
            decreases w.len() - k,
        {
            let (_i, j, new_c) = word[k];
            assert(w.take(k as int + 1).drop_last() =~= w.take(k as int));
            assert(w.take(k as int + 1).last() == w[k as int]);
            assert(w[k as int].0 == word_i);
            if old_field.cells[word_i][j] != new_c {
                let min_i = self.top_of_run(word_i, j);
                let max_i = self.bottom_of_run(word_i, j);
                if min_i != max_i {
                    let curr_word = self.select_vertical_word(min_i, max_i, j);
                    if !dictionary.contains_word(&curr_word) {
                        return Err(());
                    }
                    assert forall|m: int| 0 <= m < curr_word@.len() implies {
                        &&& on_board((#[trigger] curr_word@[m]).0 as int, curr_word@[m].1 as int)
                        &&& curr_word@[m].2 == self.cell(curr_word@[m].0 as int, curr_word@[m].1 as int)
                        &&& curr_word@[m].2 != '.'
                    } by {
                        let t = min_i + m;
                        assert(self.cell(t, j as int) != '.');
                    }
                    let ws = self.word_score_exact(old_field, &curr_word);
                    score = score + ws;
                }
            }
            k += 1;
        }
        assert(w.take(w.len() as int) =~= w);
        let min_j = self.left_of_run(word_i, word_j1);
        let max_j = self.right_of_run(word_i, word_j2);
        assert(word_j2 == word_j1 + w.len() - 1);
        let curr_word = self.select_horizontal_word(word_i, min_j, max_j);
        if !dictionary.contains_word(&curr_word) {
            return Err(());
        }
        assert forall|m: int| 0 <= m < curr_word@.len() implies {
            &&& on_board((#[trigger] curr_word@[m]).0 as int, curr_word@[m].1 as int)
            &&& curr_word@[m].2 == self.cell(curr_word@[m].0 as int, curr_word@[m].1 as int)
            &&& curr_word@[m].2 != '.'
        } by {
            let t = min_j + m;
            if word_j1 <= t <= word_j2 {
                assert(w[t - word_j1].1 == t);
                assert(self.cell(word_i as int, t) == w[t - word_j1].2);
            } else {
                assert(self.cell(word_i as int, t) != '.');
            }
        }
        score = score + self.word_score_exact(old_field, &curr_word);
        if score > i32::MAX as i64 {
            return Err(());
        }
        Ok(score as i32)
    }

    /// Each cell holds its content and placeholder flag from `rows`, and is empty where
    /// `rows` has no cell.
    pub open spec fn reads_rows(&self, rows: Seq<Seq<(char, bool)>>) -> bool {
        forall|i: int, j: int|
            on_board(i, j) ==> if has_token(rows, i, j) {
                &&& #[trigger] self.cell(i, j) == rows[i][j].0
                &&& self.placeholder(i, j) == rows[i][j].1
            } else {
                self.cell(i, j) == '.' && !self.placeholder(i, j)
            }
    }

    /// Builds a board row by row from each cell's content and placeholder flag. Rows past
    /// the fifteenth are not read; missing cells stay empty. Fails when a row has more
    /// than 15 cells or a cell is neither empty nor a letter.
    pub fn from_cells(rows: &Vec<Vec<(char, bool)>>) -> (r: Result<Field, ()>)
        ensures
            r is Ok <==> rows_readable(token_rows(rows@)),
            r matches Ok(f) ==> f.wf() && f.reads_rows(token_rows(rows@)),
    {
        let ghost rs = token_rows(rows@);
        let mut f = Field {
            cells: [[EMPTY_CELL_CHAR; 15]; 15],
            is_placeholder_char: [[false; 15]; 15],
        };
        let mut i: usize = 0;
        while i < rows.len() && i < FIELD_WIDTH
            invariant
                rs == token_rows(rows@),
                i <= FIELD_WIDTH,
                i <= rows@.len(),
                forall|m: int| 0 <= m < i ==> {
                    &&& (#[trigger] rs[m]).len() <= FIELD_WIDTH
                    &&& forall|j: int|
                        0 <= j < rs[m].len() ==> (#[trigger] rs[m][j]).0 == '.' || is_letter(rs[m][j].0)
                },
                forall|a: int, b: int|
                    on_board(a, b) ==> if a < i && has_token(rs, a, b) {
                        &&& #[trigger] f.cell(a, b) == rs[a][b].0
                        &&& f.placeholder(a, b) == rs[a][b].1
                    } else {
                        f.cell(a, b) == '.' && !f.placeholder(a, b)
                    },
            decreases FIELD_WIDTH - i,
        {
            let row = &rows[i];
            assert(rs[i as int] == row@);
            let mut j: usize = 0;
            while j < row.len()
                invariant
                    rs == token_rows(rows@),
                    i < FIELD_WIDTH,
                    i < rows@.len(),
                    rs[i as int] == row@,
                    j <= row@.len(),
                    j <= FIELD_WIDTH,
                    forall|m: int| 0 <= m < i ==> {
                        &&& (#[trigger] rs[m]).len() <= FIELD_WIDTH
                        &&& forall|j: int|
                            0 <= j < rs[m].len() ==> (#[trigger] rs[m][j]).0 == '.' || is_letter(rs[m][j].0)
                    },
                    forall|b: int|
                        0 <= b < j ==> (#[trigger] rs[i as int][b]).0 == '.' || is_letter(rs[i as int][b].0),
                    forall|a: int, b: int|
                        on_board(a, b) ==> if (a < i || (a == i && b < j)) && has_token(rs, a, b) {
                            &&& #[trigger] f.cell(a, b) == rs[a][b].0
                            &&& f.placeholder(a, b) == rs[a][b].1
                        } else {
                            f.cell(a, b) == '.' && !f.placeholder(a, b)
                        },
                decreases row@.len() - j,
            {
                if j >= FIELD_WIDTH {
                    assert(!rows_readable(rs)) by {
                        assert(rs[i as int].len() > FIELD_WIDTH);
                    }
                    return Err(());
                }
                let (c, upper) = row[j];
                if !(c == EMPTY_CELL_CHAR || crate::char_counter::is_letter_exec(c)) {
                    assert(!rows_readable(rs)) by {
                        assert(rs[i as int][j as int] == (c, upper));
                    }
                    return Err(());
                }
                let ghost before = f;
                f.cells[i][j] = c;
                f.is_placeholder_char[i][j] = upper;
                assert forall|a: int, b: int| on_board(a, b) implies {
                    &&& f.cell(a, b) == if a == i && b == j {
                        c
                    } else {
                        before.cell(a, b)
                    }
                    &&& f.placeholder(a, b) == if a == i && b == j {
                        upper
                    } else {
                        before.placeholder(a, b)
                    }
                } by {
                    if a != i {
                        assert(f.cells@[a] == before.cells@[a]);
                        assert(f.is_placeholder_char@[a] == before.is_placeholder_char@[a]);
                    }
                }
                j += 1;
            }
            i += 1;
        }
        assert forall|a: int, b: int| on_board(a, b) implies #[trigger] f.cell(a, b) == '.' || is_letter(
            f.cell(a, b),
        ) by {
            if has_token(rs, a, b) {
                assert(f.cell(a, b) == rs[a][b].0);
            }
        }
        assert forall|a: int, b: int| on_board(a, b) implies if has_token(rs, a, b) {
            &&& #[trigger] f.cell(a, b) == rs[a][b].0
            &&& f.placeholder(a, b) == rs[a][b].1
        } else {
            f.cell(a, b) == '.' && !f.placeholder(a, b)
        } by {
            assert(rs.len() == rows@.len());
            if 0 <= a < rs.len() {
                assert(rs[a] == rows@[a]@);
            }
            assert(a < i || !has_token(rs, a, b));
            if has_token(rs, a, b) {
                assert(f.cell(a, b) == rs[a][b].0);
            } else {
                assert(f.cell(a, b) == '.');
            }
        }
        assert(f.reads_rows(rs));
        Ok(f)
    }

    /// Whether cell (`i`, `j`), given as signed offsets, lies on the board and is not empty.
    fn filled_at(&self, i: i64, j: i64) -> (r: bool)
        ensures
            r == self.is_filled(i as int, j as int),
    {
        0 <= i && i < FIELD_WIDTH as i64 && 0 <= j && j < FIELD_WIDTH as i64
            && self.cells[i as usize][j as usize] != EMPTY_CELL_CHAR
    }

    /// Whether no cell of `word` has a filled neighbour.
    pub fn is_word_isolated(&self, word: &Word) -> (r: bool)
        requires
            forall|k: int| 0 <= k < word@.len() ==> on_board(#[trigger] word@[k].0 as int, word@[k].1 as int),
        ensures
            r == self.isolated(word@),
    {
        let mut k: usize = 0;
        while k < word.len()
            invariant
                k <= word@.len(),
                forall|k: int| 0 <= k < word@.len() ==> on_board(#[trigger] word@[k].0 as int, word@[k].1 as int),
                forall|m: int| 0 <= m < k ==> !self.touches(#[trigger] word@[m].0 as int, word@[m].1 as int),
            decreases word@.len() - k,
        {
            let (i, j, _) = word[k];
            let i = i as i64;
            let j = j as i64;
            if self.filled_at(i - 1, j) || self.filled_at(i, j - 1) || self.filled_at(i, j + 1)
                || self.filled_at(i + 1, j) {
                assert(self.touches(word@[k as int].0 as int, word@[k as int].1 as int));
                return false;
            }
            k += 1;
        }
        true
    }
}

/// A board has one mirror image.
pub proof fn lemma_transpose_unique(a: Field, b: Field, o: Field)
    requires
        a.is_transpose_of(o),
        b.is_transpose_of(o),
    ensures
        a == b,
{
    assert forall|i: int| 0 <= i < FIELD_WIDTH implies a.cells@[i] == b.cells@[i]
        && a.is_placeholder_char@[i] == b.is_placeholder_char@[i] by {
        assert forall|j: int| 0 <= j < FIELD_WIDTH implies #[trigger] a.cells@[i]@[j] == b.cells@[i]@[j] by {
            assert(a.cell(i, j) == o.cell(j, i));
            assert(b.cell(i, j) == o.cell(j, i));
        }
        assert forall|j: int| 0 <= j < FIELD_WIDTH implies #[trigger] a.is_placeholder_char@[i]@[j]
            == b.is_placeholder_char@[i]@[j] by {
            assert(a.cell(i, j) == o.cell(j, i));
            assert(b.cell(i, j) == o.cell(j, i));
        }
        assert(a.cells@[i]@ =~= b.cells@[i]@);
        assert(a.is_placeholder_char@[i]@ =~= b.is_placeholder_char@[i]@);
    }
    assert(a.cells@ =~= b.cells@);
    assert(a.is_placeholder_char@ =~= b.is_placeholder_char@);
    assert(a.cells == b.cells);
    assert(a.is_placeholder_char == b.is_placeholder_char);
}

/// Mirroring a board twice across its diagonal gives back the board: letters and
/// placeholder flags alike.
pub proof fn lemma_transpose_twice(a: Field, b: Field, c: Field)
    requires
        b.is_transpose_of(a),
        c.is_transpose_of(b),
    ensures
        c == a,
{
    assert forall|i: int| 0 <= i < FIELD_WIDTH implies c.cells@[i] == a.cells@[i]
        && c.is_placeholder_char@[i] == a.is_placeholder_char@[i] by {
        assert forall|j: int| 0 <= j < FIELD_WIDTH implies #[trigger] c.cells@[i]@[j] == a.cells@[i]@[j] by {
            assert(c.cell(i, j) == b.cell(j, i));
        }
        assert forall|j: int| 0 <= j < FIELD_WIDTH implies #[trigger] c.is_placeholder_char@[i]@[j]
            == a.is_placeholder_char@[i]@[j] by {
            assert(c.cell(i, j) == b.cell(j, i));
        }
        assert(c.cells@[i]@.len() == a.cells@[i]@.len());
        assert(c.cells@[i]@ =~= a.cells@[i]@);
        assert(c.is_placeholder_char@[i]@.len() == a.is_placeholder_char@[i]@.len());
        assert(c.is_placeholder_char@[i]@ =~= a.is_placeholder_char@[i]@);
    }
    assert(c.cells@.len() == a.cells@.len());
    assert(c.is_placeholder_char@.len() == a.is_placeholder_char@.len());
    assert(c.cells@ =~= a.cells@);
    assert(c.is_placeholder_char@ =~= a.is_placeholder_char@);
    assert(c.cells == a.cells);
    assert(c.is_placeholder_char == a.is_placeholder_char);
}

} // verus!
