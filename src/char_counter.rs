use vstd::prelude::*;

use crate::char_scorer::{
    index_points, is_letter, letter_index, ALPHABET_SIZE, LOOKUP_TABLE, MIN_LETTER_CODE,
};
use crate::field::EMPTY_CELL_CHAR;

verus! {

/// A character that a letter inventory accepts: a letter, or one of the two
/// markers ('-' and the empty-cell marker) that are not counted.
pub open spec fn is_countable(c: char) -> bool {
    c == '-' || c == '.' || is_letter(c)
}

/// Number of occurrences in `s` of the letter in slot `k`.
pub open spec fn occurrences(s: Seq<char>, k: int) -> nat
    decreases s.len(),
{
    if s.len() == 0 {
        0
    } else {
        let c = s.last();
        occurrences(s.drop_last(), k) + if is_letter(c) && letter_index(c) == k {
            1nat
        } else {
            0nat
        }
    }
}

/// Sum of the first `n` entries of a tally.
pub open spec fn tally_sum(t: Seq<nat>, n: int) -> int
    decreases n,
{
    if n <= 0 {
        0
    } else {
        tally_sum(t, n - 1) + t[n - 1]
    }
}

/// Point value of the first `n` slots of a tally.
pub open spec fn tally_points(t: Seq<nat>, n: int) -> int
    decreases n,
{
    if n <= 0 {
        0
    } else {
        tally_points(t, n - 1) + index_points(n - 1) * t[n - 1]
    }
}

/// How many of each letter `s` holds, slot by slot.
pub open spec fn tally_of(s: Seq<char>) -> Seq<nat> {
    Seq::new(ALPHABET_SIZE as nat, |k: int| occurrences(s, k))
}

/// Every count of `a` is at most the matching count of `b`.
pub open spec fn tally_le(a: Seq<nat>, b: Seq<nat>) -> bool {
    forall|k: int| 0 <= k < ALPHABET_SIZE ==> #[trigger] a[k] <= b[k]
}

/// How many of each letter a set of tiles holds.
#[derive(Clone, Copy)]
pub struct CharCounter {
    count: [u8; 34],
}

impl View for CharCounter {
    type V = Seq<nat>;

    closed spec fn view(&self) -> Seq<nat> {
        Seq::new(34, |k: int| self.count@[k] as nat)
    }
}

impl CharCounter {
    /// An inventory with no tiles.
    pub fn new() -> (r: Self)
        ensures
            forall|k: int| 0 <= k < ALPHABET_SIZE ==> r@[k] == 0,
    {
        Self { count: [0; 34] }
    }

    /// The letters of `s`; markers are not counted.
    pub fn from_str(s: &str) -> (r: Self)
        requires
            forall|k: int| 0 <= k < s@.len() ==> is_countable(#[trigger] s@[k]),
            forall|x: int| 0 <= x < ALPHABET_SIZE ==> #[trigger] occurrences(s@, x) <= 255,
        ensures
            forall|k: int| 0 <= k < ALPHABET_SIZE ==> r@[k] == occurrences(s@, k),
    {
        let mut counter = Self::new();
        let n = s.unicode_len();
        let mut i: usize = 0;
        while i < n
            invariant
                n == s@.len(),
                i <= n,
                forall|k: int| 0 <= k < s@.len() ==> is_countable(#[trigger] s@[k]),
                forall|x: int| 0 <= x < ALPHABET_SIZE ==> #[trigger] occurrences(s@, x) <= 255,
                forall|k: int| 0 <= k < ALPHABET_SIZE ==> counter@[k] == occurrences(s@.take(i as int), k),
            decreases n - i,
        {
            let c = s.get_char(i);
            proof {
                assert(s@.take(i as int + 1).drop_last() =~= s@.take(i as int));
                assert(s@.take(i as int + 1) =~= s@.subrange(0, i as int + 1));
                if is_letter(c) {
                    lemma_occurrences_subrange(s@, 0, i as int + 1, letter_index(c));
                }
            }
            counter.increment(c);
            i += 1;
        }
        assert(s@.take(n as int) =~= s@);
        counter
    }

    /// Adds one `c`; the two markers are passed over.
    pub fn increment(&mut self, c: char)
        requires
            is_countable(c),
            is_letter(c) ==> old(self)@[letter_index(c)] < 255,
        ensures
            forall|k: int|
                0 <= k < ALPHABET_SIZE ==> final(self)@[k] == old(self)@[k] + if is_letter(c)
                    && letter_index(c) == k {
                    1nat
                } else {
                    0nat
                },
    {
        if c == '-' || c == EMPTY_CELL_CHAR {
            return;
        }
        let k = (c as u32 - MIN_LETTER_CODE) as usize;
        self.count[k] = self.count[k] + 1;
    }

    /// Whether every count is at most the matching count of `other`.
    pub fn is_less_than_or_eq(&self, other: &Self) -> (r: bool)
        ensures
            r == tally_le(self@, other@),
    {
        let mut i: usize = 0;
        while i < ALPHABET_SIZE
            invariant
                i <= ALPHABET_SIZE,
                forall|k: int| 0 <= k < i ==> #[trigger] self@[k] <= other@[k],
            decreases ALPHABET_SIZE - i,
        {
            if self.count[i] > other.count[i] {
                assert(self@[i as int] > other@[i as int]);
                return false;
            }
            i += 1;
        }
        true
    }

    /// Number of tiles.
    pub fn sum(&self) -> (r: i32)
        ensures
            r == tally_sum(self@, ALPHABET_SIZE as int),
            0 <= r <= 255 * ALPHABET_SIZE,
    {
        let mut s: i32 = 0;
        let mut i: usize = 0;
        while i < ALPHABET_SIZE
            invariant
                i <= ALPHABET_SIZE,
                s == tally_sum(self@, i as int),
                0 <= s <= 255 * i,
            decreases ALPHABET_SIZE - i,
        {
            s = s + self.count[i] as i32;
            i += 1;
        }
        s
    }

    /// Point value of all the tiles.
    pub fn score_sum(&self) -> (r: i32)
        ensures
            r == tally_points(self@, ALPHABET_SIZE as int),
            r >= tally_sum(self@, ALPHABET_SIZE as int),
            r >= 0,
    {
        let mut s: i32 = 0;
        let mut i: usize = 0;
        while i < ALPHABET_SIZE
            invariant
                i <= ALPHABET_SIZE,
                s == tally_points(self@, i as int),
                s >= tally_sum(self@, i as int),
                0 <= s <= 32385 * i,
            decreases ALPHABET_SIZE - i,
        {
            let p = LOOKUP_TABLE[i] as i32;
            let n = self.count[i] as i32;
            assert(1 <= p <= 127);
            assert(n <= p * n <= 127 * 255) by (nonlinear_arith)
                requires
                    1 <= p <= 127,
                    0 <= n <= 255,
            ;
            assert(p == index_points(i as int) && n == self@[i as int]);
            s = s + p * n;
            i += 1;
        }
        s
    }
}

/// Whether `c` is a letter of the alphabet.
pub fn is_letter_exec(c: char) -> (r: bool)
    ensures
        r == is_letter(c),
{
    ('а' <= c && c <= 'я') || c == 'ё'
}

/// An inventory has one count per slot.
pub proof fn lemma_view_len(c: CharCounter)
    ensures
        c@.len() == ALPHABET_SIZE,
{
}

/// A tally that is at most another, slot by slot, holds no more tiles in all.
pub proof fn lemma_tally_sum_le(a: Seq<nat>, b: Seq<nat>, n: int)
    requires
        forall|k: int| 0 <= k < n ==> #[trigger] a[k] <= b[k],
    ensures
        tally_sum(a, n) <= tally_sum(b, n),
    decreases n,
{
    if n > 0 {
        lemma_tally_sum_le(a, b, n - 1);
    }
}

/// No single count of a tally exceeds the total.
pub proof fn lemma_tally_entry_le_sum(t: Seq<nat>, n: int, k: int)
    requires
        0 <= k < n,
    ensures
        t[k] <= tally_sum(t, n),
    decreases n,
{
    if k < n - 1 {
        lemma_tally_entry_le_sum(t, n - 1, k);
    }
    lemma_tally_sum_nonneg(t, n - 1);
}

/// A tally's total is not negative.
pub proof fn lemma_tally_sum_nonneg(t: Seq<nat>, n: int)
    ensures
        tally_sum(t, n) >= 0,
    decreases n,
{
    if n > 0 {
        lemma_tally_sum_nonneg(t, n - 1);
    }
}

/// Comparing inventories is reflexive.
pub proof fn lemma_le_reflexive(a: CharCounter)
    ensures
        tally_le(a@, a@),
{
}

/// Two inventories each at most the other are equal.
pub proof fn lemma_le_antisymmetric(a: CharCounter, b: CharCounter)
    requires
        tally_le(a@, b@),
        tally_le(b@, a@),
    ensures
        a@ == b@,
{
    assert(a@ =~= b@);
}

/// Comparing inventories is transitive.
pub proof fn lemma_le_transitive(a: CharCounter, b: CharCounter, c: CharCounter)
    requires
        tally_le(a@, b@),
        tally_le(b@, c@),
    ensures
        tally_le(a@, c@),
{
}

/// An inventory with more of one letter and another with more of another letter are
/// each not at most the other.
pub proof fn lemma_le_not_total(a: CharCounter, b: CharCounter, x: int, y: int)
    requires
        0 <= x < ALPHABET_SIZE,
        0 <= y < ALPHABET_SIZE,
        a@[x] > b@[x],
        b@[y] > a@[y],
    ensures
        !tally_le(a@, b@),
        !tally_le(b@, a@),
{
}

/// Letters of two sequences put end to end add up.
pub proof fn lemma_occurrences_concat(a: Seq<char>, b: Seq<char>, k: int)
    ensures
        occurrences(a + b, k) == occurrences(a, k) + occurrences(b, k),
    decreases b.len(),
{
    if b.len() > 0 {
        assert((a + b).drop_last() =~= a + b.drop_last());
        lemma_occurrences_concat(a, b.drop_last(), k);
    } else {
        assert(a + b =~= a);
    }
}

/// A stretch of a sequence holds no more of a letter than the whole.
pub proof fn lemma_occurrences_subrange(s: Seq<char>, lo: int, hi: int, k: int)
    requires
        0 <= lo <= hi <= s.len(),
    ensures
        occurrences(s.subrange(lo, hi), k) <= occurrences(s, k),
{
    assert(s =~= s.subrange(0, lo) + s.subrange(lo, hi) + s.subrange(hi, s.len() as int));
    lemma_occurrences_concat(s.subrange(0, lo) + s.subrange(lo, hi), s.subrange(hi, s.len() as int), k);
    lemma_occurrences_concat(s.subrange(0, lo), s.subrange(lo, hi), k);
}

/// A letter occurs in `s` no more often than `s` is long.
pub proof fn lemma_occurrences_bound(s: Seq<char>, k: int)
    ensures
        occurrences(s, k) <= s.len(),
    decreases s.len(),
{
    if s.len() > 0 {
        lemma_occurrences_bound(s.drop_last(), k);
    }
}

} // verus!
