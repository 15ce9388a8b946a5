use vstd::prelude::*;

use crate::field::FIELD_WIDTH;

verus! {

/// Where the letters of a word land: (row, column, letter) for each letter, in order.
pub type Word = Vec<(usize, usize, char)>;

/// `w` is a horizontal run on the board: one row, and columns that go up one by one
/// from the first cell's.
pub open spec fn is_run(w: Seq<(usize, usize, char)>) -> bool {
    forall|k: int|
        0 <= k < w.len() ==> {
            &&& (#[trigger] w[k]).0 == w[0].0
            &&& w[k].1 == w[0].1 + k
            &&& w[k].0 < FIELD_WIDTH
            &&& w[k].1 < FIELD_WIDTH
        }
}

/// The letters of `w`, in order.
pub open spec fn word_text(w: Seq<(usize, usize, char)>) -> Seq<char> {
    w.map_values(|t: (usize, usize, char)| t.2)
}

/// Lays `content` out from cell (`start_i`, `start_j`) to the right.
/// Fails when a letter would fall beyond the last column.
pub fn create_word(content: &str, start_i: usize, start_j: usize) -> (r: Result<Word, ()>)
    ensures
        r is Ok <==> content@.len() == 0 || start_j + content@.len() <= FIELD_WIDTH,
        r matches Ok(w) ==> {
            &&& w@.len() == content@.len()
            &&& forall|k: int|
                0 <= k < w@.len() ==> #[trigger] w@[k] == (start_i, (start_j + k) as usize, content@[k])
        },
{
    let n = content.unicode_len();
    let mut v: Word = Vec::new();
    let mut j = start_j;
    let mut k: usize = 0;
    while k < n
        invariant
            n == content@.len(),
            k <= n,
            j == start_j + k,
            k > 0 ==> start_j + k <= FIELD_WIDTH,
            v@.len() == k,
            forall|m: int| 0 <= m < k ==> #[trigger] v@[m] == (start_i, (start_j + m) as usize, content@[m]),
        decreases n - k,
    {
        if j >= FIELD_WIDTH {
            return Err(());
        }
        v.push((start_i, j, content.get_char(k)));
        j += 1;
        k += 1;
    }
    Ok(v)
}

} // verus!
