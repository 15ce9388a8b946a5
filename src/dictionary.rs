use vstd::prelude::*;

use fxhash::FxHashSet;

use crate::word::{word_text, Word};

verus! {

/// fxhash's hasher, the hasher of `FxHashSet`; opaque here.
#[verifier::external_type_specification]
#[verifier::external_body]
pub struct ExFxHasher(fxhash::FxHasher);

/// std's `BuildHasherDefault`, the hasher builder of `FxHashSet`; opaque here.
#[verifier::external_type_specification]
#[verifier::external_body]
#[verifier::reject_recursive_types(H)]
pub struct ExBuildHasherDefault<H>(std::hash::BuildHasherDefault<H>);

/// The words that a set of strings holds, each as its sequence of characters.
pub uninterp spec fn set_words(s: FxHashSet<String>) -> Set<Seq<char>>;

/// Relies on `HashSet::default` (with fxhash's hasher builder): the new set is empty.
#[verifier::external_body]
fn empty_word_set() -> (r: FxHashSet<String>)
    ensures
        set_words(r) == Set::<Seq<char>>::empty(),
{
    FxHashSet::default()
}

/// Relies on `HashSet::insert`: afterwards the set holds `w` besides what it held.
#[verifier::external_body]
fn insert_into_word_set(s: &mut FxHashSet<String>, w: String)
    ensures
        set_words(*final(s)) == set_words(*old(s)).insert(w@),
{
    s.insert(w);
}

/// Relies on `HashSet::contains`: true iff the set holds a string equal to `w`.
#[verifier::external_body]
fn word_set_contains(s: &FxHashSet<String>, w: &String) -> (r: bool)
    ensures
        r == set_words(*s).contains(w@),
{
    s.contains(w)
}

/// Relies on `HashSet::iter`: it yields every member once, in an order that the set picks.
#[verifier::external_body]
fn word_set_members(s: &FxHashSet<String>) -> (r: Vec<String>)
    ensures
        string_views(r@).no_duplicates(),
        forall|k: int| 0 <= k < r@.len() ==> set_words(*s).contains(#[trigger] r@[k]@),
        forall|w: Seq<char>| set_words(*s).contains(w) ==> exists|k: int| 0 <= k < r@.len() && #[trigger] r@[k]@ == w,
{
    s.iter().cloned().collect()
}

/// Relies on `String::from_iter`: the string holds the characters of `v`, in order.
#[verifier::external_body]
fn string_from_chars(v: &Vec<char>) -> (r: String)
    ensures
        r@ == v@,
{
    v.iter().collect()
}

/// The characters of each string.
pub open spec fn string_views(v: Seq<String>) -> Seq<Seq<char>> {
    v.map_values(|w: String| w@)
}

/// The set of legal words.
pub struct Dictionary {
    set: FxHashSet<String>,
}

impl View for Dictionary {
    type V = Set<Seq<char>>;

    closed spec fn view(&self) -> Set<Seq<char>> {
        set_words(self.set)
    }
}

impl Dictionary {
    /// A dictionary with no words.
    pub fn new() -> (r: Self)
        ensures
            r@ == Set::<Seq<char>>::empty(),
    {
        Dictionary { set: empty_word_set() }
    }

    /// Adds a word.
    pub fn insert(&mut self, word: String)
        ensures
            final(self)@ == old(self)@.insert(word@),
    {
        insert_into_word_set(&mut self.set, word);
    }

    /// Whether the letters of `word`, read in order, form a word of the dictionary.
    pub fn contains_word(&self, word: &Word) -> (r: bool)
        ensures
            r == self@.contains(word_text(word@)),
    {
        let mut letters: Vec<char> = Vec::new();
        let mut k: usize = 0;
        while k < word.len()
            invariant
                k <= word@.len(),
                letters@ =~= word_text(word@.take(k as int)),
            decreases word@.len() - k,
        {
            letters.push(word[k].2);
            k += 1;
            assert(letters@ =~= word_text(word@.take(k as int)));
        }
        assert(word@.take(word@.len() as int) =~= word@);
        let s = string_from_chars(&letters);
        word_set_contains(&self.set, &s)
    }

    /// Every word of the dictionary once, in no particular order.
    pub fn words(&self) -> (r: Vec<String>)
        ensures
            string_views(r@).no_duplicates(),
            forall|k: int| 0 <= k < r@.len() ==> self@.contains(#[trigger] r@[k]@),
            forall|w: Seq<char>| self@.contains(w) ==> exists|k: int| 0 <= k < r@.len() && #[trigger] r@[k]@ == w,
    {
        word_set_members(&self.set)
    }
}

} // verus!
