//! The dictionary: a hash set of words from the `ahash` crate, seen by the
//! verifier as the mathematical set of its words.

use ahash::AHashSet;
use ahash::RandomState;
use crate::lines::{trimmed_lines, trimmed_lines_of};
use crate::words::views;
use vstd::prelude::*;
use vstd::string::*;

verus! {

/// `ahash::RandomState`, the state from which the set builds its hashers.
/// Nothing is known of a value of it.
#[verifier::external_type_specification]
#[verifier::external_body]
pub struct ExRandomState(RandomState);

/// `ahash::AHashSet`, a hash set of the standard library with the hasher of
/// `ahash`. What a set of strings holds is named by `dict_words`.
#[verifier::external_type_specification]
#[verifier::external_body]
#[verifier::reject_recursive_types(T)]
#[verifier::reject_recursive_types(S)]
pub struct ExAHashSet<T, S>(AHashSet<T, S>);

/// The words that a dictionary holds, each as its sequence of characters.
pub uninterp spec fn dict_words(dict: AHashSet<String>) -> Set<Seq<char>>;

/// `HashSet::contains`, reached through the set's `Deref`: whether `word` is
/// one of the dictionary's entries.
#[verifier::external_body]
pub(crate) fn dict_contains(dict: &AHashSet<String>, word: &str) -> (found: bool)
    ensures
        found == dict_words(*dict).contains(word@),
{
    dict.contains(word)
}

/// `HashSet::iter`, reached through the set's `Deref`: a copy of every entry,
/// in the order in which the set happens to be walked.
#[verifier::external_body]
pub(crate) fn dict_entries(dict: &AHashSet<String>) -> (entries: Vec<String>)
    ensures
        views(entries@).to_set() == dict_words(*dict),
{
    dict.iter().cloned().collect()
}

/// `AHashSet`'s `FromIterator`: a set that holds the given strings, each
/// once however often it is given.
#[verifier::external_body]
pub(crate) fn dict_from(entries: Vec<String>) -> (dict: AHashSet<String>)
    ensures
        dict_words(dict) == views(entries@).to_set(),
{
    entries.into_iter().collect()
}

/// The dictionary that a word file describes: one word to a line, the white
/// space at the two ends of a line apart; a word that several lines give is
/// held once.
pub fn dictionary_of(text: &str) -> (dict: AHashSet<String>)
    ensures
        dict_words(dict) == trimmed_lines_of(text@).to_set(),
{
    dict_from(trimmed_lines(text))
}

/// `n` is the length of a longest word of `dict`.
pub open spec fn is_longest_len(dict: Set<Seq<char>>, n: nat) -> bool {
    &&& exists|w: Seq<char>| #[trigger] dict.contains(w) && w.len() == n
    &&& forall|w: Seq<char>| #[trigger] dict.contains(w) ==> w.len() <= n
}

/// The length, in characters, of a longest word of the dictionary, or
/// `None` if the dictionary has no entry.
pub fn longest_word_len(dict: &AHashSet<String>) -> (longest: Option<usize>)
    ensures
        match longest {
            Some(n) => is_longest_len(dict_words(*dict), n as nat),
            None => forall|w: Seq<char>| !dict_words(*dict).contains(w),
        },
{
    let entries = dict_entries(dict);
    let ghost all = views(entries@);
    assert(forall|w: Seq<char>| all.contains(w) <==> all.to_set().contains(w));
    if entries.len() == 0 {
        return None;
    }
    let mut longest = entries[0].as_str().unicode_len();
    let mut i: usize = 1;
    assert(all.contains(all[0]));
    while i < entries.len()
        invariant
            1 <= i <= entries@.len(),
            all == views(entries@),
            exists|j: int| 0 <= j < i && (#[trigger] all[j]).len() == longest,
            forall|j: int| 0 <= j < i ==> (#[trigger] all[j]).len() <= longest,
        decreases entries.len() - i,
    {
        let n = entries[i].as_str().unicode_len();
        if n > longest {
            longest = n;
            assert(all[i as int].len() == longest);
        }
        i += 1;
    }
    proof {
        let j = choose|j: int| 0 <= j < all.len() && (#[trigger] all[j]).len() == longest;
        assert(all.contains(all[j]));
        assert(dict_words(*dict).contains(all[j]));
    }
    Some(longest)
}

} // verus!
