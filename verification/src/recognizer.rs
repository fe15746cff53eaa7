//! The recogniser: finds the longest dictionary word that ends with the
//! newest symbol, and marks the symbols that make it up.

use crate::dictionary::{dict_contains, dict_words};
use crate::window::{chars, Window};
use ahash::AHashSet;
use vstd::prelude::*;
use vstd::string::*;

verus! {

/// The symbols of `s` from `from` up to, not including, `to` are a non-empty
/// word of the dictionary.
pub open spec fn is_word_at(dict: Set<Seq<char>>, s: Seq<char>, from: int, to: int) -> bool {
    0 <= from < to <= s.len() && dict.contains(s.subrange(from, to))
}

/// Position `p` of `s` lies inside some occurrence of a dictionary word.
pub open spec fn covered(dict: Set<Seq<char>>, s: Seq<char>, p: int) -> bool {
    exists|from: int, to: int| from <= p < to && #[trigger] is_word_at(dict, s, from, to)
}

/// The suffix of `s` that starts at `from` is a dictionary word, and no
/// longer suffix is.
pub open spec fn is_longest_suffix_at(dict: Set<Seq<char>>, s: Seq<char>, from: int) -> bool {
    &&& is_word_at(dict, s, from, s.len() as int)
    &&& forall|j: int| 0 <= j < from ==> !is_word_at(dict, s, j, s.len() as int)
}

/// No suffix of `s` is a dictionary word.
pub open spec fn no_suffix_word(dict: Set<Seq<char>>, s: Seq<char>) -> bool {
    forall|j: int| !is_word_at(dict, s, j, s.len() as int)
}

/// Where the longest suffix of `s` that is a dictionary word starts, or the
/// length of `s` if no suffix is one.
pub open spec fn suffix_start(dict: Set<Seq<char>>, s: Seq<char>) -> int {
    if no_suffix_word(dict, s) {
        s.len() as int
    } else {
        choose|from: int| is_longest_suffix_at(dict, s, from)
    }
}

/// The longest suffix of `s` that is a dictionary word, if there is one.
pub open spec fn recognized(dict: Set<Seq<char>>, s: Seq<char>) -> Option<Seq<char>> {
    if suffix_start(dict, s) < s.len() {
        Some(s.subrange(suffix_start(dict, s), s.len() as int))
    } else {
        None
    }
}

/// The window `w` with every symbol from index `from` on marked.
pub open spec fn marked_from(w: Seq<(char, bool)>, from: int) -> Seq<(char, bool)> {
    Seq::new(w.len(), |i: int| (w[i].0, w[i].1 || i >= from))
}

/// A start that no longer suffix beats is the start of the longest suffix.
pub proof fn lemma_suffix_start_is(dict: Set<Seq<char>>, s: Seq<char>, from: int)
    requires
        is_longest_suffix_at(dict, s, from),
    ensures
        suffix_start(dict, s) == from,
{
    let c = choose|k: int| is_longest_suffix_at(dict, s, k);
    assert(is_longest_suffix_at(dict, s, c));
    assert(is_word_at(dict, s, from, s.len() as int));
}

/// Where no suffix up to `upto` is a word, the longest one starts later.
proof fn lemma_scan(dict: Set<Seq<char>>, s: Seq<char>, upto: int)
    requires
        0 <= upto <= s.len(),
        forall|j: int| 0 <= j < upto ==> !is_word_at(dict, s, j, s.len() as int),
    ensures
        upto <= suffix_start(dict, s) <= s.len(),
        suffix_start(dict, s) < s.len() ==> is_longest_suffix_at(dict, s, suffix_start(dict, s)),
        suffix_start(dict, s) == s.len() ==> no_suffix_word(dict, s),
    decreases s.len() - upto,
{
    if upto == s.len() {
        assert(no_suffix_word(dict, s));
    } else if is_word_at(dict, s, upto, s.len() as int) {
        lemma_suffix_start_is(dict, s, upto);
    } else {
        lemma_scan(dict, s, upto + 1);
    }
}

/// The longest suffix that is a word starts inside `s`, or nowhere; where it
/// starts, a word starts, and none starts before it.
pub proof fn lemma_suffix_start(dict: Set<Seq<char>>, s: Seq<char>)
    ensures
        0 <= suffix_start(dict, s) <= s.len(),
        suffix_start(dict, s) < s.len() ==> is_longest_suffix_at(dict, s, suffix_start(dict, s)),
        suffix_start(dict, s) == s.len() ==> no_suffix_word(dict, s),
{
    lemma_scan(dict, s, 0);
}

/// Longest suffix first: of the suffixes of `s` that are dictionary words,
/// the one recognised is the longest. Whenever a non-empty suffix `v` of
/// `s` is a word, some word is recognised, it is itself a suffix of `s`
/// and a word, and it is at least as long as `v`.
pub proof fn lemma_longest_suffix_preferred(dict: Set<Seq<char>>, s: Seq<char>, v: Seq<char>)
    requires
        0 < v.len() <= s.len(),
        v == s.subrange(s.len() - v.len(), s.len() as int),
        dict.contains(v),
    ensures
        recognized(dict, s) matches Some(w) && {
            &&& w.len() >= v.len()
            &&& w == s.subrange(s.len() - w.len(), s.len() as int)
            &&& dict.contains(w)
        },
{
    lemma_suffix_start(dict, s);
    assert(is_word_at(dict, s, s.len() - v.len(), s.len() as int));
}

/// Looks for the longest suffix of the window's symbols that is a word of
/// `dict`. If there is one, marks its symbols and returns it; if not, leaves
/// the window as it is. `scratch` is overwritten with the window's symbols.
pub fn recognize(window: &mut Window, dict: &AHashSet<String>, scratch: &mut String) -> (found:
    Option<String>)
    ensures
        final(scratch)@ == chars(old(window)@),
        final(window).cap() == old(window).cap(),
        final(window)@ == marked_from(
            old(window)@,
            suffix_start(dict_words(*dict), chars(old(window)@)),
        ),
        match found {
            Some(word) => recognized(dict_words(*dict), chars(old(window)@)) == Some(word@),
            None => recognized(dict_words(*dict), chars(old(window)@)) is None,
        },
{
    window.snapshot_chars(scratch);
    let ghost s = chars(window@);
    let ghost words = dict_words(*dict);
    let end = window.len();
    let mut start: usize = 0;
    while start < end
        invariant
            start <= end,
            end == s.len(),
            s == chars(window@),
            scratch@ == s,
            window@ == old(window)@,
            window.cap() == old(window).cap(),
            words == dict_words(*dict),
            forall|j: int| 0 <= j < start ==> !is_word_at(words, s, j, end as int),
        decreases end - start,
    {
        let candidate = scratch.as_str().substring_char(start, end);
        if dict_contains(dict, candidate) {
            proof {
                assert(is_word_at(words, s, start as int, end as int));
                lemma_suffix_start_is(words, s, start as int);
            }
            let mut idx: usize = start;
            while idx < end
                invariant
                    start <= idx <= end,
                    end == window@.len(),
                    end == old(window)@.len(),
                    window.cap() == old(window).cap(),
                    forall|i: int|
                        0 <= i < end ==> window@[i] == (
                            old(window)@[i].0,
                            old(window)@[i].1 || start <= i < idx,
                        ),
                decreases end - idx,
            {
                window.set_mark(idx);
                idx += 1;
            }
            assert(window@ =~= marked_from(old(window)@, start as int));
            return Some(candidate.to_owned());
        }
        start += 1;
    }
    proof {
        assert(no_suffix_word(words, s));
        assert(window@ =~= marked_from(old(window)@, end as int));
    }
    None
}

} // verus!
