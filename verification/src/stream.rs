//! The stream of typed symbols, and what the window and its marks are in
//! terms of it.

use crate::ranking::{lemma_offered_weight, lemma_recorded_weight, offer, offered};
use crate::recognizer::{
    covered, is_longest_suffix_at, is_word_at, lemma_suffix_start, lemma_suffix_start_is,
    marked_from, no_suffix_word, recognized, suffix_start,
};
use crate::window::chars;
use vstd::prelude::*;

verus! {

/// The number of symbols that a window of capacity `cap` holds once `s` has
/// been typed.
pub open spec fn span(s: Seq<char>, cap: nat) -> nat {
    if s.len() < cap {
        s.len()
    } else {
        cap
    }
}

/// The window of capacity `cap` after `s` has been typed: the last symbols
/// of `s`, each marked if and only if it lies inside an occurrence of a
/// dictionary word in `s`.
pub open spec fn window_of(dict: Set<Seq<char>>, s: Seq<char>, cap: nat) -> Seq<(char, bool)> {
    let base = s.len() - span(s, cap);
    Seq::new(span(s, cap), |i: int| (s[base + i], covered(dict, s, base + i)))
}

/// The words recognised, in order, while the symbols of `s` from index
/// `from` on were typed, one after another.
pub open spec fn recognitions(dict: Set<Seq<char>>, s: Seq<char>, from: nat) -> Seq<Seq<char>>
    decreases s.len(),
{
    if s.len() <= from {
        Seq::empty()
    } else {
        match recognized(dict, s) {
            Some(w) => recognitions(dict, s.drop_last(), from).push(w),
            None => recognitions(dict, s.drop_last(), from),
        }
    }
}

/// Typing one more symbol marks exactly the positions of the longest suffix
/// that is now a word, and clears no mark.
pub proof fn lemma_covered_step(dict: Set<Seq<char>>, s: Seq<char>, c: char, p: int)
    requires
        0 <= p <= s.len(),
    ensures
        covered(dict, s.push(c), p) <==> (p < s.len() && covered(dict, s, p)) || suffix_start(
            dict,
            s.push(c),
        ) <= p,
{
    let t = s.push(c);
    lemma_suffix_start(dict, t);
    let k = suffix_start(dict, t);
    if covered(dict, t, p) {
        let (from, to) = choose|from: int, to: int|
            from <= p < to && #[trigger] is_word_at(dict, t, from, to);
        if to <= s.len() {
            assert(t.subrange(from, to) =~= s.subrange(from, to));
            assert(is_word_at(dict, s, from, to));
        } else {
            assert(is_word_at(dict, t, from, t.len() as int));
        }
    }
    if p < s.len() && covered(dict, s, p) {
        let (from, to) = choose|from: int, to: int|
            from <= p < to && #[trigger] is_word_at(dict, s, from, to);
        assert(t.subrange(from, to) =~= s.subrange(from, to));
        assert(is_word_at(dict, t, from, to));
    }
    if k <= p {
        assert(is_word_at(dict, t, k, t.len() as int));
    }
}

/// A window that holds the last symbols of `s`, as many as its capacity
/// allows and no fewer than the longest word has, sees every suffix of `s`
/// that is a word: recognition on the window is recognition on the stream.
pub proof fn lemma_window_sees_suffix(dict: Set<Seq<char>>, s: Seq<char>, view: Seq<char>)
    requires
        view.len() <= s.len(),
        view == s.subrange(s.len() - view.len(), s.len() as int),
        view.len() < s.len() ==> forall|w: Seq<char>| #[trigger]
            dict.contains(w) ==> w.len() <= view.len(),
    ensures
        suffix_start(dict, s) == s.len() - view.len() + suffix_start(dict, view),
        recognized(dict, s) == recognized(dict, view),
{
    let base = s.len() - view.len();
    lemma_suffix_start(dict, view);
    let k = suffix_start(dict, view);
    assert forall|j: int| 0 <= j < view.len() implies is_word_at(dict, view, j, view.len() as int)
        == is_word_at(dict, s, base + j, s.len() as int) by {
        assert(view.subrange(j, view.len() as int) =~= s.subrange(base + j, s.len() as int));
    }
    assert forall|j: int| 0 <= j < base implies !is_word_at(dict, s, j, s.len() as int) by {
        assert(s.subrange(j, s.len() as int).len() > view.len());
    }
    if k < view.len() {
        assert forall|j: int| 0 <= j < base + k implies !is_word_at(
            dict,
            s,
            j,
            s.len() as int,
        ) by {
            if j >= base {
                assert(!is_word_at(dict, view, j - base, view.len() as int));
            }
        }
        lemma_suffix_start_is(dict, s, base + k);
        assert(view.subrange(k, view.len() as int) =~= s.subrange(base + k, s.len() as int));
    } else {
        assert forall|j: int| !is_word_at(dict, s, j, s.len() as int) by {
            if base <= j < s.len() {
                assert(!is_word_at(dict, view, j - base, view.len() as int));
            }
        }
        assert(no_suffix_word(dict, s));
    }
}

/// One step of the window. Take the window of capacity `cap` after `s`,
/// less its oldest pair if it is full; append `c` unmarked; mark the longest
/// suffix that is a word. The result is the window after `s` and `c`.
pub proof fn lemma_window_step(dict: Set<Seq<char>>, s: Seq<char>, c: char, cap: nat)
    requires
        cap > 0,
        forall|w: Seq<char>| #[trigger] dict.contains(w) ==> w.len() <= cap,
    ensures
        ({
            let pushed = window_of(dict, s, (cap - 1) as nat).push((c, false));
            &&& recognized(dict, chars(pushed)) == recognized(dict, s.push(c))
            &&& marked_from(pushed, suffix_start(dict, chars(pushed))) == window_of(
                dict,
                s.push(c),
                cap,
            )
        }),
{
    let t = s.push(c);
    let before = window_of(dict, s, (cap - 1) as nat);
    let pushed = before.push((c, false));
    let view = chars(pushed);
    let base = t.len() - view.len();
    assert(view =~= t.subrange(base, t.len() as int));
    lemma_window_sees_suffix(dict, t, view);
    let k = suffix_start(dict, view);
    let after = window_of(dict, t, cap);
    let marked = marked_from(pushed, k);
    assert(marked.len() == after.len());
    assert forall|i: int| 0 <= i < marked.len() implies marked[i] == after[i] by {
        lemma_covered_step(dict, s, c, base + i);
    }
    assert(marked =~= after);
}

/// One more symbol in a run. The ranking after the run with the symbol is
/// the ranking after the run without it, offered what is then recognised;
/// and a ranking that this changes is no longer the one the run began with.
pub proof fn lemma_run_step(
    dict: Set<Seq<char>>,
    limit: nat,
    r0: Seq<Seq<char>>,
    s: Seq<char>,
    from: nat,
    c: char,
)
    requires
        from <= s.len(),
    ensures
        ({
            let before = offered(r0, limit, recognitions(dict, s, from));
            let after = offered(r0, limit, recognitions(dict, s.push(c), from));
            &&& after == offer(before, limit, recognized(dict, s.push(c)))
            &&& after != before ==> after != r0
        }),
{
    let t = s.push(c);
    let seen = recognitions(dict, s, from);
    let before = offered(r0, limit, seen);
    assert(t.drop_last() =~= s);
    lemma_offered_weight(r0, limit, seen);
    match recognized(dict, t) {
        Some(w) => {
            assert(seen.push(w).drop_last() =~= seen);
            lemma_recorded_weight(before, limit, w);
        },
        None => {},
    }
}

/// One tick of a full window, pair by pair. Every pair but the oldest moves
/// one place towards the front and keeps its symbol; its mark stays if it
/// was set, and is newly set exactly if the pair lies in the suffix that is
/// now recognised. The newest pair holds `c`, marked exactly if a word is
/// recognised.
pub proof fn lemma_tick_marks(dict: Set<Seq<char>>, s: Seq<char>, c: char, cap: nat)
    requires
        cap > 0,
        s.len() >= cap,
        forall|w: Seq<char>| #[trigger] dict.contains(w) ==> w.len() <= cap,
    ensures
        ({
            let before = window_of(dict, s, cap);
            let after = window_of(dict, s.push(c), cap);
            let start = suffix_start(dict, chars(after));
            &&& before.len() == cap
            &&& after.len() == cap
            &&& 0 <= start <= cap
            &&& recognized(dict, s.push(c)) == recognized(dict, chars(after))
            &&& forall|i: int|
                0 <= i < cap - 1 ==> #[trigger] after[i] == (
                    before[i + 1].0,
                    before[i + 1].1 || start <= i,
                )
            &&& after[cap - 1] == (c, start < cap)
        }),
{
    let t = s.push(c);
    let before = window_of(dict, s, cap);
    let after = window_of(dict, t, cap);
    let view = chars(after);
    let base = t.len() - cap;
    assert(view =~= t.subrange(base, t.len() as int));
    lemma_window_sees_suffix(dict, t, view);
    lemma_suffix_start(dict, view);
    let start = suffix_start(dict, view);
    assert forall|i: int| 0 <= i < cap - 1 implies #[trigger] after[i] == (
        before[i + 1].0,
        before[i + 1].1 || start <= i,
    ) by {
        lemma_covered_step(dict, s, c, base + i);
    }
    lemma_covered_step(dict, s, c, base + cap - 1);
}

/// Suffix-only recognition: in one tick of a full window, a pair that was
/// unmarked and is now marked lies inside the word that is recognised in
/// this tick, a suffix of the window that ends at its newest place.
pub proof fn lemma_new_marks_in_suffix(
    dict: Set<Seq<char>>,
    s: Seq<char>,
    c: char,
    cap: nat,
    i: int,
)
    requires
        cap > 0,
        s.len() >= cap,
        forall|w: Seq<char>| #[trigger] dict.contains(w) ==> w.len() <= cap,
        0 <= i < cap,
        window_of(dict, s.push(c), cap)[i].1,
        i < cap - 1 ==> !window_of(dict, s, cap)[i + 1].1,
    ensures
        recognized(dict, chars(window_of(dict, s.push(c), cap))) matches Some(w) && {
            &&& cap - w.len() <= i
            &&& w == chars(window_of(dict, s.push(c), cap)).subrange(cap - w.len(), cap as int)
            &&& dict.contains(w)
        },
{
    lemma_tick_marks(dict, s, c, cap);
    let after = window_of(dict, s.push(c), cap);
    lemma_suffix_start(dict, chars(after));
    let start = suffix_start(dict, chars(after));
    assert(after[i].1 ==> start <= i);
}

/// Mark persistence: a position that lies inside an occurrence of a word
/// in what has been typed still does so whatever is typed after it. The
/// mark of a symbol is therefore set when the symbol leaves the window if
/// it was set at any time before.
pub proof fn lemma_mark_persists(dict: Set<Seq<char>>, s: Seq<char>, t: Seq<char>, p: int)
    requires
        s.len() <= t.len(),
        s == t.take(s.len() as int),
        covered(dict, s, p),
    ensures
        covered(dict, t, p),
{
    let (from, to) = choose|from: int, to: int|
        from <= p < to && #[trigger] is_word_at(dict, s, from, to);
    assert(t.subrange(from, to) =~= s.subrange(from, to));
    assert(is_word_at(dict, t, from, to));
}

} // verus!
