//! Words as sequences of characters, and the order in which they are listed:
//! shorter words first, and words of one length in lexicographic order.

use vstd::prelude::*;
use vstd::relations::*;
use vstd::seq_lib::*;

verus! {

/// `String::push`: appends one character to the string.
pub assume_specification[ String::push ](s: &mut String, c: char)
    ensures
        final(s)@ == old(s)@.push(c),
;

/// `String::clear`: empties the string.
pub assume_specification[ String::clear ](s: &mut String)
    ensures
        final(s)@ == Seq::<char>::empty(),
;

/// The character sequences of a list of strings.
pub open spec fn views(v: Seq<String>) -> Seq<Seq<char>> {
    Seq::new(v.len(), |i: int| v[i]@)
}

/// Lexicographic order on character sequences, by code point: a proper prefix
/// comes before the longer sequence.
pub open spec fn lex_leq(a: Seq<char>, b: Seq<char>) -> bool
    decreases a.len(),
{
    if a.len() == 0 {
        true
    } else if b.len() == 0 {
        false
    } else if a[0] != b[0] {
        (a[0] as int) < (b[0] as int)
    } else {
        lex_leq(a.drop_first(), b.drop_first())
    }
}

/// `a` is listed no later than `b`: it is shorter, or as long and
/// lexicographically no greater.
pub open spec fn word_leq(a: Seq<char>, b: Seq<char>) -> bool {
    a.len() < b.len() || (a.len() == b.len() && lex_leq(a, b))
}

/// `word_leq` as a relation, the form in which sorting takes it.
pub open spec fn word_order() -> spec_fn(Seq<char>, Seq<char>) -> bool {
    |a: Seq<char>, b: Seq<char>| word_leq(a, b)
}

/// The words of `words` in listing order.
pub open spec fn canonical(words: Seq<Seq<char>>) -> Seq<Seq<char>> {
    words.sort_by(word_order())
}

/// Every sequence is lexicographically no greater than itself.
proof fn lemma_lex_reflexive(a: Seq<char>)
    ensures
        lex_leq(a, a),
    decreases a.len(),
{
    if a.len() > 0 {
        lemma_lex_reflexive(a.drop_first());
    }
}

/// Two sequences, each lexicographically no greater than the other, are
/// one sequence.
proof fn lemma_lex_antisymmetric(a: Seq<char>, b: Seq<char>)
    requires
        lex_leq(a, b),
        lex_leq(b, a),
    ensures
        a == b,
    decreases a.len(),
{
    if a.len() == 0 || b.len() == 0 {
        assert(a =~= b);
    } else {
        lemma_lex_antisymmetric(a.drop_first(), b.drop_first());
        assert(a =~= seq![a[0]] + a.drop_first());
        assert(b =~= seq![b[0]] + b.drop_first());
    }
}

/// The lexicographic order is transitive.
proof fn lemma_lex_transitive(a: Seq<char>, b: Seq<char>, c: Seq<char>)
    requires
        lex_leq(a, b),
        lex_leq(b, c),
    ensures
        lex_leq(a, c),
    decreases a.len(),
{
    if a.len() > 0 && a[0] == b[0] && b[0] == c[0] {
        lemma_lex_transitive(a.drop_first(), b.drop_first(), c.drop_first());
    }
}

/// Of two sequences, one is lexicographically no greater than the other.
proof fn lemma_lex_connected(a: Seq<char>, b: Seq<char>)
    ensures
        lex_leq(a, b) || lex_leq(b, a),
    decreases a.len(),
{
    if a.len() > 0 && b.len() > 0 {
        if a[0] == b[0] {
            lemma_lex_connected(a.drop_first(), b.drop_first());
        } else {
            assert(a[0] as int != b[0] as int);
        }
    }
}

/// The listing order is a total order: any two words compare, and two words
/// that compare both ways are the same word.
pub proof fn lemma_word_order_total()
    ensures
        total_ordering(word_order()),
{
    let r = word_order();
    assert forall|x: Seq<char>| #[trigger] r(x, x) by {
        lemma_lex_reflexive(x);
    }
    assert forall|x: Seq<char>, y: Seq<char>| #[trigger] r(x, y) && #[trigger] r(y, x) implies x
        == y by {
        lemma_lex_antisymmetric(x, y);
    }
    assert forall|x: Seq<char>, y: Seq<char>, z: Seq<char>| #[trigger]
        r(x, y) && #[trigger] r(y, z) implies r(x, z) by {
        if x.len() == y.len() && y.len() == z.len() {
            lemma_lex_transitive(x, y, z);
        }
    }
    assert forall|x: Seq<char>, y: Seq<char>| #[trigger] r(x, y) || #[trigger] r(y, x) by {
        lemma_lex_connected(x, y);
    }
}

/// The listing order of `words` holds the same words, each as often, with
/// every word listed no later than those after it.
pub proof fn lemma_canonical(words: Seq<Seq<char>>)
    ensures
        sorted_by(canonical(words), word_order()),
        canonical(words).to_multiset() == words.to_multiset(),
        canonical(words).len() == words.len(),
        forall|w: Seq<char>| canonical(words).contains(w) <==> words.contains(w),
{
    broadcast use group_to_multiset_ensures;

    lemma_word_order_total();
    words.lemma_sort_by_ensures(word_order());
    to_multiset_len(words);
    to_multiset_len(canonical(words));
    assert forall|w: Seq<char>| canonical(words).contains(w) <==> words.contains(w) by {
        assert(canonical(words).to_multiset().count(w) == words.to_multiset().count(w));
    }
}

/// The listing order is the only ordered arrangement of the same words.
pub proof fn lemma_canonical_unique(words: Seq<Seq<char>>, arranged: Seq<Seq<char>>)
    requires
        sorted_by(arranged, word_order()),
        arranged.to_multiset() == words.to_multiset(),
    ensures
        arranged == canonical(words),
{
    lemma_word_order_total();
    lemma_canonical(words);
    lemma_sorted_unique(arranged, canonical(words), word_order());
}

/// Words in listing order are their own listing order.
pub proof fn lemma_canonical_idempotent(words: Seq<Seq<char>>)
    ensures
        canonical(canonical(words)) == canonical(words),
{
    lemma_canonical(words);
    lemma_canonical_unique(canonical(words), canonical(words));
}

/// Putting distinct words in listing order leaves them distinct.
pub proof fn lemma_canonical_no_duplicates(words: Seq<Seq<char>>)
    requires
        words.no_duplicates(),
    ensures
        canonical(words).no_duplicates(),
{
    lemma_canonical(words);
    words.lemma_multiset_has_no_duplicates();
    canonical(words).lemma_multiset_has_no_duplicates_conv();
}

/// Whether `a` is listed no later than `b`.
pub fn word_le(a: &str, b: &str) -> (le: bool)
    ensures
        le == word_leq(a@, b@),
{
    let n = a.unicode_len();
    let m = b.unicode_len();
    if n != m {
        return n < m;
    }
    let mut i: usize = 0;
    proof {
        assert(a@.skip(0) =~= a@);
        assert(b@.skip(0) =~= b@);
    }
    while i < n
        invariant
            n == a@.len(),
            n == b@.len(),
            i <= n,
            lex_leq(a@, b@) == lex_leq(a@.skip(i as int), b@.skip(i as int)),
        decreases n - i,
    {
        let x = a.get_char(i);
        let y = b.get_char(i);
        proof {
            assert(a@.skip(i as int).drop_first() =~= a@.skip(i + 1));
            assert(b@.skip(i as int).drop_first() =~= b@.skip(i + 1));
        }
        if x != y {
            return (x as u32) < (y as u32);
        }
        i += 1;
    }
    true
}

} // verus!
