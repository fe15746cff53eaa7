//! How a ranking grows: its word lengths, put in ascending order, never go
//! down, and a word turned away for its length stays too short for good.

use crate::ranking::{
    considered, lemma_considered_well_formed, lemma_offered_well_formed,
    lemma_recorded_well_formed, lemma_shortest_exists, offered, recorded, shortest_index,
    well_formed,
};
use crate::words::{canonical, lemma_canonical};
use vstd::prelude::*;
use vstd::relations::*;
use vstd::seq_lib::*;

verus! {

/// The usual order of the integers, as a relation.
pub open spec fn int_order() -> spec_fn(int, int) -> bool {
    |a: int, b: int| a <= b
}

/// The lengths of the words of `r`, in the order of `r`.
pub open spec fn lengths(r: Seq<Seq<char>>) -> Seq<int> {
    Seq::new(r.len(), |i: int| r[i].len() as int)
}

/// The lengths of the words of `r`, with a zero for every place that a
/// ranking of at most `limit` words has left.
pub open spec fn padded_lengths(r: Seq<Seq<char>>, limit: nat) -> Seq<int> {
    Seq::new((limit - r.len()) as nat, |i: int| 0int) + lengths(r)
}

/// The padded lengths of `r` in ascending order.
pub open spec fn ascending_lengths(r: Seq<Seq<char>>, limit: nat) -> Seq<int> {
    padded_lengths(r, limit).sort_by(int_order())
}

/// How many entries of `s` are at least `t`.
pub open spec fn count_at_least(s: Seq<int>, t: int) -> nat
    decreases s.len(),
{
    if s.len() == 0 {
        0
    } else {
        count_at_least(s.drop_last(), t) + if s.last() >= t {
            1nat
        } else {
            0nat
        }
    }
}

/// `w` was turned away from `r` for its length: it is not in `r`, `r` has
/// no room, and `w` is not longer than the shortest word of `r`.
pub open spec fn rejected_for_length(r: Seq<Seq<char>>, limit: nat, w: Seq<char>) -> bool {
    !r.contains(w) && r.len() >= limit && considered(r, limit, w) == r
}

/// The usual order of the integers is a total order.
proof fn lemma_int_order_total()
    ensures
        total_ordering(int_order()),
{
    let r = int_order();
    assert(reflexive(r));
    assert(antisymmetric(r));
    assert(transitive(r));
    assert(strongly_connected(r));
}

/// Taking an entry out lowers the count by one if the entry reaches the
/// threshold, and leaves it otherwise.
proof fn lemma_count_remove(s: Seq<int>, i: int, t: int)
    requires
        0 <= i < s.len(),
    ensures
        count_at_least(s, t) == count_at_least(s.remove(i), t) + if s[i] >= t {
            1nat
        } else {
            0nat
        },
    decreases s.len(),
{
    if i == s.len() - 1 {
        assert(s.remove(i) =~= s.drop_last());
    } else {
        lemma_count_remove(s.drop_last(), i, t);
        assert(s.remove(i).drop_last() =~= s.drop_last().remove(i));
        assert(s.remove(i).last() == s.last());
    }
}

/// The count does not depend on the order of the entries.
proof fn lemma_count_permutation(a: Seq<int>, b: Seq<int>, t: int)
    requires
        a.to_multiset() == b.to_multiset(),
    ensures
        count_at_least(a, t) == count_at_least(b, t),
    decreases a.len(),
{
    broadcast use group_to_multiset_ensures;

    to_multiset_len(a);
    to_multiset_len(b);
    if a.len() > 0 {
        let x = a.last();
        assert(a =~= a.drop_last().push(x));
        assert(a.to_multiset() == a.drop_last().to_multiset().insert(x));
        assert(b.to_multiset().count(x) > 0);
        assert(b.contains(x));
        let i = choose|i: int| 0 <= i < b.len() && b[i] == x;
        assert(b.remove(i).to_multiset() == b.to_multiset().remove(x));
        assert(a.drop_last().to_multiset() =~= b.remove(i).to_multiset());
        lemma_count_permutation(a.drop_last(), b.remove(i), t);
        lemma_count_remove(b, i, t);
    }
}

/// The count of two sequences joined is the sum of their counts.
proof fn lemma_count_concat(a: Seq<int>, b: Seq<int>, t: int)
    ensures
        count_at_least(a + b, t) == count_at_least(a, t) + count_at_least(b, t),
    decreases b.len(),
{
    if b.len() == 0 {
        assert(a + b =~= a);
    } else {
        lemma_count_concat(a, b.drop_last(), t);
        assert((a + b).drop_last() =~= a + b.drop_last());
    }
}

/// Zeros reach a threshold only if it is not positive.
proof fn lemma_count_zeros(m: nat, t: int)
    ensures
        count_at_least(Seq::new(m, |i: int| 0int), t) == if t <= 0 {
            m
        } else {
            0
        },
    decreases m,
{
    if m > 0 {
        lemma_count_zeros((m - 1) as nat, t);
        assert(Seq::new(m, |i: int| 0int).drop_last() =~= Seq::new(
            (m - 1) as nat,
            |i: int| 0int,
        ));
    }
}

/// In an ascending sequence, the entries from a place on that reaches the
/// threshold all reach it, and those up to a place that does not, do not.
proof fn lemma_count_sorted(s: Seq<int>, i: int, t: int)
    requires
        sorted_by(s, int_order()),
        0 <= i < s.len(),
    ensures
        s[i] >= t ==> count_at_least(s, t) >= s.len() - i,
        s[i] < t ==> count_at_least(s, t) <= s.len() - i - 1,
    decreases s.len(),
{
    let n = s.len() as int;
    let p = s.drop_last();
    assert(sorted_by(p, int_order())) by {
        assert forall|a: int, b: int| 0 <= a < b < p.len() implies #[trigger] int_order()(
            p[a],
            p[b],
        ) by {
            assert(int_order()(s[a], s[b]));
        }
    }
    if i == n - 1 {
        if n >= 2 {
            assert(int_order()(s[n - 2], s[n - 1]));
            lemma_count_sorted(p, n - 2, t);
        }
    } else {
        assert(int_order()(s[i], s[n - 1]));
        lemma_count_sorted(p, i, t);
    }
}

/// Of two ascending sequences of one length, the second is entry by entry
/// at least the first if, for every threshold, it has at least as many
/// entries that reach it.
proof fn lemma_dominates(a: Seq<int>, b: Seq<int>)
    requires
        a.len() == b.len(),
        sorted_by(a, int_order()),
        sorted_by(b, int_order()),
        forall|t: int| count_at_least(a, t) <= #[trigger] count_at_least(b, t),
    ensures
        forall|i: int| 0 <= i < a.len() ==> a[i] <= #[trigger] b[i],
{
    assert forall|i: int| 0 <= i < a.len() implies a[i] <= #[trigger] b[i] by {
        if a[i] > b[i] {
            lemma_count_sorted(a, i, a[i]);
            lemma_count_sorted(b, i, a[i]);
            assert(count_at_least(a, a[i]) <= count_at_least(b, a[i]));
        }
    }
}

/// The same words in another order have the same lengths in another order.
proof fn lemma_lengths_permutation(a: Seq<Seq<char>>, b: Seq<Seq<char>>)
    requires
        a.to_multiset() == b.to_multiset(),
    ensures
        lengths(a).to_multiset() == lengths(b).to_multiset(),
    decreases a.len(),
{
    broadcast use group_to_multiset_ensures;

    to_multiset_len(a);
    to_multiset_len(b);
    if a.len() == 0 {
        assert(lengths(a) =~= lengths(b));
    } else {
        let x = a.last();
        assert(a =~= a.drop_last().push(x));
        assert(a.to_multiset() == a.drop_last().to_multiset().insert(x));
        assert(b.to_multiset().count(x) > 0);
        assert(b.contains(x));
        let i = choose|i: int| 0 <= i < b.len() && b[i] == x;
        assert(b.remove(i).to_multiset() == b.to_multiset().remove(x));
        assert(a.drop_last().to_multiset() =~= b.remove(i).to_multiset());
        lemma_lengths_permutation(a.drop_last(), b.remove(i));
        assert(lengths(a) =~= lengths(a.drop_last()).push(x.len() as int));
        assert(lengths(b.remove(i)) =~= lengths(b).remove(i));
        assert(lengths(b).remove(i).to_multiset() == lengths(b).to_multiset().remove(
            lengths(b)[i],
        ));
        assert(lengths(a).to_multiset() =~= lengths(b).to_multiset());
    }
}

/// The count of padded lengths that reach a threshold, split in two.
proof fn lemma_count_padded(r: Seq<Seq<char>>, limit: nat, t: int)
    ensures
        count_at_least(padded_lengths(r, limit), t) == count_at_least(lengths(r), t) + if t
            <= 0 {
            (limit - r.len()) as nat
        } else {
            0
        },
{
    lemma_count_concat(Seq::new((limit - r.len()) as nat, |i: int| 0int), lengths(r), t);
    lemma_count_zeros((limit - r.len()) as nat, t);
}

/// Where every entry reaches the threshold, the count is the length.
proof fn lemma_count_all(s: Seq<int>, t: int)
    requires
        forall|i: int| 0 <= i < s.len() ==> #[trigger] s[i] >= t,
    ensures
        count_at_least(s, t) == s.len(),
    decreases s.len(),
{
    if s.len() > 0 {
        lemma_count_all(s.drop_last(), t);
    }
}

/// Raising an entry lowers no count.
proof fn lemma_count_update(s: Seq<int>, k: int, x: int, t: int)
    requires
        0 <= k < s.len(),
        s[k] <= x,
    ensures
        count_at_least(s, t) <= count_at_least(s.update(k, x), t),
{
    lemma_count_remove(s, k, t);
    lemma_count_remove(s.update(k, x), k, t);
    assert(s.update(k, x).remove(k) =~= s.remove(k));
}

/// For every threshold, offering a word leaves at least as many padded
/// lengths that reach it.
proof fn lemma_recorded_counts(r: Seq<Seq<char>>, limit: nat, w: Seq<char>, t: int)
    requires
        well_formed(r, limit),
    ensures
        count_at_least(padded_lengths(r, limit), t) <= count_at_least(
            padded_lengths(recorded(r, limit, w), limit),
            t,
        ),
{
    let c = considered(r, limit, w);
    lemma_considered_well_formed(r, limit, w);
    lemma_count_padded(r, limit, t);
    lemma_count_padded(c, limit, t);
    if r.contains(w) {
    } else if r.len() < limit {
        assert(lengths(c).drop_last() =~= lengths(r));
        if t <= 0 {
            lemma_count_all(lengths(c), t);
            lemma_count_all(lengths(r), t);
        }
    } else if r.len() > 0 && w.len() > r[shortest_index(r)].len() {
        let k = shortest_index(r);
        lemma_shortest_exists(r);
        assert(lengths(c) =~= lengths(r).update(k, w.len() as int));
        lemma_count_update(lengths(r), k, w.len() as int, t);
    }
    if c != r {
        lemma_canonical(c);
        lemma_lengths_permutation(canonical(c), c);
        lemma_count_permutation(lengths(canonical(c)), lengths(c), t);
        lemma_count_padded(canonical(c), limit, t);
    }
}

/// Offering a word moves no ascending length down: entry by entry, the
/// ascending padded lengths afterwards are at least those before.
pub proof fn lemma_recorded_grows(r: Seq<Seq<char>>, limit: nat, w: Seq<char>)
    requires
        well_formed(r, limit),
    ensures
        ascending_lengths(r, limit).len() == limit,
        ascending_lengths(recorded(r, limit, w), limit).len() == limit,
        forall|i: int|
            0 <= i < limit ==> ascending_lengths(r, limit)[i] <= #[trigger] ascending_lengths(
                recorded(r, limit, w),
                limit,
            )[i],
{
    let after = recorded(r, limit, w);
    lemma_recorded_well_formed(r, limit, w);
    lemma_ascending(r, limit);
    lemma_ascending(after, limit);
    let a = ascending_lengths(r, limit);
    let b = ascending_lengths(after, limit);
    assert forall|t: int| count_at_least(a, t) <= #[trigger] count_at_least(b, t) by {
        lemma_count_permutation(a, padded_lengths(r, limit), t);
        lemma_count_permutation(b, padded_lengths(after, limit), t);
        lemma_recorded_counts(r, limit, w, t);
    }
    lemma_dominates(a, b);
}

/// The ascending lengths of a well-formed ranking: as many as the limit, in
/// ascending order, and the padded lengths rearranged.
pub proof fn lemma_ascending(r: Seq<Seq<char>>, limit: nat)
    requires
        well_formed(r, limit),
    ensures
        ascending_lengths(r, limit).len() == limit,
        sorted_by(ascending_lengths(r, limit), int_order()),
        ascending_lengths(r, limit).to_multiset() == padded_lengths(r, limit).to_multiset(),
{
    lemma_int_order_total();
    padded_lengths(r, limit).lemma_sort_by_ensures(int_order());
    to_multiset_len(padded_lengths(r, limit));
    to_multiset_len(ascending_lengths(r, limit));
}

/// Ranking monotonicity: over any run of offered words, the lengths in the
/// ranking, padded with zeros to the limit and put in ascending order, go
/// up or stay, entry by entry.
pub proof fn lemma_offered_grows(r: Seq<Seq<char>>, limit: nat, words: Seq<Seq<char>>)
    requires
        well_formed(r, limit),
    ensures
        ascending_lengths(r, limit).len() == limit,
        ascending_lengths(offered(r, limit, words), limit).len() == limit,
        forall|i: int|
            0 <= i < limit ==> ascending_lengths(r, limit)[i] <= #[trigger] ascending_lengths(
                offered(r, limit, words),
                limit,
            )[i],
    decreases words.len(),
{
    lemma_ascending(r, limit);
    if words.len() > 0 {
        let before = offered(r, limit, words.drop_last());
        lemma_offered_grows(r, limit, words.drop_last());
        lemma_offered_well_formed(r, limit, words.drop_last());
        lemma_recorded_grows(before, limit, words.last());
        let a = ascending_lengths(r, limit);
        let m = ascending_lengths(before, limit);
        let b = ascending_lengths(offered(r, limit, words), limit);
        assert forall|i: int| 0 <= i < limit implies a[i] <= #[trigger] b[i] by {
            assert(a[i] <= m[i]);
            assert(m[i] <= b[i]);
        }
    }
}

/// A full ranking whose words all have at least `n` symbols stays so when
/// a word is offered.
proof fn lemma_floor_step(r: Seq<Seq<char>>, limit: nat, w: Seq<char>, n: nat)
    requires
        well_formed(r, limit),
        r.len() == limit,
        forall|j: int| 0 <= j < r.len() ==> (#[trigger] r[j]).len() >= n,
    ensures
        recorded(r, limit, w).len() == limit,
        forall|j: int| 0 <= j < limit ==> (#[trigger] recorded(r, limit, w)[j]).len() >= n,
{
    let c = considered(r, limit, w);
    if r.len() > 0 {
        lemma_shortest_exists(r);
    }
    assert(forall|j: int| 0 <= j < c.len() ==> (#[trigger] c[j]).len() >= n);
    if c != r {
        lemma_canonical(c);
        let s = canonical(c);
        assert forall|j: int| 0 <= j < limit implies (#[trigger] s[j]).len() >= n by {
            assert(s.contains(s[j]));
            assert(c.contains(s[j]));
        }
    }
}

/// A word turned away for its length is never longer than a word of the
/// ranking afterwards: if, in a run of offered words, the word at index `i`
/// found the ranking full and was not longer than its shortest word, then
/// after the run the ranking is full and each of its words has at least as
/// many symbols as that word.
pub proof fn lemma_rejected_never_longer(
    r: Seq<Seq<char>>,
    limit: nat,
    words: Seq<Seq<char>>,
    i: int,
)
    requires
        well_formed(r, limit),
        0 <= i < words.len(),
        rejected_for_length(offered(r, limit, words.take(i)), limit, words[i]),
    ensures
        offered(r, limit, words).len() == limit,
        forall|j: int|
            0 <= j < limit ==> (#[trigger] offered(r, limit, words)[j]).len() >= words[i].len(),
    decreases words.len(),
{
    let rest = words.drop_last();
    let before = offered(r, limit, rest);
    lemma_offered_well_formed(r, limit, rest);
    if i == words.len() - 1 {
        assert(words.take(i) =~= rest);
        if before.len() > 0 {
            lemma_shortest_exists(before);
        }
    } else {
        assert(rest.take(i) =~= words.take(i));
        lemma_rejected_never_longer(r, limit, rest, i);
        lemma_floor_step(before, limit, words.last(), words[i].len());
    }
}

} // verus!
