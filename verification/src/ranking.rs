//! The ranking: a bounded list of distinct words, in which a newcomer takes
//! the place of the shortest word only if it is strictly longer.

use crate::words::{
    canonical, lemma_canonical, lemma_canonical_idempotent, lemma_canonical_no_duplicates,
    lemma_canonical_unique, lemma_word_order_total, views, word_le, word_leq, word_order,
};
use vstd::prelude::*;
use vstd::relations::*;
use vstd::seq_lib::*;
use vstd::string::*;

verus! {

/// `k` is the place of the first word of least length in `r`.
pub open spec fn is_shortest_at(r: Seq<Seq<char>>, k: int) -> bool {
    &&& 0 <= k < r.len()
    &&& forall|j: int| 0 <= j < r.len() ==> r[k].len() <= (#[trigger] r[j]).len()
    &&& forall|j: int| 0 <= j < k ==> r[k].len() < (#[trigger] r[j]).len()
}

/// The place of the first word of least length in a non-empty `r`.
pub open spec fn shortest_index(r: Seq<Seq<char>>) -> int {
    choose|k: int| is_shortest_at(r, k)
}

/// The ranking that results from offering `w` to the ranking `r` of at most
/// `limit` words: unchanged if `w` is in it; `w` appended if there is room;
/// else `w` in place of the first shortest word if `w` is strictly longer.
pub open spec fn considered(r: Seq<Seq<char>>, limit: nat, w: Seq<char>) -> Seq<Seq<char>> {
    if r.contains(w) {
        r
    } else if r.len() < limit {
        r.push(w)
    } else if r.len() > 0 && w.len() > r[shortest_index(r)].len() {
        r.update(shortest_index(r), w)
    } else {
        r
    }
}

/// The ranking after `w` was offered and, if that changed it, put in listing
/// order.
pub open spec fn recorded(r: Seq<Seq<char>>, limit: nat, w: Seq<char>) -> Seq<Seq<char>> {
    if considered(r, limit, w) == r {
        r
    } else {
        canonical(considered(r, limit, w))
    }
}

/// The ranking that results from offering the words of `words`, in order, to
/// an empty ranking of at most `limit` words.
pub open spec fn seeded(words: Seq<Seq<char>>, limit: nat) -> Seq<Seq<char>>
    decreases words.len(),
{
    if words.len() == 0 {
        Seq::empty()
    } else {
        considered(seeded(words.drop_last(), limit), limit, words.last())
    }
}

/// The ranking after an attempt at recognition: `found`, if it is a word,
/// was offered, and a changed ranking was put in listing order.
pub open spec fn offer(r: Seq<Seq<char>>, limit: nat, found: Option<Seq<char>>) -> Seq<
    Seq<char>,
> {
    match found {
        Some(w) => recorded(r, limit, w),
        None => r,
    }
}

/// The ranking after the words of `words` were offered in order, each
/// change followed by putting the ranking in listing order.
pub open spec fn offered(r: Seq<Seq<char>>, limit: nat, words: Seq<Seq<char>>) -> Seq<Seq<char>>
    decreases words.len(),
{
    if words.len() == 0 {
        r
    } else {
        recorded(offered(r, limit, words.drop_last()), limit, words.last())
    }
}

/// The text that lists `words`: each word in turn, followed by a line feed.
pub open spec fn listing(words: Seq<Seq<char>>) -> Seq<char>
    decreases words.len(),
{
    if words.len() == 0 {
        Seq::empty()
    } else {
        listing(words.drop_last()) + words.last() + seq!['\n']
    }
}

/// A ranking is well formed when it holds no word twice and no more words
/// than its limit.
pub open spec fn well_formed(r: Seq<Seq<char>>, limit: nat) -> bool {
    r.no_duplicates() && r.len() <= limit
}

/// A non-empty ranking has a first shortest place.
pub proof fn lemma_shortest_exists(r: Seq<Seq<char>>)
    requires
        r.len() > 0,
    ensures
        is_shortest_at(r, shortest_index(r)),
    decreases r.len(),
{
    if r.len() == 1 {
        assert(is_shortest_at(r, 0));
    } else {
        let p = r.drop_last();
        lemma_shortest_exists(p);
        let k = shortest_index(p);
        assert(forall|j: int| 0 <= j < p.len() ==> p[j] == r[j]);
        if r.last().len() < p[k].len() {
            assert(is_shortest_at(r, r.len() - 1));
        } else {
            assert(is_shortest_at(r, k));
        }
    }
}

/// There is at most one first shortest place.
pub proof fn lemma_shortest_unique(r: Seq<Seq<char>>, k: int)
    requires
        is_shortest_at(r, k),
    ensures
        shortest_index(r) == k,
{
    let c = shortest_index(r);
    assert(is_shortest_at(r, c));
    if c < k {
        assert(r[k].len() < r[c].len());
    } else if k < c {
        assert(r[c].len() < r[k].len());
    }
}

/// Offering a word keeps a ranking well formed.
pub proof fn lemma_considered_well_formed(r: Seq<Seq<char>>, limit: nat, w: Seq<char>)
    requires
        well_formed(r, limit),
    ensures
        well_formed(considered(r, limit, w), limit),
{
    let c = considered(r, limit, w);
    if r.contains(w) {
    } else if r.len() < limit {
        assert forall|i: int, j: int| 0 <= i < c.len() && 0 <= j < c.len() && i != j implies c[i]
            != c[j] by {
            if i < r.len() {
                assert(r.contains(r[i]));
            }
            if j < r.len() {
                assert(r.contains(r[j]));
            }
        }
    } else if r.len() > 0 && w.len() > r[shortest_index(r)].len() {
        let k = shortest_index(r);
        lemma_shortest_exists(r);
        assert forall|i: int, j: int| 0 <= i < c.len() && 0 <= j < c.len() && i != j implies c[i]
            != c[j] by {
            if i != k {
                assert(r.contains(r[i]));
            }
            if j != k {
                assert(r.contains(r[j]));
            }
        }
    }
}

/// A list of distinct words, no more than the limit, seeds the ranking with
/// itself.
pub proof fn lemma_seeded_keeps_valid(words: Seq<Seq<char>>, limit: nat)
    requires
        well_formed(words, limit),
    ensures
        seeded(words, limit) == words,
    decreases words.len(),
{
    if words.len() > 0 {
        let rest = words.drop_last();
        assert(forall|i: int| 0 <= i < rest.len() ==> rest[i] == words[i]);
        lemma_seeded_keeps_valid(rest, limit);
        assert(rest.push(words.last()) =~= words);
    }
}

/// A word that changed the ranking is in it afterwards, and was not before.
pub proof fn lemma_considered_holds(r: Seq<Seq<char>>, limit: nat, w: Seq<char>)
    requires
        considered(r, limit, w) != r,
    ensures
        considered(r, limit, w).contains(w),
        !r.contains(w),
{
    let c = considered(r, limit, w);
    if r.len() < limit {
        assert(c[r.len() as int] == w);
    } else {
        lemma_shortest_exists(r);
        assert(c[shortest_index(r)] == w);
    }
}

/// A ranking that a word has changed is in listing order.
pub proof fn lemma_recorded_canonical(r: Seq<Seq<char>>, limit: nat, w: Seq<char>)
    requires
        recorded(r, limit, w) != r,
    ensures
        canonical(recorded(r, limit, w)) == recorded(r, limit, w),
{
    lemma_canonical_idempotent(considered(r, limit, w));
}

/// Idempotent consider: offering a word twice in a row leaves the ranking
/// as offering it once does.
pub proof fn lemma_consider_idempotent(r: Seq<Seq<char>>, limit: nat, w: Seq<char>)
    ensures
        considered(considered(r, limit, w), limit, w) == considered(r, limit, w),
        recorded(recorded(r, limit, w), limit, w) == recorded(r, limit, w),
{
    let c = considered(r, limit, w);
    if c != r {
        lemma_considered_holds(r, limit, w);
        lemma_canonical(c);
    }
}

/// The weight of a ranking: its number of words plus their total length.
/// Every change of a ranking adds to it.
pub open spec fn weight(r: Seq<Seq<char>>) -> nat
    decreases r.len(),
{
    if r.len() == 0 {
        0
    } else {
        weight(r.drop_last()) + r.last().len() + 1
    }
}

/// Taking a word out takes its length and one off the weight.
proof fn lemma_weight_remove(r: Seq<Seq<char>>, i: int)
    requires
        0 <= i < r.len(),
    ensures
        weight(r) == weight(r.remove(i)) + r[i].len() + 1,
    decreases r.len(),
{
    if i == r.len() - 1 {
        assert(r.remove(i) =~= r.drop_last());
    } else {
        lemma_weight_remove(r.drop_last(), i);
        assert(r.remove(i).drop_last() =~= r.drop_last().remove(i));
        assert(r.remove(i).last() == r.last());
    }
}

/// Putting a word in the place of another changes the weight by the
/// difference of their lengths.
proof fn lemma_weight_update(r: Seq<Seq<char>>, k: int, w: Seq<char>)
    requires
        0 <= k < r.len(),
    ensures
        weight(r.update(k, w)) + r[k].len() == weight(r) + w.len(),
{
    lemma_weight_remove(r, k);
    lemma_weight_remove(r.update(k, w), k);
    assert(r.update(k, w).remove(k) =~= r.remove(k));
}

/// The weight does not depend on the order of the words.
pub proof fn lemma_weight_permutation(a: Seq<Seq<char>>, b: Seq<Seq<char>>)
    requires
        a.to_multiset() == b.to_multiset(),
    ensures
        weight(a) == weight(b),
    decreases a.len(),
{
    broadcast use group_to_multiset_ensures;

    to_multiset_len(a);
    to_multiset_len(b);
    if a.len() > 0 {
        let x = a.last();
        assert(a =~= a.drop_last().push(x));
        assert(a.to_multiset() == a.drop_last().to_multiset().insert(x));
        assert(b.to_multiset().count(x) > 0);
        assert(b.contains(x));
        let i = choose|i: int| 0 <= i < b.len() && b[i] == x;
        assert(b.remove(i).to_multiset() == b.to_multiset().remove(x));
        assert(a.drop_last().to_multiset() =~= b.remove(i).to_multiset());
        lemma_weight_permutation(a.drop_last(), b.remove(i));
        lemma_weight_remove(b, i);
    }
}

/// A word either leaves the ranking as it is or adds to its weight.
pub proof fn lemma_recorded_weight(r: Seq<Seq<char>>, limit: nat, w: Seq<char>)
    ensures
        recorded(r, limit, w) == r || weight(recorded(r, limit, w)) > weight(r),
{
    let c = considered(r, limit, w);
    if c != r {
        lemma_canonical(c);
        lemma_weight_permutation(canonical(c), c);
        if r.len() < limit {
            assert(c.drop_last() =~= r);
        } else {
            lemma_shortest_exists(r);
            lemma_weight_update(r, shortest_index(r), w);
        }
    }
}

/// A run of words either leaves the ranking as it is or adds to its weight.
pub proof fn lemma_offered_weight(r: Seq<Seq<char>>, limit: nat, words: Seq<Seq<char>>)
    ensures
        offered(r, limit, words) == r || weight(offered(r, limit, words)) > weight(r),
    decreases words.len(),
{
    if words.len() > 0 {
        lemma_offered_weight(r, limit, words.drop_last());
        lemma_recorded_weight(offered(r, limit, words.drop_last()), limit, words.last());
    }
}

/// Offering a word, and putting a changed ranking in listing order, keeps
/// it well formed.
pub proof fn lemma_recorded_well_formed(r: Seq<Seq<char>>, limit: nat, w: Seq<char>)
    requires
        well_formed(r, limit),
    ensures
        well_formed(recorded(r, limit, w), limit),
{
    lemma_considered_well_formed(r, limit, w);
    let c = considered(r, limit, w);
    if c != r {
        lemma_canonical(c);
        lemma_canonical_no_duplicates(c);
    }
}

/// Offering a run of words keeps a ranking well formed.
pub proof fn lemma_offered_well_formed(r: Seq<Seq<char>>, limit: nat, words: Seq<Seq<char>>)
    requires
        well_formed(r, limit),
    ensures
        well_formed(offered(r, limit, words), limit),
    decreases words.len(),
{
    if words.len() > 0 {
        lemma_offered_well_formed(r, limit, words.drop_last());
        lemma_recorded_well_formed(offered(r, limit, words.drop_last()), limit, words.last());
    }
}

/// A bounded list of distinct words.
pub struct Ranking {
    words: Vec<String>,
    limit: usize,
}

impl View for Ranking {
    type V = Seq<Seq<char>>;

    closed spec fn view(&self) -> Seq<Seq<char>> {
        views(self.words@)
    }
}

impl Ranking {
    /// The most words that the ranking may hold.
    pub closed spec fn cap(&self) -> nat {
        self.limit as nat
    }

    /// No word twice, and no more words than the limit.
    pub open spec fn inv(&self) -> bool {
        well_formed(self@, self.cap())
    }

    /// An empty ranking of at most `limit` words.
    pub fn new(limit: usize) -> (r: Ranking)
        ensures
            r@ == Seq::<Seq<char>>::empty(),
            r.cap() == limit,
            r.inv(),
    {
        let r = Ranking { words: Vec::new(), limit };
        assert(r@ =~= Seq::<Seq<char>>::empty());
        r
    }

    /// The most words that the ranking may hold.
    pub fn limit(&self) -> (n: usize)
        ensures
            n == self.cap(),
    {
        self.limit
    }

    /// The number of words in the ranking.
    pub fn len(&self) -> (n: usize)
        ensures
            n == self@.len(),
    {
        self.words.len()
    }

    /// The words of the ranking, in the order in which it holds them.
    pub fn words(&self) -> (w: &Vec<String>)
        ensures
            views(w@) == self@,
    {
        &self.words
    }

    /// Whether `word` is in the ranking.
    pub fn contains(&self, word: &str) -> (found: bool)
        ensures
            found == self@.contains(word@),
    {
        let target = word.to_owned();
        let mut i: usize = 0;
        while i < self.words.len()
            invariant
                i <= self.words.len(),
                target@ == word@,
                forall|j: int| 0 <= j < i ==> self@[j] != word@,
            decreases self.words.len() - i,
        {
            if self.words[i] == target {
                assert(self@[i as int] == word@);
                return true;
            }
            i += 1;
        }
        false
    }

    /// The place of the first shortest word of a non-empty ranking.
    fn shortest(&self) -> (k: usize)
        requires
            self@.len() > 0,
        ensures
            is_shortest_at(self@, k as int),
            k == shortest_index(self@),
    {
        let mut k: usize = 0;
        let mut least = self.words[0].as_str().unicode_len();
        let mut i: usize = 1;
        while i < self.words.len()
            invariant
                1 <= i <= self.words.len(),
                k < i,
                least == self@[k as int].len(),
                forall|j: int| 0 <= j < i ==> least <= (#[trigger] self@[j]).len(),
                forall|j: int| 0 <= j < k ==> least < (#[trigger] self@[j]).len(),
            decreases self.words.len() - i,
        {
            let n = self.words[i].as_str().unicode_len();
            if n < least {
                k = i;
                least = n;
            }
            i += 1;
        }
        proof {
            lemma_shortest_unique(self@, k as int);
        }
        k
    }

    /// Offers `word` to the ranking, and says whether that changed it.
    pub fn consider(&mut self, word: &str) -> (changed: bool)
        requires
            old(self).inv(),
        ensures
            final(self).inv(),
            final(self).cap() == old(self).cap(),
            final(self)@ == considered(old(self)@, old(self).cap(), word@),
            changed == (final(self)@ != old(self)@),
    {
        proof {
            lemma_considered_well_formed(self@, self.cap(), word@);
        }
        if self.contains(word) {
            return false;
        }
        if self.words.len() < self.limit {
            self.words.push(word.to_owned());
            assert(self@ =~= old(self)@.push(word@));
            return true;
        }
        if self.words.len() == 0 {
            return false;
        }
        let k = self.shortest();
        if word.unicode_len() > self.words[k].as_str().unicode_len() {
            self.words[k] = word.to_owned();
            assert(self@ =~= old(self)@.update(k as int, word@));
            assert(self@[k as int] == word@);
            assert(old(self)@[k as int] != word@) by {
                assert(old(self)@.contains(old(self)@[k as int]));
            }
            return true;
        }
        false
    }

    /// The first place in the ordered list `sorted` whose word is listed
    /// strictly later than `word`, or the length if there is none.
    fn insertion_point(sorted: &Vec<String>, word: &str) -> (j: usize)
        requires
            sorted_by(views(sorted@), word_order()),
        ensures
            j <= sorted@.len(),
            forall|i: int| 0 <= i < j ==> word_leq(#[trigger] views(sorted@)[i], word@),
            forall|i: int| j <= i < sorted@.len() ==> word_leq(word@, #[trigger] views(sorted@)[i]),
    {
        let mut j: usize = 0;
        while j < sorted.len()
            invariant
                j <= sorted@.len(),
                sorted_by(views(sorted@), word_order()),
                forall|i: int| 0 <= i < j ==> word_leq(#[trigger] views(sorted@)[i], word@),
            decreases sorted.len() - j,
        {
            if !word_le(sorted[j].as_str(), word) {
                proof {
                    lemma_word_order_total();
                    let s = views(sorted@);
                    let r = word_order();
                    assert(r(s[j as int], word@) || r(word@, s[j as int]));
                    assert forall|i: int| j <= i < sorted@.len() implies word_leq(
                        word@,
                        #[trigger] s[i],
                    ) by {
                        if i > j {
                            assert(r(s[j as int], s[i]));
                        }
                        assert(r(word@, s[j as int]) && r(s[j as int], s[i]) ==> r(word@, s[i]));
                        assert(r(s[j as int], s[j as int]));
                    }
                }
                return j;
            }
            j += 1;
        }
        j
    }

    /// Puts the words in listing order: shorter words first, words of one
    /// length in lexicographic order.
    pub fn sort(&mut self)
        ensures
            final(self)@ == canonical(old(self)@),
            final(self).cap() == old(self).cap(),
            old(self).inv() ==> final(self).inv(),
    {
        broadcast use group_to_multiset_ensures;
        broadcast use vstd::multiset::group_multiset_axioms;

        let ghost before = self@;
        let mut sorted: Vec<String> = Vec::new();
        assert(views(sorted@) =~= Seq::<Seq<char>>::empty());
        while self.words.len() > 0
            invariant
                sorted_by(views(sorted@), word_order()),
                views(sorted@).to_multiset().add(views(self.words@).to_multiset())
                    == before.to_multiset(),
                self.limit == old(self).limit,
            decreases self.words.len(),
        {
            let ghost rest = views(self.words@);
            let ghost done = views(sorted@);
            let word = self.words.pop().unwrap();
            assert(rest =~= views(self.words@).push(word@));
            let j = Self::insertion_point(&sorted, word.as_str());
            sorted.insert(j, word);
            proof {
                let now = views(sorted@);
                assert(now =~= done.insert(j as int, word@));
                assert forall|a: int, b: int| 0 <= a < b < now.len() implies word_leq(
                    #[trigger] now[a],
                    #[trigger] now[b],
                ) by {
                    if a < j && b > j {
                        assert(word_order()(done[a], done[b - 1]));
                    } else if a > j {
                        assert(word_order()(done[a - 1], done[b - 1]));
                    } else if b < j {
                        assert(word_order()(done[a], done[b]));
                    }
                }
                let left = views(self.words@);
                to_multiset_insert(done, j as int, word@);
                to_multiset_build(left, word@);
                assert(now.to_multiset() == done.to_multiset().insert(word@));
                assert(rest.to_multiset() == left.to_multiset().insert(word@));
                assert(now.to_multiset().add(left.to_multiset()) =~= done.to_multiset().add(
                    rest.to_multiset(),
                ));
            }
        }
        proof {
            assert(views(self.words@) =~= Seq::<Seq<char>>::empty());
            assert(views(sorted@).to_multiset() =~= before.to_multiset());
            lemma_canonical_unique(before, views(sorted@));
            lemma_canonical(before);
            if before.no_duplicates() {
                lemma_canonical_no_duplicates(before);
            }
        }
        self.words = sorted;
    }

    /// The text that lists the words in the order in which the ranking holds
    /// them, one to a line.
    pub fn listing(&self) -> (text: String)
        ensures
            text@ == listing(self@),
    {
        let mut text = String::new();
        let mut i: usize = 0;
        assert(self@.take(0) =~= Seq::<Seq<char>>::empty());
        while i < self.words.len()
            invariant
                i <= self.words@.len(),
                text@ == listing(self@.take(i as int)),
            decreases self.words.len() - i,
        {
            text.append(self.words[i].as_str());
            text.append("\n");
            proof {
                reveal_strlit("\n");
                let upto = self@.take(i + 1);
                assert(upto.drop_last() =~= self@.take(i as int));
                assert(upto.last() == self@[i as int]);
                assert("\n"@ =~= seq!['\n']);
            }
            i += 1;
        }
        assert(self@.take(self.words@.len() as int) =~= self@);
        text
    }

    /// Offers `word` to the ranking. If that changes the ranking, puts it in
    /// listing order and returns the text that lists it.
    pub fn record(&mut self, word: &str) -> (file: Option<String>)
        requires
            old(self).inv(),
        ensures
            final(self).inv(),
            final(self).cap() == old(self).cap(),
            final(self)@ == recorded(old(self)@, old(self).cap(), word@),
            file is Some <==> final(self)@ != old(self)@,
            file matches Some(text) ==> text@ == listing(final(self)@),
    {
        if self.consider(word) {
            proof {
                lemma_canonical(self@);
                assert(self@.contains(word@)) by {
                    lemma_considered_holds(old(self)@, old(self).cap(), word@);
                }
            }
            self.sort();
            Some(self.listing())
        } else {
            None
        }
    }

    /// The ranking that results from offering the words of `words`, in
    /// order, to an empty ranking of at most `limit` words.
    pub fn from_words(words: &Vec<String>, limit: usize) -> (r: Ranking)
        ensures
            r@ == seeded(views(words@), limit as nat),
            r.cap() == limit,
            r.inv(),
    {
        let mut r = Ranking::new(limit);
        let mut i: usize = 0;
        assert(views(words@).take(0) =~= Seq::<Seq<char>>::empty());
        while i < words.len()
            invariant
                i <= words@.len(),
                r.inv(),
                r.cap() == limit,
                r@ == seeded(views(words@).take(i as int), limit as nat),
            decreases words.len() - i,
        {
            r.consider(words[i].as_str());
            proof {
                let upto = views(words@).take(i + 1);
                assert(upto.drop_last() =~= views(words@).take(i as int));
                assert(upto.last() == words@[i as int]@);
            }
            i += 1;
        }
        assert(views(words@).take(words@.len() as int) =~= views(words@));
        r
    }
}

} // verus!
