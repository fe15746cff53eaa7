//! The typing monkey: types random symbols, watches the tail of what it has
//! typed for dictionary words, and keeps a ranking of the longest ones.

use crate::dictionary::{dict_words, is_longest_len, longest_word_len};
use crate::ranking::{
    lemma_recorded_canonical, listing, offer, offered, recorded, seeded, well_formed, Ranking,
};
use crate::recognizer::{
    covered, is_word_at, lemma_suffix_start, recognize, recognized, suffix_start,
};
use crate::source::draw_below;
use crate::stream::{lemma_run_step, lemma_window_step, recognitions, window_of};
use crate::window::{chars, Window};
use crate::words::{canonical, views};
use ahash::AHashSet;
use rand::rngs::ThreadRng;
use vstd::prelude::*;

verus! {

/// Why a monkey could not be set up.
#[derive(Debug, PartialEq, Eq, Clone, Copy)]
pub enum StartError {
    /// The dictionary holds no word of at least one symbol, so no window
    /// length can be derived from it.
    EmptyDictionary,
    /// The alphabet holds no symbol to type.
    EmptyAlphabet,
}

/// A monkey at its typewriter.
pub struct TypingMonkey {
    wordlist: AHashSet<String>,
    alphabet: Vec<char>,
    ranking: Ranking,
    window: Window,
    rng: ThreadRng,
    buffer_str: String,
    unwritten: Option<String>,
    typed: Ghost<Seq<char>>,
    filed: Ghost<Option<Seq<char>>>,
}

impl TypingMonkey {
    /// The words of the dictionary.
    pub closed spec fn dict(&self) -> Set<Seq<char>> {
        dict_words(self.wordlist)
    }

    /// The symbols that the monkey may type.
    pub closed spec fn symbols(&self) -> Seq<char> {
        self.alphabet@
    }

    /// The ranking of the longest words, in the order in which it is held.
    pub closed spec fn ranking(&self) -> Seq<Seq<char>> {
        self.ranking@
    }

    /// The most words that the ranking may hold.
    pub closed spec fn limit(&self) -> nat {
        self.ranking.cap()
    }

    /// The window: the most recent symbols with their marks, oldest first.
    pub closed spec fn window(&self) -> Seq<(char, bool)> {
        self.window@
    }

    /// The capacity of the window: the length of a longest dictionary word.
    pub closed spec fn capacity(&self) -> nat {
        self.window.cap()
    }

    /// Every symbol typed so far, in order.
    pub closed spec fn typed(&self) -> Seq<char> {
        self.typed@
    }

    /// The text of the ranking file that is still to be written, if any.
    pub closed spec fn unwritten(&self) -> Option<Seq<char>> {
        match self.unwritten {
            Some(text) => Some(text@),
            None => None,
        }
    }

    /// The text that was last handed over to be written to the ranking file,
    /// if any was.
    pub closed spec fn filed(&self) -> Option<Seq<char>> {
        self.filed@
    }

    /// What `inv` says, of a window that spans at most `span` symbols. With
    /// `span` one less than the capacity, this is what holds between taking
    /// the oldest pair out of a full window and typing the next symbol.
    pub open spec fn inv_with(&self, span: nat) -> bool {
        &&& self.capacity() > 0
        &&& is_longest_len(self.dict(), self.capacity())
        &&& self.symbols().len() > 0
        &&& forall|i: int|
            0 <= i < self.typed().len() ==> self.symbols().contains(#[trigger] self.typed()[i])
        &&& self.window() == window_of(self.dict(), self.typed(), span)
        &&& well_formed(self.ranking(), self.limit())
        &&& self.unwritten() matches Some(text) ==> {
            &&& text == listing(self.ranking())
            &&& self.ranking() == canonical(self.ranking())
        }
        &&& self.unwritten() is None ==> (self.filed() matches Some(text) ==> {
            &&& text == listing(self.ranking())
            &&& self.ranking() == canonical(self.ranking())
        })
    }

    /// What holds of every monkey between two operations: the window's
    /// capacity is the length of a longest dictionary word; every typed
    /// symbol is of the alphabet; the window holds the last typed symbols,
    /// each marked if and only if it lies inside an occurrence of a
    /// dictionary word in what was typed; the ranking holds no word twice
    /// and no more words than its limit; and the text that is still to be
    /// written or, if there is none, the text that was last handed over,
    /// lists the ranking, which is then in listing order.
    pub open spec fn inv(&self) -> bool {
        self.inv_with(self.capacity())
    }

    /// The window is full: priming is over.
    pub open spec fn primed(&self) -> bool {
        self.typed().len() >= self.capacity()
    }

    /// Dictionary, alphabet, limit and capacity are as in `other`.
    pub open spec fn same_setup(&self, other: &TypingMonkey) -> bool {
        &&& self.dict() == other.dict()
        &&& self.symbols() == other.symbols()
        &&& self.limit() == other.limit()
        &&& self.capacity() == other.capacity()
    }

    /// A monkey that has typed nothing yet. The ranking starts from what
    /// results from offering the words of `longest_words` in order, which
    /// is `longest_words` itself if it holds no word twice and no more
    /// than `longest_words_count` words.
    pub fn start(
        wordlist: AHashSet<String>,
        alphabet: Vec<char>,
        longest_words: Vec<String>,
        longest_words_count: usize,
    ) -> (r: Result<TypingMonkey, StartError>)
        ensures
            match r {
                Ok(m) => {
                    &&& m.inv()
                    &&& m.dict() == dict_words(wordlist)
                    &&& m.symbols() == alphabet@
                    &&& m.limit() == longest_words_count
                    &&& m.typed() == Seq::<char>::empty()
                    &&& m.ranking() == seeded(views(longest_words@), longest_words_count as nat)
                    &&& m.unwritten() is None
                    &&& m.filed() is None
                },
                Err(StartError::EmptyDictionary) => forall|w: Seq<char>| #[trigger]
                    dict_words(wordlist).contains(w) ==> w.len() == 0,
                Err(StartError::EmptyAlphabet) => {
                    &&& exists|w: Seq<char>| #[trigger]
                        dict_words(wordlist).contains(w) && w.len() > 0
                    &&& alphabet@.len() == 0
                },
            },
    {
        let capacity = match longest_word_len(&wordlist) {
            Some(n) => n,
            None => { return Err(StartError::EmptyDictionary); },
        };
        if capacity == 0 {
            return Err(StartError::EmptyDictionary);
        }
        if alphabet.len() == 0 {
            return Err(StartError::EmptyAlphabet);
        }
        let ranking = Ranking::from_words(&longest_words, longest_words_count);
        let m = TypingMonkey {
            wordlist,
            alphabet,
            ranking,
            window: Window::new(capacity),
            rng: rand::thread_rng(),
            buffer_str: String::new(),
            unwritten: None,
            typed: Ghost(Seq::empty()),
            filed: Ghost(None),
        };
        assert(m.window() =~= window_of(m.dict(), m.typed(), m.capacity()));
        Ok(m)
    }

    /// Types the symbol at index `idx` of the alphabet into a window that has
    /// room for it, looks for a word, and offers a word found to the ranking.
    fn type_char(&mut self, idx: usize)
        requires
            old(self).inv_with((old(self).capacity() - 1) as nat),
            idx < old(self).symbols().len(),
        ensures
            final(self).inv(),
            final(self).same_setup(old(self)),
            final(self).typed() == old(self).typed().push(old(self).symbols()[idx as int]),
            final(self).ranking() == offer(
                old(self).ranking(),
                old(self).limit(),
                recognized(old(self).dict(), final(self).typed()),
            ),
            final(self).unwritten() == if final(self).ranking() != old(self).ranking() {
                Some(listing(final(self).ranking()))
            } else {
                old(self).unwritten()
            },
            final(self).filed() == old(self).filed(),
    {
        let c = self.alphabet[idx];
        proof {
            lemma_window_step(self.dict(), self.typed(), c, self.capacity());
            assert(self.symbols().contains(c));
        }
        self.window.push_back(c);
        self.typed = Ghost(self.typed@.push(c));
        let found = recognize(&mut self.window, &self.wordlist, &mut self.buffer_str);
        match found {
            Some(word) => {
                proof {
                    if recorded(self.ranking(), self.limit(), word@) != self.ranking() {
                        lemma_recorded_canonical(self.ranking(), self.limit(), word@);
                    }
                }
                let file = self.ranking.record(word.as_str());
                if file.is_some() {
                    self.unwritten = file;
                }
            },
            None => {},
        }
    }

    /// One step of priming: types the symbol at index `idx` of the alphabet
    /// into a window that is not yet full, marks the longest word that now
    /// ends the window, and offers it to the ranking.
    pub fn type_symbol(&mut self, idx: usize)
        requires
            old(self).inv(),
            !old(self).primed(),
            idx < old(self).symbols().len(),
        ensures
            final(self).inv(),
            final(self).same_setup(old(self)),
            final(self).typed() == old(self).typed().push(old(self).symbols()[idx as int]),
            final(self).ranking() == offer(
                old(self).ranking(),
                old(self).limit(),
                recognized(old(self).dict(), final(self).typed()),
            ),
            final(self).unwritten() == if final(self).ranking() != old(self).ranking() {
                Some(listing(final(self).ranking()))
            } else {
                old(self).unwritten()
            },
            final(self).filed() == old(self).filed(),
    {
        assert(window_of(self.dict(), self.typed(), self.capacity()) =~= window_of(
            self.dict(),
            self.typed(),
            (self.capacity() - 1) as nat,
        ));
        self.type_char(idx);
    }

    /// Removes the oldest pair from a full window and returns it.
    fn next_char(&mut self) -> (pair: (char, bool))
        requires
            old(self).inv(),
            old(self).primed(),
        ensures
            pair == old(self).window()[0],
            final(self).inv_with((old(self).capacity() - 1) as nat),
            final(self).same_setup(old(self)),
            final(self).typed() == old(self).typed(),
            final(self).ranking() == old(self).ranking(),
            final(self).unwritten() == old(self).unwritten(),
            final(self).filed() == old(self).filed(),
    {
        let pair = self.window.pop_front();
        assert(self.window() =~= window_of(
            self.dict(),
            self.typed(),
            (self.capacity() - 1) as nat,
        ));
        pair
    }

    /// One tick with a given draw: emits the oldest pair of the window,
    /// types the symbol at index `idx` of the alphabet, marks the longest
    /// word that now ends the window, and offers it to the ranking.
    pub fn tick(&mut self, idx: usize) -> (pair: (char, bool))
        requires
            old(self).inv(),
            old(self).primed(),
            idx < old(self).symbols().len(),
        ensures
            pair == old(self).window()[0],
            final(self).inv(),
            final(self).primed(),
            final(self).same_setup(old(self)),
            final(self).typed() == old(self).typed().push(old(self).symbols()[idx as int]),
            final(self).ranking() == offer(
                old(self).ranking(),
                old(self).limit(),
                recognized(old(self).dict(), final(self).typed()),
            ),
            final(self).unwritten() == if final(self).ranking() != old(self).ranking() {
                Some(listing(final(self).ranking()))
            } else {
                old(self).unwritten()
            },
            final(self).filed() == old(self).filed(),
    {
        let pair = self.next_char();
        self.type_char(idx);
        pair
    }

    /// Draws an index into the alphabet at random.
    fn gen_rand_char(&mut self) -> (idx: usize)
        requires
            old(self).symbols().len() > 0,
        ensures
            idx < old(self).symbols().len(),
            *final(self) == (TypingMonkey { rng: final(self).rng, ..*old(self) }),
    {
        draw_below(&mut self.rng, self.alphabet.len())
    }

    /// A primed monkey: sets it up as `start` does, then types as many
    /// random symbols as a longest dictionary word has, looking for a word
    /// after each.
    pub fn new(
        wordlist: AHashSet<String>,
        alphabet: Vec<char>,
        longest_words: Vec<String>,
        longest_words_count: usize,
    ) -> (r: Result<TypingMonkey, StartError>)
        ensures
            match r {
                Ok(m) => {
                    let seed = seeded(views(longest_words@), longest_words_count as nat);
                    &&& m.inv()
                    &&& m.dict() == dict_words(wordlist)
                    &&& m.symbols() == alphabet@
                    &&& m.limit() == longest_words_count
                    &&& m.typed().len() == m.capacity()
                    &&& m.ranking() == offered(
                        seed,
                        m.limit(),
                        recognitions(m.dict(), m.typed(), 0),
                    )
                    &&& m.unwritten() == if m.ranking() != seed {
                        Some(listing(m.ranking()))
                    } else {
                        None
                    }
                    &&& m.filed() is None
                },
                Err(StartError::EmptyDictionary) => forall|w: Seq<char>| #[trigger]
                    dict_words(wordlist).contains(w) ==> w.len() == 0,
                Err(StartError::EmptyAlphabet) => {
                    &&& exists|w: Seq<char>| #[trigger]
                        dict_words(wordlist).contains(w) && w.len() > 0
                    &&& alphabet@.len() == 0
                },
            },
    {
        let mut monkey = match TypingMonkey::start(
            wordlist,
            alphabet,
            longest_words,
            longest_words_count,
        ) {
            Ok(m) => m,
            Err(e) => { return Err(e); },
        };
        let ghost begun = monkey;
        let max_buffer_len = monkey.window.capacity();
        let mut i: usize = 0;
        while i < max_buffer_len
            invariant
                i <= max_buffer_len,
                max_buffer_len == monkey.capacity(),
                monkey.inv(),
                monkey.same_setup(&begun),
                monkey.typed().len() == i,
                monkey.ranking() == offered(
                    begun.ranking(),
                    begun.limit(),
                    recognitions(begun.dict(), monkey.typed(), 0),
                ),
                monkey.unwritten() == if monkey.ranking() != begun.ranking() {
                    Some(listing(monkey.ranking()))
                } else {
                    None
                },
                monkey.filed() is None,
            decreases max_buffer_len - i,
        {
            let idx = monkey.gen_rand_char();
            proof {
                lemma_run_step(
                    monkey.dict(),
                    monkey.limit(),
                    begun.ranking(),
                    monkey.typed(),
                    0,
                    monkey.symbols()[idx as int],
                );
            }
            monkey.type_symbol(idx);
            i += 1;
        }
        Ok(monkey)
    }

    /// One tick: emits the oldest pair of the window, types a random symbol,
    /// marks the longest word that now ends the window, and offers it to the
    /// ranking. The pair returned is what is to be printed.
    pub fn print_next(&mut self) -> (pair: (char, bool))
        requires
            old(self).inv(),
            old(self).primed(),
        ensures
            pair == old(self).window()[0],
            final(self).inv(),
            final(self).primed(),
            final(self).same_setup(old(self)),
            final(self).typed().len() == old(self).typed().len() + 1,
            final(self).typed().drop_last() == old(self).typed(),
            final(self).ranking() == offer(
                old(self).ranking(),
                old(self).limit(),
                recognized(old(self).dict(), final(self).typed()),
            ),
            final(self).unwritten() == if final(self).ranking() != old(self).ranking() {
                Some(listing(final(self).ranking()))
            } else {
                old(self).unwritten()
            },
            final(self).filed() == old(self).filed(),
    {
        let idx = self.gen_rand_char();
        let pair = self.tick(idx);
        assert(self.typed().drop_last() =~= old(self).typed());
        pair
    }

    /// Runs `iterations` ticks, each with a random symbol, and emits nothing.
    pub fn benchmark_next_without_print(&mut self, iterations: usize)
        requires
            old(self).inv(),
            old(self).primed(),
        ensures
            final(self).inv(),
            final(self).primed(),
            final(self).same_setup(old(self)),
            final(self).typed().len() == old(self).typed().len() + iterations,
            final(self).typed().take(old(self).typed().len() as int) == old(self).typed(),
            final(self).ranking() == offered(
                old(self).ranking(),
                old(self).limit(),
                recognitions(old(self).dict(), final(self).typed(), old(self).typed().len()),
            ),
            final(self).unwritten() == if final(self).ranking() != old(self).ranking() {
                Some(listing(final(self).ranking()))
            } else {
                old(self).unwritten()
            },
            final(self).filed() == old(self).filed(),
    {
        let ghost from = self.typed().len();
        let mut i: usize = 0;
        assert(self.typed().take(from as int) =~= self.typed());
        while i < iterations
            invariant
                i <= iterations,
                from == old(self).typed().len(),
                self.inv(),
                self.primed(),
                self.same_setup(old(self)),
                self.typed().len() == from + i,
                self.typed().take(from as int) == old(self).typed(),
                self.ranking() == offered(
                    old(self).ranking(),
                    old(self).limit(),
                    recognitions(old(self).dict(), self.typed(), from),
                ),
                self.unwritten() == if self.ranking() != old(self).ranking() {
                    Some(listing(self.ranking()))
                } else {
                    old(self).unwritten()
                },
                self.filed() == old(self).filed(),
            decreases iterations - i,
        {
            let idx = self.gen_rand_char();
            let ghost before = self.typed();
            proof {
                lemma_run_step(
                    self.dict(),
                    self.limit(),
                    old(self).ranking(),
                    before,
                    from,
                    self.symbols()[idx as int],
                );
            }
            let _ = self.tick(idx);
            assert(self.typed().take(from as int) =~= before.take(from as int));
            i += 1;
        }
    }

    /// Hands over the text of the ranking file that is still to be written,
    /// if there is one, and keeps none. The text lists the ranking, which is
    /// then in listing order: one word to a line, shorter words first, words
    /// of one length in lexicographic order.
    pub fn take_ranking_file(&mut self) -> (file: Option<String>)
        requires
            old(self).inv(),
        ensures
            final(self).inv(),
            final(self).same_setup(old(self)),
            final(self).typed() == old(self).typed(),
            final(self).window() == old(self).window(),
            final(self).ranking() == old(self).ranking(),
            final(self).unwritten() is None,
            match file {
                Some(text) => {
                    &&& old(self).unwritten() == Some(text@)
                    &&& text@ == listing(canonical(final(self).ranking()))
                    &&& final(self).filed() == Some(text@)
                },
                None => {
                    &&& old(self).unwritten() is None
                    &&& final(self).filed() == old(self).filed()
                },
            },
    {
        proof {
            if self.unwritten is Some {
                self.filed = Ghost(self.unwritten());
            }
        }
        self.unwritten.take()
    }

    /// The window's pairs, oldest first.
    pub fn buffer(&self) -> (pairs: Vec<(char, bool)>)
        ensures
            pairs@ == self.window(),
    {
        let mut pairs: Vec<(char, bool)> = Vec::new();
        let mut i: usize = 0;
        while i < self.window.len()
            invariant
                i <= self.window().len(),
                pairs@ == self.window().take(i as int),
            decreases self.window().len() - i,
        {
            pairs.push(self.window.get(i));
            assert(pairs@ =~= self.window().take(i + 1));
            i += 1;
        }
        assert(pairs@ =~= self.window());
        pairs
    }

    /// The ranking's words, in the order in which it holds them.
    pub fn longest_words(&self) -> (words: &Vec<String>)
        ensures
            views(words@) == self.ranking(),
    {
        self.ranking.words()
    }

    /// The most words that the ranking may hold.
    pub fn longest_words_count(&self) -> (n: usize)
        ensures
            n == self.limit(),
    {
        self.ranking.limit()
    }

    /// The symbols that the monkey may type.
    pub fn alphabet(&self) -> (symbols: &Vec<char>)
        ensures
            symbols@ == self.symbols(),
    {
        &self.alphabet
    }

    /// The window's capacity: the length of a longest dictionary word.
    pub fn max_buffer_len(&self) -> (n: usize)
        ensures
            n == self.capacity(),
    {
        self.window.capacity()
    }

    /// Whether the window is full, so that ticks may begin.
    pub fn is_primed(&self) -> (full: bool)
        requires
            self.inv(),
        ensures
            full == self.primed(),
    {
        self.window.len() == self.window.capacity()
    }

    /// After priming the window is full: it holds as many pairs as a longest
    /// dictionary word has symbols.
    pub proof fn lemma_window_full(&self)
        requires
            self.inv(),
            self.primed(),
        ensures
            self.window().len() == self.capacity(),
            is_longest_len(self.dict(), self.capacity()),
    {
    }

    /// Every symbol in the window is a symbol of the alphabet, and the window
    /// holds the last symbols typed.
    pub proof fn lemma_window_symbols(&self, i: int)
        requires
            self.inv(),
            0 <= i < self.window().len(),
        ensures
            self.symbols().contains(self.window()[i].0),
            self.window().len() <= self.typed().len(),
            self.window()[i].0 == self.typed()[self.typed().len() - self.window().len() + i],
    {
    }

    /// A marked symbol lies inside an occurrence of a dictionary word in what
    /// was typed. The occurrence is no longer than the window; the symbol
    /// was in the window when the last symbol of the occurrence was typed;
    /// and the word that was recognised then reaches back at least to the
    /// symbol. The occurrence may begin before the window does: its first
    /// symbols may have left the window since.
    pub proof fn lemma_mark_has_word(&self, i: int)
        requires
            self.inv(),
            0 <= i < self.window().len(),
            self.window()[i].1,
        ensures
            ({
                let p = self.typed().len() - self.window().len() + i;
                exists|from: int, to: int|
                    {
                        &&& 0 <= from <= p < to <= self.typed().len()
                        &&& to - from <= self.capacity()
                        &&& to - p <= self.capacity()
                        &&& #[trigger] self.dict().contains(self.typed().subrange(from, to))
                        &&& suffix_start(self.dict(), self.typed().take(to)) <= p
                    }
            }),
    {
        let p = self.typed().len() - self.window().len() + i;
        assert(covered(self.dict(), self.typed(), p));
        let (from, to) = choose|from: int, to: int|
            from <= p < to && #[trigger] is_word_at(self.dict(), self.typed(), from, to);
        let then = self.typed().take(to);
        assert(then.subrange(from, to) =~= self.typed().subrange(from, to));
        assert(is_word_at(self.dict(), then, from, to));
        lemma_suffix_start(self.dict(), then);
        assert(self.dict().contains(self.typed().subrange(from, to)));
    }

    /// The text that is still to be written is the ranking in listing order,
    /// one word to a line.
    pub proof fn lemma_unwritten_lists_ranking(&self)
        requires
            self.inv(),
            self.unwritten() is Some,
        ensures
            self.unwritten() == Some(listing(canonical(self.ranking()))),
    {
    }

    /// Once flushed, the file is the ranking: while no text is still to be
    /// written, the text that was last handed over is the ranking in listing
    /// order, one word to a line.
    pub proof fn lemma_filed_lists_ranking(&self)
        requires
            self.inv(),
            self.unwritten() is None,
            self.filed() is Some,
        ensures
            self.filed() == Some(listing(canonical(self.ranking()))),
    {
    }

    /// While no symbol has left the window, a marked symbol lies inside a
    /// dictionary word that the window shows in full.
    pub proof fn lemma_mark_has_word_in_window(&self, i: int)
        requires
            self.inv(),
            self.typed().len() <= self.capacity(),
            0 <= i < self.window().len(),
            self.window()[i].1,
        ensures
            exists|j: int, k: int|
                {
                    &&& 0 <= j <= i <= k < self.window().len()
                    &&& k - j + 1 <= self.capacity()
                    &&& #[trigger] self.dict().contains(
                        chars(self.window()).subrange(j, k + 1),
                    )
                },
    {
        assert(chars(self.window()) =~= self.typed());
        assert(covered(self.dict(), self.typed(), i));
        let (from, to) = choose|from: int, to: int|
            from <= i < to && #[trigger] is_word_at(self.dict(), self.typed(), from, to);
        assert(self.dict().contains(chars(self.window()).subrange(from, (to - 1) + 1)));
    }
}

} // verus!
