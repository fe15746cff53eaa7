//! The sliding window: the most recently typed symbols, oldest first, each
//! with a mark that says whether it has been part of a recognised word.

use std::collections::VecDeque;
use vstd::prelude::*;

verus! {

/// Assignment through `VecDeque`'s `IndexMut`: replaces the element at
/// index `i`, which must exist, and leaves the others as they are.
#[verifier::external_body]
fn deque_set(buffer: &mut VecDeque<(char, bool)>, i: usize, pair: (char, bool))
    requires
        i < old(buffer)@.len(),
    ensures
        final(buffer)@ == old(buffer)@.update(i as int, pair),
{
    buffer[i] = pair;
}

/// The symbols of a window, without their marks.
pub open spec fn chars(w: Seq<(char, bool)>) -> Seq<char> {
    Seq::new(w.len(), |i: int| w[i].0)
}

/// A bounded first-in, first-out sequence of marked symbols.
pub struct Window {
    buffer: VecDeque<(char, bool)>,
    capacity: usize,
}

impl View for Window {
    type V = Seq<(char, bool)>;

    closed spec fn view(&self) -> Seq<(char, bool)> {
        self.buffer@
    }
}

impl Window {
    /// The most pairs that the window may hold.
    pub closed spec fn cap(&self) -> nat {
        self.capacity as nat
    }

    /// The window holds no more pairs than its capacity.
    pub open spec fn inv(&self) -> bool {
        self@.len() <= self.cap()
    }

    /// An empty window of the given capacity.
    pub fn new(capacity: usize) -> (w: Window)
        ensures
            w@ == Seq::<(char, bool)>::empty(),
            w.cap() == capacity,
            w.inv(),
    {
        Window { buffer: VecDeque::new(), capacity }
    }

    /// The most pairs that the window may hold.
    pub fn capacity(&self) -> (n: usize)
        ensures
            n == self.cap(),
    {
        self.capacity
    }

    /// The number of pairs in the window.
    pub fn len(&self) -> (n: usize)
        ensures
            n == self@.len(),
    {
        self.buffer.len()
    }

    /// The pair at index `i`, counted from the oldest.
    pub fn get(&self, i: usize) -> (pair: (char, bool))
        requires
            i < self@.len(),
        ensures
            pair == self@[i as int],
    {
        self.buffer[i]
    }

    /// Appends `c`, unmarked, as the newest symbol.
    pub fn push_back(&mut self, c: char)
        requires
            old(self).inv(),
            old(self)@.len() < old(self).cap(),
        ensures
            final(self)@ == old(self)@.push((c, false)),
            final(self).cap() == old(self).cap(),
            final(self).inv(),
    {
        self.buffer.push_back((c, false));
    }

    /// Removes the oldest pair and returns it.
    pub fn pop_front(&mut self) -> (pair: (char, bool))
        requires
            old(self).inv(),
            old(self)@.len() > 0,
        ensures
            pair == old(self)@[0],
            final(self)@ == old(self)@.drop_first(),
            final(self).cap() == old(self).cap(),
            final(self).inv(),
    {
        let front = self.buffer.pop_front();
        assert(self@ =~= old(self)@.drop_first());
        front.unwrap()
    }

    /// Writes the window's symbols, oldest first, over `out`.
    pub fn snapshot_chars(&self, out: &mut String)
        ensures
            final(out)@ == chars(self@),
    {
        out.clear();
        let mut i: usize = 0;
        while i < self.buffer.len()
            invariant
                i <= self@.len(),
                out@ == chars(self@).take(i as int),
            decreases self.buffer.len() - i,
        {
            let pair = self.buffer[i];
            out.push(pair.0);
            assert(out@ =~= chars(self@).take(i + 1));
            i += 1;
        }
        assert(out@ =~= chars(self@));
    }

    /// Marks the symbol at index `i`.
    pub fn set_mark(&mut self, i: usize)
        requires
            i < old(self)@.len(),
        ensures
            final(self)@ == old(self)@.update(i as int, (old(self)@[i as int].0, true)),
            final(self).cap() == old(self).cap(),
    {
        let pair = self.buffer[i];
        deque_set(&mut self.buffer, i, (pair.0, true));
    }
}

} // verus!
