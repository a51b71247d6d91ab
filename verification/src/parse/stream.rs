//! A cursor over a sequence of items, with one step of lookahead by
//! stepping back.

use vstd::prelude::*;
use vstd::std_specs::iter::IteratorSpec;

verus! {

/// The mathematical content of a [`Stream`]: an immutable backing sequence
/// and the index of the next item to hand out.
pub struct StreamView<T> {
    pub items: Seq<T>,
    pub position: nat,
}

impl<T> StreamView<T> {
    /// The cursor lies inside the backing sequence or just past its end.
    pub open spec fn wf(self) -> bool {
        self.position <= self.items.len()
    }

    /// The item a `pop` would hand out, if there is one.
    pub open spec fn next(self) -> Option<T> {
        if self.position < self.items.len() {
            Some(self.items[self.position as int])
        } else {
            None
        }
    }

    /// The cursor after a `pop`: one step forward, unless already at the end.
    pub open spec fn pop(self) -> Self {
        if self.position < self.items.len() {
            StreamView { items: self.items, position: self.position + 1 }
        } else {
            self
        }
    }

    /// The cursor after a `back`: one step backward, unless already at the start.
    pub open spec fn back(self) -> Self {
        if self.position > 0 {
            StreamView { items: self.items, position: (self.position - 1) as nat }
        } else {
            self
        }
    }

    /// The number of items not yet handed out.
    pub open spec fn len(self) -> nat {
        (self.items.len() - self.position) as nat
    }
}

/// Stepping forward or backward keeps the cursor within the backing
/// sequence and leaves the sequence as it is.
pub proof fn lemma_moves_stay_within<T>(stream: StreamView<T>)
    requires
        stream.wf(),
    ensures
        stream.pop().wf(),
        stream.back().wf(),
        stream.pop().items == stream.items,
        stream.back().items == stream.items,
        stream.len() == stream.items.len() - stream.position,
{
}

/// Where a `pop` hands out an item, a `back` undoes it: the `pop` after
/// the `back` hands out the same item again. The same holds of a stream
/// over no items at all, where both find nothing. It does not hold at the
/// end of a stream that has items: there the first `pop` finds nothing,
/// and the `pop` after the `back` finds the last item.
pub proof fn lemma_pop_back_pop<T>(stream: StreamView<T>)
    requires
        stream.wf(),
        stream.next() is Some || stream.items.len() == 0,
    ensures
        stream.pop().back().next() == stream.next(),
        stream.pop().back() == stream,
{
}

/// At the start, `back` changes nothing.
pub proof fn lemma_back_at_start<T>(stream: StreamView<T>)
    requires
        stream.position == 0,
    ensures
        stream.back() == stream,
{
}

/// At the end, `pop` finds nothing and does not move.
pub proof fn lemma_pop_at_end<T>(stream: StreamView<T>)
    requires
        stream.position == stream.items.len(),
    ensures
        stream.next() is None,
        stream.pop() == stream,
{
}

/// A cursor over an owned sequence of items that can step forward and
/// take back its steps one at a time. The items themselves never change.
pub struct Stream<T> {
    items: Vec<T>,
    position: usize,
}

impl<T> View for Stream<T> {
    type V = StreamView<T>;

    closed spec fn view(&self) -> StreamView<T> {
        StreamView { items: self.items@, position: self.position as nat }
    }
}

impl<T> Stream<T> {
    #[verifier::type_invariant]
    spec fn inv(&self) -> bool {
        self.position <= self.items.len()
    }

    pub fn new(from: Vec<T>) -> (stream: Self)
        ensures
            stream@ == (StreamView { items: from@, position: 0 }),
    {
        Stream { items: from, position: 0 }
    }

    pub fn pop(&mut self) -> (item: Option<&T>)
        ensures
            old(self)@.wf(),
            final(self)@ == old(self)@.pop(),
            match item {
                Some(t) => old(self)@.next() == Some(*t),
                None => old(self)@.next() is None,
            },
    {
        proof {
            use_type_invariant(&*self);
        }
        if self.position >= self.items.len() {
            return None;
        }
        self.position += 1;
        Some(&self.items[self.position - 1])
    }

    pub fn back(&mut self)
        ensures
            old(self)@.wf(),
            final(self)@ == old(self)@.back(),
    {
        proof {
            use_type_invariant(&*self);
        }
        if self.position > 0 {
            self.position -= 1
        }
    }

    pub fn len(&self) -> (n: usize)
        ensures
            self@.wf(),
            n == self@.len(),
    {
        proof {
            use_type_invariant(self);
        }
        self.items.len() - self.position
    }

    pub fn empty(&self) -> (b: bool)
        ensures
            self@.wf(),
            b == (self@.len() == 0),
    {
        self.len() == 0
    }

    pub fn iter(&self) -> (it: core::slice::Iter<'_, T>)
        ensures
            vstd::std_specs::slice::into_iter_elts(it) == self@.items,
            it.remaining() == self@.items.as_ref(),
            it.decrease() is Some,
    {
        self.items.iter()
    }
}

} // verus!
