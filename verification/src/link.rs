//! The ordered list shared by the free-run list and the LRU: elements are
//! kept front-to-back by recency, can be unlinked in place, and can be
//! walked from the tail.  A link is a position in one owning sequence,
//! which the contracts speak about.

use vstd::prelude::*;

verus! {

/// An ordered list of elements; the front (position zero) is the most
/// recently pushed.
pub struct LinkHead<T> {
    items: Vec<T>,
}

/// A cursor that walks a `LinkHead` from the tail towards the front,
/// yielding positions.  Unlinking the position just yielded is allowed:
/// positions closer to the front are unaffected.
pub struct IterReverseMut {
    next_pos: usize,
}

impl<T> LinkHead<T> {
    pub closed spec fn view(&self) -> Seq<T> {
        self.items@
    }

    pub fn new() -> (r: LinkHead<T>)
        ensures
            r@ =~= Seq::<T>::empty(),
    {
        LinkHead { items: Vec::new() }
    }

    pub fn is_empty(&self) -> (r: bool)
        ensures
            r == (self@.len() == 0),
    {
        self.items.len() == 0
    }

    pub fn len(&self) -> (r: usize)
        ensures
            r == self@.len(),
    {
        self.items.len()
    }

    /// Links `element` in at the front.
    pub fn push_front(&mut self, element: T)
        ensures
            final(self)@ =~= seq![element] + old(self)@,
    {
        self.items.insert(0, element);
    }

    /// The element at `pos`; the front is position zero.
    pub fn get(&self, pos: usize) -> (r: &T)
        requires
            pos < self@.len(),
        ensures
            *r == self@[pos as int],
    {
        &self.items[pos]
    }

    /// Mutable access to the element at `pos`.
    pub fn get_mut(&mut self, pos: usize) -> (r: &mut T)
        requires
            pos < old(self)@.len(),
        ensures
            *r == old(self)@[pos as int],
            final(self)@ == old(self)@.update(pos as int, *final(r)),
    {
        &mut self.items[pos]
    }

    /// Unlinks and returns the element at `pos`.
    pub fn unlink(&mut self, pos: usize) -> (r: T)
        requires
            pos < old(self)@.len(),
        ensures
            r == old(self)@[pos as int],
            final(self)@ =~= old(self)@.subrange(0, pos as int) + old(self)@.subrange(
                pos as int + 1,
                old(self)@.len() as int,
            ),
            final(self)@.len() == old(self)@.len() - 1,
    {
        self.items.remove(pos)
    }

    /// Begins a tail-to-front walk.
    pub fn iter_reverse_mut(&mut self) -> (r: IterReverseMut)
        ensures
            r.next() == old(self)@.len(),
            final(self)@ == old(self)@,
    {
        IterReverseMut { next_pos: self.items.len() }
    }
}

impl IterReverseMut {
    /// The position the next step will yield, plus one; zero when the walk
    /// is over.
    pub closed spec fn next(&self) -> int {
        self.next_pos as int
    }

    /// Steps towards the front.  `len` is the list's current length; it may
    /// have shrunk by one from unlinking the position yielded last, which
    /// leaves the positions still to come unaffected.
    pub fn step(&mut self, len: usize) -> (r: Option<usize>)
        requires
            old(self).next() <= len,
        ensures
            match r {
                Some(pos) => {
                    &&& pos + 1 == old(self).next()
                    &&& pos < len
                    &&& final(self).next() == pos
                },
                None => old(self).next() == 0 && final(self).next() == 0,
            },
    {
        if self.next_pos == 0 {
            return None;
        }
        self.next_pos = self.next_pos - 1;
        Some(self.next_pos)
    }
}

} // verus!
