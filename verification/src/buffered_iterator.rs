//! An iterator that can take a snapshot of the items it hands out and hand
//! them out once more.

use vstd::prelude::*;
use vstd::std_specs::iter::IteratorSpec;

verus! {

/// The mode of a `BufferedIterator`.
#[derive(Clone, Copy, Debug)]
pub enum Mode {
    /// Items come from the underlying iterator.
    Normal,
    /// Items come from the underlying iterator, and a copy of each is kept.
    FillBuffer,
    /// The kept items are handed out, from the given index on; after the
    /// last of them the underlying iterator goes on.
    ReadBuffer(usize),
}

/// An iterator over the items of `I` that keeps, on demand, a copy of each
/// item it hands out, and hands the kept items out again after `reset`.
#[verifier::reject_recursive_types(Item)]
#[verifier::reject_recursive_types(I)]
pub struct BufferedIterator<Item: Clone + Sized, I: Iterator<Item = Item>> {
    buffer: Vec<Item>,
    iterator: I,
    mode: Mode,
}

/// A borrowed `BufferedIterator`, to draw items from.
#[verifier::reject_recursive_types(Item)]
#[verifier::reject_recursive_types(I)]
pub struct BufferedIteratorIter<'a, Item: Clone + Sized, I: Iterator<Item = Item>> {
    buffer: &'a mut BufferedIterator<Item, I>,
}

impl<Item: Clone + Sized, I: Iterator<Item = Item>> BufferedIterator<Item, I> {
    /// The items that are kept.
    pub closed spec fn buffered(&self) -> Seq<Item> {
        self.buffer@
    }

    /// The mode.
    pub closed spec fn mode(&self) -> Mode {
        self.mode
    }

    /// The underlying iterator.
    pub closed spec fn inner(&self) -> I {
        self.iterator
    }

    /// The kept items that are still to be handed out again.
    pub open spec fn replay(&self) -> Seq<Item> {
        match self.mode() {
            Mode::ReadBuffer(index) => if index <= self.buffered().len() {
                self.buffered().skip(index as int)
            } else {
                seq![]
            },
            _ => seq![],
        }
    }

    /// The mode after one more item is drawn.
    pub open spec fn mode_after_next(&self) -> Mode {
        match self.mode() {
            Mode::ReadBuffer(index) => if index < self.buffered().len() {
                Mode::ReadBuffer((index + 1) as usize)
            } else {
                Mode::Normal
            },
            mode => mode,
        }
    }

    /// An iterator over `iterator` that keeps nothing yet.
    pub fn new(iterator: I) -> (result: Self)
        ensures
            result.mode() is Normal,
            result.buffered().len() == 0,
            result.inner() == iterator,
    {
        Self { buffer: Vec::new(), iterator, mode: Mode::Normal }
    }

    /// Forgets the kept items and keeps, from now on, a copy of each item
    /// that is handed out.
    pub fn set_buffering_mode(&mut self)
        ensures
            final(self).mode() is FillBuffer,
            final(self).buffered().len() == 0,
            final(self).inner() == old(self).inner(),
    {
        self.buffer.clear();
        self.mode = Mode::FillBuffer;
    }

    /// Ends the keeping of items: the kept items are handed out again, in
    /// order, before the underlying iterator goes on. Without a call of
    /// `set_buffering_mode` before it, the call changes nothing.
    pub fn reset(&mut self)
        ensures
            final(self).mode() == (if old(self).mode() is FillBuffer {
                Mode::ReadBuffer(0)
            } else {
                old(self).mode()
            }),
            final(self).buffered() == old(self).buffered(),
            final(self).inner() == old(self).inner(),
            old(self).mode() is FillBuffer ==> final(self).replay() == old(self).buffered(),
    {
        match self.mode {
            Mode::FillBuffer => {
                self.mode = Mode::ReadBuffer(0);
                assert(self.buffer@.skip(0) =~= self.buffer@);
            },
            _ => {},
        }
    }

    /// The next item: a copy of the next kept item while kept items are
    /// handed out again, else the next item of the underlying iterator, of
    /// which a copy is kept while items are being kept.
    pub fn next(&mut self) -> (item: Option<Item>)
        ensures
            final(self).mode() == old(self).mode_after_next(),
            final(self).inner().obeys_prophetic_iter_laws() == old(
                self,
            ).inner().obeys_prophetic_iter_laws(),
            old(self).replay().len() > 0 ==> {
                &&& item matches Some(x)
                &&& cloned(old(self).replay()[0], x)
                &&& final(self).replay() == old(self).replay().drop_first()
                &&& final(self).buffered() == old(self).buffered()
                &&& final(self).inner() == old(self).inner()
            },
            old(self).replay().len() == 0 && old(self).inner().obeys_prophetic_iter_laws() ==> {
                &&& final(self).replay().len() == 0
                &&& (final(self).inner().decrease() is Some) == (old(self).inner().decrease() is Some)
                &&& old(self).inner().remaining().len() > 0 && final(self).inner().decrease() is Some
                    ==> decreases_to!(old(self).inner().decrease()->0 => final(self).inner().decrease()->0)
                &&& if old(self).inner().remaining().len() > 0 {
                    &&& item == Some(old(self).inner().remaining()[0])
                    &&& final(self).inner().remaining() == old(
                        self,
                    ).inner().remaining().drop_first()
                } else {
                    &&& item is None
                    &&& final(self).inner().remaining() == old(self).inner().remaining()
                }
            },
            old(self).replay().len() == 0 ==> if old(self).mode() is FillBuffer && item is Some {
                &&& final(self).buffered().len() == old(self).buffered().len() + 1
                &&& final(self).buffered().drop_last() == old(self).buffered()
                &&& cloned(item->0, final(self).buffered().last())
            } else {
                final(self).buffered() == old(self).buffered()
            },
    {
        match self.mode {
            Mode::Normal => self.iterator.next(),
            Mode::FillBuffer => {
                let item = self.iterator.next();
                match item {
                    Some(item) => {
                        let copy = item.clone();
                        self.buffer.push(copy);
                        assert(self.buffer@.drop_last() =~= old(self).buffer@);
                        Some(item)
                    },
                    None => None,
                }
            },
            Mode::ReadBuffer(index) => {
                if index < self.buffer.len() {
                    let item = self.buffer[index].clone();
                    self.mode = Mode::ReadBuffer(index + 1);
                    assert(self.buffer@.skip(index as int).drop_first() =~= self.buffer@.skip(
                        index + 1,
                    ));
                    Some(item)
                } else {
                    self.mode = Mode::Normal;
                    self.iterator.next()
                }
            },
        }
    }

    /// A borrow of the iterator to draw items from: what is drawn through
    /// the borrow is drawn from this iterator.
    pub fn iter(&mut self) -> (result: BufferedIteratorIter<'_, Item, I>)
        ensures
            result.source() == *old(self),
            *final(result.borrowed()) == *final(self),
    {
        BufferedIteratorIter { buffer: self }
    }
}

impl<'a, Item: Clone + Sized, I: Iterator<Item = Item>> BufferedIteratorIter<'a, Item, I> {
    /// The iterator that is borrowed.
    pub closed spec fn source(&self) -> BufferedIterator<Item, I> {
        *self.buffer
    }

    /// The borrow itself.
    pub closed spec fn borrowed(self) -> &'a mut BufferedIterator<Item, I> {
        self.buffer
    }

    /// The next item of the borrowed iterator, as `BufferedIterator::next`
    /// hands it out.
    pub fn next(&mut self) -> (item: Option<Item>)
        ensures
            final(self).source().mode() == old(self).source().mode_after_next(),
            final(self).source().inner().obeys_prophetic_iter_laws() == old(
                self,
            ).source().inner().obeys_prophetic_iter_laws(),
            old(self).source().replay().len() > 0 ==> {
                &&& item matches Some(x)
                &&& cloned(old(self).source().replay()[0], x)
                &&& final(self).source().replay() == old(self).source().replay().drop_first()
                &&& final(self).source().buffered() == old(self).source().buffered()
                &&& final(self).source().inner() == old(self).source().inner()
            },
            old(self).source().replay().len() == 0 && old(
                self,
            ).source().inner().obeys_prophetic_iter_laws() ==> {
                &&& final(self).source().replay().len() == 0
                &&& (final(self).source().inner().decrease() is Some) == (old(self).source().inner().decrease() is Some)
                &&& old(self).source().inner().remaining().len() > 0 && final(self).source().inner().decrease() is Some
                    ==> decreases_to!(old(self).source().inner().decrease()->0 => final(self).source().inner().decrease()->0)
                &&& if old(self).source().inner().remaining().len() > 0 {
                    &&& item == Some(old(self).source().inner().remaining()[0])
                    &&& final(self).source().inner().remaining() == old(
                        self,
                    ).source().inner().remaining().drop_first()
                } else {
                    &&& item is None
                    &&& final(self).source().inner().remaining() == old(
                        self,
                    ).source().inner().remaining()
                }
            },
            old(self).source().replay().len() == 0 ==> if old(self).source().mode() is FillBuffer
                && item is Some {
                &&& final(self).source().buffered().len() == old(self).source().buffered().len()
                    + 1
                &&& final(self).source().buffered().drop_last() == old(self).source().buffered()
                &&& cloned(item->0, final(self).source().buffered().last())
            } else {
                final(self).source().buffered() == old(self).source().buffered()
            },
    {
        self.buffer.next()
    }
}

} // verus!
