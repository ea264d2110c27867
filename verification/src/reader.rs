//! The reader's side of the registry: the queue of deliveries that a reader
//! has yet to pull, and the entry under which the publisher files it.
use std::collections::VecDeque;
use vstd::prelude::*;
use crate::counter::Counter;
use crate::model::ReaderState;

verus! {

/// A reader: the sequence numbers delivered to it and not yet pulled.
///
/// A fresh reader is unregistered and empty. Registration hands it to the
/// publisher, which from then on appends to the queue on every publication;
/// the reader's owner pulls from the front.
pub struct StreamReader {
    unread_data: VecDeque<Counter>,
}

impl View for StreamReader {
    type V = Seq<Counter>;

    /// The queued sequence numbers, oldest first.
    closed spec fn view(&self) -> Seq<Counter> {
        self.unread_data@
    }
}

impl StreamReader {
    /// An unregistered reader with nothing to pull.
    pub fn new() -> (r: Self)
        ensures
            r@ == Seq::<Counter>::empty(),
    {
        StreamReader { unread_data: VecDeque::new() }
    }

    /// Delivers the item numbered `count`: it is queued behind everything
    /// delivered before.
    pub fn new_data(&mut self, count: Counter)
        ensures
            final(self)@ == old(self)@.push(count),
    {
        self.unread_data.push_back(count);
    }

    /// Pulls the oldest queued sequence number; `None` when there is no new data.
    pub fn read(&mut self) -> (r: Option<Counter>)
        ensures
            old(self)@.len() == 0 ==> r.is_none() && final(self)@ == old(self)@,
            old(self)@.len() > 0 ==> r == Some(old(self)@[0]) && final(self)@ == old(self)@.skip(1),
    {
        let r = self.unread_data.pop_front();
        proof {
            if old(self)@.len() > 0 {
                assert(final(self)@ =~= old(self)@.skip(1));
            }
        }
        r
    }

    /// The number of deliveries waiting to be pulled.
    pub fn len(&self) -> (n: usize)
        ensures
            n == self@.len(),
    {
        self.unread_data.len()
    }

    /// Forgets every queued delivery.
    pub fn clear(&mut self)
        ensures
            final(self)@ == Seq::<Counter>::empty(),
    {
        self.unread_data.clear();
    }
}

/// A registry entry: a reader together with its acknowledgement mark.
pub struct ConsumerInfo {
    /// One past the last sequence number that the reader has released.
    pub unread: Counter,
    /// The reader's queue of deliveries.
    pub reader: StreamReader,
}

impl View for ConsumerInfo {
    type V = ReaderState;

    open spec fn view(&self) -> ReaderState {
        ReaderState { unread: self.unread, pending: self.reader@ }
    }
}

impl ConsumerInfo {
    /// The entry for `r`, with nothing acknowledged yet.
    pub fn from_reader(r: StreamReader) -> (info: Self)
        ensures
            info.unread == 0,
            info.reader == r,
    {
        ConsumerInfo { unread: 0, reader: r }
    }
}

} // verus!
