//! Scoped handles: a read handle for one delivered item, whose release is
//! the acknowledgement, and a write handle for one reserved slot, whose
//! commit is the publication.
//!
//! A handle borrows the publisher for as long as it lives, so the publisher
//! can neither change nor go away under it, and at most one handle exists
//! at a time. Each handle is consumed by its terminal operation, so it
//! cannot be used afterwards and cannot be released twice. A handle that is
//! dropped without its terminal operation acknowledges or publishes nothing.
//!
//! The fields of a handle are public because a contract has to speak of the
//! reference that the handle holds: what the publisher is once the handle
//! is gone is what that reference is left pointing at.
use vstd::prelude::*;
use crate::counter::{advance, Counter};
use crate::laws::lemma_publication;
use crate::publisher::Publisher;

verus! {

/// Read access to the item numbered `counter`, pulled by `reader`.
pub struct BorrowRead<'a, T> {
    /// The publisher that retains the item.
    pub source: &'a mut Publisher<T>,
    /// The handle of the reader that pulled the item.
    pub reader: usize,
    /// The sequence number of the item.
    pub counter: Counter,
}

impl<'a, T> BorrowRead<'a, T> {
    /// The publisher as the handle sees it now.
    pub open spec fn publisher(&self) -> Publisher<T> {
        *self.source
    }

    /// The handle belongs to a sound publisher that retains the item, and
    /// its reader is registered.
    pub open spec fn wf(&self) -> bool {
        &&& self.publisher().wf()
        &&& self.publisher()@.registered(self.reader)
        &&& self.publisher()@.retains(self.counter)
    }

    /// The item.
    pub fn deref(&self) -> (obj: &T)
        requires
            self.wf(),
        ensures
            self.publisher()@.retains(self.counter),
            *obj == self.publisher()@.item(self.counter),
    {
        self.source.get(self.counter).unwrap()
    }

    /// Releases the handle: the reader acknowledges the item, so that its
    /// mark moves to just past it, and the publisher reclaims.
    pub fn release(self)
        requires
            self.publisher().wf(),
        ensures
            final(self.source)@ == self.publisher()@.reader_done(self.reader, self.counter),
            self.publisher()@.registered(self.reader)
                ==> final(self.source)@.readers[self.reader].unread == advance(self.counter, 1),
            final(self.source).wf(),
            final(self.source)@.settled(),
    {
        self.source.reader_done(self.reader, self.counter);
    }
}

/// Write access to the slot reserved for the item numbered `newcount`.
pub struct BorrowWrite<'a, T> {
    /// The publisher in which the slot is reserved.
    pub writer: &'a mut Publisher<T>,
    /// The sequence number that the item gets when the slot is committed.
    pub newcount: Counter,
}

impl<'a, T> BorrowWrite<'a, T> {
    /// The publisher as the handle sees it now.
    pub open spec fn publisher(&self) -> Publisher<T> {
        *self.writer
    }

    /// The handle belongs to a sound publisher in which a slot is reserved,
    /// and `newcount` is the number that the slot gets on commit.
    pub open spec fn wf(&self) -> bool {
        &&& self.publisher().wf()
        &&& self.publisher()@.reserved is Some
        &&& self.newcount == self.publisher()@.next_count()
    }

    /// What has been written into the slot, if anything.
    pub fn deref(&self) -> (r: Option<&T>)
        ensures
            r.is_some() == self.publisher()@.can_finish(),
            r.is_some() ==> self.publisher()@.reserved == Some(Some(*r.unwrap())),
    {
        self.writer.staged()
    }

    /// Writes `value` into the slot, replacing what was written before.
    /// No reader learns of it.
    pub fn write(&mut self, value: T)
        requires
            old(self).publisher().wf(),
        ensures
            final(self).publisher()@ == old(self).publisher()@.write(value),
            final(self).newcount == old(self).newcount,
            final(self).publisher().wf(),
            old(self).wf() ==> final(self).wf(),
            *final(final(self).writer) == *final(old(self).writer),
    {
        let ghost s = self.publisher()@;
        self.writer.stage(value);
        proof {
            s.lemma_reservation_wf(Some(Some(value)));
        }
    }

    /// Commits the slot and says whether an item was published.
    ///
    /// A slot that was written becomes the newest item, under the number
    /// `newcount`, and is delivered to every registered reader. A slot that
    /// was never written is given up, as by [`BorrowWrite::abandon`].
    pub fn finish(self) -> (committed: bool)
        requires
            self.publisher().wf(),
        ensures
            committed == self.publisher()@.can_finish(),
            final(self.writer)@ == self.publisher()@.finish(),
            final(self.writer).wf(),
            self.wf() && committed ==> final(self.writer)@.retains(self.newcount)
                && self.publisher()@.reserved == Some(
                Some(final(self.writer)@.item(self.newcount)),
            ),
    {
        let ghost s = self.publisher()@;
        let committed = self.writer.commit();
        proof {
            if committed {
                lemma_publication(s, s.reserved.unwrap().unwrap());
            }
        }
        committed
    }

    /// Gives the slot up: nothing is published, and the next reservation or
    /// publication gets `newcount` again, so that the sequence has no gap.
    pub fn abandon(self)
        requires
            self.publisher().wf(),
        ensures
            final(self.writer)@ == self.publisher()@.abandon(),
            final(self.writer).wf(),
            self.wf() ==> final(self.writer)@.next_count() == self.newcount,
    {
        let ghost s = self.publisher()@;
        self.writer.rollback();
        proof {
            s.lemma_reservation_wf(None);
        }
    }
}

} // verus!
