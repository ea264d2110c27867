//! The publisher: owner of the retained items and of the reader registry.
use std::collections::VecDeque;
use vstd::prelude::*;
use crate::counter::{advance, gap, step, Counter};
use crate::borrow::{BorrowRead, BorrowWrite};
use crate::model::{ReaderState, State};
use crate::reader::{ConsumerInfo, StreamReader};

verus! {

/// A broadcast buffer: one producer appends items, and every registered
/// reader sees each of them, in order, at its own pace. An item is retained
/// for as long as some registered reader needs it: has it in its queue or
/// has not acknowledged it. It is evicted at the first acknowledgement or
/// removal after which no reader does. While no reader is registered
/// nothing is evicted: the buffer keeps everything that is published, and a
/// reader that registers later is replayed all of it.
///
/// Readers are named by handles, small integers that stay valid until the
/// reader is removed. Items are named by their sequence number, which
/// wraps; an item is found by how far its number lies ahead of the oldest
/// retained one, so that neither growth nor eviction moves it.
pub struct Publisher<T> {
    data: VecDeque<T>,
    first_count: Counter,
    reserved: Option<Option<T>>,
    readers: Vec<Option<ConsumerInfo>>,
}

impl<T> View for Publisher<T> {
    type V = State<T>;

    closed spec fn view(&self) -> State<T> {
        State {
            first_count: self.first_count,
            items: self.data@,
            reserved: self.reserved,
            readers: Map::new(
                |id: usize| id < self.readers.len() && self.readers[id as int] is Some,
                |id: usize| self.readers[id as int].unwrap()@,
            ),
        }
    }
}

impl<T> Publisher<T> {
    /// The invariant that every operation expects and keeps.
    pub open spec fn wf(&self) -> bool {
        self@.wf()
    }

    /// The registry is `readers` if the two agree slot by slot, in the mark
    /// and in the queue.
    proof fn lemma_registry(&self, readers: Map<usize, ReaderState>)
        requires
            forall|id: usize| #[trigger]
                readers.dom().contains(id) <==> id < self.readers.len() && self.readers[id as int]
                    is Some,
            forall|id: usize|
                readers.dom().contains(id) ==> {
                    &&& (#[trigger] readers[id]).unread == self.readers[id as int].unwrap().unread
                    &&& readers[id].pending == self.readers[id as int].unwrap().reader@
                },
        ensures
            self@.readers == readers,
    {
        assert forall|id: usize| readers.dom().contains(id) implies #[trigger] readers[id]
            =~= self.readers[id as int].unwrap()@ by {}
        assert(self@.readers =~= readers);
    }

    /// An empty buffer without readers whose first item gets the number 0.
    pub fn new() -> (p: Self)
        ensures
            p@ == State::<T>::empty(0),
            p.wf(),
    {
        Self::with_first_count(0)
    }

    /// An empty buffer without readers whose first item gets the number
    /// `first_count`.
    pub fn with_first_count(first_count: Counter) -> (p: Self)
        ensures
            p@ == State::<T>::empty(first_count),
            p.wf(),
    {
        let p = Publisher {
            data: VecDeque::new(),
            first_count,
            reserved: None,
            readers: Vec::new(),
        };
        proof {
            assert(p@.readers =~= Map::empty());
            assert(p@ =~~= State::<T>::empty(first_count));
        }
        p
    }

    /// Delivers `count` to every registered reader.
    fn fan_out(&mut self, count: Counter)
        ensures
            final(self)@ == old(self)@.fan_out(count),
    {
        let n: usize = self.readers.len();
        let mut i: usize = 0;
        while i < n
            invariant
                i <= n,
                n == self.readers.len(),
                self.readers.len() == old(self).readers.len(),
                self.data == old(self).data,
                self.first_count == old(self).first_count,
                self.reserved == old(self).reserved,
                forall|j: int|
                    0 <= j < i ==> (match #[trigger] old(self).readers[j] {
                        Some(e) => self.readers[j] is Some && self.readers[j].unwrap()@
                            == (ReaderState { unread: e@.unread, pending: e@.pending.push(count) }),
                        None => self.readers[j] is None,
                    }),
                forall|j: int| i <= j < n ==> self.readers[j] == old(self).readers[j],
            decreases n - i,
        {
            match &mut self.readers[i] {
                Some(e) => {
                    e.reader.new_data(count);
                },
                None => {},
            }
            i = i + 1;
        }
        proof {
            let t = old(self)@.fan_out(count);
            assert forall|id: usize| #[trigger]
                t.readers.dom().contains(id) <==> id < n && self.readers[id as int] is Some by {
                if id < n {
                    let _ = old(self).readers[id as int];
                }
            }
            assert forall|id: usize| t.readers.dom().contains(id) implies {
                &&& (#[trigger] t.readers[id]).unread == self.readers[id as int].unwrap().unread
                &&& t.readers[id].pending == self.readers[id as int].unwrap().reader@
            } by {
                let _ = old(self).readers[id as int];
            }
            self.lemma_registry(t.readers);
            assert(self@ =~~= t);
        }
    }

    /// Publishes `obj` and returns the sequence number given to it.
    ///
    /// The item is appended behind every retained item and delivered to
    /// every registered reader at once. Nothing is evicted.
    pub fn publish(&mut self, obj: T) -> (count: Counter)
        requires
            old(self).wf(),
        ensures
            count == old(self)@.next_count(),
            final(self)@ == old(self)@.publish(obj),
            final(self).wf(),
    {
        let newcount = step(self.first_count, self.data.len());
        self.reserved = None;
        self.data.push_back(obj);
        self.fan_out(newcount);
        proof {
            assert(self@ =~~= old(self)@.publish(obj));
            assert(self.data@.len() <= usize::MAX) by {
                let _ = self.data.len();
            }
            old(self)@.lemma_publish_wf(obj);
        }
        newcount
    }

    /// The lowest handle that names no registered reader.
    fn free_handle(&self) -> (id: usize)
        ensures
            id <= self.readers.len(),
            !self@.registered(id),
            forall|j: usize| j < id ==> self@.registered(j),
    {
        let n: usize = self.readers.len();
        let mut i: usize = 0;
        while i < n && self.readers[i].is_some()
            invariant
                i <= n,
                n == self.readers.len(),
                forall|j: int| 0 <= j < i ==> self.readers[j] is Some,
            decreases n - i,
        {
            i = i + 1;
        }
        i
    }

    /// Fills the queue of `reader` with the numbers of all retained items,
    /// oldest first, after dropping whatever it held.
    fn replay(&self, reader: &mut StreamReader)
        ensures
            final(reader)@ == self@.counts(),
    {
        reader.clear();
        let n: usize = self.data.len();
        let mut k: usize = 0;
        while k < n
            invariant
                k <= n,
                n == self.data@.len(),
                reader@ == self@.counts().take(k as int),
            decreases n - k,
        {
            reader.new_data(step(self.first_count, k));
            proof {
                assert(reader@ =~= self@.counts().take(k + 1));
            }
            k = k + 1;
        }
        proof {
            assert(self@.counts().take(n as int) =~= self@.counts());
        }
    }

    /// Registers the reader of `info` and returns its handle: the lowest
    /// one that is free.
    ///
    /// The reader starts with every retained item yet to pull, oldest first,
    /// and with nothing acknowledged: its mark is the number of the oldest
    /// retained item. Whatever `info` held before does not matter. A slot
    /// that is only reserved is not among the retained items.
    pub fn add_reader(&mut self, info: ConsumerInfo) -> (reader: usize)
        requires
            old(self).wf(),
        ensures
            !old(self)@.registered(reader),
            forall|j: usize| j < reader ==> old(self)@.registered(j),
            final(self)@ == old(self)@.add_reader(reader),
            final(self).wf(),
    {
        let mut info = info;
        info.unread = self.first_count;
        self.replay(&mut info.reader);
        let id = self.free_handle();
        if id < self.readers.len() {
            self.readers[id] = Some(info);
        } else {
            self.readers.push(Some(info));
        }
        proof {
            let t = old(self)@.add_reader(id);
            self.lemma_registry(t.readers);
            assert(self@ =~~= t);
            old(self)@.lemma_add_reader_wf(id);
        }
        id
    }

    /// The retained item numbered `count`, if it is retained.
    pub fn get(&self, count: Counter) -> (r: Option<&T>)
        ensures
            r.is_some() == self@.retains(count),
            r.is_some() ==> *r.unwrap() == self@.item(count),
    {
        let off = gap(self.first_count, count);
        if off < self.data.len() {
            Some(&self.data[off])
        } else {
            None
        }
    }

    /// Pulls the oldest delivery of `reader` and returns its sequence
    /// number; `None`, with nothing changed, when `reader` is not registered
    /// or has no new data.
    ///
    /// The item is retained. It stays so until the reader acknowledges it
    /// or a later one with [`Publisher::reader_done`], unless the reader
    /// had acknowledged it before it pulled it.
    pub fn pull(&mut self, reader: usize) -> (pulled: Option<Counter>)
        requires
            old(self).wf(),
        ensures
            pulled.is_some() == old(self)@.can_read(reader),
            pulled.is_none() ==> final(self)@ == old(self)@,
            pulled.is_some() ==> {
                &&& pulled.unwrap() == old(self)@.readers[reader].pending[0]
                &&& final(self)@ == old(self)@.read(reader)
                &&& final(self)@.retains(pulled.unwrap())
                &&& old(self)@.orderly(reader) ==> final(self)@.holds(reader, pulled.unwrap())
            },
            final(self).wf(),
    {
        if reader >= self.readers.len() {
            return None;
        }
        let pulled = match &mut self.readers[reader] {
            Some(e) => e.reader.read(),
            None => None,
        };
        proof {
            let t = if pulled.is_some() {
                old(self)@.read(reader)
            } else {
                old(self)@
            };
            self.lemma_registry(t.readers);
            assert(self@ =~~= t);
            if pulled.is_some() {
                old(self)@.lemma_read_wf(reader);
            }
        }
        pulled
    }

    /// Pulls the oldest delivery of `reader` and returns it as a read handle;
    /// `None`, with nothing changed, when `reader` is not registered or has
    /// no new data.
    ///
    /// The handle borrows the publisher until it is released. What the
    /// publisher is afterwards is what the handle leaves behind.
    pub fn read(&mut self, reader: usize) -> (h: Option<BorrowRead<'_, T>>)
        requires
            old(self).wf(),
        ensures
            h.is_some() == old(self)@.can_read(reader),
            h.is_none() ==> final(self)@ == old(self)@ && final(self).wf(),
            h.is_some() ==> {
                let b = h.unwrap();
                &&& b.reader == reader
                &&& b.counter == old(self)@.readers[reader].pending[0]
                &&& b.publisher()@ == old(self)@.read(reader)
                &&& b.wf()
                &&& old(self)@.orderly(reader) ==> b.publisher()@.holds(reader, b.counter)
                &&& *final(self) == *final(b.source)
            },
    {
        match self.pull(reader) {
            Some(counter) => Some(BorrowRead { source: self, reader, counter }),
            None => None,
        }
    }

    /// Moves the mark of `reader` to just past `count`, wherever it was, and
    /// says whether `reader` is registered.
    fn acknowledge(&mut self, reader: usize, count: Counter) -> (moved: bool)
        requires
            old(self).wf(),
        ensures
            moved == old(self)@.registered(reader),
            moved ==> final(self)@ == old(self)@.mark(reader, count),
            !moved ==> final(self)@ == old(self)@,
            final(self).wf(),
    {
        if reader >= self.readers.len() {
            return false;
        }
        let moved = match &mut self.readers[reader] {
            Some(e) => {
                e.unread = step(count, 1);
                true
            },
            None => false,
        };
        proof {
            let t = if moved {
                old(self)@.mark(reader, count)
            } else {
                old(self)@
            };
            self.lemma_registry(t.readers);
            assert(self@ =~~= t);
            if moved {
                old(self)@.lemma_mark_wf(reader, count);
            }
        }
        moved
    }

    /// The number of retained items that every registered reader has
    /// passed, or zero without readers. A reader has passed the items that
    /// lie before its mark, but none that is still in its queue.
    fn min_passed(&self) -> (m: usize)
        requires
            self.wf(),
        ensures
            m == self@.min_passed(),
            m <= self@.items.len(),
    {
        let n: usize = self.readers.len();
        let len: usize = self.data.len();
        let mut m: usize = 0;
        let mut found: bool = false;
        let ghost mut at: usize = 0;
        let mut i: usize = 0;
        while i < n
            invariant
                i <= n,
                n == self.readers.len(),
                len == self@.items.len(),
                self.wf(),
                !found ==> m == 0,
                !found ==> forall|j: usize| j < i ==> !self@.registered(j),
                found ==> self@.registered(at) && self@.passed(at) == m,
                forall|j: usize| j < i && self@.registered(j) ==> m <= self@.passed(j),
            decreases n - i,
        {
            match &self.readers[i] {
                Some(e) => {
                    proof {
                        assert(self@.reader_wf(i));
                    }
                    let acked = gap(self.first_count, e.unread);
                    let pulled = len - e.reader.len();
                    let passed = if acked <= pulled {
                        acked
                    } else {
                        pulled
                    };
                    if !found || passed < m {
                        m = passed;
                        proof {
                            at = i;
                        }
                    }
                    found = true;
                },
                None => {},
            }
            i = i + 1;
        }
        proof {
            self@.lemma_min_passed();
            if found {
                assert(self@.is_min_passed(m as int));
                self@.lemma_min_passed_unique(m as int);
            } else {
                assert(self@.readers.dom() =~= Set::empty());
            }
        }
        m
    }

    /// Evicts the items that every registered reader has passed and returns
    /// how many they were. Without readers nothing is evicted.
    fn reclaim(&mut self) -> (evicted: usize)
        requires
            old(self).wf(),
        ensures
            evicted == old(self)@.min_passed(),
            final(self)@ == old(self)@.reclaim(),
            final(self).wf(),
            final(self)@.settled(),
    {
        let m = self.min_passed();
        self.first_count = step(self.first_count, m);
        let mut k: usize = 0;
        while k < m
            invariant
                k <= m,
                m <= old(self).data@.len(),
                self.data@ == old(self).data@.skip(k as int),
                self.readers == old(self).readers,
                self.reserved == old(self).reserved,
                self.first_count == advance(old(self).first_count, m as int),
            decreases m - k,
        {
            let _ = self.data.pop_front();
            proof {
                assert(self.data@ =~= old(self).data@.skip(k + 1));
            }
            k = k + 1;
        }
        proof {
            assert(self@ =~~= old(self)@.reclaim());
            old(self)@.lemma_reclaim_wf();
        }
        m
    }

    /// Acknowledges the item numbered `count` on behalf of `reader`, then
    /// reclaims.
    ///
    /// The mark of a registered reader becomes `count + 1`, wrapping,
    /// whatever it was before and whatever the reader has pulled; no other
    /// mark moves, and for a handle that names no reader none does. Then
    /// the items that every registered reader has passed are evicted: those
    /// before the smallest mark, but none that is still in the queue of a
    /// reader. Afterwards nothing more can be reclaimed.
    pub fn reader_done(&mut self, reader: usize, count: Counter)
        requires
            old(self).wf(),
        ensures
            final(self)@ == old(self)@.reader_done(reader, count),
            old(self)@.registered(reader) ==> final(self)@.readers[reader].unread == advance(
                count,
                1,
            ),
            final(self).wf(),
            final(self)@.settled(),
    {
        let _ = self.acknowledge(reader, count);
        let _ = self.reclaim();
    }

    /// Removes `reader` from the registry, then reclaims, so that a reader
    /// that has gone pins nothing. Says whether `reader` was registered.
    pub fn remove_reader(&mut self, reader: usize) -> (removed: bool)
        requires
            old(self).wf(),
        ensures
            removed == old(self)@.registered(reader),
            final(self)@ == old(self)@.remove_reader(reader),
            final(self).wf(),
            final(self)@.settled(),
    {
        let removed = reader < self.readers.len() && self.readers[reader].is_some();
        if removed {
            self.readers[reader] = None;
        }
        proof {
            let t = old(self)@.unregister(reader);
            self.lemma_registry(t.readers);
            assert(self@ =~~= t);
            old(self)@.lemma_remove_reader_wf(reader);
        }
        let _ = self.reclaim();
        removed
    }

    /// Reserves the slot behind the last committed item and returns a write
    /// handle for it.
    ///
    /// The slot is empty, it has the next sequence number, and no reader
    /// learns of it before it is committed. A reservation that was left
    /// behind is taken over. The handle borrows the publisher until it is
    /// committed or abandoned; what the publisher is afterwards is what the
    /// handle leaves behind.
    pub fn allocate(&mut self) -> (w: BorrowWrite<'_, T>)
        requires
            old(self).wf(),
        ensures
            w.newcount == old(self)@.next_count(),
            w.publisher()@ == old(self)@.allocate(),
            w.wf(),
            *final(self) == *final(w.writer),
    {
        let newcount = step(self.first_count, self.data.len());
        self.reserved = Some(None);
        proof {
            assert(self@ =~~= old(self)@.allocate());
            old(self)@.lemma_reservation_wf(Some(None));
        }
        BorrowWrite { writer: self, newcount }
    }

    /// Puts `value` into the reserved slot.
    pub(crate) fn stage(&mut self, value: T)
        ensures
            final(self)@ == old(self)@.write(value),
    {
        self.reserved = Some(Some(value));
        proof {
            assert(self@ =~~= old(self)@.write(value));
        }
    }

    /// What the reserved slot holds.
    pub(crate) fn staged(&self) -> (r: Option<&T>)
        ensures
            r.is_some() == self@.can_finish(),
            r.is_some() ==> self@.reserved == Some(Some(*r.unwrap())),
    {
        match &self.reserved {
            Some(Some(value)) => Some(value),
            _ => None,
        }
    }

    /// Empties the reservation without publishing anything.
    pub(crate) fn rollback(&mut self)
        ensures
            final(self)@ == old(self)@.abandon(),
    {
        self.reserved = None;
        proof {
            assert(self@ =~~= old(self)@.abandon());
        }
    }

    /// Commits the reserved slot under the number that was assigned to it:
    /// a written slot becomes the newest item and is delivered to every
    /// registered reader; an empty one is given up.
    pub(crate) fn commit(&mut self) -> (committed: bool)
        requires
            old(self).wf(),
        ensures
            committed == old(self)@.can_finish(),
            final(self)@ == old(self)@.finish(),
            final(self).wf(),
    {
        match self.reserved.take() {
            Some(Some(value)) => {
                proof {
                    assert(self@ =~~= old(self)@.abandon());
                    old(self)@.lemma_reservation_wf(None);
                }
                let _ = self.publish(value);
                proof {
                    assert(self@ =~~= old(self)@.publish(value));
                }
                true
            },
            _ => {
                proof {
                    assert(self@ =~~= old(self)@.abandon());
                    old(self)@.lemma_reservation_wf(None);
                }
                false
            },
        }
    }

    /// The sequence number of the oldest retained item, or of the next item
    /// when none is retained.
    pub fn first_count(&self) -> (c: Counter)
        ensures
            c == self@.first_count,
    {
        self.first_count
    }

    /// The number of retained items.
    pub fn len(&self) -> (n: usize)
        ensures
            n == self@.items.len(),
    {
        self.data.len()
    }

    /// The acknowledgement mark of `reader`: one past the item that it
    /// acknowledged last; `None` when `reader` is not registered.
    pub fn unread(&self, reader: usize) -> (mark: Option<Counter>)
        ensures
            mark.is_some() == self@.registered(reader),
            mark.is_some() ==> mark.unwrap() == self@.readers[reader].unread,
    {
        if reader < self.readers.len() {
            match &self.readers[reader] {
                Some(e) => Some(e.unread),
                None => None,
            }
        } else {
            None
        }
    }

    /// The number of deliveries that `reader` has yet to pull; `None` when
    /// `reader` is not registered.
    pub fn pending(&self, reader: usize) -> (waiting: Option<usize>)
        ensures
            waiting.is_some() == self@.registered(reader),
            waiting.is_some() ==> waiting.unwrap() == self@.readers[reader].pending.len(),
    {
        if reader < self.readers.len() {
            match &self.readers[reader] {
                Some(e) => Some(e.reader.len()),
                None => None,
            }
        } else {
            None
        }
    }
}

} // verus!
