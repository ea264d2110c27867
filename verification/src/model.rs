//! The mathematical model of the buffer.
//!
//! [`State`] is what a publisher *is*, stripped of every storage decision:
//! the retained items, the sequence number of the oldest one, the slot that
//! a writer may have reserved, and for every registered reader its
//! acknowledgement mark and the sequence numbers it still has to pull.
//! Each operation of the buffer is a function from one state to the next;
//! the executable code is proved to compute exactly these functions.
use vstd::prelude::*;
use crate::counter::{advance, distance, lemma_counter_arithmetic, Counter};

verus! {

/// What the buffer knows about one registered reader.
#[verifier::ext_equal]
pub struct ReaderState {
    /// The acknowledgement mark: one past the item that the reader
    /// acknowledged last.
    pub unread: Counter,
    /// Sequence numbers delivered to the reader and not yet pulled, oldest first.
    pub pending: Seq<Counter>,
}

/// The abstract state of a publisher.
#[verifier::ext_equal]
pub struct State<T> {
    /// Sequence number of the oldest retained item.
    pub first_count: Counter,
    /// The retained items, oldest first; all of them are committed.
    pub items: Seq<T>,
    /// The reserved slot: `None` when nothing is reserved, `Some(None)` while
    /// it is reserved and empty, `Some(Some(v))` once `v` has been written.
    pub reserved: Option<Option<T>>,
    /// The registered readers by their handle.
    pub readers: Map<usize, ReaderState>,
}

impl<T> State<T> {
    /// The empty buffer whose first item will carry the number `first_count`.
    pub open spec fn empty(first_count: Counter) -> Self {
        State { first_count, items: Seq::empty(), reserved: None, readers: Map::empty() }
    }

    /// The sequence number that the next committed item receives.
    pub open spec fn next_count(self) -> Counter {
        advance(self.first_count, self.items.len() as int)
    }

    /// The sequence numbers of the retained items, oldest first.
    pub open spec fn counts(self) -> Seq<Counter> {
        Seq::new(self.items.len(), |i: int| advance(self.first_count, i))
    }

    /// Whether the item numbered `c` is retained.
    pub open spec fn retains(self, c: Counter) -> bool {
        distance(self.first_count, c) < self.items.len()
    }

    /// The retained item numbered `c`.
    pub open spec fn item(self, c: Counter) -> T
        recommends
            self.retains(c),
    {
        self.items[distance(self.first_count, c)]
    }

    /// Whether `reader` names a registered reader.
    pub open spec fn registered(self, reader: usize) -> bool {
        self.readers.dom().contains(reader)
    }

    /// The items that `reader` has yet to pull, oldest first.
    pub open spec fn queued(self, reader: usize) -> Seq<T> {
        let pending = self.readers[reader].pending;
        Seq::new(pending.len(), |k: int| self.item(pending[k]))
    }

    /// How far the mark of `reader` lies ahead of the oldest retained item:
    /// the number of retained items that it has acknowledged, if the mark
    /// names a retained item or the next one.
    pub open spec fn acked(self, reader: usize) -> int {
        distance(self.first_count, self.readers[reader].unread)
    }

    /// How many of the retained items have left the queue of `reader`.
    pub open spec fn pulled(self, reader: usize) -> int {
        self.items.len() - self.readers[reader].pending.len()
    }

    /// How many of the oldest retained items `reader` has passed: those
    /// that it has acknowledged, but none that is still queued for it.
    pub open spec fn passed(self, reader: usize) -> int {
        if self.acked(reader) <= self.pulled(reader) {
            self.acked(reader)
        } else {
            self.pulled(reader)
        }
    }

    /// The invariant of one reader: what it has yet to pull are the newest
    /// retained items, in publication order, without a gap.
    pub open spec fn reader_wf(self, reader: usize) -> bool {
        let r = self.readers[reader];
        &&& r.pending.len() <= self.items.len()
        &&& r.pending == self.counts().skip(self.items.len() - r.pending.len())
    }

    /// The invariant of the buffer.
    pub open spec fn wf(self) -> bool {
        &&& self.items.len() <= usize::MAX
        &&& self.readers.dom().finite()
        &&& forall|reader: usize| self.registered(reader) ==> #[trigger] self.reader_wf(reader)
    }

    /// Whether `m` is the smallest number of retained items that any
    /// registered reader has passed.
    pub open spec fn is_min_passed(self, m: int) -> bool {
        &&& forall|reader: usize| self.registered(reader) ==> m <= #[trigger] self.passed(reader)
        &&& exists|reader: usize| self.registered(reader) && #[trigger] self.passed(reader) == m
    }

    /// The number of retained items that every registered reader has
    /// passed; zero when there is no reader.
    pub open spec fn min_passed(self) -> int {
        if exists|m: int| self.is_min_passed(m) {
            choose|m: int| self.is_min_passed(m)
        } else {
            0
        }
    }

    /// Whether nothing can be reclaimed: there is no reader, or some reader
    /// has not passed the oldest retained item.
    pub open spec fn settled(self) -> bool {
        self.min_passed() == 0
    }

    /// Delivery of the number `c` to every registered reader.
    pub open spec fn fan_out(self, c: Counter) -> Self {
        State {
            readers: self.readers.map_values(
                |r: ReaderState| ReaderState { unread: r.unread, pending: r.pending.push(c) },
            ),
            ..self
        }
    }

    /// Publication of `obj`: it is appended under the next sequence number
    /// and delivered to every registered reader. A reservation that was left
    /// behind is dropped. Nothing is evicted.
    pub open spec fn publish(self, obj: T) -> Self {
        State {
            items: self.items.push(obj),
            reserved: None,
            ..self.fan_out(self.next_count())
        }
    }

    /// Publication of `objs` one after the other, first to last.
    pub open spec fn publish_all(self, objs: Seq<T>) -> Self
        decreases objs.len(),
    {
        if objs.len() == 0 {
            self
        } else {
            self.publish_all(objs.drop_last()).publish(objs.last())
        }
    }

    /// Reservation of the slot after the last committed item. The slot is
    /// empty and no reader learns of it.
    pub open spec fn allocate(self) -> Self {
        State { reserved: Some(None), ..self }
    }

    /// Writing `value` into the reserved slot.
    pub open spec fn write(self, value: T) -> Self {
        State { reserved: Some(Some(value)), ..self }
    }

    /// Giving the reserved slot up: the state is as if it had never been reserved.
    pub open spec fn abandon(self) -> Self {
        State { reserved: None, ..self }
    }

    /// Whether the reserved slot holds a value, so that it can be committed.
    pub open spec fn can_finish(self) -> bool {
        self.reserved matches Some(Some(_))
    }

    /// Commit of the reserved slot: a written slot is published, an empty or
    /// missing one is given up.
    pub open spec fn finish(self) -> Self {
        match self.reserved {
            Some(Some(value)) => self.publish(value),
            _ => self.abandon(),
        }
    }

    /// Registration of a reader under the handle `reader`: it has
    /// acknowledged nothing and has every retained item yet to pull.
    pub open spec fn add_reader(self, reader: usize) -> Self {
        State {
            readers: self.readers.insert(
                reader,
                ReaderState { unread: self.first_count, pending: self.counts() },
            ),
            ..self
        }
    }

    /// Whether `reader` has something to pull.
    pub open spec fn can_read(self, reader: usize) -> bool {
        self.registered(reader) && self.readers[reader].pending.len() > 0
    }

    /// The pull of the oldest pending number of `reader`.
    pub open spec fn read(self, reader: usize) -> Self
        recommends
            self.can_read(reader),
    {
        let r = self.readers[reader];
        State {
            readers: self.readers.insert(
                reader,
                ReaderState { unread: r.unread, pending: r.pending.skip(1) },
            ),
            ..self
        }
    }

    /// Whether the mark of `reader` lies past the retained item numbered `c`.
    pub open spec fn acknowledged(self, reader: usize, c: Counter) -> bool {
        distance(self.first_count, c) < self.acked(reader)
    }

    /// Whether `reader` still needs the retained item numbered `c`: it has
    /// not acknowledged it, or the item is still queued for it.
    pub open spec fn needs(self, reader: usize, c: Counter) -> bool {
        self.passed(reader) <= distance(self.first_count, c)
    }

    /// Whether `reader` holds the item numbered `c`: it has pulled it and
    /// has not acknowledged it or any later one.
    pub open spec fn holds(self, reader: usize, c: Counter) -> bool {
        &&& self.registered(reader)
        &&& self.acked(reader) <= distance(self.first_count, c)
        &&& distance(self.first_count, c) < self.pulled(reader)
    }

    /// Whether `reader` has acknowledged nothing beyond what it has pulled.
    pub open spec fn orderly(self, reader: usize) -> bool {
        self.acked(reader) <= self.pulled(reader)
    }

    /// The acknowledgement mark of `reader` moved to just past `c`.
    pub open spec fn mark(self, reader: usize, c: Counter) -> Self {
        let r = self.readers[reader];
        State {
            readers: self.readers.insert(
                reader,
                ReaderState { unread: advance(c, 1), pending: r.pending },
            ),
            ..self
        }
    }

    /// Eviction of the items that every registered reader has passed.
    pub open spec fn reclaim(self) -> Self {
        let m = self.min_passed();
        State { first_count: advance(self.first_count, m), items: self.items.skip(m), ..self }
    }

    /// Acknowledgement of the item numbered `c` by `reader`, followed by
    /// reclamation. The mark of a registered reader moves to just past `c`
    /// whatever it was and whatever the reader has pulled; for a handle that
    /// names no reader no mark moves.
    pub open spec fn reader_done(self, reader: usize, c: Counter) -> Self {
        if self.registered(reader) {
            self.mark(reader, c).reclaim()
        } else {
            self.reclaim()
        }
    }

    /// The registry without `reader`.
    pub open spec fn unregister(self, reader: usize) -> Self {
        State { readers: self.readers.remove(reader), ..self }
    }

    /// Removal of `reader` from the registry, followed by reclamation.
    pub open spec fn remove_reader(self, reader: usize) -> Self {
        self.unregister(reader).reclaim()
    }
}

/// Why the smallest passed count exists, and why each operation keeps the
/// invariant.
impl<T> State<T> {
    /// A reader has passed no more than it has acknowledged and no more
    /// than has left its queue.
    pub proof fn lemma_passed(self, reader: usize)
        requires
            self.wf(),
            self.registered(reader),
        ensures
            0 <= self.passed(reader) <= self.pulled(reader) <= self.items.len(),
            self.passed(reader) <= self.acked(reader) <= usize::MAX,
    {
        assert(self.reader_wf(reader));
        lemma_counter_arithmetic(self.first_count, self.readers[reader].unread, 0, 0);
    }

    /// A state with the same items and, for each of its readers, the same
    /// queue as a sound one is sound.
    pub proof fn lemma_same_queues(self, other: Self)
        requires
            self.wf(),
            other.first_count == self.first_count,
            other.items == self.items,
            other.readers.dom().subset_of(self.readers.dom()),
            forall|reader: usize|
                other.registered(reader) ==> (#[trigger] other.readers[reader]).pending
                    == self.readers[reader].pending,
        ensures
            other.wf(),
    {
        vstd::set_lib::lemma_len_subset(other.readers.dom(), self.readers.dom());
        assert forall|reader: usize| other.registered(reader) implies #[trigger] other.reader_wf(
            reader,
        ) by {
            assert(self.reader_wf(reader));
        }
    }

    /// A registry that holds a reader is not empty.
    pub proof fn lemma_not_idle(self, reader: usize)
        requires
            self.readers.dom().finite(),
            self.registered(reader),
        ensures
            self.readers.dom().len() > 0,
    {
        if self.readers.dom().len() == 0 {
            self.lemma_min_passed_idle();
        }
    }

    /// Some reader among `among` has passed no more than any other.
    pub proof fn lemma_least_passed(self, among: Set<usize>) -> (least: usize)
        requires
            among.finite(),
            among.len() > 0,
        ensures
            among.contains(least),
            forall|r: usize| among.contains(r) ==> self.passed(least) <= self.passed(r),
        decreases among.len(),
    {
        let a = among.choose();
        let rest = among.remove(a);
        let least = if rest.len() == 0 {
            a
        } else {
            let b = self.lemma_least_passed(rest);
            if self.passed(a) <= self.passed(b) {
                a
            } else {
                b
            }
        };
        assert forall|r: usize| among.contains(r) implies self.passed(least) <= self.passed(r) by {
            if r != a {
                assert(rest.contains(r));
            }
        }
        least
    }

    /// The smallest passed count is unique.
    pub proof fn lemma_min_passed_unique(self, m: int)
        requires
            self.is_min_passed(m),
        ensures
            self.min_passed() == m,
    {
        let n = self.min_passed();
        assert(self.is_min_passed(n));
        let rm = choose|reader: usize|
            self.registered(reader) && #[trigger] self.passed(reader) == m;
        let rn = choose|reader: usize|
            self.registered(reader) && #[trigger] self.passed(reader) == n;
        assert(n <= self.passed(rm));
        assert(m <= self.passed(rn));
    }

    /// Without readers nothing is passed by all of them.
    pub proof fn lemma_min_passed_idle(self)
        requires
            self.readers.dom().finite(),
            self.readers.dom().len() == 0,
        ensures
            self.min_passed() == 0,
            forall|reader: usize| !self.registered(reader),
    {
        assert(self.readers.dom() =~= Set::empty());
        if exists|m: int| self.is_min_passed(m) {
            let m = choose|m: int| self.is_min_passed(m);
            assert(self.is_min_passed(m));
        }
    }

    /// With a reader registered the smallest passed count is that of some
    /// reader; it never exceeds the number of retained items.
    pub proof fn lemma_min_passed(self)
        requires
            self.wf(),
        ensures
            0 <= self.min_passed() <= self.items.len(),
            self.readers.dom().len() > 0 ==> self.is_min_passed(self.min_passed()),
            self.readers.dom().len() == 0 ==> self.min_passed() == 0,
    {
        if self.readers.dom().len() > 0 {
            let least = self.lemma_least_passed(self.readers.dom());
            assert(self.is_min_passed(self.passed(least)));
            self.lemma_min_passed_unique(self.passed(least));
            self.lemma_passed(least);
        } else {
            self.lemma_min_passed_idle();
        }
    }

    /// A reader that has not passed the oldest retained item settles the
    /// buffer.
    pub proof fn lemma_settled_by(self, reader: usize)
        requires
            self.wf(),
            self.registered(reader),
            self.passed(reader) == 0,
        ensures
            self.settled(),
    {
        assert forall|r: usize| self.registered(r) implies 0 <= #[trigger] self.passed(r) by {
            self.lemma_passed(r);
        }
        assert(self.is_min_passed(0));
        self.lemma_min_passed_unique(0);
    }

    /// The smallest passed count depends on nothing but the counts of the
    /// readers.
    pub proof fn lemma_min_passed_same(self, other: Self)
        requires
            self.wf(),
            other.readers.dom() == self.readers.dom(),
            forall|reader: usize|
                self.registered(reader) ==> #[trigger] other.passed(reader) == self.passed(reader),
        ensures
            other.min_passed() == self.min_passed(),
    {
        self.lemma_min_passed();
        if self.readers.dom().len() > 0 {
            let m = self.min_passed();
            assert(self.is_min_passed(m));
            let least = choose|reader: usize|
                self.registered(reader) && #[trigger] self.passed(reader) == m;
            assert(other.passed(least) == m);
            assert forall|reader: usize| other.registered(reader) implies m
                <= #[trigger] other.passed(reader) by {
                assert(other.passed(reader) == self.passed(reader));
            }
            assert(other.is_min_passed(m));
            other.lemma_min_passed_unique(m);
        } else {
            other.lemma_min_passed_idle();
        }
    }

    /// The `k`-th pending number of a reader is that of the retained item
    /// `pending.len() - k` places from the newest end.
    pub proof fn lemma_pending_at(self, reader: usize, k: int)
        requires
            self.wf(),
            self.registered(reader),
            0 <= k < self.readers[reader].pending.len(),
        ensures
            self.readers[reader].pending[k] == advance(self.first_count, self.pulled(reader) + k),
            distance(self.first_count, self.readers[reader].pending[k]) == self.pulled(reader) + k,
            self.retains(self.readers[reader].pending[k]),
    {
        assert(self.reader_wf(reader));
        let r = self.readers[reader];
        let off = self.items.len() - r.pending.len();
        lemma_counter_arithmetic(self.first_count, r.unread, 0, off + k);
        assert(self.counts().skip(off)[k] == self.counts()[off + k]);
    }

    /// Publication keeps the invariant as long as the length fits a
    /// counter, and makes nothing reclaimable.
    pub proof fn lemma_publish_wf(self, obj: T)
        requires
            self.wf(),
            self.items.len() < usize::MAX,
        ensures
            self.publish(obj).wf(),
            self.publish(obj).min_passed() == self.min_passed(),
    {
        let t = self.publish(obj);
        assert(t.readers.dom() =~= self.readers.dom());
        self.lemma_min_passed_same(t);
        assert forall|reader: usize| t.registered(reader) implies #[trigger] t.reader_wf(
            reader,
        ) by {
            assert(self.reader_wf(reader));
            let r = self.readers[reader];
            let q = t.readers[reader];
            let n = self.items.len() as int;
            let off = t.items.len() - q.pending.len();
            lemma_counter_arithmetic(self.first_count, r.unread, 0, n);
            assert(q.pending =~= t.counts().skip(off)) by {
                assert forall|k: int| 0 <= k < q.pending.len() implies q.pending[k]
                    == t.counts().skip(off)[k] by {
                    if k < r.pending.len() {
                        self.lemma_pending_at(reader, k);
                    }
                }
            }
        }
    }

    /// Registration keeps the invariant and leaves nothing reclaimable: the
    /// new reader has passed nothing.
    pub proof fn lemma_add_reader_wf(self, reader: usize)
        requires
            self.wf(),
        ensures
            self.add_reader(reader).wf(),
            self.add_reader(reader).settled(),
    {
        let t = self.add_reader(reader);
        assert forall|r: usize| t.registered(r) implies #[trigger] t.reader_wf(r) by {
            if r == reader {
                assert(t.counts().skip(0) =~= t.counts());
            } else {
                assert(self.reader_wf(r));
            }
        }
        t.lemma_settled_by(reader);
    }

    /// A pull keeps the invariant, and the number pulled is that of a
    /// retained item. If the reader has acknowledged nothing beyond what it
    /// had pulled, it then holds the item, and nothing becomes reclaimable.
    pub proof fn lemma_read_wf(self, reader: usize)
        requires
            self.wf(),
            self.can_read(reader),
        ensures
            self.read(reader).wf(),
            self.retains(self.readers[reader].pending[0]),
            self.read(reader).retains(self.readers[reader].pending[0]),
            self.orderly(reader) ==> self.read(reader).holds(
                reader,
                self.readers[reader].pending[0],
            ),
            self.orderly(reader) ==> self.read(reader).min_passed() == self.min_passed(),
    {
        let t = self.read(reader);
        let p = self.readers[reader].pending;
        self.lemma_pending_at(reader, 0);
        assert(self.reader_wf(reader));
        assert forall|r: usize| t.registered(r) implies #[trigger] t.reader_wf(r) by {
            assert(self.reader_wf(r));
            if r == reader {
                assert(p.skip(1) =~= t.counts().skip(t.items.len() - p.skip(1).len()));
            }
        }
        if self.orderly(reader) {
            assert(t.readers.dom() =~= self.readers.dom());
            self.lemma_min_passed_same(t);
        }
    }

    /// Moving the mark of a reader keeps the invariant, wherever it moves.
    pub proof fn lemma_mark_wf(self, reader: usize, c: Counter)
        requires
            self.wf(),
            self.registered(reader),
        ensures
            self.mark(reader, c).wf(),
            self.mark(reader, c).readers.dom() == self.readers.dom(),
            self.holds(reader, c) ==> self.mark(reader, c).acked(reader) == distance(
                self.first_count,
                c,
            ) + 1,
    {
        let t = self.mark(reader, c);
        let d = distance(self.first_count, c);
        assert(t.readers.dom() =~= self.readers.dom());
        self.lemma_same_queues(t);
        if self.holds(reader, c) {
            self.lemma_passed(reader);
            lemma_counter_arithmetic(self.first_count, c, d, 1);
            lemma_counter_arithmetic(self.first_count, c, 0, d + 1);
        }
    }

    /// Reclamation keeps the invariant: it drops `min_passed()` items, what
    /// every reader has acknowledged, pulled and passed shrinks by as much,
    /// and no pending number is touched. Afterwards nothing more can be
    /// reclaimed.
    pub proof fn lemma_reclaim_wf(self)
        requires
            self.wf(),
        ensures
            self.reclaim().wf(),
            self.reclaim().settled(),
            forall|reader: usize|
                self.registered(reader) ==> {
                    &&& #[trigger] self.reclaim().passed(reader) == self.passed(reader)
                        - self.min_passed()
                    &&& self.reclaim().acked(reader) == self.acked(reader) - self.min_passed()
                    &&& self.reclaim().pulled(reader) == self.pulled(reader) - self.min_passed()
                },
    {
        let t = self.reclaim();
        let m = self.min_passed();
        self.lemma_min_passed();
        assert forall|reader: usize|
            #![trigger t.reader_wf(reader)]
            #![trigger t.passed(reader)]
            self.registered(reader) implies {
            &&& t.reader_wf(reader)
            &&& t.passed(reader) == self.passed(reader) - m
            &&& t.acked(reader) == self.acked(reader) - m
            &&& t.pulled(reader) == self.pulled(reader) - m
        } by {
            assert(self.reader_wf(reader));
            self.lemma_passed(reader);
            let r = self.readers[reader];
            assert(m <= self.passed(reader)) by {
                if self.readers.dom().len() > 0 {
                    assert(self.is_min_passed(m));
                }
            }
            lemma_counter_arithmetic(self.first_count, r.unread, m, 0);
            let off = t.items.len() - r.pending.len();
            assert(r.pending =~= t.counts().skip(off)) by {
                assert forall|k: int| 0 <= k < r.pending.len() implies r.pending[k]
                    == t.counts().skip(off)[k] by {
                    self.lemma_pending_at(reader, k);
                    lemma_counter_arithmetic(self.first_count, r.unread, m, off + k);
                }
            }
        }
        if self.readers.dom().len() > 0 {
            assert(self.is_min_passed(m));
            let least = choose|reader: usize|
                self.registered(reader) && #[trigger] self.passed(reader) == m;
            assert(t.passed(least) == 0);
            t.lemma_settled_by(least);
        } else {
            t.lemma_min_passed_idle();
        }
    }

    /// An item that is retained after reclamation was retained before, under
    /// the same number.
    pub proof fn lemma_reclaim_keeps(self, c: Counter)
        requires
            self.wf(),
            self.reclaim().retains(c),
        ensures
            self.retains(c),
            self.reclaim().item(c) == self.item(c),
            distance(self.first_count, c) == distance(self.reclaim().first_count, c)
                + self.min_passed(),
    {
        let t = self.reclaim();
        let m = self.min_passed();
        let d = distance(t.first_count, c);
        self.lemma_min_passed();
        lemma_counter_arithmetic(t.first_count, c, 0, 0);
        lemma_counter_arithmetic(self.first_count, c, m, d);
        lemma_counter_arithmetic(self.first_count, c, 0, m + d);
    }

    /// Removing a reader keeps the invariant, before reclamation and after.
    pub proof fn lemma_remove_reader_wf(self, reader: usize)
        requires
            self.wf(),
        ensures
            self.unregister(reader).wf(),
            self.remove_reader(reader).wf(),
            self.remove_reader(reader).settled(),
    {
        let t = self.unregister(reader);
        self.lemma_same_queues(t);
        t.lemma_reclaim_wf();
    }

    /// Neither the invariant nor the smallest passed count depends on what
    /// is reserved.
    pub proof fn lemma_reservation_wf(self, reserved: Option<Option<T>>)
        requires
            self.wf(),
        ensures
            (State { reserved, ..self }).wf(),
            (State { reserved, ..self }).min_passed() == self.min_passed(),
    {
        let t = State { reserved, ..self };
        self.lemma_min_passed_same(t);
        self.lemma_same_queues(t);
    }
}

} // verus!
