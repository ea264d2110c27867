//! What holds of the buffer whatever is done with it.
//!
//! Every statement here is about the model in [`crate::model`], which the
//! publisher's operations are proved to follow step by step.
use vstd::prelude::*;
use crate::counter::{advance, lemma_counter_arithmetic, Counter};
use crate::model::State;

verus! {

/// The invariant. It holds of the empty buffer, and every operation keeps
/// it for every argument: what each reader has yet to pull are the newest
/// retained items without a gap, so that no item in a queue is ever evicted.
/// A publication must leave the length within a counter.
///
/// Nothing is left to reclaim after an acknowledgement, a removal or a
/// registration; a publication and the operations on the reserved slot
/// leave nothing to reclaim if nothing was; and so does a pull by a reader
/// that has acknowledged nothing beyond what it had pulled.
pub proof fn lemma_invariant<T>(
    s: State<T>,
    first_count: Counter,
    obj: T,
    reader: usize,
    c: Counter,
)
    requires
        s.wf(),
    ensures
        State::<T>::empty(first_count).wf() && State::<T>::empty(first_count).settled(),
        s.items.len() < usize::MAX ==> s.publish(obj).wf() && s.finish().wf(),
        s.allocate().wf() && s.write(obj).wf() && s.abandon().wf(),
        s.add_reader(reader).wf() && s.add_reader(reader).settled(),
        s.can_read(reader) ==> s.read(reader).wf(),
        s.reader_done(reader, c).wf() && s.reader_done(reader, c).settled(),
        s.remove_reader(reader).wf() && s.remove_reader(reader).settled(),
        s.settled() && s.items.len() < usize::MAX ==> s.publish(obj).settled()
            && s.finish().settled(),
        s.settled() ==> s.allocate().settled() && s.write(obj).settled() && s.abandon().settled(),
        s.settled() && s.can_read(reader) && s.orderly(reader) ==> s.read(reader).settled(),
{
    State::<T>::empty(first_count).lemma_min_passed_idle();
    s.lemma_reservation_wf(Some(None));
    s.lemma_reservation_wf(Some(Some(obj)));
    s.lemma_reservation_wf(None);
    if s.items.len() < usize::MAX {
        s.lemma_publish_wf(obj);
        match s.reserved {
            Some(Some(value)) => {
                s.lemma_publish_wf(value);
            },
            _ => {},
        }
    }
    s.lemma_add_reader_wf(reader);
    if s.can_read(reader) {
        s.lemma_read_wf(reader);
    }
    if s.registered(reader) {
        s.lemma_mark_wf(reader, c);
        s.mark(reader, c).lemma_reclaim_wf();
    } else {
        s.lemma_reclaim_wf();
    }
    s.lemma_remove_reader_wf(reader);
}

/// Publication. The new item gets the next sequence number and lies behind
/// every retained item; nothing is evicted and no retained item changes its
/// number or its value; every registered reader has the new number queued
/// behind what it had, and no mark moves.
pub proof fn lemma_publication<T>(s: State<T>, obj: T)
    requires
        s.wf(),
        s.items.len() < usize::MAX,
    ensures
        s.publish(obj).wf(),
        s.publish(obj).first_count == s.first_count,
        s.publish(obj).items == s.items.push(obj),
        s.publish(obj).next_count() == advance(s.next_count(), 1),
        !s.retains(s.next_count()),
        s.publish(obj).retains(s.next_count()),
        s.publish(obj).item(s.next_count()) == obj,
        forall|c: Counter|
            s.retains(c) ==> #[trigger] s.publish(obj).retains(c) && s.publish(obj).item(c)
                == s.item(c),
        s.publish(obj).readers.dom() == s.readers.dom(),
        forall|reader: usize|
            s.registered(reader) ==> {
                &&& (#[trigger] s.publish(obj).readers[reader]).unread == s.readers[reader].unread
                &&& s.publish(obj).readers[reader].pending == s.readers[reader].pending.push(
                    s.next_count(),
                )
            },
{
    s.lemma_publish_wf(obj);
    lemma_counter_arithmetic(s.first_count, s.first_count, s.items.len() as int, 1);
    lemma_counter_arithmetic(s.first_count, s.first_count, 0, s.items.len() as int);
    assert(s.publish(obj).readers.dom() =~= s.readers.dom());
}

/// Delivery in order. After `objs` have been published, a reader that was
/// registered before has them queued behind what it already had to pull, in
/// the order of publication. The queue names one sequence number after the
/// other, so that no item is missing and none occurs twice, and each number
/// still names the item that was published under it.
pub proof fn lemma_delivery_in_order<T>(s: State<T>, objs: Seq<T>, reader: usize)
    requires
        s.wf(),
        s.registered(reader),
        s.items.len() + objs.len() <= usize::MAX,
    ensures
        ({
            let t = s.publish_all(objs);
            let before = s.readers[reader].pending;
            let after = t.readers[reader].pending;
            &&& t.wf()
            &&& t.registered(reader)
            &&& t.first_count == s.first_count
            &&& t.items == s.items + objs
            &&& t.readers[reader].unread == s.readers[reader].unread
            &&& t.queued(reader) == s.queued(reader) + objs
            &&& after.len() == before.len() + objs.len()
            &&& after.take(before.len() as int) == before
            &&& forall|k: int|
                0 <= k < before.len() ==> t.item(#[trigger] after[k]) == s.item(before[k])
            &&& forall|j: int|
                0 <= j < objs.len() ==> {
                    &&& #[trigger] after[before.len() + j] == advance(s.next_count(), j)
                    &&& t.item(after[before.len() + j]) == objs[j]
                }
            &&& forall|k: int|
                0 <= k && k + 1 < after.len() ==> #[trigger] after[k + 1] == advance(after[k], 1)
            &&& forall|i: int, j: int|
                0 <= i < j < after.len() ==> #[trigger] after[i] != #[trigger] after[j]
        }),
    decreases objs.len(),
{
    let t = s.publish_all(objs);
    let before = s.readers[reader].pending;
    let after = t.readers[reader].pending;
    if objs.len() == 0 {
        assert(s.items + objs =~= s.items);
        assert(after.take(before.len() as int) =~= before);
    } else {
        let u = s.publish_all(objs.drop_last());
        lemma_delivery_in_order(s, objs.drop_last(), reader);
        u.lemma_publish_wf(objs.last());
        assert(t == u.publish(objs.last()));
        let mid = u.readers[reader].pending;
        assert(after == mid.push(u.next_count()));
        assert(t.items =~= s.items + objs);
        assert(after.take(before.len() as int) =~= before) by {
            assert(mid.take(before.len() as int) == before);
            assert forall|k: int| 0 <= k < before.len() implies after.take(before.len() as int)[k]
                == before[k] by {
                assert(mid.take(before.len() as int)[k] == mid[k]);
            }
        }
        lemma_counter_arithmetic(
            s.first_count,
            s.first_count,
            s.items.len() as int,
            objs.len() - 1,
        );
        assert(u.next_count() == advance(s.next_count(), objs.len() - 1));
        assert forall|k: int| 0 <= k < before.len() implies t.item(#[trigger] after[k]) == s.item(
            before[k],
        ) by {
            assert(mid.take(before.len() as int)[k] == mid[k]);
            s.lemma_pending_at(reader, k);
            t.lemma_pending_at(reader, k);
            u.lemma_pending_at(reader, k);
        }
        assert forall|j: int| 0 <= j < objs.len() implies {
            &&& #[trigger] after[before.len() + j] == advance(s.next_count(), j)
            &&& t.item(after[before.len() + j]) == objs[j]
        } by {
            t.lemma_pending_at(reader, before.len() + j);
            if j < objs.len() - 1 {
                u.lemma_pending_at(reader, before.len() + j);
                assert(objs.drop_last()[j] == objs[j]);
            }
        }
    }
    assert forall|k: int| 0 <= k && k + 1 < after.len() implies #[trigger] after[k + 1] == advance(
        after[k],
        1,
    ) by {
        t.lemma_pending_at(reader, k);
        t.lemma_pending_at(reader, k + 1);
        lemma_counter_arithmetic(t.first_count, t.first_count, t.items.len() - after.len() + k, 1);
    }
    assert forall|i: int, j: int| 0 <= i < j < after.len() implies #[trigger] after[i]
        != #[trigger] after[j] by {
        t.lemma_pending_at(reader, i);
        t.lemma_pending_at(reader, j);
    }
    assert(t.queued(reader) =~= s.queued(reader) + objs) by {
        assert forall|k: int| 0 <= k < after.len() implies t.queued(reader)[k] == (s.queued(reader)
            + objs)[k] by {
            if k < before.len() {
                assert(t.item(after[k]) == s.item(before[k]));
                assert(after.take(before.len() as int)[k] == after[k]);
            } else {
                let j = k - before.len();
                assert(after[before.len() + j] == advance(s.next_count(), j));
            }
        }
    }
}

/// Backlog replay. A reader that registers when `s.items` are retained, and
/// before `objs` are published, has to pull exactly the retained items and
/// then `objs`, each once and in this order, whatever the other readers have
/// done. It has acknowledged nothing.
pub proof fn lemma_backlog_replay<T>(s: State<T>, reader: usize, objs: Seq<T>)
    requires
        s.wf(),
        s.items.len() + objs.len() <= usize::MAX,
    ensures
        s.add_reader(reader).queued(reader) == s.items,
        s.add_reader(reader).publish_all(objs).queued(reader) == s.items + objs,
        s.add_reader(reader).publish_all(objs).readers[reader].unread == s.first_count,
        s.add_reader(reader).publish_all(objs).wf(),
{
    let u = s.add_reader(reader);
    s.lemma_add_reader_wf(reader);
    assert(u.queued(reader) =~= s.items) by {
        assert forall|k: int| 0 <= k < s.items.len() implies u.queued(reader)[k] == s.items[k] by {
            u.lemma_pending_at(reader, k);
        }
    }
    lemma_delivery_in_order(u, objs, reader);
}

/// What a reader needs. It needs every item in its queue, and every item
/// that it holds; in general, every retained item that it has not
/// acknowledged.
pub proof fn lemma_needs<T>(s: State<T>, reader: usize, c: Counter, k: int)
    requires
        s.wf(),
        s.registered(reader),
    ensures
        s.holds(reader, c) ==> s.needs(reader, c),
        !s.acknowledged(reader, c) ==> s.needs(reader, c),
        0 <= k < s.readers[reader].pending.len() ==> s.needs(reader, s.readers[reader].pending[k]),
{
    s.lemma_passed(reader);
    if 0 <= k < s.readers[reader].pending.len() {
        s.lemma_pending_at(reader, k);
    }
}

/// Reclamation is exact. It evicts from the old end and nothing else; an
/// item that some registered reader needs stays, with its number and its
/// value; an item that no registered reader needs goes; and afterwards some
/// reader needs the oldest retained item. No mark and no queue changes.
/// Without readers nothing is evicted.
pub proof fn lemma_reclamation<T>(s: State<T>)
    requires
        s.wf(),
    ensures
        s.reclaim().wf(),
        s.reclaim().settled(),
        s.reclaim().readers == s.readers,
        s.reclaim().reserved == s.reserved,
        s.reclaim().items == s.items.skip(s.min_passed()),
        forall|c: Counter| #[trigger]
            s.reclaim().retains(c) ==> s.retains(c) && s.reclaim().item(c) == s.item(c),
        forall|reader: usize, c: Counter|
            s.registered(reader) && s.retains(c) && #[trigger] s.needs(reader, c)
                ==> s.reclaim().retains(c) && s.reclaim().item(c) == s.item(c),
        forall|reader: usize|
            s.registered(reader) ==> #[trigger] s.reclaim().queued(reader) == s.queued(reader),
        s.readers.dom().len() > 0 ==> forall|c: Counter|
            s.retains(c) && (forall|reader: usize|
                s.registered(reader) ==> !#[trigger] s.needs(reader, c))
                ==> !#[trigger] s.reclaim().retains(c),
        s.readers.dom().len() > 0 ==> exists|reader: usize|
            s.registered(reader) && #[trigger] s.reclaim().passed(reader) == 0,
        s.readers.dom().len() == 0 ==> s.reclaim() == s,
{
    let t = s.reclaim();
    let m = s.min_passed();
    s.lemma_min_passed();
    s.lemma_reclaim_wf();
    assert forall|c: Counter| #[trigger] t.retains(c) implies s.retains(c) && t.item(c) == s.item(
        c,
    ) by {
        s.lemma_reclaim_keeps(c);
    }
    assert forall|reader: usize, c: Counter|
        s.registered(reader) && s.retains(c) && #[trigger] s.needs(reader, c) implies t.retains(c)
        && t.item(c) == s.item(c) by {
        assert(s.is_min_passed(m));
        assert(m <= s.passed(reader));
        lemma_counter_arithmetic(s.first_count, c, m, 0);
    }
    assert forall|reader: usize| s.registered(reader) implies #[trigger] t.queued(reader)
        == s.queued(reader) by {
        let pending = s.readers[reader].pending;
        assert(t.queued(reader) =~= s.queued(reader)) by {
            assert forall|k: int| 0 <= k < pending.len() implies t.item(pending[k]) == s.item(
                pending[k],
            ) by {
                s.lemma_pending_at(reader, k);
                t.lemma_pending_at(reader, k);
            }
        }
    }
    if s.readers.dom().len() > 0 {
        assert(s.is_min_passed(m));
        let least = choose|reader: usize| s.registered(reader) && #[trigger] s.passed(reader) == m;
        assert(t.passed(least) == 0);
        assert forall|c: Counter|
            s.retains(c) && (forall|reader: usize|
                s.registered(reader) ==> !#[trigger] s.needs(reader, c))
            implies !#[trigger] t.retains(c) by {
            assert(!s.needs(least, c));
            if t.retains(c) {
                s.lemma_reclaim_keeps(c);
            }
        }
    } else {
        s.lemma_min_passed_idle();
        assert(t.items =~= s.items);
        assert(t =~~= s);
    }
}

/// Acknowledgement. The mark of a registered reader becomes the number of
/// the item plus one, whatever the mark was and whatever the reader has
/// pulled; no other mark moves, and no queue changes. Then the buffer is
/// reclaimed, so that nothing more can be.
pub proof fn lemma_acknowledgement<T>(s: State<T>, reader: usize, c: Counter)
    requires
        s.wf(),
    ensures
        s.reader_done(reader, c).wf(),
        s.reader_done(reader, c).settled(),
        s.reader_done(reader, c).readers.dom() == s.readers.dom(),
        s.registered(reader) ==> s.reader_done(reader, c).readers[reader].unread == advance(c, 1),
        forall|r: usize|
            s.registered(r) ==> (#[trigger] s.reader_done(reader, c).readers[r]).pending
                == s.readers[r].pending,
        forall|r: usize|
            s.registered(r) && r != reader ==> (#[trigger] s.reader_done(
                reader,
                c,
            ).readers[r]).unread == s.readers[r].unread,
        s.readers.dom().len() == 0 ==> s.reader_done(reader, c) == s,
{
    if s.registered(reader) {
        s.lemma_mark_wf(reader, c);
        lemma_reclamation(s.mark(reader, c));
    } else {
        lemma_reclamation(s);
    }
}

/// A reader that has passed nothing pins the buffer: whatever another
/// reader acknowledges, its mark moves and nothing is evicted.
pub proof fn lemma_pinned<T>(s: State<T>, reader: usize, c: Counter, other: usize)
    requires
        s.wf(),
        s.registered(reader),
        s.registered(other),
        other != reader,
        s.passed(other) == 0,
    ensures
        s.reader_done(reader, c).readers[reader].unread == advance(c, 1),
        s.reader_done(reader, c).readers[other] == s.readers[other],
        s.reader_done(reader, c).first_count == s.first_count,
        s.reader_done(reader, c).items == s.items,
        s.reader_done(reader, c) == s.mark(reader, c),
{
    let u = s.mark(reader, c);
    s.lemma_mark_wf(reader, c);
    assert(u.passed(other) == 0);
    u.lemma_settled_by(other);
    assert(u.reclaim().items =~= u.items);
    assert(u.reclaim() =~~= u);
}

/// Wraparound. A mark is ahead of the oldest retained item by its distance,
/// never by its magnitude: a mark that has wrapped past zero while the
/// oldest retained item has not is numerically smaller and still ahead.
/// Reclamation advances the number of the oldest retained item by the
/// smallest count that a reader has passed, wrapping if need be, and every
/// reader's distance shrinks by exactly that much.
pub proof fn lemma_wraparound<T>(s: State<T>, reader: usize)
    requires
        s.wf(),
        s.registered(reader),
    ensures
        0 <= s.min_passed() <= s.passed(reader) <= s.acked(reader) <= usize::MAX,
        s.readers[reader].unread == advance(s.first_count, s.acked(reader)),
        s.readers[reader].unread >= s.first_count ==> s.acked(reader) == s.readers[reader].unread
            - s.first_count,
        s.readers[reader].unread < s.first_count ==> s.acked(reader) == s.readers[reader].unread
            + (usize::MAX - s.first_count) + 1,
        s.first_count + s.min_passed() <= usize::MAX ==> s.reclaim().first_count == s.first_count
            + s.min_passed(),
        s.first_count + s.min_passed() > usize::MAX ==> s.reclaim().first_count == s.first_count
            + s.min_passed() - usize::MAX - 1,
        s.reclaim().acked(reader) == s.acked(reader) - s.min_passed(),
        s.reclaim().readers[reader].unread == s.readers[reader].unread,
{
    s.lemma_min_passed();
    s.lemma_reclaim_wf();
    s.lemma_passed(reader);
    s.lemma_not_idle(reader);
    assert(s.is_min_passed(s.min_passed()));
}

/// An idle buffer grows. Without readers a publication evicts nothing,
/// so the buffer holds whatever was published, in order; and neither
/// reclamation nor an acknowledgement nor a removal changes anything.
pub proof fn lemma_idle_growth<T>(s: State<T>, objs: Seq<T>, reader: usize, c: Counter)
    requires
        s.wf(),
        s.readers.dom().len() == 0,
    ensures
        s.publish_all(objs).items == s.items + objs,
        s.publish_all(objs).first_count == s.first_count,
        s.publish_all(objs).readers.dom().len() == 0,
        s.reclaim() == s,
        s.reader_done(reader, c) == s,
        s.remove_reader(reader) == s,
    decreases objs.len(),
{
    s.lemma_min_passed_idle();
    lemma_reclamation(s);
    let u = s.unregister(reader);
    assert(u.readers =~= s.readers);
    assert(u =~~= s);
    if objs.len() == 0 {
        assert(s.items + objs =~= s.items);
    } else {
        lemma_idle_growth(s, objs.drop_last(), reader, c);
        let v = s.publish_all(objs.drop_last());
        assert(v.publish(objs.last()).readers.dom() =~= v.readers.dom());
        assert(s.publish_all(objs).items =~= s.items + objs);
    }
}

/// Removal unpins. Once `gone` is removed, an item that no remaining reader
/// needs is no longer retained, whether or not `gone` needed it; and it
/// stays out after the next acknowledgement of a remaining reader, after
/// which again nothing more can be reclaimed.
pub proof fn lemma_removal_unpins<T>(
    s: State<T>,
    gone: usize,
    c: Counter,
    reader: usize,
    next: Counter,
)
    requires
        s.wf(),
        s.registered(gone),
        s.registered(reader),
        reader != gone,
        s.retains(c),
        forall|r: usize| s.registered(r) && r != gone ==> !#[trigger] s.needs(r, c),
    ensures
        s.remove_reader(gone).wf(),
        !s.remove_reader(gone).registered(gone),
        s.remove_reader(gone).registered(reader),
        !s.remove_reader(gone).retains(c),
        s.remove_reader(gone).reader_done(reader, next).wf(),
        !s.remove_reader(gone).reader_done(reader, next).retains(c),
        s.remove_reader(gone).reader_done(reader, next).settled(),
{
    let u = s.unregister(gone);
    s.lemma_remove_reader_wf(gone);
    assert(u.registered(reader));
    u.lemma_not_idle(reader);
    assert forall|r: usize| u.registered(r) implies !#[trigger] u.needs(r, c) by {
        assert(s.registered(r) && r != gone);
        assert(!s.needs(r, c));
    }
    lemma_reclamation(u);
    let v = u.reclaim();
    assert(u.retains(c));
    assert(!v.retains(c));
    v.lemma_mark_wf(reader, next);
    let w = v.mark(reader, next);
    lemma_reclamation(w);
    assert(!w.retains(c));
}

} // verus!
