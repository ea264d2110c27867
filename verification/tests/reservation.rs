use broadcast_buffer::{ConsumerInfo, Publisher, StreamReader};

fn reader(p: &mut Publisher<u32>) -> usize {
    p.add_reader(ConsumerInfo::from_reader(StreamReader::new()))
}

fn take(p: &mut Publisher<u32>, reader: usize) -> (usize, u32) {
    let h = p.read(reader).unwrap();
    let got = (h.counter, *h.deref());
    h.release();
    got
}

#[test]
fn a_reserved_slot_is_published_on_commit() {
    let mut p: Publisher<u32> = Publisher::new();
    let a = reader(&mut p);
    p.publish(1);
    let mut w = p.allocate();
    assert_eq!(w.newcount, 1);
    assert_eq!(w.deref(), None);
    w.write(2);
    assert_eq!(w.deref(), Some(&2));
    assert!(w.finish());
    assert_eq!(p.len(), 2);
    assert_eq!(p.pending(a), Some(2));
    assert_eq!(take(&mut p, a), (0, 1));
    assert_eq!(take(&mut p, a), (1, 2));
}

#[test]
fn a_reserved_slot_is_not_delivered_before_commit() {
    let mut p: Publisher<u32> = Publisher::new();
    let a = reader(&mut p);
    {
        let mut w = p.allocate();
        w.write(9);
        assert_eq!(w.writer.pending(a), Some(0));
        assert_eq!(w.writer.len(), 0);
        assert_eq!(w.writer.get(0), None);
        assert!(w.finish());
    }
    assert_eq!(p.pending(a), Some(1));
    assert_eq!(take(&mut p, a), (0, 9));
}

#[test]
fn the_last_write_wins() {
    let mut p: Publisher<u32> = Publisher::new();
    let a = reader(&mut p);
    let mut w = p.allocate();
    w.write(1);
    w.write(2);
    w.write(3);
    assert_eq!(w.deref(), Some(&3));
    assert!(w.finish());
    assert_eq!(take(&mut p, a), (0, 3));
    assert!(p.read(a).is_none());
}

#[test]
fn commit_of_an_empty_slot_publishes_nothing() {
    let mut p: Publisher<u32> = Publisher::new();
    let a = reader(&mut p);
    p.publish(1);
    let w = p.allocate();
    assert_eq!(w.newcount, 1);
    assert!(!w.finish());
    assert_eq!(p.len(), 1);
    assert_eq!(p.pending(a), Some(1));
    assert_eq!(p.publish(2), 1);
    assert_eq!(take(&mut p, a), (0, 1));
    assert_eq!(take(&mut p, a), (1, 2));
}

#[test]
fn abandoning_leaves_no_gap() {
    let mut p: Publisher<u32> = Publisher::with_first_count(usize::MAX);
    let a = reader(&mut p);
    assert_eq!(p.publish(1), usize::MAX);
    let mut w = p.allocate();
    assert_eq!(w.newcount, 0);
    w.write(66);
    w.abandon();
    assert_eq!(p.len(), 1);
    assert_eq!(p.pending(a), Some(1));
    let w = p.allocate();
    assert_eq!(w.newcount, 0);
    assert_eq!(w.deref(), None);
    w.abandon();
    assert_eq!(p.publish(2), 0);
    assert_eq!(take(&mut p, a), (usize::MAX, 1));
    assert_eq!(take(&mut p, a), (0, 2));
    assert!(p.read(a).is_none());
}

#[test]
fn a_handle_that_was_dropped_counts_as_abandoned() {
    let mut p: Publisher<u32> = Publisher::new();
    p.publish(1);
    {
        let mut w = p.allocate();
        w.write(77);
    }
    let a = reader(&mut p);
    assert_eq!(p.pending(a), Some(1));
    assert_eq!(p.len(), 1);
    let w = p.allocate();
    assert_eq!(w.newcount, 1);
    assert_eq!(w.deref(), None);
    assert!(!w.finish());
    {
        let mut w = p.allocate();
        w.write(78);
    }
    assert_eq!(p.publish(2), 1);
    assert_eq!(take(&mut p, a), (0, 1));
    assert_eq!(take(&mut p, a), (1, 2));
    assert!(p.read(a).is_none());
}

#[test]
fn a_reader_registered_during_a_reservation_sees_the_commit_once() {
    let mut p: Publisher<u32> = Publisher::new();
    p.publish(1);
    let mut w = p.allocate();
    w.write(2);
    let b = w.writer.add_reader(ConsumerInfo::from_reader(StreamReader::new()));
    assert_eq!(w.writer.pending(b), Some(1));
    assert!(w.finish());
    assert_eq!(p.pending(b), Some(2));
    assert_eq!(take(&mut p, b), (0, 1));
    assert_eq!(take(&mut p, b), (1, 2));
    assert!(p.read(b).is_none());
}
