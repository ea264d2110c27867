use broadcast_buffer::{ConsumerInfo, Publisher, StreamReader};

fn reader(p: &mut Publisher<u32>) -> usize {
    p.add_reader(ConsumerInfo::from_reader(StreamReader::new()))
}

fn take(p: &mut Publisher<u32>, reader: usize) -> (usize, u32) {
    let h = p.read(reader).unwrap();
    let got = (h.counter, *h.deref());
    h.release();
    got
}

#[test]
fn sequence_numbers_wrap() {
    let mut p: Publisher<u32> = Publisher::with_first_count(usize::MAX - 1);
    assert_eq!(p.publish(1), usize::MAX - 1);
    assert_eq!(p.publish(2), usize::MAX);
    assert_eq!(p.publish(3), 0);
    assert_eq!(p.publish(4), 1);
    assert_eq!((p.first_count(), p.len()), (usize::MAX - 1, 4));
    assert_eq!(p.get(usize::MAX), Some(&2));
    assert_eq!(p.get(0), Some(&3));
    assert_eq!(p.get(1), Some(&4));
    assert_eq!(p.get(2), None);
    assert_eq!(p.get(usize::MAX - 2), None);
}

#[test]
fn one_reader_across_the_wrap() {
    let mut p: Publisher<u32> = Publisher::with_first_count(usize::MAX - 1);
    let a = reader(&mut p);
    assert_eq!(p.unread(a), Some(usize::MAX - 1));
    for v in [1u32, 2, 3, 4] {
        p.publish(v);
    }
    assert_eq!(take(&mut p, a), (usize::MAX - 1, 1));
    assert_eq!((p.first_count(), p.len(), p.unread(a)), (usize::MAX, 3, Some(usize::MAX)));
    assert_eq!(take(&mut p, a), (usize::MAX, 2));
    assert_eq!((p.first_count(), p.len(), p.unread(a)), (0, 2, Some(0)));
    assert_eq!(take(&mut p, a), (0, 3));
    assert_eq!((p.first_count(), p.len(), p.unread(a)), (1, 1, Some(1)));
    assert_eq!(take(&mut p, a), (1, 4));
    assert_eq!((p.first_count(), p.len(), p.unread(a)), (2, 0, Some(2)));
}

#[test]
fn the_minimum_is_taken_across_the_wrap() {
    let mut p: Publisher<u32> = Publisher::with_first_count(usize::MAX - 1);
    let a = reader(&mut p);
    let b = reader(&mut p);
    for v in [1u32, 2, 3, 4] {
        p.publish(v);
    }
    assert_eq!(take(&mut p, a), (usize::MAX - 1, 1));
    assert_eq!(take(&mut p, a), (usize::MAX, 2));
    assert_eq!(take(&mut p, a), (0, 3));
    assert_eq!(p.unread(a), Some(1));
    assert_eq!(p.unread(b), Some(usize::MAX - 1));
    assert_eq!((p.first_count(), p.len()), (usize::MAX - 1, 4));
    assert_eq!(take(&mut p, b), (usize::MAX - 1, 1));
    assert_eq!(p.unread(b), Some(usize::MAX));
    assert_eq!((p.first_count(), p.len()), (usize::MAX, 3));
    assert_eq!(take(&mut p, b), (usize::MAX, 2));
    assert_eq!(p.unread(b), Some(0));
    assert_eq!((p.first_count(), p.len()), (0, 2));
    assert_eq!(p.get(usize::MAX), None);
    assert_eq!(p.get(0), Some(&3));
    assert_eq!(p.get(1), Some(&4));
    assert!(p.remove_reader(b));
    assert_eq!((p.first_count(), p.len()), (1, 1));
}

#[test]
fn eviction_of_several_items_across_the_wrap() {
    let mut p: Publisher<u32> = Publisher::with_first_count(usize::MAX - 2);
    let slow = reader(&mut p);
    let fast = reader(&mut p);
    for v in [1u32, 2, 3, 4, 5] {
        p.publish(v);
    }
    for expected in [(usize::MAX - 2, 1u32), (usize::MAX - 1, 2), (usize::MAX, 3), (0, 4), (1, 5)] {
        assert_eq!(take(&mut p, fast), expected);
    }
    assert_eq!(p.unread(fast), Some(2));
    assert_eq!((p.first_count(), p.len()), (usize::MAX - 2, 5));
    let counter = {
        let mut last = 0;
        for _ in 0..4 {
            let h = p.read(slow).unwrap();
            last = h.counter;
        }
        last
    };
    assert_eq!(counter, 0);
    assert_eq!(p.unread(slow), Some(usize::MAX - 2));
    p.reader_done(slow, counter);
    assert_eq!(p.unread(slow), Some(1));
    assert_eq!((p.first_count(), p.len()), (1, 1));
    assert_eq!(p.get(1), Some(&5));
    assert_eq!(p.get(0), None);
}

#[test]
fn registration_replays_across_the_wrap() {
    let mut p: Publisher<u32> = Publisher::with_first_count(usize::MAX);
    p.publish(1);
    p.publish(2);
    p.publish(3);
    let a = reader(&mut p);
    assert_eq!(p.unread(a), Some(usize::MAX));
    assert_eq!(take(&mut p, a), (usize::MAX, 1));
    assert_eq!(take(&mut p, a), (0, 2));
    assert_eq!(take(&mut p, a), (1, 3));
    assert_eq!((p.first_count(), p.len()), (2, 0));
}

#[test]
fn a_numerically_larger_mark_can_be_the_smallest() {
    let mut p: Publisher<u32> = Publisher::with_first_count(usize::MAX);
    let a = reader(&mut p);
    let b = reader(&mut p);
    assert_eq!(p.publish(1), usize::MAX);
    assert_eq!(p.publish(2), 0);
    assert_eq!(p.publish(3), 1);
    p.reader_done(a, 0);
    assert_eq!(p.unread(a), Some(1));
    assert_eq!(p.unread(b), Some(usize::MAX));
    p.reader_done(a, 1);
    assert_eq!(p.unread(a), Some(2));
    assert_eq!(p.unread(b), Some(usize::MAX));
    assert_eq!((p.first_count(), p.len()), (usize::MAX, 3));
    assert_eq!(p.pending(a), Some(3));
}

#[test]
fn a_numerically_larger_mark_can_be_the_smallest_after_pulling() {
    let mut p: Publisher<u32> = Publisher::with_first_count(usize::MAX);
    let a = reader(&mut p);
    let b = reader(&mut p);
    for v in [1u32, 2, 3] {
        p.publish(v);
    }
    assert_eq!(p.pull(a), Some(usize::MAX));
    assert_eq!(p.pull(a), Some(0));
    p.reader_done(a, 0);
    assert_eq!(p.unread(a), Some(1));
    assert_eq!(p.pull(a), Some(1));
    p.reader_done(a, 1);
    assert_eq!(p.unread(a), Some(2));
    assert_eq!(p.unread(b), Some(usize::MAX));
    assert_eq!((p.first_count(), p.len()), (usize::MAX, 3));
    assert_eq!(take(&mut p, b), (usize::MAX, 1));
    assert_eq!(p.unread(b), Some(0));
    assert_eq!((p.first_count(), p.len()), (0, 2));
    assert_eq!(take(&mut p, b), (0, 2));
    assert_eq!(take(&mut p, b), (1, 3));
    assert_eq!((p.first_count(), p.len()), (2, 0));
}
