use broadcast_buffer::{ConsumerInfo, Publisher, StreamReader};

#[test]
fn push() {
    let mut p: Publisher<u32> = Publisher::new();
    p.publish(1);
    let r1 = p.add_reader(ConsumerInfo::from_reader(StreamReader::new()));
    {
        let h = p.read(r1).unwrap();
        assert!(h.deref() == &1);
        h.release();
    }
    let r2 = p.add_reader(ConsumerInfo::from_reader(StreamReader::new()));
    let mut w = p.allocate();
    w.write(2);
    w.finish();
    {
        let h = p.read(r2).unwrap();
        assert!(h.deref() == &2);
        h.release();
    }
    {
        let h = p.read(r1).unwrap();
        assert!(h.deref() == &2);
        h.release();
    }
}

fn drain(p: &mut Publisher<u32>, reader: usize) -> Vec<u32> {
    let mut seen = Vec::new();
    while let Some(h) = p.read(reader) {
        seen.push(*h.deref());
        h.release();
    }
    seen
}

#[test]
fn write_then_read_both_readers() {
    let mut p: Publisher<u32> = Publisher::new();
    assert_eq!(p.publish(1), 0);
    let a = p.add_reader(ConsumerInfo::from_reader(StreamReader::new()));
    let mut seen_a = drain(&mut p, a);
    assert_eq!(seen_a, vec![1]);
    let b = p.add_reader(ConsumerInfo::from_reader(StreamReader::new()));
    let mut w = p.allocate();
    assert_eq!(w.newcount, 1);
    w.write(2);
    assert!(w.finish());
    let seen_b = drain(&mut p, b);
    seen_a.extend(drain(&mut p, a));
    assert_eq!(seen_a, vec![1, 2]);
    assert_eq!(seen_b, vec![2]);
    assert_eq!(p.len(), 0);
    assert_eq!(p.first_count(), 2);
}

#[test]
fn handles_are_assigned_lowest_first_and_reused() {
    let mut p: Publisher<u32> = Publisher::new();
    let a = p.add_reader(ConsumerInfo::from_reader(StreamReader::new()));
    let b = p.add_reader(ConsumerInfo::from_reader(StreamReader::new()));
    let c = p.add_reader(ConsumerInfo::from_reader(StreamReader::new()));
    assert_eq!((a, b, c), (0, 1, 2));
    assert!(p.remove_reader(b));
    assert!(!p.remove_reader(b));
    assert!(!p.remove_reader(17));
    assert_eq!(p.unread(b), None);
    assert_eq!(p.pending(b), None);
    let d = p.add_reader(ConsumerInfo::from_reader(StreamReader::new()));
    assert_eq!(d, 1);
    let e = p.add_reader(ConsumerInfo::from_reader(StreamReader::new()));
    assert_eq!(e, 3);
}

#[test]
fn read_without_data_is_none() {
    let mut p: Publisher<u32> = Publisher::new();
    assert!(p.read(0).is_none());
    let a = p.add_reader(ConsumerInfo::from_reader(StreamReader::new()));
    assert!(p.read(a).is_none());
    p.publish(5);
    assert!(p.read(a + 1).is_none());
    let h = p.read(a).unwrap();
    assert_eq!(h.reader, a);
    assert_eq!(h.counter, 0);
    assert_eq!(*h.deref(), 5);
    h.release();
    assert!(p.read(a).is_none());
}

#[test]
fn registration_resets_a_used_entry() {
    let mut p: Publisher<u32> = Publisher::with_first_count(40);
    p.publish(7);
    p.publish(8);
    let mut stale = StreamReader::new();
    stale.new_data(1000);
    stale.new_data(1001);
    stale.new_data(1002);
    let mut info = ConsumerInfo::from_reader(stale);
    assert_eq!(info.unread, 0);
    info.unread = 77;
    let a = p.add_reader(info);
    assert_eq!(p.unread(a), Some(40));
    assert_eq!(p.pending(a), Some(2));
    assert_eq!(drain(&mut p, a), vec![7, 8]);
    assert_eq!(p.unread(a), Some(42));
}

#[test]
fn get_finds_retained_items_only() {
    let mut p: Publisher<u32> = Publisher::with_first_count(10);
    let a = p.add_reader(ConsumerInfo::from_reader(StreamReader::new()));
    assert_eq!(p.publish(100), 10);
    assert_eq!(p.publish(101), 11);
    assert_eq!(p.get(9), None);
    assert_eq!(p.get(10), Some(&100));
    assert_eq!(p.get(11), Some(&101));
    assert_eq!(p.get(12), None);
    p.read(a).unwrap().release();
    assert_eq!(p.get(10), None);
    assert_eq!(p.get(11), Some(&101));
}
