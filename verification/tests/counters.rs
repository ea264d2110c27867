use broadcast_buffer::counter::{gap, step};
use broadcast_buffer::StreamReader;

#[test]
fn step_adds_within_range() {
    assert_eq!(step(0, 0), 0);
    assert_eq!(step(3, 4), 7);
    assert_eq!(step(usize::MAX - 1, 1), usize::MAX);
}

#[test]
fn step_wraps_past_the_largest_counter() {
    assert_eq!(step(usize::MAX, 1), 0);
    assert_eq!(step(usize::MAX, 2), 1);
    assert_eq!(step(usize::MAX - 1, 5), 3);
    assert_eq!(step(usize::MAX, usize::MAX), usize::MAX - 1);
}

#[test]
fn gap_counts_forwards() {
    assert_eq!(gap(0, 0), 0);
    assert_eq!(gap(3, 7), 4);
    assert_eq!(gap(usize::MAX, 1), 2);
    assert_eq!(gap(usize::MAX - 1, 3), 5);
    assert_eq!(gap(7, 3), usize::MAX - 3);
    assert_eq!(gap(1, 0), usize::MAX);
}

#[test]
fn gap_undoes_step() {
    for start in [0usize, 1, 12345, usize::MAX - 2, usize::MAX] {
        for n in [0usize, 1, 2, 3, 1000, usize::MAX] {
            assert_eq!(gap(start, step(start, n)), n);
        }
    }
}

#[test]
fn stream_reader_is_a_fifo() {
    let mut r = StreamReader::new();
    assert_eq!(r.len(), 0);
    assert_eq!(r.read(), None);
    r.new_data(4);
    r.new_data(5);
    r.new_data(usize::MAX);
    r.new_data(0);
    assert_eq!(r.len(), 4);
    assert_eq!(r.read(), Some(4));
    assert_eq!(r.read(), Some(5));
    assert_eq!(r.len(), 2);
    assert_eq!(r.read(), Some(usize::MAX));
    assert_eq!(r.read(), Some(0));
    assert_eq!(r.read(), None);
    assert_eq!(r.len(), 0);
}

#[test]
fn stream_reader_clear_forgets_everything() {
    let mut r = StreamReader::new();
    r.new_data(1);
    r.new_data(2);
    r.clear();
    assert_eq!(r.len(), 0);
    assert_eq!(r.read(), None);
    r.new_data(9);
    assert_eq!(r.read(), Some(9));
}
