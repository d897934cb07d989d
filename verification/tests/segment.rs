use kvs::nibble::epoch::Epoch;
use kvs::nibble::segment::{Segment, SegmentState};

#[test]
fn segment_appends_at_the_cursor() {
    let mut segment = Segment::new(4, 1, 0x1000, 64);
    assert_eq!(segment.state, SegmentState::Open);
    assert_eq!(segment.head(), 0);
    assert!(segment.has_room(64));
    assert!(!segment.has_room(65));
    assert_eq!(segment.append(1, b"abc"), 0x1000);
    assert_eq!(segment.append(2, b"0123456789"), 0x1010);
    assert_eq!(segment.head(), 16 + 24);
    assert_eq!(segment.live_bytes, 40);
    assert_eq!(segment.dead_bytes, 0);
    assert!(segment.has_room(24));
    assert!(!segment.has_room(32));
    assert_eq!(segment.segment_id, 4);
    assert_eq!(segment.socket, 1);
}

#[test]
fn segment_counts_dead_bytes() {
    let mut segment = Segment::new(0, 0, 0, 64);
    segment.append(1, b"abc");
    segment.append(2, b"0123456789");
    segment.mark_dead(16);
    assert_eq!(segment.live_bytes, 24);
    assert_eq!(segment.dead_bytes, 16);
    assert_eq!(segment.live_bytes + segment.dead_bytes, segment.head());
}

#[test]
fn epoch_moves_on() {
    let mut epoch = Epoch::new();
    assert_eq!(epoch.current(), 0);
    assert_eq!(epoch.grace(), 1);
    assert_eq!(epoch.horizon(), 0);
    assert!(epoch.reached(0));
    assert!(!epoch.reached(1));
    epoch.advance();
    assert_eq!(epoch.current(), 1);
    assert_eq!(epoch.horizon(), 1);
    assert!(epoch.reached(1));
    assert_eq!(epoch.grace(), 2);
}

#[test]
fn epoch_waits_for_registered_threads() {
    let mut epoch = Epoch::new();
    epoch.advance();
    assert_eq!(epoch.register(), 0);
    assert_eq!(epoch.register(), 1);
    epoch.advance();
    epoch.advance();
    assert_eq!(epoch.current(), 3);
    assert_eq!(epoch.horizon(), 1);
    assert!(!epoch.reached(2));
    epoch.observe(0);
    assert_eq!(epoch.horizon(), 1);
    epoch.advance();
    epoch.observe(1);
    assert_eq!(epoch.locals, vec![3, 4]);
    assert_eq!(epoch.horizon(), 3);
    assert!(epoch.reached(3));
    assert!(!epoch.reached(4));
    epoch.observe(7);
    assert_eq!(epoch.locals, vec![3, 4]);
    epoch.observe(0);
    assert_eq!(epoch.horizon(), 4);
}

#[test]
fn epoch_stays_at_its_largest_value() {
    let mut epoch = Epoch { global: u64::MAX - 1, locals: Vec::new() };
    epoch.advance();
    assert_eq!(epoch.current(), u64::MAX);
    assert_eq!(epoch.grace(), u64::MAX);
    epoch.advance();
    assert_eq!(epoch.current(), u64::MAX);
}
