use kvs::nibble::common::ErrorCode;
use kvs::nibble::log::Log;
use kvs::nibble::manager::{Ratio, SegmentManager};
use kvs::nibble::region::Region;
use kvs::nibble::segment::SegmentState;

const HALF: Ratio = Ratio { num: 1, den: 2 };

fn region(socket: u16, base: u64, block_size: usize, blocks: usize) -> Region {
    Region::reserve(blocks * block_size, socket, base, block_size).unwrap()
}

fn closed_with(manager: &mut SegmentManager, records: usize, dead: usize) -> usize {
    let slot = manager.alloc_segment().unwrap();
    for key in 0..records {
        manager.append_to(slot, key as u64, b"abcd");
    }
    manager.close(slot);
    manager.mark_dead(slot, dead * 16);
    slot
}

#[test]
fn manager_hands_out_every_block_once() {
    let mut manager = SegmentManager::new(region(2, 0x1000, 64, 3));
    let a = manager.alloc_segment().unwrap();
    let b = manager.alloc_segment().unwrap();
    let c = manager.alloc_segment().unwrap();
    assert_eq!((a, b, c), (0, 1, 2));
    assert_eq!(manager.alloc_segment(), None);
    let first = manager.slots[0].as_ref().unwrap();
    assert_eq!(first.base_addr, 0x1000);
    assert_eq!(first.segment_id, 0);
    assert_eq!(first.socket, 2);
    assert_eq!(first.size, 64);
    assert_eq!(first.state, SegmentState::Open);
    let third = manager.slots[2].as_ref().unwrap();
    assert_eq!(third.base_addr, 0x1000 + 2 * 64);
    assert_eq!(third.segment_id, 2);
}

#[test]
fn manager_locates_addresses() {
    let manager = SegmentManager::new(region(0, 0x1000, 64, 3));
    assert_eq!(manager.locate(0xfff), None);
    assert_eq!(manager.locate(0x1000), Some((0, 0)));
    assert_eq!(manager.locate(0x1000 + 63), Some((0, 63)));
    assert_eq!(manager.locate(0x1000 + 64), Some((1, 0)));
    assert_eq!(manager.locate(0x1000 + 3 * 64 - 1), Some((2, 63)));
    assert_eq!(manager.locate(0x1000 + 3 * 64), None);
}

#[test]
fn manager_returns_blocks_after_grace() {
    let mut manager = SegmentManager::new(region(0, 0, 64, 1));
    let slot = manager.alloc_segment().unwrap();
    manager.append_to(slot, 1, b"abcd");
    manager.close(slot);
    manager.mark_dead(slot, 16);
    assert_eq!(manager.take_victim(HALF), Some(slot));
    manager.retire_segment(slot, 5);
    let retired = manager.slots[slot].as_ref().unwrap();
    assert_eq!(retired.state, SegmentState::Retired);
    assert_eq!((retired.live_bytes, retired.dead_bytes), (0, 0));
    assert_eq!(manager.alloc_segment(), None);
    assert_eq!(manager.reclaim(4), 0);
    assert_eq!(manager.alloc_segment(), None);
    assert_eq!(manager.reclaim(5), 1);
    assert!(manager.slots[slot].is_none());
    assert_eq!(manager.alloc_segment(), Some(slot));
    assert_eq!(manager.slots[slot].as_ref().unwrap().segment_id, 1);
}

#[test]
fn victim_has_the_highest_dead_ratio() {
    let mut manager = SegmentManager::new(region(0, 0, 64, 4));
    let a = closed_with(&mut manager, 4, 3);
    let b = closed_with(&mut manager, 4, 4);
    let c = closed_with(&mut manager, 4, 1);
    assert_eq!(manager.select_victim(HALF), Some(b));
    assert_eq!(manager.take_victim(HALF), Some(b));
    assert_eq!(manager.slots[b].as_ref().unwrap().state, SegmentState::Compacting);
    assert_eq!(manager.select_victim(HALF), Some(a));
    assert_eq!(manager.take_victim(HALF), Some(a));
    assert_eq!(manager.select_victim(HALF), None);
    assert_eq!(manager.take_victim(HALF), None);
    assert_eq!(manager.select_victim(Ratio { num: 1, den: 5 }), Some(c));
    manager.close(b);
    assert_eq!(manager.select_victim(HALF), Some(b));
}

#[test]
fn victim_ratio_must_exceed_the_threshold() {
    let mut manager = SegmentManager::new(region(0, 0, 64, 2));
    let a = closed_with(&mut manager, 4, 2);
    assert_eq!(manager.select_victim(HALF), None);
    manager.mark_dead(a, 16);
    assert_eq!(manager.select_victim(HALF), Some(a));
    assert_eq!(manager.select_victim(Ratio { num: 3, den: 4 }), None);
}

#[test]
fn victim_ties_go_to_the_older_segment() {
    let mut manager = SegmentManager::new(region(0, 0, 64, 4));
    let a = closed_with(&mut manager, 4, 3);
    let b = closed_with(&mut manager, 2, 1);
    let c = closed_with(&mut manager, 4, 3);
    assert!(manager.slots[a].as_ref().unwrap().segment_id < manager.slots[c].as_ref().unwrap().segment_id);
    assert_eq!(manager.take_victim(HALF), Some(a));
    assert_eq!(manager.take_victim(HALF), Some(c));
    assert_eq!(manager.take_victim(HALF), None);
    assert_eq!(manager.slots[b].as_ref().unwrap().dead_bytes, 16);
}

#[test]
fn victim_is_never_open() {
    let mut manager = SegmentManager::new(region(0, 0, 64, 2));
    let slot = manager.alloc_segment().unwrap();
    manager.append_to(slot, 1, b"abcd");
    manager.mark_dead(slot, 16);
    assert_eq!(manager.select_victim(HALF), None);
}

#[test]
fn log_rotates_when_the_head_is_full() {
    let mut log = Log::new(region(0, 0x100, 32, 2));
    assert_eq!(log.append(1, b"abcd"), Ok(0x100));
    assert_eq!(log.append(2, b"abcd"), Ok(0x110));
    assert_eq!(log.head, Some(0));
    assert_eq!(log.append(3, b"abcd"), Ok(0x120));
    assert_eq!(log.head, Some(1));
    assert_eq!(log.manager.slots[0].as_ref().unwrap().state, SegmentState::Closed);
    assert_eq!(log.append(4, b"0123456789abc"), Err(ErrorCode::OutOfMemory));
    assert_eq!(log.head, None);
    assert_eq!(log.manager.slots[1].as_ref().unwrap().state, SegmentState::Closed);
    assert_eq!(log.append(5, b"abcd"), Err(ErrorCode::OutOfMemory));
}

#[test]
fn transient_errors() {
    assert!(ErrorCode::OutOfMemory.is_transient());
    assert!(!ErrorCode::NotFound.is_transient());
    assert!(!ErrorCode::ValueTooLarge.is_transient());
    assert!(!ErrorCode::InvalidArgument.is_transient());
    assert!(!ErrorCode::Fatal.is_transient());
}

#[test]
fn region_reserves_whole_blocks() {
    let region = Region::reserve(1000, 3, 0x4000, 64).unwrap();
    assert_eq!((region.socket, region.base, region.block_size, region.blocks), (3, 0x4000, 64, 15));
    assert_eq!(region.base_of(0), 0x4000);
    assert_eq!(region.base_of(14), 0x4000 + 14 * 64);
    assert_eq!(region.locate(0x4000 + 65), Some((1, 1)));
    assert_eq!(region.locate(0x4000 + 15 * 64), None);
    assert_eq!(region.locate(0x3fff), None);
    assert!(Region::reserve(1000, 0, 0, 0).is_none());
    assert!(Region::reserve(64, 0, (1u64 << 48) - 63, 64).is_none());
    assert!(Region::reserve(64, 0, (1u64 << 48) - 64, 64).is_some());
    assert!(Region::reserve(63, 0, 1u64 << 48, 64).is_some());
    assert!(Region::reserve(63, 0, (1u64 << 48) + 1, 64).is_none());
}

#[test]
fn victims_come_out_by_ratio_then_age() {
    let blocks = 40;
    let mut manager = SegmentManager::new(region(0, 0, 256, blocks));
    let mut expected = Vec::new();
    for i in 0..blocks {
        let records = 4 + (i * 7) % 9;
        let slot = closed_with(&mut manager, records, 0);
        let dead = (i * 5) % (records + 1);
        for _ in 0..dead {
            manager.mark_dead(slot, 16);
        }
        if 2 * dead > records {
            expected.push((slot, dead, records));
        }
    }
    expected.sort_by(|a, b| (b.1 * a.2).cmp(&(a.1 * b.2)).then(a.0.cmp(&b.0)));
    let mut taken = Vec::new();
    while let Some(slot) = manager.take_victim(HALF) {
        taken.push(slot);
    }
    let expected: Vec<usize> = expected.iter().map(|e| e.0).collect();
    assert!(expected.len() > 5);
    assert_eq!(taken, expected);
}
