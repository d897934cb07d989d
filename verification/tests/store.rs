use kvs::nibble::common::ErrorCode;
use kvs::nibble::index::extract;
use kvs::nibble::lsm::{resolve, Config, ObjDesc, PutPolicy, LSM};
use kvs::nibble::manager::Ratio;
use kvs::nibble::segment::SegmentState;
use rand::{Rng, SeedableRng};
use std::collections::HashMap;

fn small(total_bytes: usize, segment_size: usize) -> Config {
    Config {
        total_bytes,
        index_capacity: 4096,
        segment_size,
        compaction_threshold: Ratio { num: 1, den: 2 },
        compactor_threads_per_socket: 1,
        max_value_len: segment_size - 12,
    }
}

fn get(kvs: &LSM, key: u64) -> Result<Vec<u8>, ErrorCode> {
    let mut buf = vec![0u8; 1024];
    let n = kvs.get_object(key, &mut buf)?;
    buf.truncate(n);
    Ok(buf)
}

#[test]
fn single_key_overwrite() {
    let mut kvs = LSM::with_config(small(4096, 1024), 1).unwrap();
    assert_eq!(kvs.put_where(&ObjDesc::new(7, b"A"), PutPolicy::Specific(0)), Ok(()));
    assert_eq!(kvs.put_where(&ObjDesc::new(7, b"BB"), PutPolicy::Specific(0)), Ok(()));
    assert_eq!(get(&kvs, 7), Ok(b"BB".to_vec()));
    assert_eq!(kvs.len(), 1);
}

#[test]
fn fill_to_eviction_then_compact() {
    let segment_size = 1024;
    let mut kvs = LSM::with_config(small(2 * segment_size, segment_size), 1).unwrap();
    kvs.enable_compaction(0);
    let value = [9u8; 52];
    let mut stored: u64 = 0;
    loop {
        match kvs.put_on(stored + 1, &value, 0) {
            Ok(()) => stored += 1,
            Err(e) => {
                assert_eq!(e, ErrorCode::OutOfMemory);
                break;
            },
        }
    }
    assert_eq!(stored, 32);
    for key in 1..=16 {
        assert_eq!(kvs.del_object(key), Ok(()));
    }
    assert!(kvs.compact(0));
    for key in 100..116 {
        assert_eq!(kvs.put_on(key, &value, 0), Ok(()));
    }
    for key in 17..=32 {
        assert_eq!(get(&kvs, key), Ok(value.to_vec()));
    }
    for key in 1..=16 {
        assert_eq!(get(&kvs, key), Err(ErrorCode::NotFound));
    }
}

#[test]
fn cross_socket_placement() {
    let mut kvs = LSM::with_config(small(4096, 1024), 2).unwrap();
    assert_eq!(kvs.put_where(&ObjDesc::new(1, b"first"), PutPolicy::Specific(0)), Ok(()));
    assert_eq!(extract(kvs.index.get(1).unwrap()).0, 0);
    assert_eq!(kvs.put_where(&ObjDesc::new(1, b"second"), PutPolicy::Specific(1)), Ok(()));
    assert_eq!(get(&kvs, 1), Ok(b"second".to_vec()));
    assert_eq!(extract(kvs.index.get(1).unwrap()).0, 1);
}

#[test]
fn oom_retry() {
    let segment_size = 1024;
    let mut kvs = LSM::with_config(small(2 * segment_size, segment_size), 1).unwrap();
    let value = [3u8; 500];
    for _ in 0..4 {
        assert_eq!(kvs.put_on(1, &value, 0), Ok(()));
    }
    assert_eq!(kvs.put_on(2, &value, 0), Err(ErrorCode::OutOfMemory));
    assert_eq!(kvs.put_on(2, &value, 0), Err(ErrorCode::OutOfMemory));
    kvs.enable_compaction(0);
    let mut attempts = 0;
    loop {
        attempts += 1;
        assert!(attempts < 10);
        match kvs.put_on(2, &value, 0) {
            Ok(()) => break,
            Err(e) => assert_eq!(e, ErrorCode::OutOfMemory),
        }
    }
    assert_eq!(get(&kvs, 1), Ok(value.to_vec()));
    assert_eq!(get(&kvs, 2), Ok(value.to_vec()));
}

#[test]
fn delete_during_compaction() {
    let segment_size = 1024;
    let mut kvs = LSM::with_config(small(4 * segment_size, segment_size), 1).unwrap();
    kvs.enable_compaction(0);
    let value = [5u8; 100];
    for key in 1..=9 {
        assert_eq!(kvs.put_on(key, &value, 0), Ok(()));
    }
    assert_eq!(kvs.put_on(10, &value, 0), Ok(()));
    for key in 1..=6 {
        assert_eq!(kvs.del_object(key), Ok(()));
    }
    let victim = kvs.logs[0].manager.select_victim(kvs.config.compaction_threshold);
    assert_eq!(victim, Some(0));
    assert_eq!(kvs.del_object(7), Ok(()));
    assert!(kvs.compact(0));
    assert_eq!(get(&kvs, 7), Err(ErrorCode::NotFound));
    assert_eq!(get(&kvs, 8), Ok(value.to_vec()));
    assert_eq!(kvs.logs[0].manager.slots[0].as_ref().unwrap().state, SegmentState::Retired);
}

fn live_total(kvs: &LSM) -> usize {
    let mut total = 0;
    for log in &kvs.logs {
        for block in &log.manager.slots {
            if let Some(segment) = block {
                total += segment.live_bytes;
            }
        }
    }
    total
}

fn check_books(kvs: &LSM, keys: &[u64]) {
    let mut referred = 0;
    for key in keys {
        if let Ok(value) = get(kvs, *key) {
            referred += (value.len() + 12 + 7) / 8 * 8;
            let (socket, address) = extract(kvs.index.get(*key).unwrap());
            let (slot, _) = kvs.logs[socket as usize].manager.locate(address).unwrap();
            let segment = kvs.logs[socket as usize].manager.slots[slot].as_ref().unwrap();
            assert_ne!(segment.state, SegmentState::Retired);
        }
    }
    assert_eq!(live_total(kvs), referred);
    for log in &kvs.logs {
        for block in &log.manager.slots {
            if let Some(segment) = block {
                if segment.state == SegmentState::Retired {
                    assert_eq!((segment.live_bytes, segment.dead_bytes), (0, 0));
                } else {
                    assert_eq!(segment.live_bytes + segment.dead_bytes, segment.head());
                    assert!(segment.head() <= segment.size);
                }
            }
        }
    }
}

#[test]
fn put_then_get() {
    let mut kvs = LSM::with_config(small(4096, 1024), 1).unwrap();
    assert_eq!(get(&kvs, 3), Err(ErrorCode::NotFound));
    assert_eq!(kvs.put_on(3, b"three", 0), Ok(()));
    assert_eq!(get(&kvs, 3), Ok(b"three".to_vec()));
    assert_eq!(kvs.put_on(4, b"four", 0), Ok(()));
    assert_eq!(kvs.del_object(5), Err(ErrorCode::NotFound));
    assert_eq!(get(&kvs, 3), Ok(b"three".to_vec()));
    assert_eq!(kvs.len(), 2);
}

#[test]
fn put_put_then_get_finds_the_second() {
    let mut kvs = LSM::with_config(small(4096, 1024), 1).unwrap();
    assert_eq!(kvs.put_on(3, b"first", 0), Ok(()));
    assert_eq!(kvs.put_on(3, b"second value", 0), Ok(()));
    assert_eq!(get(&kvs, 3), Ok(b"second value".to_vec()));
    check_books(&kvs, &[3]);
}

#[test]
fn put_del_then_get_finds_nothing() {
    let mut kvs = LSM::with_config(small(4096, 1024), 1).unwrap();
    assert_eq!(kvs.put_on(3, b"three", 0), Ok(()));
    assert_eq!(kvs.put_on(4, b"four", 0), Ok(()));
    assert_eq!(kvs.del_object(3), Ok(()));
    assert_eq!(get(&kvs, 3), Err(ErrorCode::NotFound));
    assert_eq!(get(&kvs, 4), Ok(b"four".to_vec()));
    assert_eq!(kvs.len(), 1);
    check_books(&kvs, &[3, 4]);
}

#[test]
fn del_twice_answers_not_found() {
    let mut kvs = LSM::with_config(small(4096, 1024), 1).unwrap();
    assert_eq!(kvs.put_on(3, b"three", 0), Ok(()));
    assert_eq!(kvs.del_object(3), Ok(()));
    assert_eq!(kvs.del_object(3), Err(ErrorCode::NotFound));
    assert_eq!(kvs.del_object(3), Err(ErrorCode::NotFound));
}

#[test]
fn get_fills_the_front_of_the_buffer() {
    let mut kvs = LSM::with_config(small(4096, 1024), 1).unwrap();
    assert_eq!(kvs.put_on(3, b"three", 0), Ok(()));
    let mut buf = [0xeeu8; 8];
    assert_eq!(kvs.get_object(3, &mut buf), Ok(5));
    assert_eq!(&buf, b"three\xee\xee\xee");
    let mut short = [0xeeu8; 4];
    assert_eq!(kvs.get_object(3, &mut short), Err(ErrorCode::InvalidArgument));
    assert_eq!(short, [0xee; 4]);
    let mut exact = [0u8; 5];
    assert_eq!(kvs.get_object(3, &mut exact), Ok(5));
    assert_eq!(&exact, b"three");
}

#[test]
fn put_rejects_bad_arguments() {
    let mut config = small(4096, 1024);
    config.max_value_len = 100;
    let mut kvs = LSM::with_config(config, 2).unwrap();
    assert_eq!(kvs.put_on(1, b"", 0), Err(ErrorCode::InvalidArgument));
    assert_eq!(kvs.put_on(1, &[0u8; 101], 0), Err(ErrorCode::ValueTooLarge));
    assert_eq!(kvs.put_on(1, &[0u8; 100], 0), Ok(()));
    assert_eq!(kvs.put_on(1, b"x", 2), Err(ErrorCode::InvalidArgument));
    assert_eq!(
        kvs.put_where(&ObjDesc::new(1, b"x"), PutPolicy::Specific(2)),
        Err(ErrorCode::InvalidArgument)
    );
    assert_eq!(kvs.put_on(1, &[0u8; 101], 2), Err(ErrorCode::ValueTooLarge));
    assert_eq!(get(&kvs, 1), Ok(vec![0u8; 100]));
}

#[test]
fn put_reports_a_full_index() {
    let mut config = small(1 << 16, 1024);
    config.index_capacity = 1;
    let mut kvs = LSM::with_config(config, 1).unwrap();
    for key in 0..9 {
        assert_eq!(kvs.put_on(key, b"v", 0), Ok(()));
    }
    assert_eq!(kvs.put_on(9, b"v", 0), Err(ErrorCode::Fatal));
    assert_eq!(kvs.put_on(4, b"w", 0), Ok(()));
    assert_eq!(kvs.len(), 9);
    assert_eq!(get(&kvs, 9), Err(ErrorCode::NotFound));
    check_books(&kvs, &[0, 1, 2, 3, 4, 5, 6, 7, 8, 9]);
}

#[test]
fn configurations_are_checked() {
    assert!(LSM::with_config(small(4096, 1024), 1).is_ok());
    assert_eq!(LSM::with_config(small(4096, 1024), 0).err(), Some(ErrorCode::InvalidArgument));
    assert_eq!(LSM::with_config(small(4096, 1000), 1).err(), Some(ErrorCode::InvalidArgument));
    assert_eq!(LSM::with_config(small(4096, 8), 1).err(), Some(ErrorCode::InvalidArgument));
    let mut config = small(4096, 1024);
    config.max_value_len = 1013;
    assert_eq!(LSM::with_config(config, 1).err(), Some(ErrorCode::InvalidArgument));
    let mut config = small(4096, 1024);
    config.compaction_threshold = Ratio { num: 3, den: 2 };
    assert_eq!(LSM::with_config(config, 1).err(), Some(ErrorCode::InvalidArgument));
    let mut config = small(4096, 1024);
    config.index_capacity = 1;
    assert_eq!(LSM::with_config(config, 2).err(), Some(ErrorCode::InvalidArgument));
    let defaults = Config::new(1 << 30, 1 << 10);
    assert_eq!(defaults.segment_size, 32 << 20);
    assert_eq!(defaults.max_value_len, (32 << 20) - 12);
    assert_eq!((defaults.compaction_threshold.num, defaults.compaction_threshold.den), (1, 2));
    assert_eq!(defaults.compactor_threads_per_socket, 1);
    assert!(defaults.is_valid(4));
    assert!(!defaults.is_valid(0));
}

#[test]
fn memory_is_shared_out_among_the_sockets() {
    let kvs = LSM::with_config(small(7 * 1024, 1024), 3).unwrap();
    assert_eq!(kvs.logs.len(), 3);
    for (socket, log) in kvs.logs.iter().enumerate() {
        assert_eq!(log.manager.slots.len(), 2);
        assert_eq!(log.manager.region.socket as usize, socket);
        assert_eq!(log.manager.region.base, 1024 + socket as u64 * 2048);
        assert_eq!(log.manager.region.block_size, 1024);
    }
}

#[test]
fn policy_resolves_to_a_socket() {
    assert_eq!(resolve(PutPolicy::Specific(3), 4, 10), 3);
    assert_eq!(resolve(PutPolicy::Specific(9), 4, 10), 9);
    assert_eq!(resolve(PutPolicy::Balanced, 4, 10), 2);
    assert_eq!(resolve(PutPolicy::Local, 4, 11), 3);
    assert_eq!(resolve(PutPolicy::Balanced, 1, 12345), 0);
}

#[test]
fn balanced_placement_uses_existing_sockets() {
    let mut kvs = LSM::with_config(small(1 << 16, 1024), 4).unwrap();
    let mut seen = [false; 4];
    for key in 0..200u64 {
        let policy = if key % 2 == 0 { PutPolicy::Balanced } else { PutPolicy::Local };
        assert_eq!(kvs.put_where(&ObjDesc::new(key, b"value"), policy), Ok(()));
        let socket = extract(kvs.index.get(key).unwrap()).0 as usize;
        assert!(socket < 4);
        seen[socket] = true;
        assert_eq!(get(&kvs, key), Ok(b"value".to_vec()));
    }
    assert_eq!(seen, [true; 4]);
    assert_eq!(kvs.put_drawn(&ObjDesc::new(500, b"value"), PutPolicy::Balanced, 7), Ok(()));
    assert_eq!(extract(kvs.index.get(500).unwrap()).0, 3);
}

#[test]
fn compaction_keeps_the_mapping() {
    let segment_size = 1024;
    let mut kvs = LSM::with_config(small(8 * segment_size, segment_size), 1).unwrap();
    kvs.enable_compaction(0);
    let keys: Vec<u64> = (0..40).collect();
    for round in 0..6u8 {
        for key in &keys {
            if (*key + round as u64) % 3 != 0 {
                let value = vec![round + *key as u8; 20 + *key as usize];
                loop {
                    match kvs.put_on(*key, &value, 0) {
                        Ok(()) => break,
                        Err(e) => assert_eq!(e, ErrorCode::OutOfMemory),
                    }
                }
            }
        }
        let before: Vec<_> = keys.iter().map(|k| get(&kvs, *k)).collect();
        kvs.run_compaction(0);
        let after: Vec<_> = keys.iter().map(|k| get(&kvs, *k)).collect();
        assert_eq!(before, after);
        assert_eq!(kvs.logs[0].manager.select_victim(kvs.config.compaction_threshold), None);
        check_books(&kvs, &keys);
    }
}

#[test]
fn compaction_is_off_until_enabled() {
    let segment_size = 1024;
    let mut kvs = LSM::with_config(small(2 * segment_size, segment_size), 1).unwrap();
    let value = [3u8; 500];
    for _ in 0..4 {
        assert_eq!(kvs.put_on(1, &value, 0), Ok(()));
    }
    assert_eq!(kvs.put_on(2, &value, 0), Err(ErrorCode::OutOfMemory));
    assert!(!kvs.compact(0));
    assert!(!kvs.run_compaction(0));
    kvs.enable_compaction(7);
    assert!(!kvs.compact(0));
    assert!(!kvs.compact(7));
    kvs.enable_compaction(0);
    assert!(kvs.compact(0));
    assert!(!kvs.compact(0));
    check_books(&kvs, &[1, 2]);
}

#[test]
fn compaction_moves_live_records() {
    let segment_size = 1024;
    let mut kvs = LSM::with_config(small(4 * segment_size, segment_size), 1).unwrap();
    kvs.enable_compaction(0);
    let value = [5u8; 100];
    for key in 1..=10 {
        assert_eq!(kvs.put_on(key, &value, 0), Ok(()));
    }
    for key in 1..=6 {
        assert_eq!(kvs.del_object(key), Ok(()));
    }
    let old = extract(kvs.index.get(8).unwrap()).1;
    assert_eq!(kvs.logs[0].manager.locate(old).unwrap().0, 0);
    assert!(kvs.compact(0));
    let new = extract(kvs.index.get(8).unwrap()).1;
    assert_eq!(kvs.logs[0].manager.locate(new).unwrap().0, 1);
    assert_eq!(get(&kvs, 8), Ok(value.to_vec()));
    let retired = kvs.logs[0].manager.slots[0].as_ref().unwrap();
    assert_eq!(retired.state, SegmentState::Retired);
    assert_eq!(retired.retire_epoch, kvs.epoch.current() + 1);
    assert_eq!(kvs.len(), 4);
    check_books(&kvs, &[1, 2, 3, 4, 5, 6, 7, 8, 9, 10]);
}

#[test]
fn concurrent_put_and_compaction() {
    let segment_size = 4096;
    let mut config = small(256 * segment_size, segment_size);
    config.index_capacity = 1 << 15;
    let kvs = LSM::with_config(config, 1).unwrap();
    let kvs = parking_lot::Mutex::new(kvs);
    kvs.lock().enable_compaction(0);
    let done = std::sync::atomic::AtomicBool::new(false);
    crossbeam::scope(|scope| {
        scope.spawn(|_| {
            for round in 0..3u64 {
                for key in 1..=10_000u64 {
                    let value = (key * 31 + round).to_le_bytes();
                    loop {
                        match kvs.lock().put_on(key, &value, 0) {
                            Ok(()) => break,
                            Err(e) => assert_eq!(e, ErrorCode::OutOfMemory),
                        }
                    }
                }
            }
            done.store(true, std::sync::atomic::Ordering::SeqCst);
        });
        scope.spawn(|_| {
            while !done.load(std::sync::atomic::Ordering::SeqCst) {
                kvs.lock().compact(0);
            }
        });
    })
    .unwrap();
    let kvs = kvs.into_inner();
    let keys: Vec<u64> = (1..=10_000).collect();
    for key in &keys {
        assert_eq!(get(&kvs, *key), Ok((key * 31 + 2).to_le_bytes().to_vec()));
    }
    assert_eq!(kvs.len(), 10_000);
    check_books(&kvs, &keys);
}

#[test]
fn registered_thread_holds_back_reuse() {
    let segment_size = 1024;
    let mut kvs = LSM::with_config(small(2 * segment_size, segment_size), 1).unwrap();
    kvs.enable_compaction(0);
    let reader = kvs.register_thread();
    let value = [3u8; 500];
    for _ in 0..4 {
        assert_eq!(kvs.put_on(1, &value, 0), Ok(()));
    }
    assert_eq!(kvs.put_on(2, &value, 0), Err(ErrorCode::OutOfMemory));
    assert_eq!(kvs.logs[0].manager.slots[0].as_ref().unwrap().state, SegmentState::Retired);
    for _ in 0..5 {
        assert_eq!(kvs.put_on(2, &value, 0), Err(ErrorCode::OutOfMemory));
    }
    kvs.observe(reader);
    assert_eq!(kvs.put_on(2, &value, 0), Ok(()));
    assert_eq!(get(&kvs, 1), Ok(value.to_vec()));
    assert_eq!(get(&kvs, 2), Ok(value.to_vec()));
    check_books(&kvs, &[1, 2]);
}

#[test]
fn shutdown_counts_the_objects() {
    let mut kvs = LSM::with_config(small(4096, 1024), 1).unwrap();
    for key in 0..5 {
        assert_eq!(kvs.put_on(key, b"value", 0), Ok(()));
    }
    assert_eq!(kvs.del_object(2), Ok(()));
    kvs.drain();
    assert_eq!(kvs.epoch.current(), 6);
    assert_eq!(kvs.shutdown(), 4);
}

#[test]
fn random_operations_match_a_map() {
    let segment_size = 512;
    let mut config = small(96 * segment_size, segment_size);
    config.index_capacity = 256;
    config.max_value_len = 120;
    let mut kvs = LSM::with_config(config, 3).unwrap();
    for socket in 0..3 {
        kvs.enable_compaction(socket);
    }
    let mut rng = rand::rngs::StdRng::seed_from_u64(0x5eed);
    let mut model: HashMap<u64, Vec<u8>> = HashMap::new();
    let keys: Vec<u64> = (0..120).collect();
    let mut full = 0;
    for step in 0..30_000 {
        let key = keys[rng.gen_range(0..keys.len())];
        match rng.gen_range(0..10) {
            0..=4 => {
                let len = rng.gen_range(1..=120);
                let value: Vec<u8> = (0..len).map(|_| rng.gen()).collect();
                let socket = rng.gen_range(0..3);
                match kvs.put_on(key, &value, socket) {
                    Ok(()) => {
                        model.insert(key, value);
                    },
                    Err(ErrorCode::OutOfMemory) => full += 1,
                    Err(ErrorCode::Fatal) => assert!(!model.contains_key(&key)),
                    Err(e) => panic!("{:?}", e),
                }
            },
            5..=6 => {
                let expected = if model.remove(&key).is_some() {
                    Ok(())
                } else {
                    Err(ErrorCode::NotFound)
                };
                assert_eq!(kvs.del_object(key), expected);
            },
            7 => {
                kvs.compact(rng.gen_range(0..3));
            },
            _ => {
                let expected = model.get(&key).cloned().ok_or(ErrorCode::NotFound);
                assert_eq!(get(&kvs, key), expected);
            },
        }
        if step % 1000 == 0 {
            check_books(&kvs, &keys);
            assert_eq!(kvs.len(), model.len());
            for key in &keys {
                assert_eq!(get(&kvs, *key), model.get(key).cloned().ok_or(ErrorCode::NotFound));
            }
        }
    }
    assert!(full < 1_500);
    assert!(model.len() > 50);
    check_books(&kvs, &keys);
}

fn counters(kvs: &LSM) -> Vec<(usize, usize, usize, SegmentState)> {
    let mut all = Vec::new();
    for log in &kvs.logs {
        for block in &log.manager.slots {
            if let Some(segment) = block {
                all.push((segment.head(), segment.live_bytes, segment.dead_bytes, segment.state));
            }
        }
    }
    all
}

#[test]
fn refused_put_changes_nothing() {
    let mut config = small(4096, 1024);
    config.max_value_len = 100;
    let mut kvs = LSM::with_config(config, 2).unwrap();
    kvs.enable_compaction(0);
    kvs.enable_compaction(1);
    for key in 0..20 {
        assert_eq!(kvs.put_on(key, &[7u8; 90], (key % 2) as usize), Ok(()));
    }
    for key in 0..8 {
        assert_eq!(kvs.del_object(key), Ok(()));
    }
    let epoch = kvs.epoch.current();
    let before = counters(&kvs);
    let entries: Vec<_> = (0..20).map(|key| kvs.index.get(key)).collect();
    assert_eq!(kvs.put_on(3, b"", 0), Err(ErrorCode::InvalidArgument));
    assert_eq!(kvs.put_on(3, &[0u8; 101], 0), Err(ErrorCode::ValueTooLarge));
    assert_eq!(kvs.put_on(3, b"x", 2), Err(ErrorCode::InvalidArgument));
    assert_eq!(
        kvs.put_where(&ObjDesc::new(3, b""), PutPolicy::Balanced),
        Err(ErrorCode::InvalidArgument)
    );
    assert_eq!(kvs.del_object(3), Err(ErrorCode::NotFound));
    assert_eq!(kvs.epoch.current(), epoch);
    assert_eq!(counters(&kvs), before);
    let after: Vec<_> = (0..20).map(|key| kvs.index.get(key)).collect();
    assert_eq!(after, entries);
}

#[test]
fn a_retired_segment_is_worth_a_segment_of_puts() {
    let segment_size = 1024;
    let mut kvs = LSM::with_config(small(2 * segment_size, segment_size), 1).unwrap();
    let value = [9u8; 52];
    let mut stored: u64 = 0;
    while kvs.put_on(stored + 1, &value, 0) == Ok(()) {
        stored += 1;
    }
    for key in 1..=16 {
        assert_eq!(kvs.del_object(key), Ok(()));
    }
    kvs.enable_compaction(0);
    assert!(kvs.compact(0));
    let mut bytes = 0;
    let mut key = 1000;
    while bytes + 64 <= segment_size {
        assert_eq!(kvs.put_on(key, &value, 0), Ok(()));
        bytes += 64;
        key += 1;
    }
    assert_eq!(bytes, segment_size);
}
