use kvs::nibble::common::ErrorCode;
use kvs::nibble::index::{extract, merge, Index, ADDRESS_LIMIT, STASH_CAPACITY};

fn key_of(name: &str) -> u64 {
    let mut bytes = [0u8; 8];
    for (i, b) in name.bytes().take(8).enumerate() {
        bytes[i] = b;
    }
    u64::from_le_bytes(bytes)
}

#[test]
fn index_basic() {
    let mut index = Index::new(1, 64);
    let key1 = key_of("alex");
    let key2 = key_of("notexist");
    assert_eq!(index.update(key1, 42).is_some(), false);
    let opt = index.update(key1, 24);
    assert_eq!(opt.is_some(), true);
    assert_eq!(opt.unwrap(), 42);
    assert_eq!(index.get(key2).is_some(), false);
    assert_eq!(index.get(key1).is_some(), true);
}

#[test]
fn merge_packs_socket_above_address() {
    assert_eq!(merge(0, 0), 0);
    assert_eq!(merge(3, 0x1234_5678_9abc), 0x0003_1234_5678_9abc);
    assert_eq!(merge(0xffff, 0xffff_ffff_ffff), u64::MAX);
    assert_eq!(merge(1, 0), 1u64 << 48);
}

#[test]
fn merge_drops_high_address_bits() {
    assert_eq!(merge(2, ADDRESS_LIMIT + 5), (2u64 << 48) | 5);
    assert_eq!(merge(0, u64::MAX), 0xffff_ffff_ffff);
}

#[test]
fn extract_splits_entry() {
    assert_eq!(extract(0), (0, 0));
    assert_eq!(extract(0x0003_1234_5678_9abc), (3, 0x1234_5678_9abc));
    assert_eq!(extract(u64::MAX), (0xffff, 0xffff_ffff_ffff));
}

#[test]
fn extract_inverts_merge() {
    for socket in [0u16, 1, 7, 0x8000, 0xffff] {
        for va in [0u64, 1, 8, 0x2000_0000, 0xffff_ffff_ffff] {
            assert_eq!(extract(merge(socket, va)), (socket, va));
        }
    }
    for entry in [0u64, 1, 0xdead_beef_cafe_f00d, u64::MAX] {
        let (socket, va) = extract(entry);
        assert_eq!(merge(socket, va), entry);
    }
}

#[test]
fn index_get_of_absent_key() {
    let index = Index::new(2, 32);
    assert_eq!(index.get(5), None);
    assert_eq!(index.len(), 0);
}

#[test]
fn index_update_inserts_then_replaces() {
    let mut index = Index::new(2, 32);
    assert_eq!(index.update(5, 500), None);
    assert_eq!(index.len(), 1);
    assert_eq!(index.get(5), Some(500));
    assert_eq!(index.update(5, 501), Some(500));
    assert_eq!(index.len(), 1);
    assert_eq!(index.get(5), Some(501));
}

#[test]
fn index_remove_returns_entry_once() {
    let mut index = Index::new(1, 16);
    assert_eq!(index.remove(9), None);
    assert_eq!(index.update(9, 90), None);
    assert_eq!(index.remove(9), Some(90));
    assert_eq!(index.remove(9), None);
    assert_eq!(index.get(9), None);
    assert_eq!(index.len(), 0);
}

#[test]
fn index_compare_and_swap() {
    let mut index = Index::new(1, 16);
    assert!(!index.compare_and_swap(1, 10, 11));
    assert_eq!(index.get(1), None);
    index.update(1, 10);
    assert!(!index.compare_and_swap(1, 99, 11));
    assert_eq!(index.get(1), Some(10));
    assert!(index.compare_and_swap(1, 10, 11));
    assert_eq!(index.get(1), Some(11));
    assert_eq!(index.len(), 1);
}

#[test]
fn index_holds_many_keys() {
    let mut index = Index::new(4, 4096);
    let mut stored = Vec::new();
    for key in 0..2000u64 {
        let key = key.wrapping_mul(0x9E37_79B9_7F4A_7C15);
        if index.can_accept(key) {
            assert_eq!(index.update(key, key ^ 1), None);
            stored.push(key);
        }
    }
    assert!(stored.len() > 1500);
    assert_eq!(index.len(), stored.len());
    for key in &stored {
        assert_eq!(index.get(*key), Some(*key ^ 1));
    }
    for key in &stored {
        assert_eq!(index.remove(*key), Some(*key ^ 1));
    }
    assert_eq!(index.len(), 0);
}

#[test]
fn index_of_one_cell_fills_its_stash() {
    let mut index = Index::new(1, 1);
    let room = 1 + STASH_CAPACITY as u64;
    for key in 0..room {
        assert!(index.can_accept(key));
        assert_eq!(index.update(key, key + 100), None);
    }
    assert_eq!(index.len(), room as usize);
    assert!(!index.can_accept(room));
    assert!(index.can_accept(3));
    assert_eq!(index.update(3, 7), Some(103));
    for key in 0..room {
        assert!(index.get(key).is_some());
    }
    assert_eq!(index.remove(0), Some(100));
    assert!(index.can_accept(room));
    assert_eq!(index.update(room, 1), None);
    assert_eq!(index.get(room), Some(1));
}

#[test]
fn index_is_built_for_any_shape() {
    let mut index = Index::new(0, 0);
    assert!(index.can_accept(1));
    assert_eq!(index.update(1, 11), None);
    assert_eq!(index.get(1), Some(11));
    let mut index = Index::new(4, 2);
    for key in 0..4 {
        assert!(index.can_accept(key));
        assert_eq!(index.update(key, key), None);
    }
    assert_eq!(index.len(), 4);
}

#[test]
fn index_moves_occupants_to_make_room() {
    let mut index = Index::new(1, 64);
    let mut stored = Vec::new();
    let mut key = 0u64;
    while stored.len() < 48 {
        key += 1;
        assert!(index.can_accept(key));
        assert_eq!(index.update(key, key * 3), None);
        stored.push(key);
    }
    assert_eq!(index.len(), 48);
    for key in &stored {
        assert_eq!(index.get(*key), Some(*key * 3));
    }
}

#[test]
fn index_try_update_answers_fatal_when_full() {
    let mut index = Index::new(1, 1);
    let room = 1 + STASH_CAPACITY as u64;
    for key in 0..room {
        assert_eq!(index.try_update(key, key + 100), Ok(None));
    }
    assert_eq!(index.try_update(room, 1), Err(ErrorCode::Fatal));
    assert_eq!(index.len(), room as usize);
    assert_eq!(index.get(room), None);
    for key in 0..room {
        assert_eq!(index.get(key), Some(key + 100));
    }
    assert_eq!(index.try_update(2, 7), Ok(Some(102)));
    assert_eq!(index.get(2), Some(7));
}

#[test]
fn index_entry_survives_changes_of_other_keys() {
    let mut index = Index::new(2, 64);
    assert_eq!(index.try_update(10, 1000), Ok(None));
    assert_eq!(index.try_update(11, 1100), Ok(None));
    assert_eq!(index.try_update(12, 1200), Ok(None));
    assert_eq!(index.remove(11), Some(1100));
    assert_eq!(index.try_update(12, 1201), Ok(Some(1200)));
    assert_eq!(index.get(10), Some(1000));
    assert_eq!(index.len(), 2);
}

#[test]
fn index_updates_in_a_row() {
    let mut index = Index::new(1, 16);
    assert_eq!(index.update(5, 1), None);
    assert_eq!(index.update(5, 2), Some(1));
    assert_eq!(index.update(5, 3), Some(2));
    assert_eq!(index.get(5), Some(3));
    assert_eq!(index.len(), 1);
}
