use actionkv::fault::Fault;
use actionkv::record::KeyValuePair;
use actionkv::store::{ActionKV, Lookup};

/// A byte string one byte longer than a length field can say. It takes 4 GiB
/// of address space; where the allocator refuses that, there is none.
fn oversized() -> Option<Vec<u8>> {
    let len = (u32::MAX as usize) + 1;
    let mut probe: Vec<u8> = Vec::new();
    if probe.try_reserve_exact(len).is_err() {
        return None;
    }
    drop(probe);
    Some(vec![0u8; len])
}

fn three_inserts() -> ActionKV {
    let mut store = ActionKV::open(Vec::new());
    store.insert(b"a", b"1").unwrap();
    store.insert(b"b", b"2").unwrap();
    store.insert(b"a", b"2").unwrap();
    store
}

#[test]
fn open_reads_nothing() {
    let image = three_inserts().log.as_bytes().to_vec();
    let store = ActionKV::open(image.clone());
    assert_eq!(store.index.len(), 0);
    assert_eq!(store.get(b"a"), Ok(None));
    assert_eq!(store.log.as_bytes(), &image[..]);
}

#[test]
fn insert_then_get_returns_the_value() {
    let mut store = ActionKV::open(Vec::new());
    assert_eq!(store.insert(b"key", b"value"), Ok(()));
    assert_eq!(store.get(b"key"), Ok(Some(b"value".to_vec())));
    assert_eq!(store.get(b"other"), Ok(None));
}

#[test]
fn insert_takes_arbitrary_bytes() {
    let key: Vec<u8> = vec![0, 255, 10, 13];
    let value: Vec<u8> = (0..=255).collect();
    let mut store = ActionKV::open(Vec::new());
    store.insert(&key, &value).unwrap();
    assert_eq!(store.get(&key), Ok(Some(value)));
}

#[test]
fn inserts_land_back_to_back() {
    let store = three_inserts();
    assert_eq!(store.seek_to_end(), 42);
    assert_eq!(store.index.lookup(b"a"), Some(28));
    assert_eq!(store.index.lookup(b"b"), Some(14));
    assert_eq!(
        store.get_at(0),
        Ok(KeyValuePair { key: b"a".to_vec(), value: b"1".to_vec() })
    );
    assert_eq!(
        store.get_at(14),
        Ok(KeyValuePair { key: b"b".to_vec(), value: b"2".to_vec() })
    );
    assert_eq!(
        store.get_at(28),
        Ok(KeyValuePair { key: b"a".to_vec(), value: b"2".to_vec() })
    );
}

#[test]
fn insert_but_ignore_index_returns_the_offset_before_the_write() {
    let mut store = ActionKV::open(Vec::new());
    assert_eq!(store.insert_but_ignore_index(b"a", b"1"), Ok(0));
    assert_eq!(store.insert_but_ignore_index(b"b", b"22"), Ok(14));
    assert_eq!(store.seek_to_end(), 29);
    assert_eq!(store.index.len(), 0);
    assert_eq!(store.get(b"a"), Ok(None));
}

#[test]
fn second_insert_wins() {
    let mut store = ActionKV::open(Vec::new());
    store.insert(b"k", b"first").unwrap();
    store.insert(b"k", b"second").unwrap();
    assert_eq!(store.get(b"k"), Ok(Some(b"second".to_vec())));
    assert_eq!(store.find(b"k"), Ok(Some((18, b"second".to_vec()))));
    assert_eq!(
        store.get_at(0),
        Ok(KeyValuePair { key: b"k".to_vec(), value: b"first".to_vec() })
    );
}

#[test]
fn update_needs_no_earlier_record() {
    let mut store = ActionKV::open(Vec::new());
    assert_eq!(store.update(b"new", b"v"), Ok(()));
    assert_eq!(store.get(b"new"), Ok(Some(b"v".to_vec())));
    assert_eq!(store.update(b"new", b"w"), Ok(()));
    assert_eq!(store.get(b"new"), Ok(Some(b"w".to_vec())));
    assert_eq!(store.seek_to_end(), 32);
}

#[test]
fn delete_leaves_an_empty_value() {
    let mut store = three_inserts();
    assert_eq!(store.delete(b"a"), Ok(()));
    assert_eq!(store.get(b"a"), Ok(Some(Vec::new())));
    assert_eq!(store.find(b"a"), Ok(Some((42, Vec::new()))));
    assert_eq!(store.seek_to_end(), 55);
    assert_eq!(store.get(b"never"), Ok(None));
}

#[test]
fn delete_of_an_unknown_key_writes_a_tombstone() {
    let mut store = ActionKV::open(Vec::new());
    assert_eq!(store.delete(b"ghost"), Ok(()));
    assert_eq!(store.get(b"ghost"), Ok(Some(Vec::new())));
}

#[test]
fn scenario_of_three_inserts_after_load() {
    let image = three_inserts().log.as_bytes().to_vec();
    let mut store = ActionKV::open(image);
    assert_eq!(store.load(), Ok(()));
    assert_eq!(store.get(b"a"), Ok(Some(b"2".to_vec())));
    assert_eq!(store.get(b"b"), Ok(Some(b"2".to_vec())));
    assert_eq!(store.find(b"a"), Ok(Some((28, b"2".to_vec()))));
    assert_eq!(store.find(b"b"), Ok(Some((14, b"2".to_vec()))));
    assert_eq!(store.find(b"c"), Ok(None));
}

#[test]
fn find_needs_no_index() {
    let image = three_inserts().log.as_bytes().to_vec();
    let store = ActionKV::open(image);
    assert_eq!(store.index.len(), 0);
    assert_eq!(store.find(b"a"), Ok(Some((28, b"2".to_vec()))));
}

#[test]
fn reload_gives_the_same_answers() {
    let mut store = three_inserts();
    store.delete(b"b").unwrap();
    store.insert(b"c", b"3").unwrap();
    let mut reopened = ActionKV::open(store.log.as_bytes().to_vec());
    assert_eq!(reopened.load(), Ok(()));
    for key in [&b"a"[..], &b"b"[..], &b"c"[..], &b"d"[..]] {
        assert_eq!(reopened.get(key), store.get(key));
    }
    assert_eq!(reopened.index.len(), 3);
}

#[test]
fn load_twice_is_load_once() {
    let mut store = ActionKV::open(three_inserts().log.as_bytes().to_vec());
    store.load().unwrap();
    let once = (store.index.lookup(b"a"), store.index.lookup(b"b"), store.index.len());
    store.load().unwrap();
    let twice = (store.index.lookup(b"a"), store.index.lookup(b"b"), store.index.len());
    assert_eq!(once, (Some(28), Some(14), 2));
    assert_eq!(twice, once);
}

#[test]
fn load_forgets_entries_that_the_log_does_not_hold() {
    let mut store = ActionKV::open(three_inserts().log.as_bytes().to_vec());
    store.index.put(b"stray", 7);
    store.load().unwrap();
    assert_eq!(store.index.lookup(b"stray"), None);
    assert_eq!(store.index.len(), 2);
}

#[test]
fn load_stops_at_a_torn_tail() {
    let whole = three_inserts().log.as_bytes().to_vec();
    for cut in 29..42 {
        let mut store = ActionKV::open(whole[..cut].to_vec());
        assert_eq!(store.load(), Ok(()));
        assert_eq!(store.index.len(), 2);
        assert_eq!(store.get(b"a"), Ok(Some(b"1".to_vec())));
        assert_eq!(store.get(b"b"), Ok(Some(b"2".to_vec())));
        assert_eq!(store.find(b"a"), Ok(Some((0, b"1".to_vec()))));
    }
}

#[test]
fn load_fails_on_a_damaged_record() {
    let mut image = three_inserts().log.as_bytes().to_vec();
    image[14 + 12] ^= 0x40;
    let mut store = ActionKV::open(image);
    store.index.put(b"kept", 0);
    assert_eq!(store.load(), Err(Fault::Corrupt));
    assert_eq!(store.index.lookup(b"kept"), Some(0));
    assert_eq!(store.index.len(), 1);
    assert_eq!(store.find(b"a"), Err(Fault::Corrupt));
}

#[test]
fn damage_does_not_touch_other_offsets() {
    let mut healthy = three_inserts();
    let mut image = healthy.log.as_bytes().to_vec();
    image[14 + 13] ^= 0x01;
    let mut store = ActionKV::open(image);
    store.index.put(b"a", 28);
    store.index.put(b"b", 14);
    assert_eq!(store.get(b"b"), Err(Fault::Corrupt));
    assert_eq!(store.get_at(14), Err(Fault::Corrupt));
    assert_eq!(store.get(b"a"), Ok(Some(b"2".to_vec())));
    assert_eq!(healthy.load(), Ok(()));
}

#[test]
fn get_at_beyond_the_last_record_finds_none() {
    let store = three_inserts();
    assert_eq!(store.get_at(42), Err(Fault::EndOfLog));
    assert_eq!(store.get_at(1000), Err(Fault::EndOfLog));
    assert_eq!(store.get_at(u64::MAX), Err(Fault::EndOfLog));
}

#[test]
fn get_through_a_stale_offset_reports_the_end_of_the_log() {
    let mut store = ActionKV::open(Vec::new());
    store.index.put(b"k", 5);
    assert_eq!(store.get(b"k"), Err(Fault::EndOfLog));
}

#[test]
fn insert_refuses_a_value_beyond_the_length_field() {
    if let Some(big) = oversized() {
        let mut store = three_inserts();
        assert_eq!(store.insert(b"k", &big), Err(Fault::TooLarge));
        assert_eq!(store.update(&big, b"v"), Err(Fault::TooLarge));
        assert_eq!(store.delete(&big), Err(Fault::TooLarge));
        assert_eq!(store.seek_to_end(), 42);
        assert_eq!(store.index.len(), 2);
    }
}

#[test]
fn lookup_tells_the_three_states_apart() {
    let mut store = three_inserts();
    store.delete(b"b").unwrap();
    assert_eq!(store.lookup(b"a"), Ok(Lookup::Present(b"2".to_vec())));
    assert_eq!(store.lookup(b"b"), Ok(Lookup::Tombstoned));
    assert_eq!(store.lookup(b"c"), Ok(Lookup::NeverWritten));
    assert_eq!(store.get(b"b"), Ok(Some(Vec::new())));
}

#[test]
fn lookup_passes_a_fault_on() {
    let mut image = three_inserts().log.as_bytes().to_vec();
    image[13] ^= 0x10;
    let mut store = ActionKV::open(image);
    store.index.put(b"a", 0);
    assert_eq!(store.lookup(b"a"), Err(Fault::Corrupt));
    store.index.put(b"a", 40);
    assert_eq!(store.lookup(b"a"), Err(Fault::EndOfLog));
}

#[test]
fn inserts_after_a_torn_tail_go_behind_it() {
    let whole = three_inserts().log.as_bytes().to_vec();
    let mut store = ActionKV::open(whole[..35].to_vec());
    store.load().unwrap();
    store.insert(b"c", b"3").unwrap();
    assert_eq!(store.index.lookup(b"c"), Some(35));
    assert_eq!(store.get(b"c"), Ok(Some(b"3".to_vec())));
}

#[test]
fn round_trip_holds_for_many_lengths() {
    let mut store = ActionKV::open(Vec::new());
    for key_len in 0..12usize {
        for value_len in 0..12usize {
            let key: Vec<u8> = (0..key_len).map(|i| (i * 7 + value_len) as u8).collect();
            let value: Vec<u8> = (0..value_len).map(|i| (255 - i * 3) as u8).collect();
            let at = store.seek_to_end();
            assert_eq!(store.insert(&key, &value), Ok(()));
            assert_eq!(store.seek_to_end(), at + 12 + (key_len + value_len) as u64);
            assert_eq!(store.get(&key), Ok(Some(value.clone())));
            assert_eq!(store.find(&key), Ok(Some((at, value))));
        }
    }
}

#[test]
fn index_and_scan_agree_after_a_reload() {
    let mut store = ActionKV::open(Vec::new());
    for round in 0..5u8 {
        for key in [&b"x"[..], &b"y"[..], &b"zz"[..]] {
            store.insert(key, &[round, key.len() as u8]).unwrap();
        }
    }
    store.delete(b"y").unwrap();
    let mut reopened = ActionKV::open(store.log.as_bytes().to_vec());
    assert_eq!(reopened.log.logical_end(), Ok(store.seek_to_end()));
    reopened.load().unwrap();
    for key in [&b"x"[..], &b"y"[..], &b"zz"[..]] {
        let (offset, value) = reopened.find(key).unwrap().unwrap();
        assert_eq!(reopened.index.lookup(key), Some(offset));
        assert_eq!(store.index.lookup(key), Some(offset));
        assert_eq!(reopened.get(key), Ok(Some(value)));
    }
}
