use actionkv::fault::Fault;
use actionkv::record::KeyValuePair;
use actionkv::snapshot::{index_from_image, store_index_on_disk, write_snapshot};
use actionkv::store::ActionKV;

const INDEX_KEY: &[u8] = b"+index";

fn image_of_a_and_b() -> Vec<u8> {
    let mut image: Vec<u8> = vec![2, 0, 0, 0, 0, 0, 0, 0];
    image.extend_from_slice(&[1, 0, 0, 0, 0, 0, 0, 0, b'a']);
    image.extend_from_slice(&[0, 0, 0, 0, 0, 0, 0, 0]);
    image.extend_from_slice(&[1, 0, 0, 0, 0, 0, 0, 0, b'b']);
    image.extend_from_slice(&[14, 0, 0, 0, 0, 0, 0, 0]);
    image
}

#[test]
fn snapshot_holds_the_entries_in_order() {
    let mut store = ActionKV::open(Vec::new());
    store.insert(b"a", b"1").unwrap();
    store.insert(b"b", b"2").unwrap();
    assert_eq!(store_index_on_disk(&mut store, INDEX_KEY), Ok(()));
    assert_eq!(
        store.get_at(28),
        Ok(KeyValuePair { key: INDEX_KEY.to_vec(), value: image_of_a_and_b() })
    );
    assert_eq!(store.seek_to_end(), 28 + 12 + 6 + 42);
}

#[test]
fn snapshot_empties_the_index_until_the_next_load() {
    let mut store = ActionKV::open(Vec::new());
    store.insert(b"a", b"1").unwrap();
    store_index_on_disk(&mut store, INDEX_KEY).unwrap();
    assert_eq!(store.index.len(), 0);
    assert_eq!(store.get(b"a"), Ok(None));
    assert_eq!(store.load(), Ok(()));
    assert_eq!(store.get(b"a"), Ok(Some(b"1".to_vec())));
    assert!(store.get(INDEX_KEY).unwrap().is_some());
}

#[test]
fn snapshot_does_not_hold_an_entry_for_itself() {
    let mut store = ActionKV::open(Vec::new());
    store.insert(b"a", b"1").unwrap();
    store.insert(b"b", b"2").unwrap();
    store_index_on_disk(&mut store, INDEX_KEY).unwrap();
    store.load().unwrap();
    assert_eq!(store.index.lookup(INDEX_KEY), Some(28));
    store_index_on_disk(&mut store, INDEX_KEY).unwrap();
    store.load().unwrap();
    assert_eq!(store.get(INDEX_KEY), Ok(Some(image_of_a_and_b())));
}

#[test]
fn snapshot_of_an_empty_index_is_a_zero_count() {
    let mut store = ActionKV::open(Vec::new());
    store_index_on_disk(&mut store, INDEX_KEY).unwrap();
    assert_eq!(
        store.get_at(0),
        Ok(KeyValuePair { key: INDEX_KEY.to_vec(), value: vec![0, 0, 0, 0, 0, 0, 0, 0] })
    );
}

#[test]
fn write_snapshot_appends_and_clears() {
    let mut store = ActionKV::open(Vec::new());
    store.insert(b"a", b"1").unwrap();
    assert_eq!(write_snapshot(&mut store, b"k", b"image"), Ok(()));
    assert_eq!(store.index.len(), 0);
    assert_eq!(
        store.get_at(14),
        Ok(KeyValuePair { key: b"k".to_vec(), value: b"image".to_vec() })
    );
}

#[test]
fn index_comes_back_from_a_snapshot() {
    let mut store = ActionKV::open(Vec::new());
    store.insert(b"a", b"1").unwrap();
    store.insert(b"b", b"2").unwrap();
    store.insert(b"a", b"3").unwrap();
    store_index_on_disk(&mut store, INDEX_KEY).unwrap();
    let (_, image) = store.find(INDEX_KEY).unwrap().unwrap();
    let index = index_from_image(&image).unwrap();
    assert_eq!(index.len(), 2);
    assert_eq!(index.lookup(b"a"), Some(28));
    assert_eq!(index.lookup(b"b"), Some(14));
    let at = index.lookup(b"a").unwrap();
    assert_eq!(store.get_at(at).map(|kv| kv.value), Ok(b"3".to_vec()));
}

#[test]
fn index_from_image_reads_the_wire_format() {
    let index = index_from_image(&image_of_a_and_b()).unwrap();
    assert_eq!(index.len(), 2);
    assert_eq!(index.lookup(b"a"), Some(0));
    assert_eq!(index.lookup(b"b"), Some(14));
}

#[test]
fn index_from_image_lets_a_later_entry_win() {
    let mut image: Vec<u8> = vec![2, 0, 0, 0, 0, 0, 0, 0];
    image.extend_from_slice(&[1, 0, 0, 0, 0, 0, 0, 0, b'a', 5, 0, 0, 0, 0, 0, 0, 0]);
    image.extend_from_slice(&[1, 0, 0, 0, 0, 0, 0, 0, b'a', 9, 0, 0, 0, 0, 0, 0, 0]);
    let index = index_from_image(&image).unwrap();
    assert_eq!(index.len(), 1);
    assert_eq!(index.lookup(b"a"), Some(9));
}

#[test]
fn index_from_image_refuses_bytes_that_are_no_snapshot() {
    assert!(matches!(index_from_image(&[1, 2, 3]), Err(Fault::Snapshot)));
    assert!(matches!(index_from_image(&[]), Err(Fault::Snapshot)));
    let mut short = image_of_a_and_b();
    short.truncate(20);
    assert!(matches!(index_from_image(&short), Err(Fault::Snapshot)));
}

#[test]
fn snapshot_writes_numbers_least_significant_byte_first() {
    let mut store = ActionKV::open(Vec::new());
    store.index.put(b"key", 0x0102_0304_0506_0708);
    assert_eq!(store_index_on_disk(&mut store, INDEX_KEY), Ok(()));
    let mut image: Vec<u8> = vec![1, 0, 0, 0, 0, 0, 0, 0];
    image.extend_from_slice(&[3, 0, 0, 0, 0, 0, 0, 0]);
    image.extend_from_slice(b"key");
    image.extend_from_slice(&[8, 7, 6, 5, 4, 3, 2, 1]);
    assert_eq!(
        store.get_at(0),
        Ok(KeyValuePair { key: INDEX_KEY.to_vec(), value: image })
    );
}

#[test]
fn snapshot_reads_back_as_the_index_it_was_taken_of() {
    let mut store = ActionKV::open(Vec::new());
    for round in 0..3u8 {
        for key in [&b"x"[..], &b"yy"[..], &b""[..], INDEX_KEY] {
            store.insert(key, &[round]).unwrap();
        }
    }
    let before: Vec<Option<u64>> =
        [&b"x"[..], &b"yy"[..], &b""[..]].iter().map(|key| store.index.lookup(key)).collect();
    let end = store.seek_to_end();
    assert_eq!(store_index_on_disk(&mut store, INDEX_KEY), Ok(()));
    assert_eq!(store.index.len(), 0);
    for key in [&b"x"[..], &b"yy"[..], &b""[..], INDEX_KEY] {
        assert_eq!(store.get(key), Ok(None));
    }
    let record = store.get_at(end).unwrap();
    assert_eq!(record.key, INDEX_KEY);
    let restored = index_from_image(&record.value).unwrap();
    assert_eq!(restored.len(), 3);
    assert_eq!(restored.lookup(INDEX_KEY), None);
    let after: Vec<Option<u64>> =
        [&b"x"[..], &b"yy"[..], &b""[..]].iter().map(|key| restored.lookup(key)).collect();
    assert_eq!(after, before);
}
