use avail_light::codec::decode;
use avail_light::codec::encode;
use avail_light::codec::Entry;
use avail_light::codec::Record;
use avail_light::codec::ValueRecord;
use avail_light::database::Database;
use avail_light::database::MemStore;
use avail_light::kad_store::Store;
use avail_light::kad_store::StoreConfig;
use avail_light::kad_store::StoreError;

fn valid_peer() -> Vec<u8> {
    let mut bytes = vec![0x12u8, 0x20u8];
    bytes.extend(std::iter::repeat(0xabu8).take(32));
    bytes
}

fn new_store() -> Store<MemStore> {
    Store::with_config(valid_peer(), StoreConfig::default(), MemStore::new())
}

#[test]
fn put_then_get_round_trips() {
    let mut store = new_store();
    let rec = ValueRecord {
        key: b"some key".to_vec(),
        value: b"some value".to_vec(),
        publisher: Some(valid_peer()),
        expires: Some(160),
    };
    assert!(store.put(rec.clone(), 100).is_ok());
    let got = store.get(&rec.key, 100).unwrap().unwrap();
    assert_eq!(got.key, rec.key);
    assert_eq!(got.value, rec.value);
    assert_eq!(got.publisher, rec.publisher);
    // 60 seconds were left, so the decoded expiry is exact
    assert_eq!(got.expires, Some(160));
}

#[test]
fn expiry_is_clamped_to_one_second() {
    let mut store = new_store();
    let rec = ValueRecord {
        key: b"stale".to_vec(),
        value: b"v".to_vec(),
        publisher: None,
        expires: Some(50),
    };
    assert!(store.put(rec, 100).is_ok());
    let got = store.get(&b"stale".to_vec(), 100).unwrap().unwrap();
    // already expired at encode time: one second of life remains
    assert_eq!(got.expires, Some(101));
}

#[test]
fn no_expiry_survives_the_codec() {
    let entry = encode(
        ValueRecord { key: b"k".to_vec(), value: b"v".to_vec(), publisher: None, expires: None },
        12345,
    );
    assert_eq!(entry.1.ttl, 0);
    assert_eq!(entry.1.publisher, Vec::<u8>::new());
    let back = decode(entry, 99999).unwrap();
    assert_eq!(back.expires, None);
    assert_eq!(back.publisher, None);
}

#[test]
fn remaining_lifetime_is_clamped_to_the_ttl_field() {
    let entry = encode(
        ValueRecord {
            key: b"k".to_vec(),
            value: b"v".to_vec(),
            publisher: None,
            expires: Some(u32::MAX as u64 + 1000),
        },
        500,
    );
    assert_eq!(entry.1.ttl, u32::MAX);
}

#[test]
fn oversized_value_is_rejected_and_state_kept() {
    let mut store = new_store();
    let key = b"capped".to_vec();
    let small = ValueRecord {
        key: key.clone(),
        value: b"fits".to_vec(),
        publisher: None,
        expires: None,
    };
    assert!(store.put(small.clone(), 0).is_ok());
    let huge = ValueRecord {
        key: key.clone(),
        value: vec![0u8; 65 * 1024],
        publisher: None,
        expires: None,
    };
    assert_eq!(store.put(huge, 0), Err(StoreError::ValueTooLarge));
    let got = store.get(&key, 0).unwrap().unwrap();
    assert_eq!(got.value, small.value);
}

#[test]
fn corrupt_publisher_fails_to_decode() {
    let mut backing = MemStore::new();
    let key = b"poisoned".to_vec();
    let bad = Record { value: b"v".to_vec(), publisher: vec![1, 2, 3], ttl: 0 };
    backing.put(&key, bad).unwrap();
    let store = Store::with_config(valid_peer(), StoreConfig::default(), backing);
    assert_eq!(store.get(&key, 0), Err(StoreError::DecodeError));
}

#[test]
fn removed_record_is_gone() {
    let mut store = new_store();
    let key = b"fleeting".to_vec();
    let rec = ValueRecord { key: key.clone(), value: b"v".to_vec(), publisher: None, expires: None };
    assert!(store.put(rec, 7).is_ok());
    store.remove(&key);
    assert_eq!(store.get(&key, 7), Ok(None));
}

#[test]
fn records_lists_everything_and_skips_nothing() {
    let mut backing = MemStore::new();
    backing.put(&b"a".to_vec(), Record { value: b"1".to_vec(), publisher: Vec::new(), ttl: 0 }).unwrap();
    backing.put(&b"b".to_vec(), Record { value: b"2".to_vec(), publisher: vec![9], ttl: 0 }).unwrap();
    let store = Store::with_config(valid_peer(), StoreConfig::default(), backing);
    let all = store.records(0);
    assert_eq!(all.len(), 2);
    let oks: Vec<_> = all.iter().filter(|r| r.is_ok()).collect();
    let errs: Vec<_> = all.iter().filter(|r| r.is_err()).collect();
    assert_eq!(oks.len(), 1);
    assert_eq!(oks[0].as_ref().unwrap().value, b"1".to_vec());
    assert_eq!(errs, vec![&Err(StoreError::DecodeError)]);
}

#[test]
fn valid_publisher_decodes_back() {
    let entry = Entry(
        b"k".to_vec(),
        Record { value: b"v".to_vec(), publisher: valid_peer(), ttl: 3 },
    );
    let back = decode(entry, 10).unwrap();
    assert_eq!(back.publisher, Some(valid_peer()));
    assert_eq!(back.expires, Some(13));
}
