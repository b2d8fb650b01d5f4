use avail_light::database::MemStore;
use avail_light::kad_store::ProviderRecord;
use avail_light::kad_store::Store;
use avail_light::kad_store::StoreConfig;
use avail_light::kad_store::StoreError;

fn peer(seed: u8) -> Vec<u8> {
    // a sha2-256 multihash: code 0x12, length 32, then the digest bytes
    let mut bytes = vec![0x12u8, 0x20u8];
    bytes.extend(std::iter::repeat(seed).take(32));
    bytes
}

fn key(seed: u8) -> Vec<u8> {
    vec![seed, seed.wrapping_add(1), seed.wrapping_add(2)]
}

fn record(key: Vec<u8>, provider: Vec<u8>) -> ProviderRecord {
    ProviderRecord { key, provider, expires: None, addresses: Vec::new() }
}

fn new_store(local: Vec<u8>, config: StoreConfig) -> Store<MemStore> {
    Store::with_config(local, config, MemStore::new())
}

fn distance(key: &Vec<u8>, provider: &Vec<u8>) -> libp2p::kad::KBucketDistance {
    let k = libp2p::kad::KBucketKey::new(key.clone());
    libp2p::kad::KBucketKey::new(provider.clone()).distance(&k)
}

#[test]
fn provided() {
    let id = peer(7);
    let mut store = new_store(id.clone(), StoreConfig::default());
    let k = key(1);
    let rec = record(k.clone(), id.clone());
    assert!(store.add_provider(rec.clone()).is_ok());
    assert_eq!(vec![rec.clone()], store.provided());
    store.remove_provider(&rec.key, &id);
    assert_eq!(store.provided().len(), 0);
}

#[test]
fn update_provider() {
    let mut store = new_store(peer(9), StoreConfig::default());
    let k = key(2);
    let prv = peer(3);
    let mut rec = record(k, prv);
    assert!(store.add_provider(rec.clone()).is_ok());
    assert_eq!(vec![rec.clone()], store.providers(&rec.key));
    rec.expires = Some(5);
    assert!(store.add_provider(rec.clone()).is_ok());
    assert_eq!(vec![rec.clone()], store.providers(&rec.key));
}

#[test]
fn max_provided_keys() {
    let mut store = new_store(peer(11), StoreConfig::default());
    let max = StoreConfig::default().max_provided_keys;
    for i in 0..max {
        let k = (i as u64).to_le_bytes().to_vec();
        let prv = peer((i % 200) as u8);
        let rec = record(k, prv);
        let _ = store.add_provider(rec);
    }
    let k = b"one key too many".to_vec();
    let rec = record(k, peer(201));
    match store.add_provider(rec) {
        Err(StoreError::MaxProvidedKeys) => {},
        _ => panic!("Unexpected result"),
    }
}

#[test]
fn eviction_keeps_the_two_closest() {
    // three distinct providers for one key, added farthest first: with room
    // for two, the farthest is the one missing at the end
    let config = StoreConfig { max_providers_per_key: 2, ..StoreConfig::default() };
    let mut store = new_store(peer(50), config);
    let k = key(9);
    let mut providers: Vec<Vec<u8>> = vec![peer(60), peer(61), peer(62)];
    providers.sort_by_key(|p| distance(&k, p));
    let near = providers[0].clone();
    let mid = providers[1].clone();
    let far = providers[2].clone();
    assert!(store.add_provider(record(k.clone(), far.clone())).is_ok());
    assert!(store.add_provider(record(k.clone(), mid.clone())).is_ok());
    assert!(store.add_provider(record(k.clone(), near.clone())).is_ok());
    let listed = store.providers(&k);
    assert_eq!(listed, vec![record(k.clone(), near), record(k.clone(), mid)]);
}

#[test]
fn providers_sorted_by_distance() {
    let mut store = new_store(peer(80), StoreConfig::default());
    let k = key(23);
    for seed in 100..120u8 {
        assert!(store.add_provider(record(k.clone(), peer(seed))).is_ok());
    }
    let listed = store.providers(&k);
    assert_eq!(listed.len(), 20);
    for w in listed.windows(2) {
        assert!(distance(&k, &w[0].provider) <= distance(&k, &w[1].provider));
    }
}

#[test]
fn provided_key_capacity_frees_up() {
    let config = StoreConfig { max_provided_keys: 1, ..StoreConfig::default() };
    let mut store = new_store(peer(12), config);
    let k1 = key(31);
    let k2 = key(41);
    let p1 = peer(13);
    assert!(store.add_provider(record(k1.clone(), p1.clone())).is_ok());
    assert_eq!(store.add_provider(record(k2.clone(), peer(14))), Err(StoreError::MaxProvidedKeys));
    store.remove_provider(&k1, &p1);
    assert!(store.add_provider(record(k2.clone(), peer(14))).is_ok());
}

#[test]
fn remove_absent_provider_is_a_no_op() {
    let mut store = new_store(peer(21), StoreConfig::default());
    let k = key(5);
    let rec = record(k.clone(), peer(22));
    assert!(store.add_provider(rec.clone()).is_ok());
    store.remove_provider(&k, &peer(23));
    store.remove_provider(&key(6), &peer(22));
    assert_eq!(store.providers(&k), vec![rec]);
    assert_eq!(store.provided().len(), 0);
}

#[test]
fn provided_tracks_only_the_local_node() {
    let id = peer(33);
    let mut store = new_store(id.clone(), StoreConfig::default());
    let k1 = key(61);
    let k2 = key(62);
    assert!(store.add_provider(record(k1.clone(), peer(34))).is_ok());
    assert!(store.add_provider(record(k1.clone(), id.clone())).is_ok());
    assert!(store.add_provider(record(k2.clone(), id.clone())).is_ok());
    let mut provided = store.provided();
    provided.sort_by_key(|r| r.key.clone());
    assert_eq!(provided, vec![record(k1.clone(), id.clone()), record(k2.clone(), id.clone())]);
    store.remove_provider(&k1, &id);
    assert_eq!(store.provided(), vec![record(k2, id)]);
}
