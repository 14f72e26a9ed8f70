use loader_rs::Document;
use loader_rs::cache::CacheStore;
use loader_rs::url_helpers::canonicalize;
use std::sync::Arc;

#[test]
fn test_cache_get_and_set() {
    let mut store = CacheStore::new();
    let key = canonicalize("scheme:///doc").unwrap().resource_key();

    assert!(store.get(&key).is_none());
    store.set(&key, Document::Int(42));
    assert_eq!(*store.get(&key).unwrap(), Document::Int(42));

    let stats = store.stats();
    assert_eq!(stats.get_misses(), 1);
    assert_eq!(stats.get_hits(), 1);
}

#[test]
fn test_cache_set_replaces_but_old_handles_survive() {
    let mut store = CacheStore::new();
    let key = canonicalize("scheme:///doc").unwrap().resource_key();

    store.set(&key, Document::Int(1));
    let first = store.get(&key).unwrap();
    store.set_shared(&key, Arc::new(Document::Int(2)));
    let second = store.get(&key).unwrap();

    assert_eq!(*first, Document::Int(1));
    assert_eq!(*second, Document::Int(2));
}

#[test]
fn test_cache_keys_are_resource_identities() {
    let mut store = CacheStore::new();
    let key_a = canonicalize("scheme:///doc#/x").unwrap().resource_key();
    let key_b = canonicalize("scheme:///doc#/y").unwrap().resource_key();

    store.set(&key_a, Document::Bool(true));
    assert_eq!(*store.get(&key_b).unwrap(), Document::Bool(true));
}

#[test]
fn test_cache_clear_stats_keeps_entries() {
    let mut store = CacheStore::new();
    let key = canonicalize("scheme:///doc").unwrap().resource_key();
    store.set(&key, Document::Null);
    let _warm = store.get(&key);
    store.clear_stats();
    assert_eq!(store.stats().get_hits(), 0);
    assert_eq!(store.stats().get_misses(), 0);
    assert!(store.get(&key).is_some());
}

#[test]
fn test_cache_describe_reports_size_and_counters() {
    let mut store = CacheStore::new();
    assert_eq!(
        store.describe(),
        "ThreadSafeCache { cache_size: 0, cache_hits: 0, cache_misses: 0 }"
    );

    let key = canonicalize("scheme:///doc").unwrap().resource_key();
    store.set(&key, Document::Int(7));
    for _ in 0..12 {
        let _hit = store.get(&key);
    }
    let other = canonicalize("scheme:///other").unwrap().resource_key();
    let _miss = store.get(&other);

    assert_eq!(
        store.describe(),
        "ThreadSafeCache { cache_size: 1, cache_hits: 12, cache_misses: 1 }"
    );
}
