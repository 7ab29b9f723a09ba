use bytes::Bytes;
use scm_core::cache::cachelib::CachelibHandler;
use scm_core::cache::coordinator::{
    fill_cache, fill_from_store, get_or_fill, probe_caches, StoreReadError,
};
use scm_core::cache::entity::{copy_of, EntityStore, KeyedEntityStore, MemcacheEntity};
use scm_core::cache::filling::Caches;
use scm_core::cache::keygen::KeyGen;
use scm_core::cache::lookup::classify;
use scm_core::cache::memcache::{MemcacheHandler, MemcacheWrite, MEMCACHE_VALUE_MAX_SIZE};
use scm_core::cache::policy::{CacheDisposition, CacheTtl, McErrorKind, McResult};
use std::collections::HashMap;
use std::sync::atomic::{AtomicUsize, Ordering};
use std::time::Duration;

#[derive(Clone, Debug, PartialEq, Eq)]
struct TestEntity(Vec<u8>);

impl MemcacheEntity for TestEntity {
    fn serialized(&self) -> Vec<u8> {
        self.0.clone()
    }

    fn decoded(bytes: Vec<u8>) -> Option<Vec<u8>> {
        Some(bytes)
    }

    fn serialize(&self) -> Bytes {
        Bytes::from(self.0.clone())
    }

    fn deserialize(bytes: Bytes) -> Result<Self, ()> {
        Ok(Self(bytes.to_vec()))
    }

    fn report_mc_result(_: &McResult<Self>) {}

    fn lemma_clone(_a: Self, _b: Self) {}
}

struct TestStore {
    calls: AtomicUsize,
    keys: AtomicUsize,
    data: HashMap<String, TestEntity>,
}

impl TestStore {
    pub fn new() -> Self {
        Self {
            calls: AtomicUsize::new(0),
            keys: AtomicUsize::new(0),
            data: HashMap::new(),
        }
    }
}

fn new_caches() -> Caches<TestEntity> {
    Caches::new_mock(KeyGen::new("", 0, 0))
}

impl EntityStore<TestEntity> for TestStore {
    fn disposition(&self, v: &TestEntity) -> CacheDisposition {
        self.cache_determinator(v)
    }

    fn cache_determinator(&self, _: &TestEntity) -> CacheDisposition {
        CacheDisposition::Cache(CacheTtl::NoTtl)
    }

    fn spawn_memcache_writes(&self) -> bool {
        false
    }
}

impl KeyedEntityStore<String, TestEntity> for TestStore {
    type Error = String;

    fn cache_key(&self, key: &String) -> String {
        self.get_cache_key(key)
    }

    fn get_cache_key(&self, key: &String) -> String {
        format!("key:{}", key)
    }

    fn may_fetch(&self, keys: &Vec<String>) -> bool {
        !keys.is_empty()
    }

    fn get_from_db(&self, keys: Vec<String>) -> Result<Vec<(String, TestEntity)>, String> {
        self.calls.fetch_add(1, Ordering::Relaxed);
        self.keys.fetch_add(keys.len(), Ordering::Relaxed);

        Ok(keys
            .into_iter()
            .filter_map(|k| {
                let v = self.data.get(&k).cloned();
                v.map(|v| (k, v))
            })
            .collect())
    }
}

fn as_map(entries: Vec<(String, TestEntity)>) -> HashMap<String, TestEntity> {
    entries.into_iter().collect()
}

fn expected(entries: &[(&str, &TestEntity)]) -> HashMap<String, TestEntity> {
    entries
        .iter()
        .map(|(k, v)| (k.to_string(), (*v).clone()))
        .collect()
}

fn keys(names: &[&str]) -> Vec<String> {
    names.iter().map(|name| name.to_string()).collect()
}

fn fetch(
    store: &TestStore,
    caches: &mut Caches<TestEntity>,
    names: &[&str],
) -> HashMap<String, TestEntity> {
    match get_or_fill(store, caches, keys(names)) {
        Ok(entries) => as_map(entries),
        Err(error) => panic!("{}: {}", error.context(), error.source),
    }
}

#[test]
fn simple() {
    let store = TestStore::new();
    let mut caches = new_caches();

    let res = fetch(&store, &mut caches, &[]);
    assert_eq!(res.len(), 0);
    assert_eq!(caches.cachelib.gets_count(), 0);
    assert_eq!(caches.memcache.gets_count(), 0);

    let res = fetch(&store, &mut caches, &["key"]);
    assert_eq!(res.len(), 0);
    assert_eq!(caches.cachelib.gets_count(), 1);
    assert_eq!(caches.memcache.gets_count(), 1);
    assert_eq!(store.keys.load(Ordering::Relaxed), 1);
}

#[test]
fn fetch_from_db_cachelib_memcache() {
    let mut store = TestStore::new();
    let mut caches = new_caches();

    let e = TestEntity(vec![0]);
    store.data.insert("key".into(), e.clone());

    // Fetch from db
    let res = fetch(&store, &mut caches, &["key"]);
    assert_eq!(res, expected(&[("key", &e)]));
    assert_eq!(caches.cachelib.gets_count(), 1);
    assert_eq!(caches.memcache.gets_count(), 1);
    assert_eq!(store.keys.load(Ordering::Relaxed), 1);

    // Now fetch from cachelib
    let res = fetch(&store, &mut caches, &["key"]);
    assert_eq!(res, expected(&[("key", &e)]));
    assert_eq!(caches.cachelib.gets_count(), 2);
    assert_eq!(caches.memcache.gets_count(), 1);
    assert_eq!(store.keys.load(Ordering::Relaxed), 1);

    // Reset cachelib, fetch from memcache
    caches.cachelib = CachelibHandler::create_mock();
    let res = fetch(&store, &mut caches, &["key"]);
    assert_eq!(res, expected(&[("key", &e)]));
    assert_eq!(caches.cachelib.gets_count(), 1);
    assert_eq!(caches.memcache.gets_count(), 2);
    assert_eq!(store.keys.load(Ordering::Relaxed), 1);
}

#[test]
fn fetch_from_db() {
    let mut store = TestStore::new();
    let mut caches = new_caches();

    let e0 = TestEntity(vec![0]);
    let e1 = TestEntity(vec![1]);
    let e2 = TestEntity(vec![2]);

    store.data.insert("key0".into(), e0.clone());
    store.data.insert("key1".into(), e1.clone());
    store.data.insert("key2".into(), e2.clone());

    let res = fetch(&store, &mut caches, &["key0", "key1", "key2"]);

    assert_eq!(res, expected(&[("key0", &e0), ("key1", &e1), ("key2", &e2)]));
    assert_eq!(caches.cachelib.gets_count(), 3);
    assert_eq!(caches.memcache.gets_count(), 3);
    assert_eq!(store.keys.load(Ordering::Relaxed), 3);
}

#[test]
fn fetch_from_all() {
    let mut store = TestStore::new();
    let mut caches = new_caches();

    let e0 = TestEntity(vec![0]);
    let e1 = TestEntity(vec![1]);
    let e2 = TestEntity(vec![2]);

    store.data.insert("key0".into(), e0.clone());
    store.data.insert("key1".into(), e1.clone());
    store.data.insert("key2".into(), e2.clone());

    let res = fetch(&store, &mut caches, &["key1"]);
    assert_eq!(res, expected(&[("key1", &e1)]));
    assert_eq!(caches.cachelib.gets_count(), 1);
    assert_eq!(caches.memcache.gets_count(), 1);
    assert_eq!(store.calls.load(Ordering::Relaxed), 1);

    // Reset cachelib
    caches.cachelib = CachelibHandler::create_mock();
    let res = fetch(&store, &mut caches, &["key0"]);
    assert_eq!(res, expected(&[("key0", &e0)]));
    assert_eq!(caches.cachelib.gets_count(), 1);
    assert_eq!(caches.memcache.gets_count(), 2);
    assert_eq!(store.calls.load(Ordering::Relaxed), 2);

    let all = expected(&[("key0", &e0), ("key1", &e1), ("key2", &e2)]);
    let res = fetch(&store, &mut caches, &["key0", "key1", "key2"]);

    assert_eq!(res, all);
    assert_eq!(caches.cachelib.gets_count(), 1 + 3); // 3 new fetches from cachelib, 2 misses
    assert_eq!(caches.memcache.gets_count(), 2 + 2); // 2 new fetches from memcache, 1 miss
    assert_eq!(store.calls.load(Ordering::Relaxed), 2 + 1); // 1 fetch from db

    // Only from cachelib
    let res = fetch(&store, &mut caches, &["key0", "key1", "key2"]);

    assert_eq!(res, all);
    assert_eq!(caches.cachelib.gets_count(), 7);
    assert_eq!(caches.memcache.gets_count(), 4);
    assert_eq!(store.calls.load(Ordering::Relaxed), 3);

    // Reset cachelib, only from memcache
    caches.cachelib = CachelibHandler::create_mock();
    let res = fetch(&store, &mut caches, &["key0", "key1", "key2"]);

    assert_eq!(res, all);
    assert_eq!(caches.cachelib.gets_count(), 3); // 3 misses
    assert_eq!(caches.memcache.gets_count(), 4 + 3); // 3 hits
    assert_eq!(store.calls.load(Ordering::Relaxed), 3);
}

#[test]
fn get_from_db_elision() {
    let store = TestStore::new();
    let mut caches = new_caches();

    fetch(&store, &mut caches, &[]);
    assert_eq!(store.calls.load(Ordering::Relaxed), 0);
}

#[test]
fn test_fill_cache() {
    let store = TestStore::new();
    let mut caches = new_caches();
    let e0 = TestEntity(vec![0]);
    fill_cache(&store, &mut caches, &vec![("key0".to_string(), e0.clone())]);

    let res = fetch(&store, &mut caches, &["key0"]);
    assert_eq!(res, expected(&[("key0", &e0)]));
    assert_eq!(caches.cachelib.gets_count(), 1);
    assert_eq!(caches.memcache.gets_count(), 0);
    assert_eq!(store.calls.load(Ordering::Relaxed), 0);
}

/// A store whose policy, spawn flag and failure can be chosen.
struct PolicyStore {
    inner: TestStore,
    ignore: Vec<u8>,
    limited: Vec<u8>,
    spawn: bool,
    fail: bool,
}

impl PolicyStore {
    fn new(entries: &[(&str, &TestEntity)]) -> Self {
        let mut inner = TestStore::new();
        for (key, entity) in entries {
            inner.data.insert(key.to_string(), (*entity).clone());
        }
        PolicyStore {
            inner,
            ignore: vec![],
            limited: vec![],
            spawn: false,
            fail: false,
        }
    }
}

impl EntityStore<TestEntity> for PolicyStore {
    fn disposition(&self, v: &TestEntity) -> CacheDisposition {
        self.cache_determinator(v)
    }

    fn cache_determinator(&self, v: &TestEntity) -> CacheDisposition {
        if v.0.len() == 1 && self.ignore.contains(&v.0[0]) {
            CacheDisposition::Ignore
        } else if v.0.len() == 1 && self.limited.contains(&v.0[0]) {
            CacheDisposition::Cache(CacheTtl::Ttl(Duration::from_secs(21600)))
        } else {
            CacheDisposition::Cache(CacheTtl::NoTtl)
        }
    }

    fn spawn_memcache_writes(&self) -> bool {
        self.spawn
    }
}

impl KeyedEntityStore<String, TestEntity> for PolicyStore {
    type Error = String;

    fn cache_key(&self, key: &String) -> String {
        self.get_cache_key(key)
    }

    fn get_cache_key(&self, key: &String) -> String {
        self.inner.get_cache_key(key)
    }

    fn may_fetch(&self, keys: &Vec<String>) -> bool {
        self.inner.may_fetch(keys)
    }

    fn get_from_db(&self, keys: Vec<String>) -> Result<Vec<(String, TestEntity)>, String> {
        if self.fail {
            self.inner.calls.fetch_add(1, Ordering::Relaxed);
            return Err("database is down".to_string());
        }
        self.inner.get_from_db(keys)
    }
}

fn fetch_with(
    store: &PolicyStore,
    caches: &mut Caches<TestEntity>,
    names: &[&str],
) -> HashMap<String, TestEntity> {
    as_map(get_or_fill(store, caches, keys(names)).map_err(|e| e.source).unwrap())
}

#[test]
fn second_call_is_answered_by_the_fast_tier() {
    let e0 = TestEntity(vec![0]);
    let e1 = TestEntity(vec![1]);
    let store = PolicyStore::new(&[("key0", &e0), ("key1", &e1)]);
    let mut caches = new_caches();
    let first = fetch_with(&store, &mut caches, &["key0", "key1"]);
    let second = fetch_with(&store, &mut caches, &["key0", "key1"]);
    assert_eq!(first, second);
    assert_eq!(store.inner.calls.load(Ordering::Relaxed), 1);
    assert_eq!(caches.memcache.gets_count(), 2);
}

#[test]
fn ignored_values_reach_no_tier() {
    let e0 = TestEntity(vec![0]);
    let e1 = TestEntity(vec![1]);
    let mut store = PolicyStore::new(&[("key0", &e0), ("key1", &e1)]);
    store.ignore = vec![1];
    let mut caches = new_caches();
    let res = fetch_with(&store, &mut caches, &["key0", "key1"]);
    assert_eq!(res, expected(&[("key0", &e0), ("key1", &e1)]));
    // key1 is in neither tier: both are asked again, and the store too.
    let res = fetch_with(&store, &mut caches, &["key1"]);
    assert_eq!(res, expected(&[("key1", &e1)]));
    assert_eq!(caches.cachelib.gets_count(), 3);
    assert_eq!(caches.memcache.gets_count(), 3);
    assert_eq!(store.inner.calls.load(Ordering::Relaxed), 2);
    assert_eq!(caches.memcache.get(":key:key1:c0:s0".to_string()), Ok(None));
    assert_eq!(caches.cachelib.get_cached(&"key:key1".to_string()), None);
    // key0 is in both.
    assert_eq!(
        caches.memcache.get(":key:key0:c0:s0".to_string()),
        Ok(Some(Bytes::from(vec![0u8])))
    );
    assert_eq!(caches.cachelib.get_cached(&"key:key0".to_string()), Some(e0));
}

#[test]
fn fast_tier_hit_is_not_asked_of_the_shared_tier() {
    let e0 = TestEntity(vec![0]);
    let e1 = TestEntity(vec![1]);
    let store = PolicyStore::new(&[("key1", &e1)]);
    let mut caches = new_caches();
    caches.cachelib.set_cached(&"key:key0".to_string(), &e0);
    let res = fetch_with(&store, &mut caches, &["key0", "key1"]);
    assert_eq!(res, expected(&[("key0", &e0), ("key1", &e1)]));
    assert_eq!(caches.cachelib.gets_count(), 2);
    assert_eq!(caches.memcache.gets_count(), 1);
    assert_eq!(store.inner.keys.load(Ordering::Relaxed), 1);
}

#[test]
fn shared_tier_hit_is_not_asked_of_the_store() {
    let e0 = TestEntity(vec![0]);
    let store = PolicyStore::new(&[]);
    let mut caches = new_caches();
    assert_eq!(
        caches.memcache.set(":key:key0:c0:s0".to_string(), Bytes::from(vec![0u8])),
        Ok(())
    );
    let res = fetch_with(&store, &mut caches, &["key0", "key1"]);
    assert_eq!(res, expected(&[("key0", &e0)]));
    assert_eq!(store.inner.calls.load(Ordering::Relaxed), 1);
    assert_eq!(store.inner.keys.load(Ordering::Relaxed), 1);
    // What the shared tier gave was written back to the fast tier.
    assert_eq!(caches.cachelib.get_cached(&"key:key0".to_string()), Some(e0));
}

#[test]
fn oversized_values_skip_the_shared_tier_only() {
    let large = TestEntity(vec![7u8; MEMCACHE_VALUE_MAX_SIZE]);
    let fitting = TestEntity(vec![8u8; MEMCACHE_VALUE_MAX_SIZE - 1]);
    let store = PolicyStore::new(&[("large", &large), ("fitting", &fitting)]);
    let mut caches = new_caches();
    let res = fetch_with(&store, &mut caches, &["large", "fitting"]);
    assert_eq!(res, expected(&[("large", &large), ("fitting", &fitting)]));
    assert_eq!(caches.memcache.get(":key:large:c0:s0".to_string()), Ok(None));
    assert!(matches!(
        caches.memcache.get(":key:fitting:c0:s0".to_string()),
        Ok(Some(_))
    ));
    assert_eq!(caches.cachelib.get_cached(&"key:large".to_string()), Some(large));
}

#[test]
fn limited_lifetime_goes_to_the_shared_tier_only() {
    let e3 = TestEntity(vec![3]);
    let mut store = PolicyStore::new(&[("key3", &e3)]);
    store.limited = vec![3];
    let mut caches = new_caches();
    let res = fetch_with(&store, &mut caches, &["key3"]);
    assert_eq!(res, expected(&[("key3", &e3)]));
    assert_eq!(caches.cachelib.get_cached(&"key:key3".to_string()), None);
    assert_eq!(
        caches.memcache.get(":key:key3:c0:s0".to_string()),
        Ok(Some(Bytes::from(vec![3u8])))
    );
    // The second call is answered by the shared tier.
    let res = fetch_with(&store, &mut caches, &["key3"]);
    assert_eq!(res, expected(&[("key3", &e3)]));
    assert_eq!(store.inner.calls.load(Ordering::Relaxed), 1);
}

#[test]
fn spawned_writes_wait_until_they_are_run() {
    let e0 = TestEntity(vec![0]);
    let mut store = PolicyStore::new(&[("key0", &e0)]);
    store.spawn = true;
    let mut caches = new_caches();
    let res = fetch_with(&store, &mut caches, &["key0"]);
    assert_eq!(res, expected(&[("key0", &e0)]));
    assert_eq!(caches.memcache.get(":key:key0:c0:s0".to_string()), Ok(None));
    caches.memcache.run_pending();
    assert_eq!(
        caches.memcache.get(":key:key0:c0:s0".to_string()),
        Ok(Some(Bytes::from(vec![0u8])))
    );
    // Running them again writes nothing more.
    caches.memcache.run_pending();
    assert_eq!(caches.memcache.gets_count(), 3);
}

#[test]
fn store_failure_fails_the_request() {
    let e0 = TestEntity(vec![0]);
    let mut store = PolicyStore::new(&[]);
    store.fail = true;
    let mut caches = new_caches();
    caches.cachelib.set_cached(&"key:key0".to_string(), &e0);
    // Only cached keys: the store is not asked, so the request succeeds.
    assert!(get_or_fill(&store, &mut caches, keys(&["key0"])).is_ok());
    assert_eq!(store.inner.calls.load(Ordering::Relaxed), 0);
    // A key that no tier holds: the failure of the store is the result.
    match get_or_fill(&store, &mut caches, keys(&["key0", "key1"])) {
        Ok(_) => panic!("the store failed"),
        Err(error) => {
            assert_eq!(error.context(), "Error reading from store");
            assert_eq!(error.source, "database is down");
        }
    }
    let error = StoreReadError { source: 5u8 };
    assert_eq!(error.context(), "Error reading from store");
}

#[test]
fn probe_and_fill_in_two_steps() {
    let e0 = TestEntity(vec![0]);
    let e1 = TestEntity(vec![1]);
    let e2 = TestEntity(vec![2]);
    let store = PolicyStore::new(&[]);
    let mut caches = new_caches();
    caches.cachelib.set_cached(&"key:key0".to_string(), &e0);
    assert!(caches
        .memcache
        .set(":key:key1:c0:s0".to_string(), Bytes::from(vec![1u8]))
        .is_ok());
    let probe = probe_caches(&store, &mut caches, keys(&["key2", "key1", "key0"]));
    assert_eq!(probe.from_cachelib, vec![("key0".to_string(), e0.clone())]);
    assert_eq!(probe.from_memcache, vec![("key1".to_string(), e1.clone())]);
    assert_eq!(probe.to_fetch, keys(&["key2"]));
    let mut found = probe.from_cachelib;
    found.extend(probe.from_memcache);
    let entries = fill_from_store(
        &store,
        &mut caches,
        found,
        vec![("key2".to_string(), e2.clone())],
    );
    assert_eq!(
        entries,
        vec![
            ("key0".to_string(), e0),
            ("key1".to_string(), e1),
            ("key2".to_string(), e2.clone())
        ]
    );
    assert_eq!(caches.cachelib.get_cached(&"key:key2".to_string()), Some(e2));
}

#[test]
fn classify_tells_the_outcomes_apart() {
    struct Picky(u8);
    impl Clone for Picky {
        fn clone(&self) -> Self {
            Picky(self.0)
        }
    }
    impl MemcacheEntity for Picky {
        fn serialized(&self) -> Vec<u8> {
            vec![self.0]
        }
        fn decoded(bytes: Vec<u8>) -> Option<Vec<u8>> {
            if bytes.len() == 1 {
                Some(bytes)
            } else {
                None
            }
        }
        fn serialize(&self) -> Bytes {
            Bytes::from(vec![self.0])
        }
        fn deserialize(bytes: Bytes) -> Result<Self, ()> {
            if bytes.len() == 1 {
                Ok(Picky(bytes[0]))
            } else {
                Err(())
            }
        }
        fn report_mc_result(_: &McResult<Self>) {}
        fn lemma_clone(_a: Self, _b: Self) {}
    }
    assert!(matches!(
        classify::<Picky>(Err(())),
        Err(McErrorKind::MemcacheInternal)
    ));
    assert!(matches!(classify::<Picky>(Ok(None)), Err(McErrorKind::Missing)));
    assert!(matches!(
        classify::<Picky>(Ok(Some(Bytes::from(vec![1u8, 2])))),
        Err(McErrorKind::Deserialization)
    ));
    assert!(matches!(
        classify::<Picky>(Ok(Some(Bytes::from(vec![9u8])))),
        Ok(Picky(9))
    ));
    assert!(matches!(copy_of(&Picky(4)), Picky(4)));
}

#[test]
fn keygen_namespaces_keys() {
    let keygen = KeyGen::new("scm.mapping", 3, 120);
    assert_eq!(keygen.key("repo.abc"), "scm.mapping:repo.abc:c3:s120");
    let keygen = KeyGen::new("", 0, 0);
    assert_eq!(keygen.key("key:key0"), ":key:key0:c0:s0");
    let keygen = KeyGen::new("p", 4294967295, 1000000);
    assert_eq!(keygen.key(""), "p::c4294967295:s1000000");
    assert_ne!(keygen.key("a"), keygen.key("b"));
}

#[test]
fn shared_tier_keeps_lifetimes_and_counts_lookups() {
    let mut memcache = MemcacheHandler::create_mock();
    assert_eq!(memcache.gets_count(), 0);
    assert_eq!(memcache.get("a".to_string()), Ok(None));
    assert_eq!(
        memcache.set_with_ttl("a".to_string(), Bytes::from_static(b"x"), Duration::from_secs(5)),
        Ok(())
    );
    assert_eq!(memcache.set("a".to_string(), Bytes::from_static(b"y")), Ok(()));
    assert_eq!(memcache.get("a".to_string()), Ok(Some(Bytes::from_static(b"y"))));
    memcache.submit(MemcacheWrite {
        key: "a".to_string(),
        value: Bytes::from_static(b"z"),
        ttl: CacheTtl::NoTtl,
    });
    memcache.submit(MemcacheWrite {
        key: "b".to_string(),
        value: Bytes::from_static(b"w"),
        ttl: CacheTtl::Ttl(Duration::from_secs(1)),
    });
    assert_eq!(memcache.get("b".to_string()), Ok(None));
    memcache.run_pending();
    assert_eq!(memcache.get("a".to_string()), Ok(Some(Bytes::from_static(b"z"))));
    assert_eq!(memcache.get("b".to_string()), Ok(Some(Bytes::from_static(b"w"))));
    assert_eq!(memcache.gets_count(), 5);
}
