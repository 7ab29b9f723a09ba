//! The read-through coordinator: look keys up in the fast tier, then in the
//! shared tier, then in the backing store, and fill the tiers on the way
//! back.

use super::cachelib::{
    cache_keys_of, cachelib_hits, cachelib_misses, entry_identities, pair_views,
};
use super::entity::{identity, EntityStore, KeyedEntityStore, MemcacheEntity};
use super::filling::{
    cacheable, fast_after, fill_caches_by_key, fill_multiple_cachelib, filling_views, keyed_views,
    writes_of, Caches, Filling, Keyed,
};
use super::keygen::{namespaced, KeyGen};
use super::lookup::{
    get_multiple_from_memcache, hit_views, memcache_hits, memcache_keys_of, memcache_misses,
    triple_views,
};
use super::memcache::{shared_after, StoredValue};
use super::policy::{CacheDisposition, CacheTtl};
use vstd::prelude::*;

verus! {

/// The request for `keys`: each key with its logical cache key.
pub open spec fn request_of<K, V, S: KeyedEntityStore<K, V>>(store: &S, keys: Seq<K>) -> Seq<
    (K, Seq<char>),
> {
    keys.map_values(|key: K| (key, store.cache_key(&key)@))
}

/// A request to the shared tier: each key of `pairs` with its logical cache
/// key and the namespaced key that `keygen` gives for it.
pub open spec fn with_memcache_keys<K>(pairs: Seq<(K, Seq<char>)>, keygen: KeyGen) -> Seq<
    (K, Seq<char>, Seq<char>),
> {
    pairs.map_values(
        |pair: (K, Seq<char>)|
            (pair.0, pair.1, namespaced(keygen.prefix_text(), pair.1, keygen.suffix_text())),
    )
}

/// `entries` as values that are offered to the tiers: each with its two
/// keys, its disposition and its identity.
pub open spec fn offered<K, V: MemcacheEntity, S: KeyedEntityStore<K, V>>(
    store: &S,
    keygen: KeyGen,
    entries: Seq<(K, V)>,
) -> Seq<Filling> {
    entries.map_values(
        |entry: (K, V)|
            Filling {
                cachelib_key: store.cache_key(&entry.0)@,
                memcache_key: namespaced(
                    keygen.prefix_text(),
                    store.cache_key(&entry.0)@,
                    keygen.suffix_text(),
                ),
                disposition: store.disposition(&entry.1),
                identity: identity(entry.1),
            },
    )
}

/// The keys that the shared tier is asked for: those that the fast tier
/// does not hold.
pub open spec fn asked_of_memcache<K, V: MemcacheEntity, S: KeyedEntityStore<K, V>>(
    store: &S,
    caches: Caches<V>,
    keys: Seq<K>,
) -> Seq<(K, Seq<char>, Seq<char>)> {
    with_memcache_keys(
        cachelib_misses(request_of(store, keys), caches.cachelib.contents()),
        caches.keygen,
    )
}

/// The requested keys that the fast tier holds, with the identities of
/// their values.
pub open spec fn found_in_cachelib<K, V: MemcacheEntity, S: KeyedEntityStore<K, V>>(
    store: &S,
    caches: Caches<V>,
    keys: Seq<K>,
) -> Seq<(K, Seq<u8>)> {
    cachelib_hits(request_of(store, keys), caches.cachelib.contents())
}

/// The requested keys that the fast tier does not hold and for which the
/// shared tier gives a value, with the identities of their values.
pub open spec fn found_in_memcache<K, V: MemcacheEntity, S: KeyedEntityStore<K, V>>(
    store: &S,
    caches: Caches<V>,
    keys: Seq<K>,
) -> Seq<(K, Seq<u8>)> {
    memcache_hits::<K, V>(
        asked_of_memcache(store, caches, keys),
        caches.memcache.contents(),
    ).map_values(|hit: (K, Seq<u8>, Seq<char>)| (hit.0, hit.1))
}

/// The requested keys that neither tier gives a value for: those that are
/// left to fetch from the backing store.
pub open spec fn left_for_store<K, V: MemcacheEntity, S: KeyedEntityStore<K, V>>(
    store: &S,
    caches: Caches<V>,
    keys: Seq<K>,
) -> Seq<K> {
    memcache_misses::<K, V>(
        asked_of_memcache(store, caches, keys),
        caches.memcache.contents(),
    ).map_values(|miss: (K, Seq<char>, Seq<char>)| miss.0)
}

/// What the two tiers gave for a request, and what is left to fetch.
pub struct Probe<K, V> {
    pub from_cachelib: Vec<(K, V)>,
    pub from_memcache: Vec<(K, V)>,
    pub to_fetch: Vec<K>,
}

/// A failure of the backing store, met while reading from it.
pub struct StoreReadError<E> {
    pub source: E,
}

impl<E> StoreReadError<E> {
    /// In which phase of the request the failure was met.
    pub fn context(&self) -> (text: &'static str)
        ensures
            text@ == "Error reading from store"@,
    {
        "Error reading from store"
    }
}

/// Every pair holds the logical cache key of its key.
pub open spec fn pairs_keyed<K, V, S: KeyedEntityStore<K, V>>(
    store: &S,
    pairs: Seq<(K, Seq<char>)>,
) -> bool {
    forall|i: int| 0 <= i < pairs.len() ==> (#[trigger] pairs[i]).1 == store.cache_key(&pairs[i].0)@
}

/// Every hit holds the logical cache key of its key.
pub open spec fn hits_keyed<K, V, S: KeyedEntityStore<K, V>>(
    store: &S,
    hits: Seq<(K, Seq<u8>, Seq<char>)>,
) -> bool {
    forall|i: int| 0 <= i < hits.len() ==> (#[trigger] hits[i]).2 == store.cache_key(&hits[i].0)@
}

/// The keys that the fast tier does not hold keep their logical cache keys.
proof fn lemma_misses_keyed<K, V, S: KeyedEntityStore<K, V>>(
    store: &S,
    pairs: Seq<(K, Seq<char>)>,
    fast: Map<Seq<char>, Seq<u8>>,
)
    requires
        pairs_keyed::<K, V, S>(store, pairs),
    ensures
        pairs_keyed::<K, V, S>(store, cachelib_misses(pairs, fast)),
    decreases pairs.len(),
{
    if pairs.len() > 0 {
        let front = pairs.drop_last();
        assert(pairs_keyed::<K, V, S>(store, front)) by {
            assert forall|i: int| 0 <= i < front.len() implies (#[trigger] front[i]).1
                == store.cache_key(&front[i].0)@ by {
                assert(front[i] == pairs[i]);
            }
        }
        lemma_misses_keyed::<K, V, S>(store, front, fast);
        assert(pairs.last() == pairs[pairs.len() - 1]);
    }
}

/// The values that the shared tier gives come with the logical cache keys
/// of their keys.
proof fn lemma_hits_keyed<K, V: MemcacheEntity, S: KeyedEntityStore<K, V>>(
    store: &S,
    pairs: Seq<(K, Seq<char>)>,
    keygen: KeyGen,
    shared: Map<Seq<char>, StoredValue>,
)
    requires
        pairs_keyed::<K, V, S>(store, pairs),
    ensures
        hits_keyed::<K, V, S>(
            store,
            memcache_hits::<K, V>(with_memcache_keys(pairs, keygen), shared),
        ),
    decreases pairs.len(),
{
    let triples = with_memcache_keys(pairs, keygen);
    if pairs.len() > 0 {
        let front = pairs.drop_last();
        assert(pairs_keyed::<K, V, S>(store, front)) by {
            assert forall|i: int| 0 <= i < front.len() implies (#[trigger] front[i]).1
                == store.cache_key(&front[i].0)@ by {
                assert(front[i] == pairs[i]);
            }
        }
        lemma_hits_keyed::<K, V, S>(store, front, keygen, shared);
        assert(triples.drop_last() =~= with_memcache_keys(front, keygen));
        assert(pairs.last() == pairs[pairs.len() - 1]);
    }
}

/// Values found in the shared tier, without their logical cache keys.
pub open spec fn hit_entries<K, V>(hits: Seq<(K, V, String)>) -> Seq<(K, V)> {
    hits.map_values(|hit: (K, V, String)| (hit.0, hit.1))
}

/// The tiers after a lookup of `keys` that found `from_memcache` in the
/// shared tier: the fast tier was asked for every key and has taken what
/// the shared tier gave, as far as the dispositions allow; the shared tier
/// was asked for the keys that the fast tier does not hold, and holds what
/// it held.
pub open spec fn probed<K, V: MemcacheEntity, S: KeyedEntityStore<K, V>>(
    store: &S,
    before: Caches<V>,
    after: Caches<V>,
    keys: Seq<K>,
    from_memcache: Seq<(K, V)>,
) -> bool {
    &&& after.wf()
    &&& after.keygen == before.keygen
    &&& after.cachelib.probed() == before.cachelib.probed() + cache_keys_of(
        request_of(store, keys),
    )
    &&& after.cachelib.contents() == fast_after(
        before.cachelib.contents(),
        cacheable(offered(store, before.keygen, from_memcache), false),
    )
    &&& after.memcache.probed() == before.memcache.probed() + memcache_keys_of(
        asked_of_memcache(store, before, keys),
    )
    &&& after.memcache.contents() == before.memcache.contents()
    &&& after.memcache.pending() == before.memcache.pending()
}

/// The tiers after `entries` have been offered to them: no lookup was made;
/// the fast tier has taken the values that may be cached without limit; the
/// writes to the shared tier of the values that may be cached and are not
/// too large have either been done or been left to run in the background.
pub open spec fn filled_with<K, V: MemcacheEntity, S: KeyedEntityStore<K, V>>(
    store: &S,
    before: Caches<V>,
    after: Caches<V>,
    entries: Seq<(K, V)>,
) -> bool {
    let fillings = offered(store, before.keygen, entries);
    let writes = writes_of(cacheable(fillings, true));
    &&& after.wf()
    &&& after.keygen == before.keygen
    &&& after.cachelib.probed() == before.cachelib.probed()
    &&& after.memcache.probed() == before.memcache.probed()
    &&& after.cachelib.contents() == fast_after(
        before.cachelib.contents(),
        cacheable(fillings, false),
    )
    &&& {
        ||| after.memcache.contents() == before.memcache.contents() && after.memcache.pending()
            == before.memcache.pending() + writes
        ||| after.memcache.pending() == before.memcache.pending() && after.memcache.contents()
            == shared_after(before.memcache.contents(), writes)
    }
}

/// Looks `keys` up in the two tiers: the fast tier is asked for all of
/// them, the shared tier for those that the fast tier does not hold. What
/// the shared tier gave is written back to the fast tier, as far as the
/// dispositions allow. An empty request touches no tier.
pub fn probe_caches<K, V: MemcacheEntity, S: KeyedEntityStore<K, V>>(
    store: &S,
    caches: &mut Caches<V>,
    keys: Vec<K>,
) -> (probe: Probe<K, V>)
    requires
        old(caches).wf(),
    ensures
        keys@.len() == 0 ==> *final(caches) == *old(caches),
        entry_identities(probe.from_cachelib@) == found_in_cachelib(store, *old(caches), keys@),
        entry_identities(probe.from_memcache@) == found_in_memcache(store, *old(caches), keys@),
        probe.to_fetch@ == left_for_store(store, *old(caches), keys@),
        probed(store, *old(caches), *final(caches), keys@, probe.from_memcache@),
{
    let ghost request = request_of(store, keys@);
    let ghost fast = caches.cachelib.contents();
    let ghost shared = caches.memcache.contents();
    let ghost keygen = caches.keygen;
    let ghost asked = asked_of_memcache(store, *caches, keys@);
    if keys.len() == 0 {
        let probe = Probe { from_cachelib: Vec::new(), from_memcache: Vec::new(), to_fetch: Vec::new() };
        proof {
            assert(request =~= Seq::<(K, Seq<char>)>::empty());
            assert(asked =~= Seq::<(K, Seq<char>, Seq<char>)>::empty());
            assert(entry_identities(probe.from_cachelib@) =~= found_in_cachelib(
                store,
                *caches,
                keys@,
            ));
            assert(entry_identities(probe.from_memcache@) =~= found_in_memcache(
                store,
                *caches,
                keys@,
            ));
            assert(probe.to_fetch@ =~= left_for_store(store, *caches, keys@));
            assert(caches.cachelib.probed() =~= caches.cachelib.probed() + cache_keys_of(request));
            assert(caches.memcache.probed() =~= caches.memcache.probed() + memcache_keys_of(
                asked,
            ));
            assert(offered(store, keygen, probe.from_memcache@) =~= Seq::<Filling>::empty());
        }
        return probe;
    }
    // The logical cache key of each key.
    let ghost all_keys = keys@;
    let mut cachelib_keys: Vec<(K, String)> = Vec::new();
    proof {
        assert(pair_views(cachelib_keys@) =~= request_of(store, all_keys.take(0)));
    }
    for key in it: keys
        invariant
            it.seq() == all_keys,
            pair_views(cachelib_keys@) == request_of(store, all_keys.take(it.index() as int)),
    {
        let cachelib_key = store.get_cache_key(&key);
        proof {
            let done = all_keys.take(it.index() + 1);
            assert(done.drop_last() =~= all_keys.take(it.index() as int));
            assert(done.last() == key);
            assert(request_of(store, done) =~= request_of(store, done.drop_last()).push(
                (key, store.cache_key(&key)@),
            ));
            assert(pair_views(cachelib_keys@.push((key, cachelib_key))) =~= pair_views(
                cachelib_keys@,
            ).push((key, cachelib_key@)));
        }
        cachelib_keys.push((key, cachelib_key));
    }
    proof {
        assert(all_keys.take(all_keys.len() as int) =~= all_keys);
    }
    let (from_cachelib, to_fetch_from_memcache) = caches.cachelib.get_multiple_from_cachelib(
        cachelib_keys,
    );
    // The namespaced key of each key that the fast tier does not hold.
    let ghost missed = pair_views(to_fetch_from_memcache@);
    let mut memcache_keys: Vec<(K, String, String)> = Vec::new();
    proof {
        assert(triple_views(memcache_keys@) =~= with_memcache_keys(missed.take(0), keygen));
    }
    for pair in it: to_fetch_from_memcache
        invariant
            pair_views(it.seq()) == missed,
            caches.keygen == keygen,
            triple_views(memcache_keys@) == with_memcache_keys(
                missed.take(it.index() as int),
                keygen,
            ),
    {
        let memcache_key = caches.keygen.key(pair.1.as_str());
        proof {
            let done = missed.take(it.index() + 1);
            assert(done.drop_last() =~= missed.take(it.index() as int));
            assert(done.last() == (pair.0, pair.1@));
            assert(with_memcache_keys(done, keygen) =~= with_memcache_keys(
                done.drop_last(),
                keygen,
            ).push((pair.0, pair.1@, memcache_key@)));
            assert(triple_views(memcache_keys@.push((pair.0, pair.1, memcache_key)))
                =~= triple_views(memcache_keys@).push((pair.0, pair.1@, memcache_key@)));
        }
        memcache_keys.push((pair.0, pair.1, memcache_key));
    }
    proof {
        assert(missed.take(missed.len() as int) =~= missed);
        assert(triple_views(memcache_keys@) == asked);
    }
    let (fetched_from_memcache, left_to_fetch) = get_multiple_from_memcache::<K, V>(
        &mut caches.memcache,
        memcache_keys,
    );
    // What the shared tier gave goes to the fast tier.
    let ghost hits = fetched_from_memcache@;
    proof {
        assert(pairs_keyed::<K, V, S>(store, request));
        lemma_misses_keyed::<K, V, S>(store, request, fast);
        lemma_hits_keyed::<K, V, S>(store, missed, keygen, shared);
        assert(hits_keyed::<K, V, S>(store, hit_views(hits)));
    }
    let mut to_fill: Vec<(String, CacheTtl, &V)> = Vec::new();
    let mut i: usize = 0;
    proof {
        assert(offered(store, keygen, hit_entries(hits).take(0)) =~= Seq::<Filling>::empty());
        assert(keyed_views(to_fill@) =~= Seq::<Keyed>::empty());
    }
    while i < fetched_from_memcache.len()
        invariant
            i <= hits.len(),
            hits == fetched_from_memcache@,
            hits_keyed::<K, V, S>(store, hit_views(hits)),
            keyed_views(to_fill@) == cacheable(
                offered(store, keygen, hit_entries(hits).take(i as int)),
                false,
            ),
        decreases hits.len() - i,
    {
        let hit = &fetched_from_memcache[i];
        proof {
            let done = hit_entries(hits).take(i + 1);
            assert(done.drop_last() =~= hit_entries(hits).take(i as int));
            assert(done.last() == (hit.0, hit.1));
            assert(offered(store, keygen, done).drop_last() =~= offered(
                store,
                keygen,
                done.drop_last(),
            ));
            assert(hit_views(hits)[i as int].2 == store.cache_key(&hit_views(hits)[i as int].0)@);
            assert(hit.2@ == store.cache_key(&hit.0)@);
        }
        match store.cache_determinator(&hit.1) {
            CacheDisposition::Cache(ttl) => {
                let cachelib_key = hit.2.clone();
                proof {
                    assert(keyed_views(to_fill@.push((cachelib_key, ttl, &hit.1))) =~= keyed_views(
                        to_fill@,
                    ).push(Keyed { key: hit.2@, ttl, identity: identity(hit.1) }));
                }
                to_fill.push((cachelib_key, ttl, &hit.1));
            },
            CacheDisposition::Ignore => {},
        }
        i = i + 1;
    }
    proof {
        assert(hit_entries(hits).take(hits.len() as int) =~= hit_entries(hits));
    }
    fill_multiple_cachelib(&mut caches.cachelib, to_fill);
    // The result: values with their keys, and the keys that are left.
    let mut from_memcache: Vec<(K, V)> = Vec::new();
    proof {
        assert(from_memcache@ =~= hit_entries(hits.take(0)));
    }
    for hit in it: fetched_from_memcache
        invariant
            it.seq() == hits,
            from_memcache@ == hit_entries(hits.take(it.index() as int)),
    {
        proof {
            let done = hits.take(it.index() + 1);
            assert(done.drop_last() =~= hits.take(it.index() as int));
            assert(hit_entries(done) =~= hit_entries(done.drop_last()).push((hit.0, hit.1)));
        }
        from_memcache.push((hit.0, hit.1));
    }
    let ghost left = left_to_fetch@;
    let mut to_fetch: Vec<K> = Vec::new();
    proof {
        assert(hits.take(hits.len() as int) =~= hits);
        assert(to_fetch@ =~= left.take(0).map_values(|miss: (K, String, String)| miss.0));
    }
    for miss in it: left_to_fetch
        invariant
            it.seq() == left,
            to_fetch@ == left.take(it.index() as int).map_values(
                |miss: (K, String, String)| miss.0,
            ),
    {
        proof {
            let done = left.take(it.index() + 1);
            assert(done.drop_last() =~= left.take(it.index() as int));
            assert(done.map_values(|miss: (K, String, String)| miss.0) =~= done.drop_last().map_values(
                |miss: (K, String, String)| miss.0,
            ).push(miss.0));
        }
        to_fetch.push(miss.0);
    }
    proof {
        assert(left.take(left.len() as int) =~= left);
        assert(entry_identities(from_memcache@) =~= found_in_memcache(store, *old(caches), keys@));
        assert(to_fetch@ =~= left_for_store(store, *old(caches), keys@));
    }
    Probe { from_cachelib, from_memcache, to_fetch }
}

/// The values of `entries`, each with its two keys, as they are offered to
/// the tiers.
fn fillings_for<'a, K, V: MemcacheEntity, S: KeyedEntityStore<K, V>>(
    store: &S,
    keygen: &KeyGen,
    entries: &'a Vec<(K, V)>,
) -> (data: Vec<(String, String, &'a V)>)
    ensures
        filling_views(store, data@) == offered(store, *keygen, entries@),
{
    let mut data: Vec<(String, String, &V)> = Vec::new();
    let mut i: usize = 0;
    proof {
        assert(filling_views(store, data@) =~= offered(store, *keygen, entries@.take(0)));
    }
    while i < entries.len()
        invariant
            i <= entries@.len(),
            filling_views(store, data@) == offered(store, *keygen, entries@.take(i as int)),
        decreases entries@.len() - i,
    {
        let entry = &entries[i];
        let cachelib_key = store.get_cache_key(&entry.0);
        let memcache_key = keygen.key(cachelib_key.as_str());
        proof {
            let done = entries@.take(i + 1);
            assert(done.drop_last() =~= entries@.take(i as int));
            assert(done.last() == *entry);
            assert(offered(store, *keygen, done) =~= offered(store, *keygen, done.drop_last()).push(
                Filling {
                    cachelib_key: store.cache_key(&entry.0)@,
                    memcache_key: namespaced(
                        keygen.prefix_text(),
                        store.cache_key(&entry.0)@,
                        keygen.suffix_text(),
                    ),
                    disposition: store.disposition(&entry.1),
                    identity: identity(entry.1),
                },
            ));
            assert(filling_views(store, data@.push((cachelib_key, memcache_key, &entry.1)))
                =~= filling_views(store, data@).push(
                Filling {
                    cachelib_key: cachelib_key@,
                    memcache_key: memcache_key@,
                    disposition: store.disposition(&entry.1),
                    identity: identity(entry.1),
                },
            ));
        }
        data.push((cachelib_key, memcache_key, &entry.1));
        i = i + 1;
    }
    proof {
        assert(entries@.take(entries@.len() as int) =~= entries@);
    }
    data
}

/// Writes `data` into both tiers, as far as the dispositions allow, without
/// reading anything.
pub fn fill_cache<K, V: MemcacheEntity, S: KeyedEntityStore<K, V>>(
    store: &S,
    caches: &mut Caches<V>,
    data: &Vec<(K, V)>,
)
    requires
        old(caches).wf(),
    ensures
        filled_with(store, *old(caches), *final(caches), data@),
{
    let offered_data = fillings_for(store, &caches.keygen, data);
    let _ = fill_caches_by_key(store, caches, offered_data);
}

/// Finishes a lookup with what the backing store gave: `fetched` is written
/// into both tiers, as far as the dispositions allow, and joins what the
/// tiers had given.
pub fn fill_from_store<K, V: MemcacheEntity, S: KeyedEntityStore<K, V>>(
    store: &S,
    caches: &mut Caches<V>,
    found: Vec<(K, V)>,
    fetched: Vec<(K, V)>,
) -> (entries: Vec<(K, V)>)
    requires
        old(caches).wf(),
    ensures
        entries@ == found@ + fetched@,
        filled_with(store, *old(caches), *final(caches), fetched@),
{
    let offered_data = fillings_for(store, &caches.keygen, &fetched);
    let _ = fill_caches_by_key(store, caches, offered_data);
    let mut entries = found;
    let mut fetched = fetched;
    entries.append(&mut fetched);
    entries
}

/// The values for `keys`, from wherever they are found first: the fast
/// tier, the shared tier, the backing store. The tiers are filled on the
/// way back. A key that is found nowhere is left out of the result. Only a
/// failure of the backing store fails the request. The store is asked for
/// the keys that neither tier gave a value for, and not at all where no key
/// is left: it has to take that request, and no other is made of it.
pub fn get_or_fill<K, V: MemcacheEntity, S: KeyedEntityStore<K, V>>(
    store: &S,
    caches: &mut Caches<V>,
    keys: Vec<K>,
) -> (r: Result<Vec<(K, V)>, StoreReadError<S::Error>>)
    requires
        old(caches).wf(),
        forall|asked: Vec<K>|
            asked@ == left_for_store(store, *old(caches), keys@) && asked@.len() > 0
                ==> #[trigger] store.may_fetch(&asked),
    ensures
        final(caches).wf(),
        final(caches).keygen == old(caches).keygen,
        keys@.len() == 0 ==> *final(caches) == *old(caches),
        keys@.len() == 0 ==> (r matches Ok(entries) && entries@.len() == 0),
        left_for_store(store, *old(caches), keys@).len() == 0 ==> (r matches Ok(entries)
            && entry_identities(entries@) == found_in_cachelib(store, *old(caches), keys@)
            + found_in_memcache(store, *old(caches), keys@)),
        r matches Ok(entries) ==> answered(store, *old(caches), *final(caches), keys@, entries@),
        r is Err ==> left_for_store(store, *old(caches), keys@).len() > 0 && exists|
            from_memcache: Seq<(K, V)>,
        |
            entry_identities(from_memcache) == found_in_memcache(store, *old(caches), keys@)
                && #[trigger] probed(store, *old(caches), *final(caches), keys@, from_memcache),
{
    let probe = probe_caches(store, caches, keys);
    let Probe { from_cachelib, from_memcache, to_fetch } = probe;
    let ghost first = from_cachelib@;
    let ghost second = from_memcache@;
    let ghost mid = *caches;
    let mut found = from_cachelib;
    let mut from_memcache = from_memcache;
    found.append(&mut from_memcache);
    proof {
        assert(entry_identities(found@) =~= entry_identities(first) + entry_identities(second));
        assert(found@.subrange(0, first.len() as int) =~= first);
        assert(found@.subrange(first.len() as int, (first.len() + second.len()) as int) =~= second);
    }
    if to_fetch.len() == 0 {
        proof {
            assert(found@.skip((first.len() + second.len()) as int) =~= Seq::<(K, V)>::empty());
            lemma_filled_with_nothing(store, mid);
        }
        return Ok(found);
    }
    match store.get_from_db(to_fetch) {
        Err(source) => Err(StoreReadError { source }),
        Ok(data) => {
            let ghost fetched = data@;
            let entries = fill_from_store(store, caches, found, data);
            proof {
                assert(entries@.subrange(0, first.len() as int) =~= first);
                assert(entries@.subrange(first.len() as int, (first.len() + second.len()) as int)
                    =~= second);
                assert(entries@.skip((first.len() + second.len()) as int) =~= fetched);
            }
            Ok(entries)
        },
    }
}

/// What holds of a successful lookup of `keys` that returned `entries`: the
/// entries are what the fast tier gave, then what the shared tier gave, then
/// what the backing store gave; and the tiers have been probed for the keys
/// and filled with what the store gave.
pub open spec fn answered<K, V: MemcacheEntity, S: KeyedEntityStore<K, V>>(
    store: &S,
    before: Caches<V>,
    after: Caches<V>,
    keys: Seq<K>,
    entries: Seq<(K, V)>,
) -> bool {
    let first = found_in_cachelib(store, before, keys).len() as int;
    let second = found_in_memcache(store, before, keys).len() as int;
    &&& entries.len() >= first + second
    &&& entry_identities(entries.subrange(0, first)) == found_in_cachelib(store, before, keys)
    &&& entry_identities(entries.subrange(first, first + second)) == found_in_memcache(
        store,
        before,
        keys,
    )
    &&& left_for_store(store, before, keys).len() == 0 ==> entries.len() == first + second
    &&& exists|mid: Caches<V>|
        #![trigger probed(store, before, mid, keys, entries.subrange(first, first + second))]
        probed(store, before, mid, keys, entries.subrange(first, first + second)) && filled_with(
            store,
            mid,
            after,
            entries.skip(first + second),
        )
}

/// Offering nothing leaves the tiers as they are.
proof fn lemma_filled_with_nothing<K, V: MemcacheEntity, S: KeyedEntityStore<K, V>>(
    store: &S,
    caches: Caches<V>,
)
    requires
        caches.wf(),
    ensures
        filled_with(store, caches, caches, Seq::<(K, V)>::empty()),
{
    let fillings = offered(store, caches.keygen, Seq::<(K, V)>::empty());
    assert(fillings =~= Seq::<Filling>::empty());
    assert(caches.memcache.pending() + writes_of(cacheable(fillings, true))
        =~= caches.memcache.pending());
}

} // verus!
