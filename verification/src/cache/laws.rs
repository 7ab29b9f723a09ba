//! What holds of every lookup and of every filling of the tiers.

use super::cachelib::{cachelib_hits, cachelib_misses, entry_identities};
use super::coordinator::{
    asked_of_memcache, filled_with, found_in_cachelib, found_in_memcache, left_for_store,
    offered, request_of,
};
use super::entity::{identity, KeyedEntityStore, MemcacheEntity};
use super::filling::{cacheable, fast_after, writes_of, Caches, Filling};
use super::lookup::{memcache_misses, shared_value};
use super::memcache::{shared_after, StoredValue, MEMCACHE_VALUE_MAX_SIZE};
use super::policy::{CacheDisposition, CacheTtl};
use vstd::prelude::*;

verus! {

/// A key that is not held by the fast tier is what every key among the
/// misses of a request is.
pub proof fn lemma_misses_not_held<K>(pairs: Seq<(K, Seq<char>)>, fast: Map<Seq<char>, Seq<u8>>)
    ensures
        forall|j: int|
            0 <= j < cachelib_misses(pairs, fast).len() ==> !fast.dom().contains(
                (#[trigger] cachelib_misses(pairs, fast)[j]).1,
            ),
    decreases pairs.len(),
{
    if pairs.len() > 0 {
        lemma_misses_not_held(pairs.drop_last(), fast);
        let misses = cachelib_misses(pairs, fast);
        let earlier = cachelib_misses(pairs.drop_last(), fast);
        assert forall|j: int| 0 <= j < misses.len() implies !fast.dom().contains(
            (#[trigger] misses[j]).1,
        ) by {
            if j < earlier.len() {
                assert(misses[j] == earlier[j]);
            }
        }
    }
}

/// The shared tier is asked only for keys that the fast tier does not hold:
/// a key that the fast tier gave a value for is not among those that the
/// shared tier is asked for.
pub proof fn lemma_fast_hit_not_asked<K, V: MemcacheEntity, S: KeyedEntityStore<K, V>>(
    store: &S,
    caches: Caches<V>,
    keys: Seq<K>,
)
    ensures
        forall|j: int|
            0 <= j < asked_of_memcache(store, caches, keys).len()
                ==> !caches.cachelib.contents().dom().contains(
                (#[trigger] asked_of_memcache(store, caches, keys)[j]).1,
            ),
{
    let misses = cachelib_misses(request_of(store, keys), caches.cachelib.contents());
    lemma_misses_not_held(request_of(store, keys), caches.cachelib.contents());
    let asked = asked_of_memcache(store, caches, keys);
    assert forall|j: int| 0 <= j < asked.len() implies !caches.cachelib.contents().dom().contains(
        (#[trigger] asked[j]).1,
    ) by {
        assert(asked[j].1 == misses[j].1);
    }
}

/// The shared tier gives no value for any key among the misses of a request
/// to it.
pub proof fn lemma_left_not_given<K, V: MemcacheEntity>(
    triples: Seq<(K, Seq<char>, Seq<char>)>,
    shared: Map<Seq<char>, StoredValue>,
)
    ensures
        forall|j: int|
            0 <= j < memcache_misses::<K, V>(triples, shared).len() ==> shared_value::<V>(
                shared,
                (#[trigger] memcache_misses::<K, V>(triples, shared)[j]).2,
            ).is_none(),
    decreases triples.len(),
{
    if triples.len() > 0 {
        lemma_left_not_given::<K, V>(triples.drop_last(), shared);
        let misses = memcache_misses::<K, V>(triples, shared);
        let earlier = memcache_misses::<K, V>(triples.drop_last(), shared);
        assert forall|j: int| 0 <= j < misses.len() implies shared_value::<V>(
            shared,
            (#[trigger] misses[j]).2,
        ).is_none() by {
            if j < earlier.len() {
                assert(misses[j] == earlier[j]);
            }
        }
    }
}

/// Every key among the misses of a request to the shared tier is a key of
/// the request.
pub proof fn lemma_left_was_asked<K, V: MemcacheEntity>(
    triples: Seq<(K, Seq<char>, Seq<char>)>,
    shared: Map<Seq<char>, StoredValue>,
)
    ensures
        forall|j: int|
            0 <= j < memcache_misses::<K, V>(triples, shared).len() ==> triples.contains(
                #[trigger] memcache_misses::<K, V>(triples, shared)[j],
            ),
    decreases triples.len(),
{
    if triples.len() > 0 {
        let front = triples.drop_last();
        lemma_left_was_asked::<K, V>(front, shared);
        let misses = memcache_misses::<K, V>(triples, shared);
        assert forall|j: int| 0 <= j < misses.len() implies triples.contains(
            #[trigger] misses[j],
        ) by {
            let earlier = memcache_misses::<K, V>(front, shared);
            if j < earlier.len() {
                assert(front.contains(earlier[j]));
                let i = choose|i: int| 0 <= i < front.len() && front[i] == earlier[j];
                assert(triples[i] == earlier[j]);
            } else {
                assert(triples[triples.len() - 1] == misses[j]);
            }
        }
    }
}

/// The backing store is asked only for keys that neither tier gave a value
/// for: each key that is left for the store was asked of the shared tier,
/// which gave no value for it, and is not held by the fast tier.
pub proof fn lemma_store_asked_for_misses_only<K, V: MemcacheEntity, S: KeyedEntityStore<K, V>>(
    store: &S,
    caches: Caches<V>,
    keys: Seq<K>,
)
    ensures
        left_for_store(store, caches, keys).len() == memcache_misses::<K, V>(
            asked_of_memcache(store, caches, keys),
            caches.memcache.contents(),
        ).len(),
        forall|j: int|
            #![trigger left_for_store(store, caches, keys)[j]]
            0 <= j < left_for_store(store, caches, keys).len() ==> {
                let miss = memcache_misses::<K, V>(
                    asked_of_memcache(store, caches, keys),
                    caches.memcache.contents(),
                )[j];
                &&& left_for_store(store, caches, keys)[j] == miss.0
                &&& shared_value::<V>(caches.memcache.contents(), miss.2).is_none()
                &&& !caches.cachelib.contents().dom().contains(miss.1)
            },
{
    let asked = asked_of_memcache(store, caches, keys);
    let shared = caches.memcache.contents();
    let misses = memcache_misses::<K, V>(asked, shared);
    lemma_left_not_given::<K, V>(asked, shared);
    lemma_left_was_asked::<K, V>(asked, shared);
    lemma_fast_hit_not_asked(store, caches, keys);
    assert forall|j: int| 0 <= j < misses.len() implies !caches.cachelib.contents().dom().contains(
        (#[trigger] misses[j]).1,
    ) by {
        assert(asked.contains(misses[j]));
        let i = choose|i: int| 0 <= i < asked.len() && asked[i] == misses[j];
        assert(!caches.cachelib.contents().dom().contains(asked[i].1));
    }
}

/// Whether a value that may be cached without limit is offered under the
/// key `key` of the fast tier.
pub open spec fn offered_to_fast(fillings: Seq<Filling>, key: Seq<char>) -> bool {
    exists|i: int|
        0 <= i < fillings.len() && (#[trigger] fillings[i]).cachelib_key == key
            && fillings[i].disposition == CacheDisposition::Cache(CacheTtl::NoTtl)
}

/// Whether a value that may be cached, and whose serialized form is below
/// `MEMCACHE_VALUE_MAX_SIZE`, is offered under the key `key` of the shared
/// tier.
pub open spec fn offered_to_shared(fillings: Seq<Filling>, key: Seq<char>) -> bool {
    exists|i: int|
        0 <= i < fillings.len() && (#[trigger] fillings[i]).memcache_key == key
            && fillings[i].disposition != CacheDisposition::Ignore
            && fillings[i].identity.len() < MEMCACHE_VALUE_MAX_SIZE
}

/// Whether one of `writes` goes to `key`.
pub open spec fn written_to(writes: Seq<(Seq<char>, StoredValue)>, key: Seq<char>) -> bool {
    exists|j: int| 0 <= j < writes.len() && (#[trigger] writes[j]).0 == key
}

/// After values have been offered, the fast tier holds the keys that it
/// held and those under which a value that may be cached without limit was
/// offered, and no others.
pub proof fn lemma_fast_after_keys(
    fast: Map<Seq<char>, Seq<u8>>,
    fillings: Seq<Filling>,
    key: Seq<char>,
)
    ensures
        fast_after(fast, cacheable(fillings, false)).dom().contains(key) <==> fast.dom().contains(
            key,
        ) || offered_to_fast(fillings, key),
    decreases fillings.len(),
{
    if fillings.len() > 0 {
        let front = fillings.drop_last();
        let last = fillings.last();
        lemma_fast_after_keys(fast, front, key);
        if offered_to_fast(front, key) {
            let i = choose|i: int|
                0 <= i < front.len() && (#[trigger] front[i]).cachelib_key == key
                    && front[i].disposition == CacheDisposition::Cache(CacheTtl::NoTtl);
            assert(fillings[i] == front[i]);
        }
        if offered_to_fast(fillings, key) {
            let i = choose|i: int|
                0 <= i < fillings.len() && (#[trigger] fillings[i]).cachelib_key == key
                    && fillings[i].disposition == CacheDisposition::Cache(CacheTtl::NoTtl);
            if i < front.len() {
                assert(front[i] == fillings[i]);
            }
        }
        match last.disposition {
            CacheDisposition::Cache(ttl) => {
                let values = cacheable(fillings, false);
                assert(values.drop_last() =~= cacheable(front, false));
                if last.cachelib_key == key && ttl == CacheTtl::NoTtl {
                    assert(fillings[fillings.len() - 1].cachelib_key == key);
                }
            },
            CacheDisposition::Ignore => {},
        }
    }
}

/// The writes to the shared tier go to the keys under which a value that
/// may be cached and is not too large was offered, and to no others; and
/// none of them carries a value that reaches `MEMCACHE_VALUE_MAX_SIZE`.
pub proof fn lemma_writes_keys(fillings: Seq<Filling>, key: Seq<char>)
    ensures
        written_to(writes_of(cacheable(fillings, true)), key) <==> offered_to_shared(
            fillings,
            key,
        ),
        forall|j: int|
            0 <= j < writes_of(cacheable(fillings, true)).len() ==> (#[trigger] writes_of(
                cacheable(fillings, true),
            )[j]).1.bytes.len() < MEMCACHE_VALUE_MAX_SIZE,
    decreases fillings.len(),
{
    if fillings.len() > 0 {
        let front = fillings.drop_last();
        let last = fillings.last();
        let writes = writes_of(cacheable(fillings, true));
        let earlier = writes_of(cacheable(front, true));
        lemma_writes_keys(front, key);
        let taken = last.disposition != CacheDisposition::Ignore && last.identity.len()
            < MEMCACHE_VALUE_MAX_SIZE;
        match last.disposition {
            CacheDisposition::Cache(ttl) => {
                assert(cacheable(fillings, true).drop_last() =~= cacheable(front, true));
            },
            CacheDisposition::Ignore => {},
        }
        if taken {
            assert(writes.drop_last() =~= earlier);
            assert(writes.last().0 == last.memcache_key);
        } else {
            assert(writes == earlier);
        }
        if offered_to_shared(front, key) {
            let i = choose|i: int|
                0 <= i < front.len() && (#[trigger] front[i]).memcache_key == key
                    && front[i].disposition != CacheDisposition::Ignore && front[i].identity.len()
                    < MEMCACHE_VALUE_MAX_SIZE;
            assert(fillings[i] == front[i]);
        }
        if offered_to_shared(fillings, key) {
            let i = choose|i: int|
                0 <= i < fillings.len() && (#[trigger] fillings[i]).memcache_key == key
                    && fillings[i].disposition != CacheDisposition::Ignore
                    && fillings[i].identity.len() < MEMCACHE_VALUE_MAX_SIZE;
            if i < front.len() {
                assert(front[i] == fillings[i]);
                assert(written_to(earlier, key));
                let j = choose|j: int| 0 <= j < earlier.len() && (#[trigger] earlier[j]).0 == key;
                assert(writes[j] == earlier[j]);
            } else {
                assert(writes[writes.len() - 1].0 == key);
            }
        }
        if written_to(writes, key) {
            let j = choose|j: int| 0 <= j < writes.len() && (#[trigger] writes[j]).0 == key;
            if j < earlier.len() {
                assert(earlier[j] == writes[j]);
            } else {
                assert(fillings[fillings.len() - 1].memcache_key == key);
            }
        }
        assert forall|j: int| 0 <= j < writes.len() implies (#[trigger] writes[j]).1.bytes.len()
            < MEMCACHE_VALUE_MAX_SIZE by {
            if j < earlier.len() {
                assert(writes[j] == earlier[j]);
            }
        }
    }
}

/// After writes, the shared tier holds the keys that it held and those that
/// a write went to, and no others.
pub proof fn lemma_shared_after_keys(
    shared: Map<Seq<char>, StoredValue>,
    writes: Seq<(Seq<char>, StoredValue)>,
    key: Seq<char>,
)
    ensures
        shared_after(shared, writes).dom().contains(key) <==> shared.dom().contains(key)
            || written_to(writes, key),
    decreases writes.len(),
{
    if writes.len() > 0 {
        let front = writes.drop_last();
        lemma_shared_after_keys(shared, front, key);
        if written_to(front, key) {
            let j = choose|j: int| 0 <= j < front.len() && (#[trigger] front[j]).0 == key;
            assert(writes[j] == front[j]);
        }
        if written_to(writes, key) {
            let j = choose|j: int| 0 <= j < writes.len() && (#[trigger] writes[j]).0 == key;
            if j < front.len() {
                assert(front[j] == writes[j]);
            }
        }
        if writes.last().0 == key {
            assert(writes[writes.len() - 1].0 == key);
        }
    }
}

/// A value that is to be ignored reaches no tier: where every value that is
/// offered under its keys is to be ignored, a tier that did not hold the key
/// does not hold it afterwards, and no write to the key is made or left to
/// run in the background.
pub proof fn lemma_ignored_reaches_no_tier(
    fast: Map<Seq<char>, Seq<u8>>,
    shared: Map<Seq<char>, StoredValue>,
    fillings: Seq<Filling>,
    cachelib_key: Seq<char>,
    memcache_key: Seq<char>,
)
    requires
        forall|i: int|
            0 <= i < fillings.len() && ((#[trigger] fillings[i]).cachelib_key == cachelib_key
                || fillings[i].memcache_key == memcache_key) ==> fillings[i].disposition
                == CacheDisposition::Ignore,
        !fast.dom().contains(cachelib_key),
        !shared.dom().contains(memcache_key),
    ensures
        !fast_after(fast, cacheable(fillings, false)).dom().contains(cachelib_key),
        !written_to(writes_of(cacheable(fillings, true)), memcache_key),
        !shared_after(shared, writes_of(cacheable(fillings, true))).dom().contains(memcache_key),
{
    lemma_fast_after_keys(fast, fillings, cachelib_key);
    lemma_writes_keys(fillings, memcache_key);
    lemma_shared_after_keys(shared, writes_of(cacheable(fillings, true)), memcache_key);
}

/// A value whose serialized form reaches `MEMCACHE_VALUE_MAX_SIZE` is left
/// out of the shared tier and still taken by the fast tier: no write carries
/// it, and where it may be cached without limit the fast tier holds its key
/// afterwards.
pub proof fn lemma_oversized_skips_shared_tier_only(
    fast: Map<Seq<char>, Seq<u8>>,
    fillings: Seq<Filling>,
    i: int,
)
    requires
        0 <= i < fillings.len(),
        fillings[i].identity.len() >= MEMCACHE_VALUE_MAX_SIZE,
    ensures
        forall|j: int|
            0 <= j < writes_of(cacheable(fillings, true)).len() ==> (#[trigger] writes_of(
                cacheable(fillings, true),
            )[j]).1.bytes != fillings[i].identity,
        fillings[i].disposition == CacheDisposition::Cache(CacheTtl::NoTtl) ==> fast_after(
            fast,
            cacheable(fillings, false),
        ).dom().contains(fillings[i].cachelib_key),
{
    lemma_writes_keys(fillings, fillings[i].memcache_key);
    lemma_fast_after_keys(fast, fillings, fillings[i].cachelib_key);
}

/// A request whose keys the fast tier holds, all of them, is answered by it
/// in full: each key comes with the identity held under its logical cache
/// key, and no key is missed.
pub proof fn lemma_all_held<K>(pairs: Seq<(K, Seq<char>)>, fast: Map<Seq<char>, Seq<u8>>)
    requires
        forall|i: int| 0 <= i < pairs.len() ==> fast.dom().contains((#[trigger] pairs[i]).1),
    ensures
        cachelib_misses(pairs, fast).len() == 0,
        cachelib_hits(pairs, fast) == pairs.map_values(
            |pair: (K, Seq<char>)| (pair.0, fast[pair.1]),
        ),
    decreases pairs.len(),
{
    let expected = pairs.map_values(|pair: (K, Seq<char>)| (pair.0, fast[pair.1]));
    if pairs.len() == 0 {
        assert(cachelib_hits(pairs, fast) =~= expected);
    } else {
        let front = pairs.drop_last();
        assert forall|i: int| 0 <= i < front.len() implies fast.dom().contains(
            (#[trigger] front[i]).1,
        ) by {
            assert(front[i] == pairs[i]);
        }
        lemma_all_held(front, fast);
        assert(fast.dom().contains(pairs[pairs.len() - 1].1));
        assert(cachelib_hits(pairs, fast) =~= expected);
    }
}

/// A value that may be cached without limit, offered under a key under
/// which nothing else is offered, is what the fast tier holds under the key
/// afterwards.
pub proof fn lemma_fast_after_value(fast: Map<Seq<char>, Seq<u8>>, fillings: Seq<Filling>, i: int)
    requires
        0 <= i < fillings.len(),
        fillings[i].disposition == CacheDisposition::Cache(CacheTtl::NoTtl),
        forall|j: int|
            0 <= j < fillings.len() && j != i ==> (#[trigger] fillings[j]).cachelib_key
                != fillings[i].cachelib_key,
    ensures
        fast_after(fast, cacheable(fillings, false)).dom().contains(fillings[i].cachelib_key),
        fast_after(fast, cacheable(fillings, false))[fillings[i].cachelib_key]
            == fillings[i].identity,
    decreases fillings.len(),
{
    let front = fillings.drop_last();
    let last = fillings.last();
    let values = cacheable(fillings, false);
    match last.disposition {
        CacheDisposition::Cache(ttl) => {
            assert(values.drop_last() =~= cacheable(front, false));
        },
        CacheDisposition::Ignore => {},
    }
    if i < fillings.len() - 1 {
        assert(front[i] == fillings[i]);
        assert forall|j: int| 0 <= j < front.len() && j != i implies (
        #[trigger] front[j]).cachelib_key != front[i].cachelib_key by {
            assert(front[j] == fillings[j]);
        }
        lemma_fast_after_value(fast, front, i);
        assert(fillings[fillings.len() - 1].cachelib_key != fillings[i].cachelib_key);
    }
}

/// The keys of entries, in their order.
pub open spec fn keys_of<K, V>(entries: Seq<(K, V)>) -> Seq<K> {
    entries.map_values(|entry: (K, V)| entry.0)
}

/// What has been offered to the tiers is found in the fast tier: after
/// entries that may all be cached without limit, no two of them under one
/// logical cache key, have been offered, a lookup of their keys gets each of
/// them from the fast tier, as the value that was offered; the shared tier
/// is asked for nothing, and nothing is left for the backing store.
pub proof fn lemma_filled_is_found<K, V: MemcacheEntity, S: KeyedEntityStore<K, V>>(
    store: &S,
    before: Caches<V>,
    after: Caches<V>,
    entries: Seq<(K, V)>,
)
    requires
        filled_with(store, before, after, entries),
        forall|i: int|
            0 <= i < entries.len() ==> store.disposition(&(#[trigger] entries[i]).1)
                == CacheDisposition::Cache(CacheTtl::NoTtl),
        forall|i: int, j: int|
            0 <= i < j < entries.len() ==> store.cache_key(&(#[trigger] entries[i]).0)@
                != store.cache_key(&(#[trigger] entries[j]).0)@,
    ensures
        found_in_cachelib(store, after, keys_of(entries)) == entry_identities(entries),
        asked_of_memcache(store, after, keys_of(entries)).len() == 0,
        found_in_memcache(store, after, keys_of(entries)).len() == 0,
        left_for_store(store, after, keys_of(entries)).len() == 0,
{
    let fillings = offered(store, before.keygen, entries);
    let fast = after.cachelib.contents();
    let pairs = request_of(store, keys_of(entries));
    assert forall|i: int| 0 <= i < pairs.len() implies fast.dom().contains(
        (#[trigger] pairs[i]).1,
    ) && fast[pairs[i].1] == identity(entries[i].1) by {
        assert(fillings[i].cachelib_key == pairs[i].1);
        assert(fillings[i].identity == identity(entries[i].1));
        assert(fillings[i].disposition == store.disposition(&entries[i].1));
        assert forall|j: int| 0 <= j < fillings.len() && j != i implies (
        #[trigger] fillings[j]).cachelib_key != fillings[i].cachelib_key by {
            assert(fillings[j].cachelib_key == store.cache_key(&entries[j].0)@);
            if j < i {
                assert(store.cache_key(&entries[j].0)@ != store.cache_key(&entries[i].0)@);
            } else {
                assert(store.cache_key(&entries[i].0)@ != store.cache_key(&entries[j].0)@);
            }
        }
        lemma_fast_after_value(before.cachelib.contents(), fillings, i);
    }
    lemma_all_held(pairs, fast);
    assert(found_in_cachelib(store, after, keys_of(entries)) =~= entry_identities(entries));
    let asked = asked_of_memcache(store, after, keys_of(entries));
    assert(asked.len() == 0);
    assert(asked =~= Seq::<(K, Seq<char>, Seq<char>)>::empty());
}

} // verus!
