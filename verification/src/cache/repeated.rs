//! What holds of a lookup that is made a second time.

use super::cachelib::{cachelib_hits, cachelib_misses, entry_identities};
use super::coordinator::{
    answered, asked_of_memcache, filled_with, found_in_cachelib, found_in_memcache, left_for_store, offered, probed, request_of,
};
use super::entity::{identity, KeyedEntityStore, MemcacheEntity};
use super::filling::{cacheable, fast_after, Caches, Filling};
use super::laws::{
    keys_of, lemma_all_held, lemma_fast_after_keys, lemma_left_was_asked, offered_to_fast,
};
use super::lookup::{memcache_hits, memcache_misses, shared_value};
use super::memcache::StoredValue;
use super::policy::{CacheDisposition, CacheTtl};
use vstd::prelude::*;

verus! {

/// What the fast tier holds under a key after values have been offered is
/// what it held, or one of the values that were offered under the key and
/// may be cached without limit.
pub proof fn lemma_fast_after_source(
    fast: Map<Seq<char>, Seq<u8>>,
    fillings: Seq<Filling>,
    key: Seq<char>,
)
    requires
        fast_after(fast, cacheable(fillings, false)).dom().contains(key),
    ensures
        (fast.dom().contains(key) && fast_after(fast, cacheable(fillings, false))[key] == fast[key])
            || exists|i: int|
            0 <= i < fillings.len() && (#[trigger] fillings[i]).cachelib_key == key
                && fillings[i].disposition == CacheDisposition::Cache(CacheTtl::NoTtl)
                && fast_after(fast, cacheable(fillings, false))[key] == fillings[i].identity,
    decreases fillings.len(),
{
    if fillings.len() > 0 {
        let front = fillings.drop_last();
        let last = fillings.last();
        let after = fast_after(fast, cacheable(fillings, false));
        let earlier = fast_after(fast, cacheable(front, false));
        match last.disposition {
            CacheDisposition::Cache(ttl) => {
                assert(cacheable(fillings, false).drop_last() =~= cacheable(front, false));
            },
            CacheDisposition::Ignore => {},
        }
        if last.disposition == CacheDisposition::Cache(CacheTtl::NoTtl) && last.cachelib_key
            == key {
            assert(fillings[fillings.len() - 1].cachelib_key == key);
            assert(after[key] == last.identity);
        } else {
            assert(earlier.dom().contains(key));
            assert(after[key] == earlier[key]);
            lemma_fast_after_source(fast, front, key);
            if !(fast.dom().contains(key) && earlier[key] == fast[key]) {
                let i = choose|i: int|
                    0 <= i < front.len() && (#[trigger] front[i]).cachelib_key == key
                        && front[i].disposition == CacheDisposition::Cache(CacheTtl::NoTtl)
                        && earlier[key] == front[i].identity;
                assert(fillings[i] == front[i]);
            }
        }
    }
}

/// A requested key that the fast tier holds is among the hits, with the
/// identity held.
pub proof fn lemma_hit_listed<K>(
    pairs: Seq<(K, Seq<char>)>,
    fast: Map<Seq<char>, Seq<u8>>,
    i: int,
)
    requires
        0 <= i < pairs.len(),
        fast.dom().contains(pairs[i].1),
    ensures
        cachelib_hits(pairs, fast).contains((pairs[i].0, fast[pairs[i].1])),
    decreases pairs.len(),
{
    let hits = cachelib_hits(pairs, fast);
    let front = pairs.drop_last();
    if i == pairs.len() - 1 {
        assert(hits[hits.len() - 1] == (pairs[i].0, fast[pairs[i].1]));
    } else {
        assert(front[i] == pairs[i]);
        lemma_hit_listed(front, fast, i);
        let earlier = cachelib_hits(front, fast);
        let p = choose|p: int| 0 <= p < earlier.len() && earlier[p] == (pairs[i].0, fast[pairs[i].1]);
        assert(hits[p] == earlier[p]);
    }
}

/// A requested key that the fast tier does not hold is among the misses.
pub proof fn lemma_miss_listed<K>(
    pairs: Seq<(K, Seq<char>)>,
    fast: Map<Seq<char>, Seq<u8>>,
    i: int,
)
    requires
        0 <= i < pairs.len(),
        !fast.dom().contains(pairs[i].1),
    ensures
        cachelib_misses(pairs, fast).contains(pairs[i]),
    decreases pairs.len(),
{
    let misses = cachelib_misses(pairs, fast);
    let front = pairs.drop_last();
    if i == pairs.len() - 1 {
        assert(misses[misses.len() - 1] == pairs[i]);
    } else {
        assert(front[i] == pairs[i]);
        lemma_miss_listed(front, fast, i);
        let earlier = cachelib_misses(front, fast);
        let p = choose|p: int| 0 <= p < earlier.len() && earlier[p] == pairs[i];
        assert(misses[p] == earlier[p]);
    }
}

/// Every miss of the fast tier is a key of the request.
pub proof fn lemma_misses_requested<K>(pairs: Seq<(K, Seq<char>)>, fast: Map<Seq<char>, Seq<u8>>)
    ensures
        forall|j: int|
            0 <= j < cachelib_misses(pairs, fast).len() ==> pairs.contains(
                #[trigger] cachelib_misses(pairs, fast)[j],
            ),
    decreases pairs.len(),
{
    if pairs.len() > 0 {
        let front = pairs.drop_last();
        lemma_misses_requested(front, fast);
        let misses = cachelib_misses(pairs, fast);
        let earlier = cachelib_misses(front, fast);
        assert forall|j: int| 0 <= j < misses.len() implies pairs.contains(#[trigger] misses[j]) by {
            if j < earlier.len() {
                assert(misses[j] == earlier[j]);
                assert(front.contains(earlier[j]));
                let i = choose|i: int| 0 <= i < front.len() && front[i] == earlier[j];
                assert(pairs[i] == earlier[j]);
            } else {
                assert(pairs[pairs.len() - 1] == misses[j]);
            }
        }
    }
}

/// A key for which the shared tier gives a value is among the hits, with
/// the identity of the value.
pub proof fn lemma_given_listed<K, V: MemcacheEntity>(
    triples: Seq<(K, Seq<char>, Seq<char>)>,
    shared: Map<Seq<char>, StoredValue>,
    i: int,
)
    requires
        0 <= i < triples.len(),
        shared_value::<V>(shared, triples[i].2).is_some(),
    ensures
        memcache_hits::<K, V>(triples, shared).contains(
            (triples[i].0, shared_value::<V>(shared, triples[i].2).unwrap(), triples[i].1),
        ),
    decreases triples.len(),
{
    let hits = memcache_hits::<K, V>(triples, shared);
    let front = triples.drop_last();
    let wanted = (triples[i].0, shared_value::<V>(shared, triples[i].2).unwrap(), triples[i].1);
    if i == triples.len() - 1 {
        assert(hits[hits.len() - 1] == wanted);
    } else {
        assert(front[i] == triples[i]);
        lemma_given_listed::<K, V>(front, shared, i);
        let earlier = memcache_hits::<K, V>(front, shared);
        let p = choose|p: int| 0 <= p < earlier.len() && earlier[p] == wanted;
        assert(hits[p] == earlier[p]);
    }
}

/// A key for which the shared tier gives no value is among the misses.
pub proof fn lemma_left_listed<K, V: MemcacheEntity>(
    triples: Seq<(K, Seq<char>, Seq<char>)>,
    shared: Map<Seq<char>, StoredValue>,
    i: int,
)
    requires
        0 <= i < triples.len(),
        shared_value::<V>(shared, triples[i].2).is_none(),
    ensures
        memcache_misses::<K, V>(triples, shared).contains(triples[i]),
    decreases triples.len(),
{
    let misses = memcache_misses::<K, V>(triples, shared);
    let front = triples.drop_last();
    if i == triples.len() - 1 {
        assert(misses[misses.len() - 1] == triples[i]);
    } else {
        assert(front[i] == triples[i]);
        lemma_left_listed::<K, V>(front, shared, i);
        let earlier = memcache_misses::<K, V>(front, shared);
        let p = choose|p: int| 0 <= p < earlier.len() && earlier[p] == triples[i];
        assert(misses[p] == earlier[p]);
    }
}

/// Every value that the shared tier gives is given for a key of the
/// request.
pub proof fn lemma_hits_were_asked<K, V: MemcacheEntity>(
    triples: Seq<(K, Seq<char>, Seq<char>)>,
    shared: Map<Seq<char>, StoredValue>,
)
    ensures
        forall|j: int|
            0 <= j < memcache_hits::<K, V>(triples, shared).len() ==> exists|i: int|
                0 <= i < triples.len() && (#[trigger] triples[i]).0 == (
                #[trigger] memcache_hits::<K, V>(triples, shared)[j]).0,
    decreases triples.len(),
{
    if triples.len() > 0 {
        let front = triples.drop_last();
        lemma_hits_were_asked::<K, V>(front, shared);
        let hits = memcache_hits::<K, V>(triples, shared);
        let earlier = memcache_hits::<K, V>(front, shared);
        assert forall|j: int| 0 <= j < hits.len() implies exists|i: int|
            0 <= i < triples.len() && (#[trigger] triples[i]).0 == (#[trigger] hits[j]).0 by {
            if j < earlier.len() {
                assert(hits[j] == earlier[j]);
                let i = choose|i: int| 0 <= i < front.len() && (#[trigger] front[i]).0 == earlier[j].0;
                assert(triples[i].0 == hits[j].0);
            } else {
                assert(triples[triples.len() - 1].0 == hits[j].0);
            }
        }
    }
}

/// Whether no two different keys of `keys` have the same logical cache key.
pub open spec fn no_collision<K, V, S: KeyedEntityStore<K, V>>(store: &S, keys: Seq<K>) -> bool {
    forall|i: int, j: int|
        0 <= i < keys.len() && 0 <= j < keys.len() && store.cache_key(&(#[trigger] keys[i]))@
            == store.cache_key(&(#[trigger] keys[j]))@ ==> keys[i] == keys[j]
}

/// Every key that is asked of the shared tier is a key of the request.
proof fn lemma_asked_were_requested<K, V: MemcacheEntity, S: KeyedEntityStore<K, V>>(
    store: &S,
    caches: Caches<V>,
    keys: Seq<K>,
)
    ensures
        forall|q: int|
            0 <= q < asked_of_memcache(store, caches, keys).len() ==> exists|i: int|
                0 <= i < keys.len() && (#[trigger] keys[i]) == (#[trigger] asked_of_memcache(
                    store,
                    caches,
                    keys,
                )[q]).0,
{
    let request = request_of(store, keys);
    let fast = caches.cachelib.contents();
    let misses = cachelib_misses(request, fast);
    let asked = asked_of_memcache(store, caches, keys);
    lemma_misses_requested(request, fast);
    assert forall|q: int| 0 <= q < asked.len() implies exists|i: int|
        0 <= i < keys.len() && (#[trigger] keys[i]) == (#[trigger] asked[q]).0 by {
        assert(asked[q].0 == misses[q].0);
        assert(request.contains(misses[q]));
        let i = choose|i: int| 0 <= i < request.len() && request[i] == misses[q];
        assert(keys[i] == asked[q].0);
    }
}

/// The number of requested keys that the fast tier holds.
pub open spec fn fast_count<K, V: MemcacheEntity, S: KeyedEntityStore<K, V>>(
    store: &S,
    caches: Caches<V>,
    keys: Seq<K>,
) -> int {
    found_in_cachelib(store, caches, keys).len() as int
}

/// The number of requested keys that one of the two tiers gives a value
/// for.
pub open spec fn cached_count<K, V: MemcacheEntity, S: KeyedEntityStore<K, V>>(
    store: &S,
    caches: Caches<V>,
    keys: Seq<K>,
) -> int {
    (found_in_cachelib(store, caches, keys).len() + found_in_memcache(
        store,
        caches,
        keys,
    ).len()) as int
}

/// What the first of two lookups of `keys` is taken to have been: it
/// succeeded with `entries` and left the tiers as `after`; no two different
/// keys have the same logical cache key; every value that it returned may be
/// cached without limit; and the backing store gave a value for each key
/// that it was asked for, in the order asked.
pub open spec fn first_lookup<K, V: MemcacheEntity, S: KeyedEntityStore<K, V>>(
    store: &S,
    before: Caches<V>,
    after: Caches<V>,
    keys: Seq<K>,
    entries: Seq<(K, V)>,
) -> bool {
    let found = cached_count(store, before, keys);
    &&& answered(store, before, after, keys, entries)
    &&& no_collision::<K, V, S>(store, keys)
    &&& forall|j: int|
        0 <= j < entries.len() ==> store.disposition(&(#[trigger] entries[j]).1)
            == CacheDisposition::Cache(CacheTtl::NoTtl)
    &&& keys_of(entries.skip(found)) == left_for_store(store, before, keys)
}

/// After a first lookup, the fast tier holds under the logical cache key of
/// each requested key a value that the first lookup returned for that key.
proof fn lemma_second_lookup_at<K, V: MemcacheEntity, S: KeyedEntityStore<K, V>>(
    store: &S,
    before: Caches<V>,
    mid: Caches<V>,
    after: Caches<V>,
    keys: Seq<K>,
    entries: Seq<(K, V)>,
    i: int,
)
    requires
        first_lookup(store, before, after, keys, entries),
        probed(
            store,
            before,
            mid,
            keys,
            entries.subrange(
                fast_count(store, before, keys),
                cached_count(store, before, keys),
            ),
        ),
        filled_with(store, mid, after, entries.skip(cached_count(store, before, keys))),
        0 <= i < keys.len(),
    ensures
        after.cachelib.contents().dom().contains(store.cache_key(&keys[i])@),
        exists|j: int|
            0 <= j < entries.len() && (#[trigger] entries[j]).0 == keys[i] && identity(
                entries[j].1,
            ) == after.cachelib.contents()[store.cache_key(&keys[i])@],
{
    let n1 = found_in_cachelib(store, before, keys).len() as int;
    let n2 = found_in_memcache(store, before, keys).len() as int;
    let a = entries.subrange(0, n1);
    let b = entries.subrange(n1, n1 + n2);
    let c = entries.skip(n1 + n2);
    let request = request_of(store, keys);
    let key = store.cache_key(&keys[i])@;
    assert(request[i] == (keys[i], key));
    let fast0 = before.cachelib.contents();
    let fast1 = mid.cachelib.contents();
    let fast2 = after.cachelib.contents();
    let shared = before.memcache.contents();
    let misses = cachelib_misses(request, fast0);
    let asked = asked_of_memcache(store, before, keys);
    let given = memcache_hits::<K, V>(asked, shared);
    let left = memcache_misses::<K, V>(asked, shared);
    let offered_b = offered(store, before.keygen, b);
    let offered_c = offered(store, mid.keygen, c);
    lemma_fast_after_keys(fast0, offered_b, key);
    lemma_fast_after_keys(fast1, offered_c, key);
    lemma_asked_were_requested(store, before, keys);
    // The key is held afterwards.
    if !fast0.dom().contains(key) {
        lemma_miss_listed(request, fast0, i);
        let q = choose|q: int| 0 <= q < misses.len() && misses[q] == request[i];
        assert(asked[q].0 == keys[i] && asked[q].1 == key);
        if shared_value::<V>(shared, asked[q].2).is_some() {
            lemma_given_listed::<K, V>(asked, shared, q);
            let wanted = (asked[q].0, shared_value::<V>(shared, asked[q].2).unwrap(), asked[q].1);
            let p = choose|p: int| 0 <= p < given.len() && given[p] == wanted;
            assert(entry_identities(b)[p] == (given[p].0, given[p].1));
            assert(b[p] == entries[n1 + p]);
            assert(offered_b[p].cachelib_key == key);
            assert(offered_to_fast(offered_b, key));
        } else {
            lemma_left_listed::<K, V>(asked, shared, q);
            let p = choose|p: int| 0 <= p < left.len() && left[p] == asked[q];
            assert(left_for_store(store, before, keys)[p] == keys[i]);
            assert(keys_of(c)[p] == keys[i]);
            assert(c[p] == entries[n1 + n2 + p]);
            assert(offered_c[p].cachelib_key == key);
            assert(offered_to_fast(offered_c, key));
        }
    }
    assert(fast2.dom().contains(key));
    // What is held is a value that was returned for the key.
    lemma_fast_after_source(fast1, offered_c, key);
    if fast1.dom().contains(key) && fast2[key] == fast1[key] {
        lemma_fast_after_source(fast0, offered_b, key);
        if fast0.dom().contains(key) && fast1[key] == fast0[key] {
            lemma_hit_listed(request, fast0, i);
            let hits = cachelib_hits(request, fast0);
            let p = choose|p: int| 0 <= p < hits.len() && hits[p] == (keys[i], fast0[key]);
            assert(entry_identities(a)[p] == hits[p]);
            assert(a[p] == entries[p]);
            assert(entries[p].0 == keys[i] && identity(entries[p].1) == fast2[key]);
        } else {
            let p = choose|p: int|
                0 <= p < offered_b.len() && (#[trigger] offered_b[p]).cachelib_key == key
                    && offered_b[p].disposition == CacheDisposition::Cache(CacheTtl::NoTtl)
                    && fast1[key] == offered_b[p].identity;
            assert(entry_identities(b)[p] == (given[p].0, given[p].1));
            lemma_hits_were_asked::<K, V>(asked, shared);
            let q = choose|q: int| 0 <= q < asked.len() && (#[trigger] asked[q]).0 == given[p].0;
            let r = choose|r: int| 0 <= r < keys.len() && (#[trigger] keys[r]) == asked[q].0;
            assert(store.cache_key(&keys[r])@ == key);
            assert(b[p] == entries[n1 + p]);
            assert(entries[n1 + p].0 == keys[i] && identity(entries[n1 + p].1) == fast2[key]);
        }
    } else {
        let p = choose|p: int|
            0 <= p < offered_c.len() && (#[trigger] offered_c[p]).cachelib_key == key
                && offered_c[p].disposition == CacheDisposition::Cache(CacheTtl::NoTtl)
                && fast2[key] == offered_c[p].identity;
        assert(keys_of(c)[p] == c[p].0);
        assert(left_for_store(store, before, keys)[p] == left[p].0);
        lemma_left_was_asked::<K, V>(asked, shared);
        assert(asked.contains(left[p]));
        let q = choose|q: int| 0 <= q < asked.len() && asked[q] == left[p];
        let r = choose|r: int| 0 <= r < keys.len() && (#[trigger] keys[r]) == asked[q].0;
        assert(store.cache_key(&keys[r])@ == key);
        assert(c[p] == entries[n1 + n2 + p]);
        assert(entries[n1 + n2 + p].0 == keys[i] && identity(entries[n1 + n2 + p].1)
            == fast2[key]);
    }
}

/// A second lookup gives what the first one gave, and asks nobody but the
/// fast tier: after a first lookup of `keys`, a lookup of the same keys
/// finds every key in the fast tier, with a value that the first lookup
/// returned for that key; the shared tier is asked for nothing, and nothing
/// is left for the backing store.
pub proof fn lemma_second_lookup<K, V: MemcacheEntity, S: KeyedEntityStore<K, V>>(
    store: &S,
    before: Caches<V>,
    after: Caches<V>,
    keys: Seq<K>,
    entries: Seq<(K, V)>,
)
    requires
        first_lookup(store, before, after, keys, entries),
    ensures
        asked_of_memcache(store, after, keys).len() == 0,
        found_in_memcache(store, after, keys).len() == 0,
        left_for_store(store, after, keys).len() == 0,
        found_in_cachelib(store, after, keys).len() == keys.len(),
        forall|i: int|
            0 <= i < keys.len() ==> (#[trigger] found_in_cachelib(store, after, keys)[i]).0
                == keys[i] && exists|j: int|
                0 <= j < entries.len() && (#[trigger] entries[j]).0 == keys[i] && identity(
                    entries[j].1,
                ) == found_in_cachelib(store, after, keys)[i].1,
{
    let n1 = found_in_cachelib(store, before, keys).len() as int;
    let n2 = found_in_memcache(store, before, keys).len() as int;
    let b = entries.subrange(n1, n1 + n2);
    let c = entries.skip(n1 + n2);
    let mid = choose|mid: Caches<V>|
        #![trigger probed(store, before, mid, keys, b)]
        probed(store, before, mid, keys, b) && filled_with(store, mid, after, c);
    let request = request_of(store, keys);
    let fast = after.cachelib.contents();
    assert forall|i: int| 0 <= i < request.len() implies fast.dom().contains(
        (#[trigger] request[i]).1,
    ) by {
        lemma_second_lookup_at(store, before, mid, after, keys, entries, i);
    }
    lemma_all_held(request, fast);
    let found = found_in_cachelib(store, after, keys);
    let asked = asked_of_memcache(store, after, keys);
    assert(asked =~= Seq::<(K, Seq<char>, Seq<char>)>::empty());
    assert forall|i: int| 0 <= i < keys.len() implies (#[trigger] found[i]).0 == keys[i]
        && exists|j: int|
        0 <= j < entries.len() && (#[trigger] entries[j]).0 == keys[i] && identity(entries[j].1)
            == found[i].1 by {
        lemma_second_lookup_at(store, before, mid, after, keys, entries, i);
        assert(found[i] == (request[i].0, fast[request[i].1]));
    }
}

} // verus!
