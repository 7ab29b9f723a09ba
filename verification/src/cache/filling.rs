//! Writing values into the two tiers, as far as their dispositions allow.

use super::cachelib::CachelibHandler;
use super::entity::{identity, EntityStore, MemcacheEntity};
use super::keygen::KeyGen;
use super::memcache::{
    shared_after, MemcacheHandler, MemcacheWrite, StoredValue, MEMCACHE_VALUE_MAX_SIZE,
};
use super::policy::{CacheDisposition, CacheTtl};
use vstd::prelude::*;

verus! {

/// The two tiers and the generator of the keys of the shared one.
pub struct Caches<V> {
    pub cachelib: CachelibHandler<V>,
    pub memcache: MemcacheHandler,
    pub keygen: KeyGen,
}

impl<V: MemcacheEntity> Caches<V> {
    /// The invariant: that of both tiers.
    pub open spec fn wf(&self) -> bool {
        self.cachelib.wf() && self.memcache.wf()
    }

    /// Two empty tiers, with the keys of the shared one generated by
    /// `keygen`.
    pub fn new_mock(keygen: KeyGen) -> (caches: Self)
        ensures
            caches.wf(),
            caches.keygen == keygen,
            caches.cachelib.contents() == Map::<Seq<char>, Seq<u8>>::empty(),
            caches.cachelib.probed() == Seq::<Seq<char>>::empty(),
            caches.memcache.contents() == Map::<Seq<char>, StoredValue>::empty(),
            caches.memcache.probed() == Seq::<Seq<char>>::empty(),
            caches.memcache.pending() == Seq::<(Seq<char>, StoredValue)>::empty(),
    {
        Caches {
            cachelib: CachelibHandler::create_mock(),
            memcache: MemcacheHandler::create_mock(),
            keygen,
        }
    }
}

/// A value that is offered to the tiers: its two keys, its disposition and
/// its identity.
pub struct Filling {
    pub cachelib_key: Seq<char>,
    pub memcache_key: Seq<char>,
    pub disposition: CacheDisposition,
    pub identity: Seq<u8>,
}

/// A value that may be cached: the key of one tier, for how long the value
/// may live, and its identity.
pub struct Keyed {
    pub key: Seq<char>,
    pub ttl: CacheTtl,
    pub identity: Seq<u8>,
}

/// The offered values that may be cached, under one of their two keys, in
/// their order.
pub open spec fn cacheable(fillings: Seq<Filling>, for_memcache: bool) -> Seq<Keyed>
    decreases fillings.len(),
{
    if fillings.len() == 0 {
        Seq::empty()
    } else {
        let last = fillings.last();
        match last.disposition {
            CacheDisposition::Cache(ttl) => cacheable(fillings.drop_last(), for_memcache).push(
                Keyed {
                    key: if for_memcache {
                        last.memcache_key
                    } else {
                        last.cachelib_key
                    },
                    ttl,
                    identity: last.identity,
                },
            ),
            CacheDisposition::Ignore => cacheable(fillings.drop_last(), for_memcache),
        }
    }
}

/// What the fast tier holds after `values` have been offered to it, in their
/// order: it takes the values that may live without limit, and passes over
/// the others.
pub open spec fn fast_after(fast: Map<Seq<char>, Seq<u8>>, values: Seq<Keyed>) -> Map<
    Seq<char>,
    Seq<u8>,
>
    decreases values.len(),
{
    if values.len() == 0 {
        fast
    } else {
        let last = values.last();
        match last.ttl {
            CacheTtl::NoTtl => fast_after(fast, values.drop_last()).insert(
                last.key,
                last.identity,
            ),
            CacheTtl::Ttl(_) => fast_after(fast, values.drop_last()),
        }
    }
}

/// The writes to the shared tier that `values` give rise to, in their
/// order: a value whose serialized form reaches `MEMCACHE_VALUE_MAX_SIZE` is
/// passed over.
pub open spec fn writes_of(values: Seq<Keyed>) -> Seq<(Seq<char>, StoredValue)>
    decreases values.len(),
{
    if values.len() == 0 {
        Seq::empty()
    } else {
        let last = values.last();
        if last.identity.len() >= MEMCACHE_VALUE_MAX_SIZE {
            writes_of(values.drop_last())
        } else {
            writes_of(values.drop_last()).push(
                (last.key, StoredValue { bytes: last.identity, ttl: last.ttl }),
            )
        }
    }
}

/// The values of a list that is handed to one tier, as mathematical values.
pub open spec fn keyed_views<V: MemcacheEntity>(data: Seq<(String, CacheTtl, &V)>) -> Seq<Keyed> {
    data.map_values(
        |entry: (String, CacheTtl, &V)|
            Keyed { key: entry.0@, ttl: entry.1, identity: identity(*entry.2) },
    )
}

/// The values of a list that is offered to both tiers, as mathematical
/// values.
pub open spec fn filling_views<V: MemcacheEntity, S: EntityStore<V>>(
    store: &S,
    data: Seq<(String, String, &V)>,
) -> Seq<Filling> {
    data.map_values(
        |entry: (String, String, &V)|
            Filling {
                cachelib_key: entry.0@,
                memcache_key: entry.1@,
                disposition: store.disposition(entry.2),
                identity: identity(*entry.2),
            },
    )
}

/// Offers `data` to the fast tier: values that may live without limit are
/// written; a limited lifetime is not supported by this tier, so the others
/// are passed over.
pub fn fill_multiple_cachelib<V: MemcacheEntity>(
    cachelib: &mut CachelibHandler<V>,
    data: Vec<(String, CacheTtl, &V)>,
)
    requires
        old(cachelib).wf(),
    ensures
        final(cachelib).wf(),
        final(cachelib).contents() == fast_after(old(cachelib).contents(), keyed_views(data@)),
        final(cachelib).probed() == old(cachelib).probed(),
{
    let ghost all = data@;
    proof {
        assert(keyed_views(all.take(0)) =~= Seq::<Keyed>::empty());
    }
    for entry in it: data
        invariant
            it.seq() == all,
            cachelib.wf(),
            cachelib.probed() == old(cachelib).probed(),
            cachelib.contents() == fast_after(
                old(cachelib).contents(),
                keyed_views(all.take(it.index() as int)),
            ),
    {
        proof {
            let done = all.take(it.index() + 1);
            assert(done.drop_last() =~= all.take(it.index() as int));
            assert(keyed_views(done).drop_last() =~= keyed_views(done.drop_last()));
            assert(keyed_views(done).last() == (Keyed {
                key: entry.0@,
                ttl: entry.1,
                identity: identity(*entry.2),
            }));
        }
        match entry.1 {
            CacheTtl::NoTtl => {
                cachelib.set_cached(&entry.0, entry.2);
            },
            CacheTtl::Ttl(_) => {},
        }
    }
    proof {
        assert(all.take(all.len() as int) =~= all);
    }
}

/// Offers `data` to the shared tier: each value is serialized and, unless
/// its serialized form reaches `MEMCACHE_VALUE_MAX_SIZE`, written with its
/// lifetime. With `spawn` the writes are left to run in the background;
/// without it they are done before the call returns.
pub fn fill_multiple_memcache<V: MemcacheEntity>(
    memcache: &mut MemcacheHandler,
    data: Vec<(String, CacheTtl, &V)>,
    spawn: bool,
)
    requires
        old(memcache).wf(),
    ensures
        final(memcache).wf(),
        final(memcache).probed() == old(memcache).probed(),
        spawn ==> final(memcache).contents() == old(memcache).contents() && final(memcache).pending() == old(memcache).pending() + writes_of(keyed_views(data@)),
        !spawn ==> final(memcache).pending() == old(memcache).pending() && final(memcache).contents() == shared_after(old(memcache).contents(), writes_of(keyed_views(data@))),
{
    let ghost all = data@;
    proof {
        assert(keyed_views(all.take(0)) =~= Seq::<Keyed>::empty());
        assert(old(memcache).pending() + writes_of(keyed_views(all.take(0))) =~= old(memcache).pending());
    }
    for entry in it: data
        invariant
            it.seq() == all,
            memcache.wf(),
            memcache.probed() == old(memcache).probed(),
            spawn ==> memcache.contents() == old(memcache).contents() && memcache.pending() == old(memcache).pending() + writes_of(keyed_views(all.take(it.index() as int))),
            !spawn ==> memcache.pending() == old(memcache).pending() && memcache.contents()
                == shared_after(
                old(memcache).contents(),
                writes_of(keyed_views(all.take(it.index() as int))),
            ),
    {
        let ghost before = writes_of(keyed_views(all.take(it.index() as int)));
        proof {
            let done = all.take(it.index() + 1);
            assert(done.drop_last() =~= all.take(it.index() as int));
            assert(keyed_views(done).drop_last() =~= keyed_views(done.drop_last()));
            assert(keyed_views(done).last() == (Keyed {
                key: entry.0@,
                ttl: entry.1,
                identity: identity(*entry.2),
            }));
        }
        let bytes = entry.2.serialize();
        if bytes.len() < MEMCACHE_VALUE_MAX_SIZE {
            let ghost write = (entry.0@, StoredValue { bytes: identity(*entry.2), ttl: entry.1 });
            proof {
                assert(old(memcache).pending() + before.push(write) =~= (old(memcache).pending()
                    + before).push(write));
                assert(before.push(write).drop_last() =~= before);
            }
            if spawn {
                memcache.submit(MemcacheWrite { key: entry.0, value: bytes, ttl: entry.1 });
            } else {
                match entry.1 {
                    CacheTtl::NoTtl => {
                        let _ = memcache.set(entry.0, bytes);
                    },
                    CacheTtl::Ttl(ttl) => {
                        let _ = memcache.set_with_ttl(entry.0, bytes, ttl);
                    },
                }
            }
        }
    }
    proof {
        assert(all.take(all.len() as int) =~= all);
    }
}

/// Offers `data` to both tiers. A value that its store wants ignored is
/// written to neither; the others are written as `fill_multiple_cachelib`
/// and `fill_multiple_memcache` say, the shared tier in the background where
/// the store asks for that.
pub fn fill_caches_by_key<V: MemcacheEntity, S: EntityStore<V>>(
    store: &S,
    caches: &mut Caches<V>,
    data: Vec<(String, String, &V)>,
) -> (spawn: bool)
    requires
        old(caches).wf(),
    ensures
        final(caches).wf(),
        final(caches).keygen == old(caches).keygen,
        final(caches).cachelib.probed() == old(caches).cachelib.probed(),
        final(caches).memcache.probed() == old(caches).memcache.probed(),
        final(caches).cachelib.contents() == fast_after(
            old(caches).cachelib.contents(),
            cacheable(filling_views(store, data@), false),
        ),
        spawn ==> final(caches).memcache.contents() == old(caches).memcache.contents() && final(caches).memcache.pending() == old(caches).memcache.pending() + writes_of(
            cacheable(filling_views(store, data@), true),
        ),
        !spawn ==> final(caches).memcache.pending() == old(caches).memcache.pending() && final(caches).memcache.contents() == shared_after(
            old(caches).memcache.contents(),
            writes_of(cacheable(filling_views(store, data@), true)),
        ),
{
    let mut cachelib_keys: Vec<(String, CacheTtl, &V)> = Vec::new();
    let mut memcache_keys: Vec<(String, CacheTtl, &V)> = Vec::new();
    let ghost all = data@;
    proof {
        assert(filling_views(store, all.take(0)) =~= Seq::<Filling>::empty());
        assert(keyed_views(cachelib_keys@) =~= Seq::<Keyed>::empty());
        assert(keyed_views(memcache_keys@) =~= Seq::<Keyed>::empty());
    }
    for entry in it: data
        invariant
            it.seq() == all,
            keyed_views(cachelib_keys@) == cacheable(
                filling_views(store, all.take(it.index() as int)),
                false,
            ),
            keyed_views(memcache_keys@) == cacheable(
                filling_views(store, all.take(it.index() as int)),
                true,
            ),
    {
        proof {
            let done = all.take(it.index() + 1);
            assert(done.drop_last() =~= all.take(it.index() as int));
            assert(filling_views(store, done).drop_last() =~= filling_views(
                store,
                done.drop_last(),
            ));
            assert(filling_views(store, done).last() == (Filling {
                cachelib_key: entry.0@,
                memcache_key: entry.1@,
                disposition: store.disposition(entry.2),
                identity: identity(*entry.2),
            }));
        }
        match store.cache_determinator(entry.2) {
            CacheDisposition::Cache(ttl) => {
                proof {
                    assert(keyed_views(cachelib_keys@.push((entry.0, ttl, entry.2)))
                        =~= keyed_views(cachelib_keys@).push(
                        Keyed { key: entry.0@, ttl, identity: identity(*entry.2) },
                    ));
                    assert(keyed_views(memcache_keys@.push((entry.1, ttl, entry.2)))
                        =~= keyed_views(memcache_keys@).push(
                        Keyed { key: entry.1@, ttl, identity: identity(*entry.2) },
                    ));
                }
                memcache_keys.push((entry.1, ttl, entry.2));
                cachelib_keys.push((entry.0, ttl, entry.2));
            },
            CacheDisposition::Ignore => {},
        }
    }
    proof {
        assert(all.take(all.len() as int) =~= all);
    }
    fill_multiple_cachelib(&mut caches.cachelib, cachelib_keys);
    let spawn = store.spawn_memcache_writes();
    fill_multiple_memcache(&mut caches.memcache, memcache_keys, spawn);
    spawn
}

} // verus!
