//! Looking keys up in the shared tier.

use super::entity::{decoded_identity, identity, MemcacheEntity};
use super::memcache::{MemcacheHandler, StoredValue};
use super::policy::{McErrorKind, McResult};
use crate::delta::buffer::bytes_view;
use bytes::Bytes;
use vstd::prelude::*;

verus! {

/// The identity of the value that the shared tier gives for `key`, or `None`
/// where it holds nothing under the key or what it holds deserializes to no
/// value.
pub open spec fn shared_value<V: MemcacheEntity>(
    shared: Map<Seq<char>, StoredValue>,
    key: Seq<char>,
) -> Option<Seq<u8>> {
    if shared.dom().contains(key) {
        decoded_identity::<V>(shared[key].bytes)
    } else {
        None
    }
}

/// A request to the shared tier: keys, each with its logical cache key and
/// its namespaced key.
pub open spec fn triple_views<K>(triples: Seq<(K, String, String)>) -> Seq<
    (K, Seq<char>, Seq<char>),
> {
    triples.map_values(|triple: (K, String, String)| (triple.0, triple.1@, triple.2@))
}

/// Values found in the shared tier, each with its key and its logical cache
/// key, as mathematical values.
pub open spec fn hit_views<K, V: MemcacheEntity>(hits: Seq<(K, V, String)>) -> Seq<
    (K, Seq<u8>, Seq<char>),
> {
    hits.map_values(|hit: (K, V, String)| (hit.0, identity(hit.1), hit.2@))
}

/// The requested keys for which the shared tier gives a value, in the order
/// of the request, each with the identity of the value and the logical
/// cache key.
pub open spec fn memcache_hits<K, V: MemcacheEntity>(
    keys: Seq<(K, Seq<char>, Seq<char>)>,
    shared: Map<Seq<char>, StoredValue>,
) -> Seq<(K, Seq<u8>, Seq<char>)>
    decreases keys.len(),
{
    if keys.len() == 0 {
        Seq::empty()
    } else {
        match shared_value::<V>(shared, keys.last().2) {
            Some(found) => memcache_hits::<K, V>(keys.drop_last(), shared).push(
                (keys.last().0, found, keys.last().1),
            ),
            None => memcache_hits::<K, V>(keys.drop_last(), shared),
        }
    }
}

/// The requested keys for which the shared tier gives no value, in the
/// order of the request.
pub open spec fn memcache_misses<K, V: MemcacheEntity>(
    keys: Seq<(K, Seq<char>, Seq<char>)>,
    shared: Map<Seq<char>, StoredValue>,
) -> Seq<(K, Seq<char>, Seq<char>)>
    decreases keys.len(),
{
    if keys.len() == 0 {
        Seq::empty()
    } else {
        match shared_value::<V>(shared, keys.last().2) {
            Some(_) => memcache_misses::<K, V>(keys.drop_last(), shared),
            None => memcache_misses::<K, V>(keys.drop_last(), shared).push(keys.last()),
        }
    }
}

/// The namespaced keys of a request, in its order.
pub open spec fn memcache_keys_of<K>(keys: Seq<(K, Seq<char>, Seq<char>)>) -> Seq<Seq<char>> {
    keys.map_values(|triple: (K, Seq<char>, Seq<char>)| triple.2)
}

/// Classifies what a lookup in the shared tier came back with: a value, or
/// the reason why there is none. A failure of the tier, nothing held under
/// the key, and bytes that deserialize to no value are told apart.
pub fn classify<V: MemcacheEntity>(looked_up: Result<Option<Bytes>, ()>) -> (res: McResult<V>)
    ensures
        match looked_up {
            Err(_) => res == Err::<V, McErrorKind>(McErrorKind::MemcacheInternal),
            Ok(None) => res == Err::<V, McErrorKind>(McErrorKind::Missing),
            Ok(Some(bytes)) => match decoded_identity::<V>(bytes_view(bytes)) {
                Some(found) => res matches Ok(value) && identity(value) == found,
                None => res == Err::<V, McErrorKind>(McErrorKind::Deserialization),
            },
        },
{
    match looked_up {
        Err(_) => Err(McErrorKind::MemcacheInternal),
        Ok(None) => Err(McErrorKind::Missing),
        Ok(Some(bytes)) => match V::deserialize(bytes) {
            Ok(value) => Ok(value),
            Err(_) => Err(McErrorKind::Deserialization),
        },
    }
}

/// Looks up the keys of a request in the shared tier, and reports the
/// outcome of each lookup. Returns the keys for which the tier gave a
/// value, with their values, and the keys that are left to fetch from the
/// store. No outcome is an error of the request.
pub fn get_multiple_from_memcache<K, V: MemcacheEntity>(
    memcache: &mut MemcacheHandler,
    keys: Vec<(K, String, String)>,
) -> (r: (Vec<(K, V, String)>, Vec<(K, String, String)>))
    requires
        old(memcache).wf(),
    ensures
        final(memcache).wf(),
        final(memcache).contents() == old(memcache).contents(),
        final(memcache).pending() == old(memcache).pending(),
        final(memcache).probed() == old(memcache).probed() + memcache_keys_of(triple_views(keys@)),
        hit_views(r.0@) == memcache_hits::<K, V>(triple_views(keys@), old(memcache).contents()),
        triple_views(r.1@) == memcache_misses::<K, V>(
            triple_views(keys@),
            old(memcache).contents(),
        ),
{
    let mut fetched: Vec<(K, V, String)> = Vec::new();
    let mut left_to_fetch: Vec<(K, String, String)> = Vec::new();
    let ghost all = triple_views(keys@);
    let ghost shared = memcache.contents();
    proof {
        assert(memcache.probed() =~= memcache.probed() + memcache_keys_of(all.take(0)));
        assert(hit_views(fetched@) =~= memcache_hits::<K, V>(all.take(0), shared));
        assert(triple_views(left_to_fetch@) =~= memcache_misses::<K, V>(all.take(0), shared));
    }
    for triple in it: keys
        invariant
            triple_views(it.seq()) == all,
            memcache.wf(),
            memcache.contents() == shared,
            memcache.pending() == old(memcache).pending(),
            memcache.probed() == old(memcache).probed() + memcache_keys_of(
                all.take(it.index() as int),
            ),
            hit_views(fetched@) == memcache_hits::<K, V>(all.take(it.index() as int), shared),
            triple_views(left_to_fetch@) == memcache_misses::<K, V>(
                all.take(it.index() as int),
                shared,
            ),
    {
        let ghost done = all.take(it.index() + 1);
        proof {
            assert(done.drop_last() =~= all.take(it.index() as int));
            assert(done.last() == (triple.0, triple.1@, triple.2@));
            assert(memcache_keys_of(done) =~= memcache_keys_of(done.drop_last()).push(triple.2@));
        }
        let ghost probed_before = memcache.probed();
        let res: McResult<V> = classify(memcache.get(triple.2.clone()));
        V::report_mc_result(&res);
        match res {
            Ok(entity) => {
                proof {
                    assert(hit_views(fetched@.push((triple.0, entity, triple.1))) =~= hit_views(
                        fetched@,
                    ).push((triple.0, identity(entity), triple.1@)));
                }
                fetched.push((triple.0, entity, triple.1));
            },
            Err(_) => {
                proof {
                    assert(triple_views(left_to_fetch@.push(triple)) =~= triple_views(
                        left_to_fetch@,
                    ).push((triple.0, triple.1@, triple.2@)));
                }
                left_to_fetch.push(triple);
            },
        }
        proof {
            assert(probed_before.push(triple.2@) =~= old(memcache).probed() + memcache_keys_of(
                done,
            ));
        }
    }
    proof {
        assert(all.take(all.len() as int) =~= all);
    }
    (fetched, left_to_fetch)
}

} // verus!
