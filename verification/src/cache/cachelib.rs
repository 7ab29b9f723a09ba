//! The fast tier: an in-process map from logical cache keys to values.

use super::entity::{copy_of, identity, MemcacheEntity};
use super::table::Table;
use vstd::prelude::*;

verus! {

/// The keys that the fast tier holds, each with the identity of its value,
/// given the values themselves.
pub open spec fn identities<V: MemcacheEntity>(values: Map<Seq<char>, V>) -> Map<
    Seq<char>,
    Seq<u8>,
> {
    Map::new(|key: Seq<char>| values.dom().contains(key), |key: Seq<char>| identity(values[key]))
}

/// A request: keys, each with its logical cache key.
pub open spec fn pair_views<K>(pairs: Seq<(K, String)>) -> Seq<(K, Seq<char>)> {
    pairs.map_values(|pair: (K, String)| (pair.0, pair.1@))
}

/// The requested keys that the fast tier holds, in the order of the
/// request, each with the identity of the value held.
pub open spec fn cachelib_hits<K>(keys: Seq<(K, Seq<char>)>, fast: Map<Seq<char>, Seq<u8>>) -> Seq<
    (K, Seq<u8>),
>
    decreases keys.len(),
{
    if keys.len() == 0 {
        Seq::empty()
    } else if fast.dom().contains(keys.last().1) {
        cachelib_hits(keys.drop_last(), fast).push((keys.last().0, fast[keys.last().1]))
    } else {
        cachelib_hits(keys.drop_last(), fast)
    }
}

/// The requested keys that the fast tier does not hold, in the order of the
/// request.
pub open spec fn cachelib_misses<K>(keys: Seq<(K, Seq<char>)>, fast: Map<Seq<char>, Seq<u8>>)
    -> Seq<(K, Seq<char>)>
    decreases keys.len(),
{
    if keys.len() == 0 {
        Seq::empty()
    } else if fast.dom().contains(keys.last().1) {
        cachelib_misses(keys.drop_last(), fast)
    } else {
        cachelib_misses(keys.drop_last(), fast).push(keys.last())
    }
}

/// The logical cache keys of a request, in its order.
pub open spec fn cache_keys_of<K>(keys: Seq<(K, Seq<char>)>) -> Seq<Seq<char>> {
    keys.map_values(|pair: (K, Seq<char>)| pair.1)
}

/// Entries as keys with the identities of their values.
pub open spec fn entry_identities<K, V: MemcacheEntity>(entries: Seq<(K, V)>) -> Seq<
    (K, Seq<u8>),
> {
    entries.map_values(|entry: (K, V)| (entry.0, identity(entry.1)))
}

/// The fast tier, held in memory. It records the keys that were looked up.
pub struct CachelibHandler<V> {
    entries: Table<V>,
    gets: Vec<String>,
}

impl<V: MemcacheEntity> CachelibHandler<V> {
    /// The invariant of the tier.
    pub closed spec fn wf(&self) -> bool {
        self.entries.wf()
    }

    /// The keys held, each with the identity of its value.
    pub closed spec fn contents(&self) -> Map<Seq<char>, Seq<u8>> {
        identities(self.entries@)
    }

    /// The keys that were looked up, in order.
    pub closed spec fn probed(&self) -> Seq<Seq<char>> {
        self.gets@.map_values(|key: String| key@)
    }

    /// An empty tier.
    pub fn create_mock() -> (tier: Self)
        ensures
            tier.wf(),
            tier.contents() == Map::<Seq<char>, Seq<u8>>::empty(),
            tier.probed() == Seq::<Seq<char>>::empty(),
    {
        let tier = CachelibHandler { entries: Table::new(), gets: Vec::new() };
        assert(tier.contents() =~= Map::<Seq<char>, Seq<u8>>::empty());
        assert(tier.probed() =~= Seq::<Seq<char>>::empty());
        tier
    }

    /// Looks `key` up.
    pub fn get_cached(&mut self, key: &String) -> (r: Option<V>)
        requires
            old(self).wf(),
        ensures
            final(self).wf(),
            final(self).contents() == old(self).contents(),
            final(self).probed() == old(self).probed().push(key@),
            match r {
                Some(value) => old(self).contents().dom().contains(key@) && identity(value) == old(
                    self,
                ).contents()[key@],
                None => !old(self).contents().dom().contains(key@),
            },
    {
        self.gets.push(key.clone());
        assert(self.probed() =~= old(self).probed().push(key@));
        match self.entries.get(key) {
            Some(value) => Some(copy_of(value)),
            None => None,
        }
    }

    /// Puts `value` under `key`, in place of what was there.
    pub fn set_cached(&mut self, key: &String, value: &V)
        requires
            old(self).wf(),
        ensures
            final(self).wf(),
            final(self).contents() == old(self).contents().insert(key@, identity(*value)),
            final(self).probed() == old(self).probed(),
    {
        self.entries.insert(key.clone(), copy_of(value));
        assert(self.contents() =~= old(self).contents().insert(key@, identity(*value)));
    }

    /// The number of lookups so far.
    pub fn gets_count(&self) -> (n: usize)
        ensures
            n == self.probed().len(),
    {
        self.gets.len()
    }

    /// Looks up the keys of a request. Returns the keys that the tier
    /// holds, with their values, and the keys that it does not hold.
    pub fn get_multiple_from_cachelib<K>(&mut self, keys: Vec<(K, String)>) -> (r: (
        Vec<(K, V)>,
        Vec<(K, String)>,
    ))
        requires
            old(self).wf(),
        ensures
            final(self).wf(),
            final(self).contents() == old(self).contents(),
            final(self).probed() == old(self).probed() + cache_keys_of(pair_views(keys@)),
            entry_identities(r.0@) == cachelib_hits(pair_views(keys@), old(self).contents()),
            pair_views(r.1@) == cachelib_misses(pair_views(keys@), old(self).contents()),
    {
        let mut fetched: Vec<(K, V)> = Vec::new();
        let mut left_to_fetch: Vec<(K, String)> = Vec::new();
        let ghost all = pair_views(keys@);
        let ghost fast = self.contents();
        proof {
            assert(self.probed() =~= self.probed() + cache_keys_of(all.take(0)));
            assert(entry_identities(fetched@) =~= cachelib_hits(all.take(0), fast));
            assert(pair_views(left_to_fetch@) =~= cachelib_misses(all.take(0), fast));
        }
        for pair in it: keys
            invariant
                pair_views(it.seq()) == all,
                self.wf(),
                self.contents() == fast,
                self.probed() == old(self).probed() + cache_keys_of(all.take(it.index() as int)),
                entry_identities(fetched@) == cachelib_hits(all.take(it.index() as int), fast),
                pair_views(left_to_fetch@) == cachelib_misses(all.take(it.index() as int), fast),
        {
            let ghost done = all.take(it.index() + 1);
            proof {
                assert(done.drop_last() =~= all.take(it.index() as int));
                assert(done.last() == (pair.0, pair.1@));
                assert(cache_keys_of(done) =~= cache_keys_of(done.drop_last()).push(pair.1@));
            }
            let ghost probed_before = self.probed();
            match self.get_cached(&pair.1) {
                Some(value) => {
                    proof {
                        assert(entry_identities(fetched@.push((pair.0, value)))
                            =~= entry_identities(fetched@).push((pair.0, identity(value))));
                    }
                    fetched.push((pair.0, value));
                },
                None => {
                    proof {
                        assert(pair_views(left_to_fetch@.push(pair)) =~= pair_views(
                            left_to_fetch@,
                        ).push((pair.0, pair.1@)));
                    }
                    left_to_fetch.push(pair);
                },
            }
            proof {
                assert(probed_before.push(pair.1@) =~= old(self).probed() + cache_keys_of(done));
            }
        }
        proof {
            assert(all.take(all.len() as int) =~= all);
        }
        (fetched, left_to_fetch)
    }
}

} // verus!
