//! The shared tier: a map from namespaced keys to serialized values.

use super::policy::CacheTtl;
use super::table::Table;
use crate::delta::buffer::bytes_view;
use bytes::Bytes;
use std::time::Duration;
use vstd::prelude::*;

verus! {

/// The size from which on a serialized value is too large for the shared
/// tier.
pub const MEMCACHE_VALUE_MAX_SIZE: usize = 1_000_000;

/// What the shared tier holds under a key, as a mathematical value.
pub struct StoredValue {
    pub bytes: Seq<u8>,
    pub ttl: CacheTtl,
}

/// One write to the shared tier.
pub struct MemcacheWrite {
    pub key: String,
    pub value: Bytes,
    pub ttl: CacheTtl,
}

impl View for MemcacheWrite {
    type V = (Seq<char>, StoredValue);

    open spec fn view(&self) -> (Seq<char>, StoredValue) {
        (self.key@, StoredValue { bytes: bytes_view(self.value), ttl: self.ttl })
    }
}

/// The views of writes, in their order.
pub open spec fn write_views(writes: Seq<MemcacheWrite>) -> Seq<(Seq<char>, StoredValue)> {
    writes.map_values(|write: MemcacheWrite| write@)
}

/// What the shared tier holds after `writes`, in their order.
pub open spec fn shared_after(
    shared: Map<Seq<char>, StoredValue>,
    writes: Seq<(Seq<char>, StoredValue)>,
) -> Map<Seq<char>, StoredValue>
    decreases writes.len(),
{
    if writes.len() == 0 {
        shared
    } else {
        shared_after(shared, writes.drop_last()).insert(writes.last().0, writes.last().1)
    }
}

/// What a table of stored values holds, as a mathematical value.
pub open spec fn stored_values(entries: Map<Seq<char>, (Bytes, CacheTtl)>) -> Map<
    Seq<char>,
    StoredValue,
> {
    Map::new(
        |key: Seq<char>| entries.dom().contains(key),
        |key: Seq<char>| StoredValue { bytes: bytes_view(entries[key].0), ttl: entries[key].1 },
    )
}

/// The shared tier, held in memory. It records the keys that were looked
/// up, and holds the writes that were left to run in the background until
/// they are run.
pub struct MemcacheHandler {
    entries: Table<(Bytes, CacheTtl)>,
    gets: Vec<String>,
    queued: Vec<MemcacheWrite>,
}

impl MemcacheHandler {
    /// The invariant of the tier.
    pub closed spec fn wf(&self) -> bool {
        self.entries.wf()
    }

    /// What the tier holds.
    pub closed spec fn contents(&self) -> Map<Seq<char>, StoredValue> {
        stored_values(self.entries@)
    }

    /// The keys that were looked up, in order.
    pub closed spec fn probed(&self) -> Seq<Seq<char>> {
        self.gets@.map_values(|key: String| key@)
    }

    /// The writes that wait to be run, in order.
    pub closed spec fn pending(&self) -> Seq<(Seq<char>, StoredValue)> {
        write_views(self.queued@)
    }

    /// An empty tier.
    pub fn create_mock() -> (tier: Self)
        ensures
            tier.wf(),
            tier.contents() == Map::<Seq<char>, StoredValue>::empty(),
            tier.probed() == Seq::<Seq<char>>::empty(),
            tier.pending() == Seq::<(Seq<char>, StoredValue)>::empty(),
    {
        let tier = MemcacheHandler { entries: Table::new(), gets: Vec::new(), queued: Vec::new() };
        assert(tier.contents() =~= Map::<Seq<char>, StoredValue>::empty());
        assert(tier.probed() =~= Seq::<Seq<char>>::empty());
        assert(tier.pending() =~= Seq::<(Seq<char>, StoredValue)>::empty());
        tier
    }

    /// Looks `key` up. This tier never fails.
    pub fn get(&mut self, key: String) -> (r: Result<Option<Bytes>, ()>)
        requires
            old(self).wf(),
        ensures
            final(self).wf(),
            final(self).contents() == old(self).contents(),
            final(self).pending() == old(self).pending(),
            final(self).probed() == old(self).probed().push(key@),
            match r {
                Ok(Some(bytes)) => old(self).contents().dom().contains(key@) && bytes_view(bytes)
                    == old(self).contents()[key@].bytes,
                Ok(None) => !old(self).contents().dom().contains(key@),
                Err(_) => false,
            },
    {
        let found = match self.entries.get(&key) {
            Some(stored) => Some(stored.0.clone()),
            None => None,
        };
        self.gets.push(key);
        assert(self.probed() =~= old(self).probed().push(key@));
        Ok(found)
    }

    /// Puts `value` under `key`, to stay for `ttl`.
    fn store(&mut self, key: String, value: Bytes, ttl: CacheTtl)
        requires
            old(self).wf(),
        ensures
            final(self).wf(),
            final(self).contents() == old(self).contents().insert(
                key@,
                StoredValue { bytes: bytes_view(value), ttl },
            ),
            final(self).pending() == old(self).pending(),
            final(self).probed() == old(self).probed(),
    {
        self.entries.insert(key, (value, ttl));
        assert(self.contents() =~= old(self).contents().insert(
            key@,
            StoredValue { bytes: bytes_view(value), ttl },
        ));
    }

    /// Puts `value` under `key`, to stay until it is evicted. This tier
    /// never fails.
    pub fn set(&mut self, key: String, value: Bytes) -> (r: Result<(), ()>)
        requires
            old(self).wf(),
        ensures
            r.is_ok(),
            final(self).wf(),
            final(self).contents() == old(self).contents().insert(
                key@,
                StoredValue { bytes: bytes_view(value), ttl: CacheTtl::NoTtl },
            ),
            final(self).pending() == old(self).pending(),
            final(self).probed() == old(self).probed(),
    {
        self.store(key, value, CacheTtl::NoTtl);
        Ok(())
    }

    /// Puts `value` under `key`, to stay for `duration` at most. This tier
    /// never fails.
    pub fn set_with_ttl(&mut self, key: String, value: Bytes, duration: Duration) -> (r: Result<
        (),
        (),
    >)
        requires
            old(self).wf(),
        ensures
            r.is_ok(),
            final(self).wf(),
            final(self).contents() == old(self).contents().insert(
                key@,
                StoredValue { bytes: bytes_view(value), ttl: CacheTtl::Ttl(duration) },
            ),
            final(self).pending() == old(self).pending(),
            final(self).probed() == old(self).probed(),
    {
        self.store(key, value, CacheTtl::Ttl(duration));
        Ok(())
    }

    /// Leaves `write` to be run in the background.
    pub fn submit(&mut self, write: MemcacheWrite)
        requires
            old(self).wf(),
        ensures
            final(self).wf(),
            final(self).contents() == old(self).contents(),
            final(self).pending() == old(self).pending().push(write@),
            final(self).probed() == old(self).probed(),
    {
        self.queued.push(write);
        assert(self.pending() =~= old(self).pending().push(write@));
    }

    /// Runs the writes that were left to be run in the background, in
    /// their order.
    pub fn run_pending(&mut self)
        requires
            old(self).wf(),
        ensures
            final(self).wf(),
            final(self).contents() == shared_after(old(self).contents(), old(self).pending()),
            final(self).pending() == Seq::<(Seq<char>, StoredValue)>::empty(),
            final(self).probed() == old(self).probed(),
    {
        let mut queued: Vec<MemcacheWrite> = Vec::new();
        std::mem::swap(&mut self.queued, &mut queued);
        let ghost all = queued@;
        assert(self.pending() =~= Seq::<(Seq<char>, StoredValue)>::empty());
        proof {
            assert(write_views(all.take(0)) =~= Seq::<(Seq<char>, StoredValue)>::empty());
        }
        for write in it: queued
            invariant
                it.seq() == all,
                self.wf(),
                self.probed() == old(self).probed(),
                self.pending() == Seq::<(Seq<char>, StoredValue)>::empty(),
                self.contents() == shared_after(
                    old(self).contents(),
                    write_views(all.take(it.index() as int)),
                ),
        {
            proof {
                let done = all.take(it.index() + 1);
                assert(done.drop_last() =~= all.take(it.index() as int));
                assert(write_views(done).drop_last() =~= write_views(done.drop_last()));
                assert(write_views(done).last() == write@);
            }
            self.store(write.key, write.value, write.ttl);
        }
        proof {
            assert(all.take(all.len() as int) =~= all);
        }
    }

    /// The number of lookups so far.
    pub fn gets_count(&self) -> (n: usize)
        ensures
            n == self.probed().len(),
    {
        self.gets.len()
    }
}

} // verus!
