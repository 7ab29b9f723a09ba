//! What a value and a store have to offer to the cache coordinator.

use super::policy::{CacheDisposition, McResult};
use crate::delta::buffer::bytes_view;
use bytes::Bytes;
use vstd::prelude::*;

verus! {

/// Some vector that holds `bytes`.
pub open spec fn vec_of(bytes: Seq<u8>) -> Vec<u8> {
    choose|v: Vec<u8>| v@ == bytes
}

/// A value that the shared tier can hold as bytes. A value is identified by
/// its serialized form.
pub trait MemcacheEntity: Sized + Clone {
    /// The bytes that the value is serialized to.
    spec fn serialized(&self) -> Vec<u8>;

    /// The serialized form of the value that `bytes` deserialize to, or
    /// `None` where they deserialize to none.
    spec fn decoded(bytes: Vec<u8>) -> Option<Vec<u8>>;

    fn serialize(&self) -> (bytes: Bytes)
        ensures
            bytes_view(bytes) == self.serialized()@,
    ;

    fn deserialize(bytes: Bytes) -> (r: Result<Self, ()>)
        ensures
            match r {
                Ok(value) => Self::decoded(vec_of(bytes_view(bytes))) matches Some(form)
                    && form@ == value.serialized()@,
                Err(_) => Self::decoded(vec_of(bytes_view(bytes))).is_none(),
            },
    ;

    /// Takes note of the outcome of one shared-tier lookup.
    fn report_mc_result(res: &McResult<Self>);

    /// A clone is the same value.
    proof fn lemma_clone(a: Self, b: Self)
        requires
            cloned(a, b),
        ensures
            a.serialized()@ == b.serialized()@,
    ;
}

/// What identifies a value: its serialized form.
pub open spec fn identity<V: MemcacheEntity>(value: V) -> Seq<u8> {
    value.serialized()@
}

/// The identity of the value that `bytes` deserialize to, or `None` where
/// they deserialize to none.
pub open spec fn decoded_identity<V: MemcacheEntity>(bytes: Seq<u8>) -> Option<Seq<u8>> {
    match V::decoded(vec_of(bytes)) {
        Some(form) => Some(form@),
        None => None,
    }
}

/// A copy of `value`.
pub fn copy_of<V: MemcacheEntity>(value: &V) -> (copy: V)
    ensures
        identity(copy) == identity(*value),
{
    let copy = value.clone();
    proof {
        V::lemma_clone(*value, copy);
    }
    copy
}

/// The policy of a store: which values may be cached, and whether writes to
/// the shared tier are left to run in the background.
pub trait EntityStore<V> {
    /// The disposition of `v`.
    spec fn disposition(&self, v: &V) -> CacheDisposition;

    fn cache_determinator(&self, v: &V) -> (d: CacheDisposition)
        ensures
            d == self.disposition(v),
    ;

    /// Whether writes to the shared tier are queued to run in the
    /// background, as production wants and as a store has it unless it says
    /// otherwise, or done before the call returns, as repeatable tests want.
    fn spawn_memcache_writes(&self) -> (spawn: bool)
        default_ensures
            spawn,
    {
        true
    }
}

/// A store that entities can be looked up in by key.
pub trait KeyedEntityStore<K, V>: EntityStore<V> {
    /// What a lookup in the backing store can fail with.
    type Error;

    /// The logical cache key of `key`.
    spec fn cache_key(&self, key: &K) -> String;

    fn get_cache_key(&self, key: &K) -> (cache_key: String)
        ensures
            cache_key@ == self.cache_key(key)@,
    ;

    /// Whether the backing store may be asked for `keys`.
    spec fn may_fetch(&self, keys: &Vec<K>) -> bool;

    /// Looks `keys` up in the backing store. Keys that it does not hold are
    /// left out of the result.
    fn get_from_db(&self, keys: Vec<K>) -> Result<Vec<(K, V)>, Self::Error>
        requires
            self.may_fetch(&keys),
    ;
}

} // verus!
