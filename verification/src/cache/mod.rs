//! A read-through cache coordinator over two tiers, a fast in-process one and
//! a slower shared one, in front of an authoritative backing store.

pub mod cachelib;
pub mod coordinator;
pub mod entity;
pub mod filling;
pub mod keygen;
pub mod laws;
pub mod lookup;
pub mod memcache;
pub mod policy;
pub mod repeated;
pub mod table;
