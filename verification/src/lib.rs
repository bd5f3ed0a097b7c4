use vstd::prelude::*;

pub mod fifo;
pub mod lru;
pub mod model;
pub mod store;
pub mod ttl;

pub use fifo::FIFOCache;
pub use lru::LRUCache;
pub use ttl::TTLCache;

verus! {

/// A point-in-time snapshot of a cache's counters and occupancy.
#[derive(Clone, Copy, Debug, PartialEq, Eq, Structural)]
pub struct CacheStats {
    pub hits: u64,
    pub misses: u64,
    pub size: u64,
    pub capacity: u64,
}

} // verus!
