//! A bounded cache evicting by recency of touch: both a hit and an
//! insertion move the touched entry to the tail, and eviction takes the
//! head, the least recently touched entry.

use vstd::prelude::*;

use crate::model::bump;
use crate::model::distinct_keys;
use crate::model::erase_key;
use crate::model::evict_to;
use crate::model::has_key;
use crate::model::lemma_erase_key;
use crate::model::lemma_key_index_unique;
use crate::model::lemma_strip_drop_first;
use crate::model::lemma_strip_keys;
use crate::model::lemma_strip_lookup;
use crate::model::lemma_strip_push;
use crate::model::lemma_strip_remove;
use crate::model::lemma_strip_skip;
use crate::model::lemma_tail_insert;
use crate::model::lookup;
use crate::model::move_to_back;
use crate::model::strip_stamps;
use crate::model::tail_insert;
use crate::store;
use crate::CacheStats;
use linked_hash_map::LinkedHashMap;

verus! {

/// The cache's view is its entries as `(key, value)` pairs in eviction
/// order: the head (index 0) is evicted first, the tail was touched last.
pub struct LRUCache {
    capacity: u64,
    map: LinkedHashMap<u64, (u64, u64)>,
    hits: u64,
    misses: u64,
}

impl View for LRUCache {
    type V = Seq<(u64, u64)>;

    closed spec fn view(&self) -> Seq<(u64, u64)> {
        strip_stamps(store::entries(self.map))
    }
}

impl LRUCache {
    pub closed spec fn spec_capacity(self) -> u64 {
        self.capacity
    }

    pub closed spec fn spec_hits(self) -> u64 {
        self.hits
    }

    pub closed spec fn spec_misses(self) -> u64 {
        self.misses
    }

    /// Well-formed: keys are unique and occupancy stays within the bound.
    pub open spec fn wf(self) -> bool {
        &&& distinct_keys(self@)
        &&& self@.len() <= self.spec_capacity()
    }

    pub fn new(capacity: u64) -> (c: Self)
        ensures
            c.wf(),
            c@ == Seq::<(u64, u64)>::empty(),
            c.spec_capacity() == capacity,
            c.spec_hits() == 0,
            c.spec_misses() == 0,
    {
        let c = LRUCache { capacity, map: store::map_new(), hits: 0, misses: 0 };
        proof {
            assert(c@ =~= Seq::<(u64, u64)>::empty());
        }
        c
    }

    /// Look a key up. A hit returns the stored value and moves the entry
    /// to the tail; exactly one of the hit or miss counters grows.
    pub fn get(&mut self, key: u64) -> (r: Option<u64>)
        requires
            old(self).wf(),
        ensures
            final(self).wf(),
            final(self).spec_capacity() == old(self).spec_capacity(),
            r == lookup(old(self)@, key),
            has_key(old(self)@, key) ==> final(self)@ == move_to_back(old(self)@, key)
                && final(self).spec_hits() == bump(old(self).spec_hits())
                && final(self).spec_misses() == old(self).spec_misses(),
            !has_key(old(self)@, key) ==> final(self)@ == old(self)@
                && final(self).spec_misses() == bump(old(self).spec_misses())
                && final(self).spec_hits() == old(self).spec_hits(),
    {
        let ghost s0 = store::entries(self.map);
        let ghost p0 = strip_stamps(s0);
        proof {
            lemma_strip_keys(s0, key);
        }
        let res = store::map_refresh(&mut self.map, key);
        match res {
            Some(v) => {
                proof {
                    let i = choose|i: int|
                        0 <= i < s0.len() && s0[i] == (key, v) && store::entries(self.map)
                            == s0.remove(i).push((key, v));
                    lemma_key_index_unique(s0, key, i);
                    lemma_strip_lookup(s0, key);
                    lemma_strip_remove(s0, i);
                    lemma_strip_push(s0.remove(i), (key, v));
                    lemma_key_index_unique(p0, key, i);
                    assert(self@ == p0.remove(i).push((key, v.0)));
                    assert(self@ == move_to_back(p0, key));
                    lemma_tail_insert(p0, key, p0[i].1);
                }
                if self.hits < u64::MAX {
                    self.hits = self.hits + 1;
                }
                Some(v.0)
            },
            None => {
                if self.misses < u64::MAX {
                    self.misses = self.misses + 1;
                }
                None
            },
        }
    }

    /// Insert or overwrite at the tail, returning any replaced value. If
    /// the insertion pushed occupancy past the bound, the head entry is
    /// evicted.
    pub fn set(&mut self, key: u64, value: u64) -> (prev: Option<u64>)
        requires
            old(self).wf(),
        ensures
            final(self).wf(),
            final(self).spec_capacity() == old(self).spec_capacity(),
            final(self).spec_hits() == old(self).spec_hits(),
            final(self).spec_misses() == old(self).spec_misses(),
            prev == lookup(old(self)@, key),
            final(self)@ == ({
                let t = tail_insert(old(self)@, key, value);
                if t.len() > old(self).spec_capacity() {
                    t.drop_first()
                } else {
                    t
                }
            }),
    {
        let ghost s0 = store::entries(self.map);
        let ghost p0 = strip_stamps(s0);
        proof {
            lemma_strip_keys(s0, key);
        }
        let res = store::map_insert(&mut self.map, key, (value, 0));
        proof {
            let t = tail_insert(p0, key, value);
            match res {
                Some(p) => {
                    let i = choose|i: int|
                        0 <= i < s0.len() && s0[i] == (key, p) && store::entries(self.map)
                            == s0.remove(i).push((key, (value, 0)));
                    lemma_key_index_unique(s0, key, i);
                    lemma_strip_lookup(s0, key);
                    lemma_strip_remove(s0, i);
                    lemma_strip_push(s0.remove(i), (key, (value, 0)));
                    lemma_key_index_unique(p0, key, i);
                    assert(self@ == t);
                },
                None => {
                    lemma_strip_push(s0, (key, (value, 0)));
                    assert(self@ == t);
                },
            }
            lemma_tail_insert(p0, key, value);
        }
        let ghost s1 = store::entries(self.map);
        if store::map_len(&self.map) as u64 > self.capacity {
            store::map_pop_front(&mut self.map);
            proof {
                lemma_strip_drop_first(s1);
            }
        }
        match res {
            Some(p) => Some(p.0),
            None => None,
        }
    }

    /// Remove a key, returning its value when it was present. The
    /// counters do not move.
    pub fn remove(&mut self, key: u64) -> (r: Option<u64>)
        requires
            old(self).wf(),
        ensures
            final(self).wf(),
            final(self).spec_capacity() == old(self).spec_capacity(),
            final(self).spec_hits() == old(self).spec_hits(),
            final(self).spec_misses() == old(self).spec_misses(),
            r == lookup(old(self)@, key),
            final(self)@ == erase_key(old(self)@, key),
    {
        let ghost s0 = store::entries(self.map);
        let ghost p0 = strip_stamps(s0);
        proof {
            lemma_strip_keys(s0, key);
            lemma_erase_key(p0, key);
        }
        let res = store::map_remove(&mut self.map, key);
        match res {
            Some(v) => {
                proof {
                    let i = choose|i: int|
                        0 <= i < s0.len() && s0[i] == (key, v) && store::entries(self.map)
                            == s0.remove(i);
                    lemma_key_index_unique(s0, key, i);
                    lemma_strip_lookup(s0, key);
                    lemma_strip_remove(s0, i);
                    lemma_key_index_unique(p0, key, i);
                }
                Some(v.0)
            },
            None => None,
        }
    }

    /// Drop every entry; the hit and miss counters are unaffected.
    pub fn clear(&mut self)
        requires
            old(self).wf(),
        ensures
            final(self).wf(),
            final(self).spec_capacity() == old(self).spec_capacity(),
            final(self).spec_hits() == old(self).spec_hits(),
            final(self).spec_misses() == old(self).spec_misses(),
            final(self)@ == Seq::<(u64, u64)>::empty(),
    {
        store::map_clear(&mut self.map);
        proof {
            assert(self@ =~= Seq::<(u64, u64)>::empty());
        }
    }

    /// A snapshot of the counters, the occupancy and the bound.
    pub fn stats(&self) -> (st: CacheStats)
        ensures
            st.hits == self.spec_hits(),
            st.misses == self.spec_misses(),
            st.size == self@.len(),
            st.capacity == self.spec_capacity(),
    {
        proof {
            lemma_strip_keys(store::entries(self.map), 0);
        }
        CacheStats {
            hits: self.hits,
            misses: self.misses,
            size: store::map_len(&self.map) as u64,
            capacity: self.capacity,
        }
    }

    /// Set a new bound, evicting head entries until occupancy fits it.
    pub fn change_capacity(&mut self, capacity: u64)
        requires
            old(self).wf(),
        ensures
            final(self).wf(),
            final(self).spec_capacity() == capacity,
            final(self).spec_hits() == old(self).spec_hits(),
            final(self).spec_misses() == old(self).spec_misses(),
            final(self)@ == evict_to(old(self)@, capacity),
            final(self)@.len() <= capacity,
    {
        let ghost s0 = store::entries(self.map);
        let ghost p0 = strip_stamps(s0);
        self.capacity = capacity;
        store::shrink_to(&mut self.map, capacity);
        proof {
            lemma_strip_keys(s0, 0);
            if s0.len() > capacity {
                lemma_strip_skip(s0, s0.len() - capacity as int);
            }
            assert(self@ == evict_to(p0, capacity));
            lemma_strip_keys(store::entries(self.map), 0);
            if p0.len() > capacity {
                assert forall|i: int, j: int|
                    0 <= i < j < self@.len() implies (#[trigger] self@[i]).0 != (
                #[trigger] self@[j]).0 by {
                    let n = p0.len() - capacity as int;
                    assert(self@[i] == p0[n + i]);
                    assert(self@[j] == p0[n + j]);
                }
            }
        }
    }
}

} // verus!
