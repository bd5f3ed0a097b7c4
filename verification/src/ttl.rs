//! A bounded cache with time-bounded entries. Every entry carries an
//! absolute expiry stamp; a touch (get or set) resets the stamp and moves
//! the entry to the tail, so the head is always the soonest to expire.
//! Expired entries go lazily (discovered by a get) or through `sweep`,
//! which pops expired heads; capacity is enforced before an insertion.
//!
//! Time is a caller-supplied monotonic instant in arbitrary units; the
//! cache records the last instant it saw and asks callers never to step
//! backwards.

use vstd::prelude::*;

use crate::model::bump;
use crate::model::distinct_keys;
use crate::model::drop_expired;
use crate::model::erase_key;
use crate::model::evict_to;
use crate::model::has_key;
use crate::model::lemma_drop_expired_suffix;
use crate::model::lemma_erase_key;
use crate::model::lemma_erase_key_stamps;
use crate::model::lemma_key_index_unique;
use crate::model::lemma_push_sorted;
use crate::model::lemma_sat_add_monotonic;
use crate::model::lemma_skip_no_key;
use crate::model::lemma_skip_props;
use crate::model::lemma_stamps_below_weaken;
use crate::model::lemma_tail_insert;
use crate::model::lookup;
use crate::model::sat_add;
use crate::model::sorted_stamps;
use crate::model::stamps_below;
use crate::model::tail_insert;
use crate::store;
use crate::CacheStats;
use linked_hash_map::LinkedHashMap;
use rand::RngExt;

verus! {

/// The sleep before a sweep: the nominal interval plus the jitter divided
/// by the drawn factor; a degenerate division (zero divisor, or a sum
/// past the largest representable value) falls back to the interval
/// alone.
pub open spec fn sweep_delay(interval: u64, jitter: u64, divisor: u32) -> u64 {
    if divisor == 0 {
        interval
    } else if interval + jitter / (divisor as u64) <= u64::MAX {
        (interval + jitter / (divisor as u64)) as u64
    } else {
        interval
    }
}

/// The cache's view is its entries as `(key, (value, stamp))` triples in
/// eviction order: the head (index 0) expires soonest and is evicted
/// first; the stamp is the entry's absolute expiry instant.
pub struct TTLCache {
    ttl: u64,
    jitter: u64,
    check_interval: u64,
    capacity: u64,
    map: LinkedHashMap<u64, (u64, u64)>,
    hits: u64,
    misses: u64,
    clock: u64,
}

impl View for TTLCache {
    type V = Seq<(u64, (u64, u64))>;

    closed spec fn view(&self) -> Seq<(u64, (u64, u64))> {
        store::entries(self.map)
    }
}

impl TTLCache {
    pub closed spec fn spec_ttl(self) -> u64 {
        self.ttl
    }

    pub closed spec fn spec_jitter(self) -> u64 {
        self.jitter
    }

    pub closed spec fn spec_check_interval(self) -> u64 {
        self.check_interval
    }

    pub closed spec fn spec_capacity(self) -> u64 {
        self.capacity
    }

    pub closed spec fn spec_hits(self) -> u64 {
        self.hits
    }

    pub closed spec fn spec_misses(self) -> u64 {
        self.misses
    }

    /// The last instant this cache saw.
    pub closed spec fn spec_clock(self) -> u64 {
        self.clock
    }

    /// Well-formed: keys are unique; occupancy stays within the bound,
    /// except that a zero bound still admits the one entry a set leaves
    /// behind; stamps never decrease from head to tail and never lie past
    /// `clock + ttl`.
    pub open spec fn wf(self) -> bool {
        &&& distinct_keys(self@)
        &&& self@.len() <= self.spec_capacity() || self@.len() <= 1
        &&& sorted_stamps(self@)
        &&& stamps_below(self@, sat_add(self.spec_clock(), self.spec_ttl()))
    }

    pub fn new(ttl: u64, check_interval: u64, jitter: u64, capacity: u64) -> (c: Self)
        ensures
            c.wf(),
            c@ == Seq::<(u64, (u64, u64))>::empty(),
            c.spec_ttl() == ttl,
            c.spec_check_interval() == check_interval,
            c.spec_jitter() == jitter,
            c.spec_capacity() == capacity,
            c.spec_hits() == 0,
            c.spec_misses() == 0,
            c.spec_clock() == 0,
    {
        TTLCache {
            ttl,
            jitter,
            check_interval,
            capacity,
            map: store::map_new(),
            hits: 0,
            misses: 0,
            clock: 0,
        }
    }

    /// Look a key up at instant `now`. A live entry is refreshed: its
    /// stamp becomes `now + ttl` and it moves to the tail. An entry whose
    /// stamp has passed is removed on the spot and counts as a miss.
    pub fn get(&mut self, key: u64, now: u64) -> (r: Option<u64>)
        requires
            old(self).wf(),
            now >= old(self).spec_clock(),
        ensures
            final(self).wf(),
            final(self).spec_ttl() == old(self).spec_ttl(),
            final(self).spec_jitter() == old(self).spec_jitter(),
            final(self).spec_check_interval() == old(self).spec_check_interval(),
            final(self).spec_capacity() == old(self).spec_capacity(),
            final(self).spec_clock() == now,
            match lookup(old(self)@, key) {
                Some(e) => if e.1 > now {
                    r == Some(e.0)
                        && final(self)@ == tail_insert(
                            old(self)@,
                            key,
                            (e.0, sat_add(now, old(self).spec_ttl())),
                        )
                        && final(self).spec_hits() == bump(old(self).spec_hits())
                        && final(self).spec_misses() == old(self).spec_misses()
                } else {
                    r == None::<u64>
                        && final(self)@ == erase_key(old(self)@, key)
                        && final(self).spec_misses() == bump(old(self).spec_misses())
                        && final(self).spec_hits() == old(self).spec_hits()
                },
                None => r == None::<u64>
                    && final(self)@ == old(self)@
                    && final(self).spec_misses() == bump(old(self).spec_misses())
                    && final(self).spec_hits() == old(self).spec_hits(),
            },
    {
        let ghost s0 = store::entries(self.map);
        let ghost bound0 = sat_add(self.clock, self.ttl);
        proof {
            lemma_sat_add_monotonic(self.clock, now, self.ttl);
        }
        let res = store::map_remove(&mut self.map, key);
        let out: Option<u64>;
        match res {
            Some(e) => {
                proof {
                    let i = choose|i: int|
                        0 <= i < s0.len() && s0[i] == (key, e) && store::entries(self.map)
                            == s0.remove(i);
                    lemma_key_index_unique(s0, key, i);
                    lemma_erase_key(s0, key);
                    lemma_erase_key_stamps(s0, key, bound0);
                }
                if e.1 > now {
                    let exp = if self.ttl <= u64::MAX - now {
                        now + self.ttl
                    } else {
                        u64::MAX
                    };
                    proof {
                        lemma_push_sorted(erase_key(s0, key), (key, (e.0, exp)), bound0);
                        lemma_tail_insert(s0, key, (e.0, exp));
                        lemma_stamps_below_weaken(erase_key(s0, key), bound0, sat_add(now, self.ttl));
                    }
                    let _ = store::map_insert(&mut self.map, key, (e.0, exp));
                    if self.hits < u64::MAX {
                        self.hits = self.hits + 1;
                    }
                    out = Some(e.0);
                } else {
                    proof {
                        lemma_stamps_below_weaken(erase_key(s0, key), bound0, sat_add(now, self.ttl));
                    }
                    if self.misses < u64::MAX {
                        self.misses = self.misses + 1;
                    }
                    out = None;
                }
            },
            None => {
                proof {
                    lemma_stamps_below_weaken(s0, bound0, sat_add(now, self.ttl));
                }
                if self.misses < u64::MAX {
                    self.misses = self.misses + 1;
                }
                out = None;
            },
        }
        self.clock = now;
        out
    }

    /// Insert or overwrite at instant `now`, returning any replaced
    /// value. A new key arriving at full occupancy evicts the head entry
    /// first; the entry lands at the tail with stamp `now + ttl`.
    pub fn set(&mut self, key: u64, value: u64, now: u64) -> (prev: Option<u64>)
        requires
            old(self).wf(),
            now >= old(self).spec_clock(),
        ensures
            prev == match lookup(old(self)@, key) {
                Some(e) => Some(e.0),
                None => None::<u64>,
            },
            final(self).wf(),
            final(self).spec_ttl() == old(self).spec_ttl(),
            final(self).spec_jitter() == old(self).spec_jitter(),
            final(self).spec_check_interval() == old(self).spec_check_interval(),
            final(self).spec_capacity() == old(self).spec_capacity(),
            final(self).spec_hits() == old(self).spec_hits(),
            final(self).spec_misses() == old(self).spec_misses(),
            final(self).spec_clock() == now,
            final(self)@ == ({
                let base = if has_key(old(self)@, key) {
                    old(self)@
                } else if old(self)@.len() >= old(self).spec_capacity() && old(self)@.len() > 0 {
                    old(self)@.drop_first()
                } else {
                    old(self)@
                };
                tail_insert(base, key, (value, sat_add(now, old(self).spec_ttl())))
            }),
    {
        let ghost s0 = store::entries(self.map);
        let ghost bound0 = sat_add(self.clock, self.ttl);
        proof {
            lemma_sat_add_monotonic(self.clock, now, self.ttl);
        }
        if !store::map_contains(&self.map, key) {
            if store::map_len(&self.map) as u64 >= self.capacity {
                let _ = store::map_pop_front(&mut self.map);
                proof {
                    if s0.len() > 0 {
                        assert(s0.drop_first() =~= s0.skip(1));
                        lemma_skip_props(s0, 1, bound0);
                        lemma_skip_no_key(s0, 1, key);
                    }
                }
            }
        }
        let ghost base = store::entries(self.map);
        let exp = if self.ttl <= u64::MAX - now {
            now + self.ttl
        } else {
            u64::MAX
        };
        proof {
            lemma_push_sorted(base, (key, (value, exp)), bound0);
            lemma_tail_insert(base, key, (value, exp));
            lemma_erase_key(base, key);
            lemma_stamps_below_weaken(base, bound0, sat_add(now, self.ttl));
        }
        let res = store::map_insert(&mut self.map, key, (value, exp));
        proof {
            if let Some(p) = res {
                let i = choose|i: int|
                    0 <= i < base.len() && base[i] == (key, p) && store::entries(self.map)
                        == base.remove(i).push((key, (value, exp)));
                lemma_key_index_unique(base, key, i);
                lemma_key_index_unique(s0, key, i);
            }
        }
        self.clock = now;
        match res {
            Some(p) => Some(p.0),
            None => None,
        }
    }

    /// Remove a key, returning its value when it was present. The
    /// counters and the clock do not move.
    pub fn remove(&mut self, key: u64) -> (r: Option<u64>)
        requires
            old(self).wf(),
        ensures
            r == match lookup(old(self)@, key) {
                Some(e) => Some(e.0),
                None => None::<u64>,
            },
            final(self).wf(),
            final(self).spec_ttl() == old(self).spec_ttl(),
            final(self).spec_jitter() == old(self).spec_jitter(),
            final(self).spec_check_interval() == old(self).spec_check_interval(),
            final(self).spec_capacity() == old(self).spec_capacity(),
            final(self).spec_hits() == old(self).spec_hits(),
            final(self).spec_misses() == old(self).spec_misses(),
            final(self).spec_clock() == old(self).spec_clock(),
            final(self)@ == erase_key(old(self)@, key),
    {
        let ghost s0 = store::entries(self.map);
        proof {
            lemma_erase_key(s0, key);
            lemma_erase_key_stamps(s0, key, sat_add(self.clock, self.ttl));
        }
        let res = store::map_remove(&mut self.map, key);
        proof {
            if let Some(e) = res {
                let i = choose|i: int|
                    0 <= i < s0.len() && s0[i] == (key, e) && store::entries(self.map)
                        == s0.remove(i);
                lemma_key_index_unique(s0, key, i);
            }
        }
        match res {
            Some(e) => Some(e.0),
            None => None,
        }
    }

    /// Drop every entry; the hit and miss counters are unaffected.
    pub fn clear(&mut self)
        requires
            old(self).wf(),
        ensures
            final(self).wf(),
            final(self).spec_ttl() == old(self).spec_ttl(),
            final(self).spec_jitter() == old(self).spec_jitter(),
            final(self).spec_check_interval() == old(self).spec_check_interval(),
            final(self).spec_capacity() == old(self).spec_capacity(),
            final(self).spec_hits() == old(self).spec_hits(),
            final(self).spec_misses() == old(self).spec_misses(),
            final(self).spec_clock() == old(self).spec_clock(),
            final(self)@ == Seq::<(u64, (u64, u64))>::empty(),
    {
        store::map_clear(&mut self.map);
    }

    /// A snapshot of the counters, the occupancy and the bound.
    pub fn stats(&self) -> (st: CacheStats)
        ensures
            st.hits == self.spec_hits(),
            st.misses == self.spec_misses(),
            st.size == self@.len(),
            st.capacity == self.spec_capacity(),
    {
        CacheStats {
            hits: self.hits,
            misses: self.misses,
            size: store::map_len(&self.map) as u64,
            capacity: self.capacity,
        }
    }

    /// Set a new bound, evicting head entries until occupancy fits it;
    /// expiry plays no part here.
    pub fn change_capacity(&mut self, capacity: u64)
        requires
            old(self).wf(),
        ensures
            final(self).wf(),
            final(self).spec_ttl() == old(self).spec_ttl(),
            final(self).spec_jitter() == old(self).spec_jitter(),
            final(self).spec_check_interval() == old(self).spec_check_interval(),
            final(self).spec_capacity() == capacity,
            final(self).spec_hits() == old(self).spec_hits(),
            final(self).spec_misses() == old(self).spec_misses(),
            final(self).spec_clock() == old(self).spec_clock(),
            final(self)@ == evict_to(old(self)@, capacity),
            final(self)@.len() <= capacity,
    {
        let ghost s0 = store::entries(self.map);
        self.capacity = capacity;
        store::shrink_to(&mut self.map, capacity);
        proof {
            if s0.len() > capacity {
                lemma_skip_props(s0, s0.len() - capacity as int, sat_add(self.clock, self.ttl));
            }
        }
    }

    /// Pop entries whose stamp lies at or before `now` from the head —
    /// the same boundary at which a lookup treats an entry as expired —
    /// stopping at the first entry whose stamp has not passed; sound,
    /// because the head order tracks soonest expiry.
    pub fn sweep(&mut self, now: u64)
        requires
            old(self).wf(),
            now >= old(self).spec_clock(),
        ensures
            final(self).wf(),
            final(self).spec_ttl() == old(self).spec_ttl(),
            final(self).spec_jitter() == old(self).spec_jitter(),
            final(self).spec_check_interval() == old(self).spec_check_interval(),
            final(self).spec_capacity() == old(self).spec_capacity(),
            final(self).spec_hits() == old(self).spec_hits(),
            final(self).spec_misses() == old(self).spec_misses(),
            final(self).spec_clock() == now,
            final(self)@ == drop_expired(old(self)@, now),
    {
        let ghost s0 = store::entries(self.map);
        let ghost bound0 = sat_add(self.clock, self.ttl);
        let ghost snap = *self;
        loop
            invariant
                drop_expired(store::entries(self.map), now) == drop_expired(s0, now),
                store::entries(self.map).len() <= s0.len(),
                self.ttl == snap.ttl,
                self.jitter == snap.jitter,
                self.check_interval == snap.check_interval,
                self.capacity == snap.capacity,
                self.hits == snap.hits,
                self.misses == snap.misses,
                self.clock == snap.clock,
            ensures
                drop_expired(store::entries(self.map), now) == drop_expired(s0, now),
                store::entries(self.map) == drop_expired(store::entries(self.map), now),
                self.ttl == snap.ttl,
                self.jitter == snap.jitter,
                self.check_interval == snap.check_interval,
                self.capacity == snap.capacity,
                self.hits == snap.hits,
                self.misses == snap.misses,
                self.clock == snap.clock,
            decreases store::entries(self.map).len(),
        {
            let ghost cur = store::entries(self.map);
            let f = store::map_front(&self.map);
            match f {
                Some(e) => {
                    if e.1.1 <= now {
                        let _ = store::map_pop_front(&mut self.map);
                        proof {
                            assert(drop_expired(cur, now) == drop_expired(cur.drop_first(), now));
                        }
                    } else {
                        proof {
                            assert(drop_expired(cur, now) == cur);
                        }
                        break;
                    }
                },
                None => {
                    proof {
                        assert(drop_expired(cur, now) == cur);
                    }
                    break;
                },
            }
        }
        proof {
            lemma_sat_add_monotonic(self.clock, now, self.ttl);
            lemma_drop_expired_suffix(s0, now);
            let n = choose|n: int|
                0 <= n <= s0.len() && drop_expired(s0, now) == s0.skip(n) && (forall|i: int|
                    0 <= i < n ==> #[trigger] s0[i].1.1 <= now);
            lemma_skip_props(s0, n, bound0);
            lemma_stamps_below_weaken(s0.skip(n), bound0, sat_add(now, self.ttl));
        }
        self.clock = now;
    }

    /// The last instant this cache saw, so that a caller can keep the
    /// instants it supplies monotone.
    pub fn last_seen(&self) -> (t: u64)
        ensures
            t == self.spec_clock(),
    {
        self.clock
    }

    /// The sleep before the next sweep, computed from a caller-supplied
    /// division factor; exact for every factor, including the degenerate
    /// ones.
    pub fn delay_for(&self, divisor: u32) -> (r: u64)
        ensures
            r == sweep_delay(self.spec_check_interval(), self.spec_jitter(), divisor),
    {
        if divisor == 0 {
            self.check_interval
        } else {
            let share = self.jitter / (divisor as u64);
            if share <= u64::MAX - self.check_interval {
                self.check_interval + share
            } else {
                self.check_interval
            }
        }
    }

    /// The sleep before the next sweep, with the division factor drawn
    /// fresh at random so that many caches do not sweep in lockstep.
    pub fn next_sweep_delay(&self) -> (r: u64)
        ensures
            exists|d: u32|
                1 <= d < 100 && r == sweep_delay(
                    self.spec_check_interval(),
                    self.spec_jitter(),
                    d,
                ),
    {
        let d: u32 = random_divisor();
        self.delay_for(d)
    }
}

/// Relies on rand's random_range over `1..100`: a value drawn from that
/// range; the range is not empty, so the call does not panic.
#[verifier::external_body]
fn random_divisor() -> (d: u32)
    ensures
        1 <= d < 100,
{
    let d: u32 = rand::rng().random_range(1..100);
    d
}

} // verus!
