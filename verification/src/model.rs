//! The mathematical model of an ordered key-value store.
//!
//! A cache's contents are modelled as a sequence of entries in eviction
//! order: the head (index 0) is the next entry to be evicted, the tail is
//! the newest. Keys are unique. For the time-based cache an entry also
//! carries a stamp, its absolute expiry instant.

use vstd::prelude::*;

verus! {

/// True when some entry of `s` carries the key `k`.
pub open spec fn has_key<V>(s: Seq<(u64, V)>, k: u64) -> bool {
    exists|i: int| 0 <= i < s.len() && s[i].0 == k
}

/// The index of the entry carrying `k`; meaningful only under `has_key`.
pub open spec fn key_index<V>(s: Seq<(u64, V)>, k: u64) -> int {
    choose|i: int| 0 <= i < s.len() && s[i].0 == k
}

/// The value stored under `k`, if any.
pub open spec fn lookup<V>(s: Seq<(u64, V)>, k: u64) -> Option<V> {
    if has_key(s, k) {
        Some(s[key_index(s, k)].1)
    } else {
        None
    }
}

/// No two entries carry the same key.
pub open spec fn distinct_keys<V>(s: Seq<(u64, V)>) -> bool {
    forall|i: int, j: int| 0 <= i < j < s.len() ==> s[i].0 != s[j].0
}

/// `s` without the entry carrying `k` (unchanged when `k` is absent).
pub open spec fn erase_key<V>(s: Seq<(u64, V)>, k: u64) -> Seq<(u64, V)> {
    if has_key(s, k) {
        s.remove(key_index(s, k))
    } else {
        s
    }
}

/// Insert-or-overwrite at the tail: the entry for `k` leaves its old
/// position and `(k, v)` becomes the newest entry.
pub open spec fn tail_insert<V>(s: Seq<(u64, V)>, k: u64, v: V) -> Seq<(u64, V)> {
    erase_key(s, k).push((k, v))
}

/// Move the entry carrying `k` to the tail, keeping its value.
pub open spec fn move_to_back<V>(s: Seq<(u64, V)>, k: u64) -> Seq<(u64, V)>
    recommends
        has_key(s, k),
{
    tail_insert(s, k, s[key_index(s, k)].1)
}

/// Evict from the head until at most `cap` entries remain.
pub open spec fn evict_to<V>(s: Seq<(u64, V)>, cap: u64) -> Seq<(u64, V)> {
    if s.len() <= cap {
        s
    } else {
        s.skip(s.len() - cap)
    }
}

/// A counter that sticks at its largest value instead of wrapping.
pub open spec fn bump(c: u64) -> u64 {
    if c == u64::MAX {
        c
    } else {
        (c + 1) as u64
    }
}

/// Addition on `u64` that sticks at the largest value.
pub open spec fn sat_add(a: u64, b: u64) -> u64 {
    if a + b <= u64::MAX {
        (a + b) as u64
    } else {
        u64::MAX
    }
}

/// With distinct keys, the entry carrying `k` sits at exactly one index.
pub proof fn lemma_key_index_unique<V>(s: Seq<(u64, V)>, k: u64, i: int)
    requires
        distinct_keys(s),
        0 <= i < s.len(),
        s[i].0 == k,
    ensures
        has_key(s, k),
        key_index(s, k) == i,
{
    assert(has_key(s, k));
    let j = key_index(s, k);
    assert(0 <= j < s.len() && s[j].0 == k);
    if i < j {
        assert(s[i].0 != s[j].0);
    } else if j < i {
        assert(s[j].0 != s[i].0);
    }
}

/// Erasing a key keeps the remaining entries, their order and their
/// distinctness, and leaves no entry carrying that key.
pub proof fn lemma_erase_key<V>(s: Seq<(u64, V)>, k: u64)
    requires
        distinct_keys(s),
    ensures
        distinct_keys(erase_key(s, k)),
        !has_key(erase_key(s, k), k),
        erase_key(s, k).len() == if has_key(s, k) { s.len() - 1 } else { s.len() as int },
{
    if has_key(s, k) {
        let i = key_index(s, k);
        assert(0 <= i < s.len() && s[i].0 == k);
        let r = s.remove(i);
        assert forall|a: int| 0 <= a < r.len() implies r[a].0 != k by {
            if a < i {
                assert(r[a] == s[a]);
                lemma_key_index_unique(s, k, i);
                if s[a].0 == k {
                    lemma_key_index_unique(s, k, a);
                }
            } else {
                assert(r[a] == s[a + 1]);
                if s[a + 1].0 == k {
                    lemma_key_index_unique(s, k, a + 1);
                    lemma_key_index_unique(s, k, i);
                }
            }
        }
        assert forall|a: int, b: int| 0 <= a < b < r.len() implies r[a].0 != r[b].0 by {
            let a0 = if a < i { a } else { a + 1 };
            let b0 = if b < i { b } else { b + 1 };
            assert(r[a] == s[a0]);
            assert(r[b] == s[b0]);
        }
    }
}

/// Insert-or-overwrite at the tail keeps keys distinct and afterwards the
/// key reads back the inserted value.
pub proof fn lemma_tail_insert<V>(s: Seq<(u64, V)>, k: u64, v: V)
    requires
        distinct_keys(s),
    ensures
        distinct_keys(tail_insert(s, k, v)),
        lookup(tail_insert(s, k, v), k) == Some(v),
        tail_insert(s, k, v).len() == if has_key(s, k) { s.len() as int } else { s.len() + 1 as int },
{
    lemma_erase_key(s, k);
    let e = erase_key(s, k);
    let t = tail_insert(s, k, v);
    assert(t == e.push((k, v)));
    assert forall|a: int, b: int| 0 <= a < b < t.len() implies t[a].0 != t[b].0 by {
        if b < t.len() - 1 {
            assert(t[a] == e[a] && t[b] == e[b]);
        } else {
            assert(t[a] == e[a] && e[a].0 != k);
        }
    }
    lemma_key_index_unique(t, k, t.len() - 1);
}

/// Law: a cleared cache misses on every key — no key has an entry in the
/// empty view, so a lookup of any previously present key finds nothing.
pub proof fn lemma_empty_has_no_key<V>(k: u64)
    ensures
        !has_key(Seq::<(u64, V)>::empty(), k),
        lookup(Seq::<(u64, V)>::empty(), k) is None,
{
}

/// The entries as plain key/value pairs, their stamps dropped.
pub open spec fn strip_stamps(s: Seq<(u64, (u64, u64))>) -> Seq<(u64, u64)> {
    s.map_values(|e: (u64, (u64, u64))| (e.0, e.1.0))
}

pub proof fn lemma_strip_push(s: Seq<(u64, (u64, u64))>, e: (u64, (u64, u64)))
    ensures
        strip_stamps(s.push(e)) == strip_stamps(s).push((e.0, e.1.0)),
{
    assert(strip_stamps(s.push(e)) =~= strip_stamps(s).push((e.0, e.1.0)));
}

pub proof fn lemma_strip_remove(s: Seq<(u64, (u64, u64))>, i: int)
    requires
        0 <= i < s.len(),
    ensures
        strip_stamps(s.remove(i)) == strip_stamps(s).remove(i),
{
    assert(strip_stamps(s.remove(i)) =~= strip_stamps(s).remove(i));
}

pub proof fn lemma_strip_drop_first(s: Seq<(u64, (u64, u64))>)
    requires
        s.len() > 0,
    ensures
        strip_stamps(s.drop_first()) == strip_stamps(s).drop_first(),
{
    assert(strip_stamps(s.drop_first()) =~= strip_stamps(s).drop_first());
}

pub proof fn lemma_strip_skip(s: Seq<(u64, (u64, u64))>, n: int)
    requires
        0 <= n <= s.len(),
    ensures
        strip_stamps(s.skip(n)) == strip_stamps(s).skip(n),
{
    assert(strip_stamps(s.skip(n)) =~= strip_stamps(s).skip(n));
}

/// Keys, their uniqueness and their presence survive the stamp drop.
pub proof fn lemma_strip_keys(s: Seq<(u64, (u64, u64))>, k: u64)
    ensures
        strip_stamps(s).len() == s.len(),
        has_key(strip_stamps(s), k) <==> has_key(s, k),
        distinct_keys(strip_stamps(s)) <==> distinct_keys(s),
{
    let p = strip_stamps(s);
    assert(forall|i: int| 0 <= i < s.len() ==> (#[trigger] p[i]).0 == s[i].0);
    if has_key(p, k) {
        let i = choose|i: int| 0 <= i < p.len() && p[i].0 == k;
        assert(s[i].0 == k);
    }
    if has_key(s, k) {
        let i = choose|i: int| 0 <= i < s.len() && s[i].0 == k;
        assert(p[i].0 == k);
    }
    if distinct_keys(s) {
        assert forall|i: int, j: int| 0 <= i < j < p.len() implies (#[trigger] p[i]).0 != (
        #[trigger] p[j]).0 by {
            assert(s[i].0 != s[j].0);
        }
    }
    if distinct_keys(p) {
        assert forall|i: int, j: int| 0 <= i < j < s.len() implies (#[trigger] s[i]).0 != (
        #[trigger] s[j]).0 by {
            assert(p[i].0 != p[j].0);
        }
    }
}

/// Under distinct keys the stamp drop keeps the key's index and shows the
/// key's plain value.
pub proof fn lemma_strip_lookup(s: Seq<(u64, (u64, u64))>, k: u64)
    requires
        distinct_keys(s),
        has_key(s, k),
    ensures
        key_index(strip_stamps(s), k) == key_index(s, k),
        lookup(strip_stamps(s), k) == Some(s[key_index(s, k)].1.0),
{
    lemma_strip_keys(s, k);
    let i = key_index(s, k);
    assert(strip_stamps(s)[i].0 == k);
    lemma_key_index_unique(strip_stamps(s), k, i);
}

/// Stamps never decrease from head to tail.
pub open spec fn sorted_stamps(s: Seq<(u64, (u64, u64))>) -> bool {
    forall|i: int, j: int| 0 <= i <= j < s.len() ==> s[i].1.1 <= s[j].1.1
}

/// Every stamp lies at or below `bound`.
pub open spec fn stamps_below(s: Seq<(u64, (u64, u64))>, bound: u64) -> bool {
    forall|i: int| 0 <= i < s.len() ==> s[i].1.1 <= bound
}

/// Saturating addition grows with either argument.
pub proof fn lemma_sat_add_monotonic(a1: u64, a2: u64, b: u64)
    requires
        a1 <= a2,
    ensures
        sat_add(a1, b) <= sat_add(a2, b),
{
}

/// Erasing a key keeps the stamp order and any stamp bound.
pub proof fn lemma_erase_key_stamps(s: Seq<(u64, (u64, u64))>, k: u64, bound: u64)
    requires
        sorted_stamps(s),
        stamps_below(s, bound),
    ensures
        sorted_stamps(erase_key(s, k)),
        stamps_below(erase_key(s, k), bound),
{
    if has_key(s, k) {
        let x = key_index(s, k);
        let r = s.remove(x);
        assert forall|a: int| 0 <= a < r.len() implies (#[trigger] r[a]).1.1 <= bound by {
            if a < x {
                assert(r[a] == s[a]);
            } else {
                assert(r[a] == s[a + 1]);
            }
        }
        assert forall|a: int, b: int| 0 <= a <= b < r.len() implies (#[trigger] r[a]).1.1 <= (
        #[trigger] r[b]).1.1 by {
            let a0 = if a < x { a } else { a + 1 };
            let b0 = if b < x { b } else { b + 1 };
            assert(r[a] == s[a0]);
            assert(r[b] == s[b0]);
        }
    }
}

/// Appending an entry whose stamp dominates keeps the stamp order.
pub proof fn lemma_push_sorted(s: Seq<(u64, (u64, u64))>, e: (u64, (u64, u64)), bound: u64)
    requires
        sorted_stamps(s),
        stamps_below(s, bound),
        bound <= e.1.1,
    ensures
        sorted_stamps(s.push(e)),
{
    let t = s.push(e);
    assert forall|a: int, b: int| 0 <= a <= b < t.len() implies (#[trigger] t[a]).1.1 <= (
    #[trigger] t[b]).1.1 by {
        if b < t.len() - 1 {
            assert(t[a] == s[a] && t[b] == s[b]);
        } else if a < t.len() - 1 {
            assert(t[a] == s[a]);
        }
    }
}

/// A stamp bound may be relaxed upward.
pub proof fn lemma_stamps_below_weaken(s: Seq<(u64, (u64, u64))>, b1: u64, b2: u64)
    requires
        stamps_below(s, b1),
        b1 <= b2,
    ensures
        stamps_below(s, b2),
{
}

/// A suffix keeps distinct keys, the stamp order and any stamp bound.
pub proof fn lemma_skip_props(s: Seq<(u64, (u64, u64))>, n: int, bound: u64)
    requires
        0 <= n <= s.len(),
        distinct_keys(s),
        sorted_stamps(s),
        stamps_below(s, bound),
    ensures
        distinct_keys(s.skip(n)),
        sorted_stamps(s.skip(n)),
        stamps_below(s.skip(n), bound),
{
    let t = s.skip(n);
    assert(forall|i: int| 0 <= i < t.len() ==> #[trigger] t[i] == s[n + i]);
}

/// A key absent from the whole is absent from any suffix.
pub proof fn lemma_skip_no_key(s: Seq<(u64, (u64, u64))>, n: int, k: u64)
    requires
        0 <= n <= s.len(),
        !has_key(s, k),
    ensures
        !has_key(s.skip(n), k),
{
    if has_key(s.skip(n), k) {
        let i = choose|i: int| 0 <= i < s.skip(n).len() && s.skip(n)[i].0 == k;
        assert(s.skip(n)[i] == s[n + i]);
    }
}

/// Entries remaining after the sweep: drop from the head while the head's
/// stamp has passed, that is, lies at or before `now` — the same boundary
/// at which a lookup treats an entry as expired.
pub open spec fn drop_expired(s: Seq<(u64, (u64, u64))>, now: u64) -> Seq<(u64, (u64, u64))>
    decreases s.len(),
{
    if s.len() == 0 {
        s
    } else if s[0].1.1 <= now {
        drop_expired(s.drop_first(), now)
    } else {
        s
    }
}

/// The sweep leaves a suffix of the entries, and its head (if any) is not
/// yet expired.
pub proof fn lemma_drop_expired_suffix(s: Seq<(u64, (u64, u64))>, now: u64)
    ensures
        exists|n: int|
            0 <= n <= s.len() && drop_expired(s, now) == s.skip(n) && (forall|i: int|
                0 <= i < n ==> #[trigger] s[i].1.1 <= now),
        drop_expired(s, now).len() > 0 ==> drop_expired(s, now)[0].1.1 > now,
    decreases s.len(),
{
    if s.len() == 0 {
        assert(drop_expired(s, now) == s.skip(0));
    } else if s[0].1.1 <= now {
        lemma_drop_expired_suffix(s.drop_first(), now);
        let m = choose|m: int|
            0 <= m <= s.drop_first().len() && drop_expired(s.drop_first(), now)
                == s.drop_first().skip(m) && (forall|i: int|
                0 <= i < m ==> #[trigger] s.drop_first()[i].1.1 <= now);
        assert(s.drop_first().skip(m) =~= s.skip(m + 1));
        assert forall|i: int| 0 <= i < m + 1 implies #[trigger] s[i].1.1 <= now by {
            if i > 0 {
                assert(s.drop_first()[i - 1].1.1 <= now);
            }
        }
        assert(drop_expired(s, now) == s.skip(m + 1));
    } else {
        assert(drop_expired(s, now) == s.skip(0));
    }
}

/// Law: a sweep at instant `now` removes every entry whose stamp lies at
/// or before `now` and keeps every other entry, in order.
pub proof fn lemma_sweep_clears_expired(s: Seq<(u64, (u64, u64))>, now: u64)
    requires
        distinct_keys(s),
        sorted_stamps(s),
    ensures
        forall|j: int|
            0 <= j < drop_expired(s, now).len() ==> (#[trigger] drop_expired(s, now)[j]).1.1
                > now,
        forall|i: int|
            0 <= i < s.len() && (#[trigger] s[i]).1.1 <= now ==> !has_key(
                drop_expired(s, now),
                s[i].0,
            ),
{
    lemma_drop_expired_suffix(s, now);
    let n = choose|n: int|
        0 <= n <= s.len() && drop_expired(s, now) == s.skip(n) && (forall|i: int|
            0 <= i < n ==> #[trigger] s[i].1.1 <= now);
    let d = drop_expired(s, now);
    assert forall|j: int| 0 <= j < d.len() implies (#[trigger] d[j]).1.1 > now by {
        assert(d[j] == s[n + j]);
        assert(d[0].1.1 > now);
        assert(s[n].1.1 <= s[n + j].1.1);
    }
    assert forall|i: int| 0 <= i < s.len() && (#[trigger] s[i]).1.1 <= now implies !has_key(
        d,
        s[i].0,
    ) by {
        if has_key(d, s[i].0) {
            let j = choose|j: int| 0 <= j < d.len() && d[j].0 == s[i].0;
            assert(d[j] == s[n + j]);
            if n + j != i {
                if i < n + j {
                    assert(s[i].0 != s[n + j].0);
                } else {
                    assert(s[n + j].0 != s[i].0);
                }
            }
        }
    }
}

/// Law: a touch at `now1` keeps an entry alive at every later instant
/// `now2` lying strictly less than `ttl` past `now1`. The refreshed cache
/// reads the entry back with stamp `now1 + ttl`, which still lies in the
/// future at `now2`; each such read re-establishes the premise, so reads
/// spaced below `ttl` keep the entry retrievable indefinitely.
pub proof fn lemma_sliding_refresh(
    s: Seq<(u64, (u64, u64))>,
    k: u64,
    v: u64,
    ttl: u64,
    now1: u64,
    now2: u64,
)
    requires
        distinct_keys(s),
        now1 + ttl <= u64::MAX,
        now1 <= now2 < now1 + ttl,
    ensures
        lookup(tail_insert(s, k, (v, sat_add(now1, ttl))), k) == Some((v, sat_add(now1, ttl))),
        sat_add(now1, ttl) > now2,
{
    lemma_tail_insert(s, k, (v, sat_add(now1, ttl)));
}

} // verus!
