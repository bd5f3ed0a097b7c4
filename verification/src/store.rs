//! The ordered map that backs every cache: `linked_hash_map::LinkedHashMap`,
//! keyed by `u64`, holding a `(value, stamp)` pair per entry.
//!
//! The map keeps its entries in insertion order and lets an entry be moved
//! to the back when it is touched; the head is the oldest entry. Its
//! contents are named by the uninterpreted `entries`, a sequence of
//! `(key, (value, stamp))` triples in that order, and each method the
//! caches call is wrapped with a contract stating what the crate's source
//! shows of it.

use vstd::prelude::*;

use crate::model::evict_to;
use crate::model::has_key;
use linked_hash_map::LinkedHashMap;

verus! {

#[verifier::external_type_specification]
#[verifier::external_body]
#[verifier::reject_recursive_types(K)]
#[verifier::reject_recursive_types(V)]
#[verifier::reject_recursive_types(S)]
pub struct ExLinkedHashMap<K, V, S>(LinkedHashMap<K, V, S>);

/// The entries of the map, head first: key, then value and stamp.
pub uninterp spec fn entries(m: LinkedHashMap<u64, (u64, u64)>) -> Seq<(u64, (u64, u64))>;

/// Relies on LinkedHashMap::new: an empty map.
#[verifier::external_body]
pub(crate) fn map_new() -> (m: LinkedHashMap<u64, (u64, u64)>)
    ensures
        entries(m) == Seq::<(u64, (u64, u64))>::empty(),
{
    LinkedHashMap::new()
}

/// Relies on LinkedHashMap::len: the number of entries.
#[verifier::external_body]
pub(crate) fn map_len(m: &LinkedHashMap<u64, (u64, u64)>) -> (n: usize)
    ensures
        n == entries(*m).len(),
{
    m.len()
}

/// Relies on LinkedHashMap::contains_key.
#[verifier::external_body]
pub(crate) fn map_contains(m: &LinkedHashMap<u64, (u64, u64)>, k: u64) -> (b: bool)
    ensures
        b == has_key(entries(*m), k),
{
    m.contains_key(&k)
}

/// Relies on LinkedHashMap::get: a lookup that leaves the order alone.
#[verifier::external_body]
pub(crate) fn map_get(m: &LinkedHashMap<u64, (u64, u64)>, k: u64) -> (r: Option<(u64, u64)>)
    ensures
        match r {
            Some(v) => exists|i: int|
                0 <= i < entries(*m).len() && entries(*m)[i] == (k, v),
            None => !has_key(entries(*m), k),
        },
{
    m.get(&k).copied()
}

/// Relies on LinkedHashMap::get_refresh: on a hit the entry moves to the
/// back, its value unchanged.
#[verifier::external_body]
pub(crate) fn map_refresh(m: &mut LinkedHashMap<u64, (u64, u64)>, k: u64) -> (r: Option<
    (u64, u64),
>)
    ensures
        match r {
            Some(v) => exists|i: int|
                0 <= i < entries(*old(m)).len() && entries(*old(m))[i] == (k, v) && entries(
                    *final(m),
                ) == entries(*old(m)).remove(i).push((k, v)),
            None => !has_key(entries(*old(m)), k) && entries(*final(m)) == entries(*old(m)),
        },
{
    m.get_refresh(&k).map(|v| *v)
}

/// Relies on LinkedHashMap::insert: the entry for `k` (if any) leaves its
/// place and `(k, v)` becomes the newest entry; any replaced value is
/// returned.
#[verifier::external_body]
pub(crate) fn map_insert(m: &mut LinkedHashMap<u64, (u64, u64)>, k: u64, v: (u64, u64)) -> (r:
    Option<(u64, u64)>)
    ensures
        match r {
            Some(p) => exists|i: int|
                0 <= i < entries(*old(m)).len() && entries(*old(m))[i] == (k, p) && entries(
                    *final(m),
                ) == entries(*old(m)).remove(i).push((k, v)),
            None => !has_key(entries(*old(m)), k) && entries(*final(m)) == entries(*old(m)).push(
                (k, v),
            ),
        },
{
    m.insert(k, v)
}

/// Relies on LinkedHashMap::remove: the entry for `k` (if any) is taken
/// out, the rest keep their order.
#[verifier::external_body]
pub(crate) fn map_remove(m: &mut LinkedHashMap<u64, (u64, u64)>, k: u64) -> (r: Option<
    (u64, u64),
>)
    ensures
        match r {
            Some(v) => exists|i: int|
                0 <= i < entries(*old(m)).len() && entries(*old(m))[i] == (k, v) && entries(
                    *final(m),
                ) == entries(*old(m)).remove(i),
            None => !has_key(entries(*old(m)), k) && entries(*final(m)) == entries(*old(m)),
        },
{
    m.remove(&k)
}

/// Relies on LinkedHashMap::pop_front: the oldest entry is taken out.
#[verifier::external_body]
pub(crate) fn map_pop_front(m: &mut LinkedHashMap<u64, (u64, u64)>) -> (r: Option<
    (u64, (u64, u64)),
>)
    ensures
        match r {
            Some(e) => entries(*old(m)).len() > 0 && e == entries(*old(m))[0] && entries(
                *final(m),
            ) == entries(*old(m)).drop_first(),
            None => entries(*old(m)).len() == 0 && entries(*final(m)) == entries(*old(m)),
        },
{
    m.pop_front()
}

/// Relies on LinkedHashMap::front: a look at the oldest entry.
#[verifier::external_body]
pub(crate) fn map_front(m: &LinkedHashMap<u64, (u64, u64)>) -> (r: Option<(u64, (u64, u64))>)
    ensures
        match r {
            Some(e) => entries(*m).len() > 0 && e == entries(*m)[0],
            None => entries(*m).len() == 0,
        },
{
    m.front().map(|(k, v)| (*k, *v))
}

/// Relies on LinkedHashMap::clear: every entry is dropped.
#[verifier::external_body]
pub(crate) fn map_clear(m: &mut LinkedHashMap<u64, (u64, u64)>)
    ensures
        entries(*final(m)) == Seq::<(u64, (u64, u64))>::empty(),
{
    m.clear()
}

/// Pop entries from the head until at most `cap` remain.
pub(crate) fn shrink_to(m: &mut LinkedHashMap<u64, (u64, u64)>, cap: u64)
    ensures
        entries(*final(m)) == evict_to(entries(*old(m)), cap),
        entries(*final(m)).len() <= cap,
{
    let ghost orig = entries(*m);
    while map_len(m) as u64 > cap
        invariant
            evict_to(entries(*m), cap) == evict_to(orig, cap),
        decreases entries(*m).len(),
    {
        let ghost cur = entries(*m);
        map_pop_front(m);
        proof {
            assert(cur.len() > cap);
            assert(entries(*m) == cur.drop_first());
            if cur.drop_first().len() <= cap {
                assert(evict_to(cur.drop_first(), cap) =~= evict_to(cur, cap));
            } else {
                assert(evict_to(cur.drop_first(), cap) =~= evict_to(cur, cap));
            }
        }
    }
}

} // verus!
