//! Slot tables: how the builder places entries by linear probing, how a
//! lookup probes, and the proof that a lookup finds what was placed.
use vstd::prelude::*;
use crate::layout::{Slot, slot_matches, slot_start, probe_index, lemma_bucket_and_start};
use crate::hash::hash_spec;

verus! {

/// A table of `n` empty slots.
pub open spec fn empty_table(n: nat) -> Seq<Slot> {
    Seq::new(n, |i: int| Slot { hash: 0, pos: 0 })
}

/// Number of probing steps from slot `s`, counted from step `i`, until the
/// first empty slot; the table length if none is met.
pub open spec fn first_empty(t: Seq<Slot>, s: int, i: int) -> int
    decreases t.len() - i,
{
    if i >= t.len() {
        t.len() as int
    } else if t[probe_index(s, i, t.len() as int)].pos == 0 {
        i
    } else {
        first_empty(t, s, i + 1)
    }
}

/// The table after `e` is placed: in the first empty slot on the probing
/// path of its hash.
pub open spec fn table_insert(t: Seq<Slot>, e: Slot) -> Seq<Slot> {
    let n = t.len() as int;
    let s = slot_start(e.hash, n);
    t.update(probe_index(s, first_empty(t, s, 0), n), e)
}

/// The table of `n` slots that placing the entries one after the other
/// gives.
pub open spec fn build_table(es: Seq<Slot>, n: nat) -> Seq<Slot>
    decreases es.len(),
{
    if es.len() == 0 {
        empty_table(n)
    } else {
        table_insert(build_table(es.drop_last(), n), es.last())
    }
}

/// Number of slots that are not empty.
pub open spec fn occupied(t: Seq<Slot>) -> nat
    decreases t.len(),
{
    if t.len() == 0 {
        0
    } else {
        occupied(t.drop_last()) + if t.last().pos != 0 {
            1nat
        } else {
            0nat
        }
    }
}

/// What probing from slot `s`, counted from step `i`, finds for `key`: the
/// first slot that answers the key, unless an empty slot or the end of the
/// path comes first.
pub open spec fn scan(bytes: Seq<u8>, key: Seq<u8>, t: Seq<Slot>, s: int, i: int) -> Option<Slot>
    decreases t.len() - i,
{
    if i < 0 || i >= t.len() {
        None
    } else {
        let slot = t[probe_index(s, i, t.len() as int)];
        if slot.pos == 0 {
            None
        } else if slot_matches(bytes, slot, key) {
            Some(slot)
        } else {
            scan(bytes, key, t, s, i + 1)
        }
    }
}

/// The first of the entries, in the order in which they were placed, that
/// answers `key`.
pub open spec fn first_match(bytes: Seq<u8>, key: Seq<u8>, es: Seq<Slot>) -> Option<Slot>
    decreases es.len(),
{
    if es.len() == 0 {
        None
    } else {
        match first_match(bytes, key, es.drop_last()) {
            Some(x) => Some(x),
            None => if slot_matches(bytes, es.last(), key) {
                Some(es.last())
            } else {
                None
            },
        }
    }
}

/// No entry points at offset 0, the mark of an empty slot.
pub open spec fn all_placed(es: Seq<Slot>) -> bool {
    forall|k: int| 0 <= k < es.len() ==> (#[trigger] es[k]).pos != 0
}

proof fn lemma_occupied_bound(t: Seq<Slot>)
    ensures
        occupied(t) <= t.len(),
        (forall|i: int| 0 <= i < t.len() ==> (#[trigger] t[i]).pos != 0) ==> occupied(t) == t.len(),
    decreases t.len(),
{
    if t.len() > 0 {
        lemma_occupied_bound(t.drop_last());
    }
}

proof fn lemma_occupied_empty(n: nat)
    ensures
        occupied(empty_table(n)) == 0,
    decreases n,
{
    if n > 0 {
        assert(empty_table(n).drop_last() =~= empty_table((n - 1) as nat));
        lemma_occupied_empty((n - 1) as nat);
    }
}

proof fn lemma_occupied_update(t: Seq<Slot>, p: int, e: Slot)
    requires
        0 <= p < t.len(),
        t[p].pos == 0,
        e.pos != 0,
    ensures
        occupied(t.update(p, e)) == occupied(t) + 1,
    decreases t.len(),
{
    let u = t.update(p, e);
    if p == t.len() - 1 {
        assert(u.drop_last() =~= t.drop_last());
    } else {
        lemma_occupied_update(t.drop_last(), p, e);
        assert(u.drop_last() =~= t.drop_last().update(p, e));
    }
}

/// The slots on the probing path before the first empty one are occupied.
pub proof fn lemma_first_empty(t: Seq<Slot>, s: int, i: int)
    requires
        0 <= s < t.len(),
        0 <= i <= t.len(),
    ensures
        i <= first_empty(t, s, i) <= t.len(),
        first_empty(t, s, i) < t.len() ==> t[probe_index(s, first_empty(t, s, i), t.len() as int)].pos
            == 0,
        forall|k: int|
            i <= k < first_empty(t, s, i) ==> (#[trigger] t[probe_index(s, k, t.len() as int)]).pos
                != 0,
    decreases t.len() - i,
{
    if i < t.len() && t[probe_index(s, i, t.len() as int)].pos != 0 {
        lemma_first_empty(t, s, i + 1);
    }
}

/// Where a table has an empty slot, every probing path meets one.
pub proof fn lemma_first_empty_exists(t: Seq<Slot>, s: int)
    requires
        0 <= s < t.len(),
        occupied(t) < t.len(),
    ensures
        0 <= first_empty(t, s, 0) < t.len(),
        t[probe_index(s, first_empty(t, s, 0), t.len() as int)].pos == 0,
        forall|k: int|
            0 <= k < first_empty(t, s, 0) ==> (#[trigger] t[probe_index(s, k, t.len() as int)]).pos
                != 0,
{
    lemma_first_empty(t, s, 0);
    let n = t.len() as int;
    if first_empty(t, s, 0) == n {
        assert forall|j: int| 0 <= j < n implies (#[trigger] t[j]).pos != 0 by {
            let k = if j >= s {
                j - s
            } else {
                j - s + n
            };
            assert(probe_index(s, k, n) == j);
            assert(t[probe_index(s, k, n)].pos != 0);
        }
        lemma_occupied_bound(t);
    }
}

/// What building a table keeps true: its length, the number of slots in
/// use, and that every slot in use holds one of the entries.
pub proof fn lemma_build_table(es: Seq<Slot>, n: nat)
    requires
        es.len() <= n,
        all_placed(es),
    ensures
        build_table(es, n).len() == n,
        occupied(build_table(es, n)) == es.len(),
        forall|p: int|
            0 <= p < n && (#[trigger] build_table(es, n)[p]).pos != 0 ==> exists|k: int|
                0 <= k < es.len() && es[k] == build_table(es, n)[p],
    decreases es.len(),
{
    if es.len() == 0 {
        lemma_occupied_empty(n);
    } else {
        let t = build_table(es.drop_last(), n);
        let e = es.last();
        lemma_build_table(es.drop_last(), n);
        let s = slot_start(e.hash, n as int);
        lemma_bucket_and_start(e.hash, n as int);
        lemma_first_empty_exists(t, s);
        let place = probe_index(s, first_empty(t, s, 0), n as int);
        lemma_occupied_update(t, place, e);
        let u = build_table(es, n);
        assert(u == t.update(place, e));
        assert forall|p: int| 0 <= p < n && (#[trigger] u[p]).pos != 0 implies exists|k: int|
            0 <= k < es.len() && es[k] == u[p] by {
            if p == place {
                assert(es[es.len() - 1] == u[p]);
            } else {
                assert(t[p].pos != 0);
                let k = choose|k: int| 0 <= k < es.drop_last().len() && es.drop_last()[k] == t[p];
                assert(es[k] == u[p]);
            }
        }
    }
}

/// A probe that found its slot still finds it after an empty slot is
/// filled.
proof fn lemma_scan_stable(
    bytes: Seq<u8>,
    key: Seq<u8>,
    t: Seq<Slot>,
    s: int,
    i: int,
    p: int,
    e: Slot,
)
    requires
        0 <= s < t.len(),
        0 <= i,
        0 <= p < t.len(),
        t[p].pos == 0,
        scan(bytes, key, t, s, i).is_some(),
    ensures
        scan(bytes, key, t.update(p, e), s, i) == scan(bytes, key, t, s, i),
    decreases t.len() - i,
{
    if i < t.len() {
        let slot = t[probe_index(s, i, t.len() as int)];
        if slot.pos != 0 && !slot_matches(bytes, slot, key) {
            lemma_scan_stable(bytes, key, t, s, i + 1, p, e);
        }
    }
}

/// A probe finds nothing in a table in which no slot answers the key.
proof fn lemma_scan_none(bytes: Seq<u8>, key: Seq<u8>, t: Seq<Slot>, s: int, i: int)
    requires
        0 <= s < t.len(),
        0 <= i,
        forall|p: int|
            0 <= p < t.len() && (#[trigger] t[p]).pos != 0 ==> !slot_matches(bytes, t[p], key),
    ensures
        scan(bytes, key, t, s, i).is_none(),
    decreases t.len() - i,
{
    if i < t.len() {
        lemma_scan_none(bytes, key, t, s, i + 1);
    }
}

/// A probe walks over occupied slots that do not answer the key and stops
/// at the first that does.
proof fn lemma_scan_reaches(
    bytes: Seq<u8>,
    key: Seq<u8>,
    t: Seq<Slot>,
    s: int,
    i: int,
    d: int,
)
    requires
        0 <= s < t.len(),
        0 <= i <= d < t.len(),
        forall|k: int|
            i <= k < d ==> {
                let slot = #[trigger] t[probe_index(s, k, t.len() as int)];
                slot.pos != 0 && !slot_matches(bytes, slot, key)
            },
        t[probe_index(s, d, t.len() as int)].pos != 0,
        slot_matches(bytes, t[probe_index(s, d, t.len() as int)], key),
    ensures
        scan(bytes, key, t, s, i) == Some(t[probe_index(s, d, t.len() as int)]),
    decreases d - i,
{
    if i < d {
        assert(t[probe_index(s, i, t.len() as int)].pos != 0);
        lemma_scan_reaches(bytes, key, t, s, i + 1, d);
    }
}

/// Probing a table for a key finds the first entry, in the order of
/// placement, that answers the key, and nothing where no entry does.
pub proof fn lemma_scan_build(bytes: Seq<u8>, key: Seq<u8>, es: Seq<Slot>, n: nat)
    requires
        es.len() <= n,
        n > 0,
        all_placed(es),
    ensures
        scan(bytes, key, build_table(es, n), slot_start(hash_spec(key), n as int), 0)
            == first_match(bytes, key, es),
        first_match(bytes, key, es).is_none() ==> forall|k: int|
            0 <= k < es.len() ==> !slot_matches(bytes, #[trigger] es[k], key),
    decreases es.len(),
{
    let s = slot_start(hash_spec(key), n as int);
    lemma_bucket_and_start(hash_spec(key), n as int);
    if es.len() == 0 {
        lemma_scan_none(bytes, key, empty_table(n), s, 0);
    } else {
        let prev = es.drop_last();
        let e = es.last();
        let t = build_table(prev, n);
        lemma_scan_build(bytes, key, prev, n);
        lemma_build_table(prev, n);
        let se = slot_start(e.hash, n as int);
        lemma_bucket_and_start(e.hash, n as int);
        lemma_first_empty_exists(t, se);
        let d = first_empty(t, se, 0);
        let place = probe_index(se, d, n as int);
        let u = t.update(place, e);
        assert(build_table(es, n) == u);
        if first_match(bytes, key, prev).is_some() {
            lemma_scan_stable(bytes, key, t, s, 0, place, e);
        } else {
            assert forall|p: int| 0 <= p < n && (#[trigger] t[p]).pos != 0 implies !slot_matches(
                bytes,
                t[p],
                key,
            ) by {
                let k = choose|k: int| 0 <= k < prev.len() && prev[k] == t[p];
                assert(!slot_matches(bytes, prev[k], key));
            }
            if slot_matches(bytes, e, key) {
                assert(se == s);
                assert forall|k: int| 0 <= k < d implies {
                    let slot = #[trigger] u[probe_index(s, k, n as int)];
                    slot.pos != 0 && !slot_matches(bytes, slot, key)
                } by {
                    assert(probe_index(s, k, n as int) != place);
                    assert(t[probe_index(s, k, n as int)].pos != 0);
                }
                lemma_scan_reaches(bytes, key, u, s, 0, d);
            } else {
                assert forall|p: int| 0 <= p < n && (#[trigger] u[p]).pos
                    != 0 implies !slot_matches(bytes, u[p], key) by {
                    if p != place {
                        assert(t[p].pos != 0);
                    }
                }
                lemma_scan_none(bytes, key, u, s, 0);
            }
            assert forall|k: int| 0 <= k < es.len() && first_match(bytes, key, es).is_none()
                implies !slot_matches(bytes, #[trigger] es[k], key) by {
                if k < prev.len() {
                    assert(prev[k] == es[k]);
                }
            }
        }
    }
}

} // verus!
