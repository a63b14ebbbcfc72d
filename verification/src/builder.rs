//! The records of a database under construction, as the builder holds them,
//! and the operations that add, find and remove records.
use vstd::prelude::*;
use vstd::slice::slice_to_vec;
use crate::hash::{cdb_hash, hash_spec};
use crate::mode::{CdbFindMode, CdbPutMode};
use crate::model::{
    Record, zeros, live_record, zero_record, rec_len, data_end, holds, has_key, remove_all,
    strip_tail, zero_all, remove_zero, fits, after_find, put_clears, put_existed, put_adds,
    after_put, lemma_data_upto_same, lemma_data_len_push, lemma_data_len_drop_last,
    lemma_data_len_remove, lemma_remove_all_step,
};
use crate::query::bytes_start_with;

verus! {

/// One record as the builder holds it, with the hash of its key.
pub struct Entry {
    pub key: Vec<u8>,
    pub val: Vec<u8>,
    pub hash: u32,
    pub live: bool,
}

impl View for Entry {
    type V = Record;

    open spec fn view(&self) -> Record {
        Record { key: self.key@, val: self.val@, live: self.live }
    }
}

/// The records that a list of entries stands for.
pub open spec fn records_of(es: Seq<Entry>) -> Seq<Record> {
    Seq::new(es.len(), |j: int| es[j]@)
}

/// What the builder keeps true of its entries: `dpos` is the offset at
/// which the records end, and every reachable entry carries the hash of
/// its key.
pub open spec fn entries_wf(es: Seq<Entry>, dpos: u32) -> bool {
    &&& dpos as int == data_end(records_of(es))
    &&& forall|j: int|
        0 <= j < es.len() && (#[trigger] es[j]).live ==> es[j].hash == hash_spec(es[j].key@)
}

/// A vector of `n` zero bytes.
pub fn zero_bytes(n: usize) -> (out: Vec<u8>)
    ensures
        out@ == zeros(n as nat),
{
    let out = vec![0u8; n];
    assert(out@ =~= zeros(n as nat));
    out
}

/// Tells whether the entry is reachable and stored under `key`, whose hash
/// is `h`.
pub fn entry_holds(e: &Entry, key: &[u8], h: u32) -> (yes: bool)
    requires
        e.live ==> e.hash == hash_spec(e.key@),
        h == hash_spec(key@),
    ensures
        yes == holds(e@, key@),
{
    if !e.live || e.hash != h || e.key.len() != key.len() {
        return false;
    }
    let same = bytes_start_with(e.key.as_slice(), 0, key);
    assert(e.key@.subrange(0, key@.len() as int) =~= e.key@);
    same
}

/// Tells whether some reachable entry is stored under `key`.
pub fn entries_have(entries: &Vec<Entry>, key: &[u8], h: u32) -> (found: bool)
    requires
        forall|j: int|
            0 <= j < entries@.len() && (#[trigger] entries@[j]).live ==> entries@[j].hash
                == hash_spec(entries@[j].key@),
        h == hash_spec(key@),
    ensures
        found == has_key(records_of(entries@), key@),
{
    let ghost rs = records_of(entries@);
    let mut j: usize = 0;
    while j < entries.len()
        invariant
            j <= entries@.len(),
            rs == records_of(entries@),
            h == hash_spec(key@),
            forall|k: int|
                0 <= k < entries@.len() && (#[trigger] entries@[k]).live ==> entries@[k].hash
                    == hash_spec(entries@[k].key@),
            forall|k: int| 0 <= k < j ==> !holds(#[trigger] rs[k], key@),
        decreases entries@.len() - j,
    {
        if entry_holds(&entries[j], key, h) {
            assert(holds(rs[j as int], key@));
            return true;
        }
        j += 1;
    }
    false
}

/// Appends a record, unless the records would then end behind the largest
/// offset that the format can hold.
pub fn add_entry(entries: &mut Vec<Entry>, dpos: &mut u32, key: &[u8], val: &[u8]) -> (ok: bool)
    requires
        entries_wf(old(entries)@, *old(dpos)),
    ensures
        entries_wf(final(entries)@, *final(dpos)),
        ok == fits(records_of(old(entries)@), key@, val@),
        ok ==> records_of(final(entries)@) == records_of(old(entries)@).push(
            live_record(key@, val@),
        ),
        !ok ==> final(entries)@ == old(entries)@ && *final(dpos) == *old(dpos),
{
    if key.len() as u64 > 0xffff_ffff || val.len() as u64 > 0xffff_ffff {
        return false;
    }
    let end: u64 = *dpos as u64 + 8 + key.len() as u64 + val.len() as u64;
    if end > 0xffff_ffff {
        return false;
    }
    let h: u32 = cdb_hash(key);
    let ghost rs = records_of(entries@);
    proof {
        lemma_data_len_push(rs, live_record(key@, val@));
    }
    entries.push(Entry { key: slice_to_vec(key), val: slice_to_vec(val), hash: h, live: true });
    *dpos = end as u32;
    assert(records_of(entries@) =~= rs.push(live_record(key@, val@)));
    true
}

/// Takes every reachable record under `key` out of the entries.
pub fn remove_entries(entries: &mut Vec<Entry>, dpos: &mut u32, key: &[u8], h: u32)
    requires
        entries_wf(old(entries)@, *old(dpos)),
        h == hash_spec(key@),
    ensures
        entries_wf(final(entries)@, *final(dpos)),
        records_of(final(entries)@) == remove_all(records_of(old(entries)@), key@),
{
    let ghost rs = records_of(entries@);
    let ghost mut i: int = 0;
    let mut j: usize = 0;
    proof {
        assert(rs.skip(0) =~= rs);
        lemma_remove_all_step(rs.take(0), key@);
        assert(records_of(entries@) =~= remove_all(rs.take(0), key@) + rs.skip(0));
    }
    while j < entries.len()
        invariant
            0 <= i <= rs.len(),
            j <= entries@.len(),
            rs.len() - i == entries@.len() - j,
            h == hash_spec(key@),
            entries_wf(entries@, *dpos),
            j == remove_all(rs.take(i), key@).len(),
            records_of(entries@) == remove_all(rs.take(i), key@) + rs.skip(i),
        decreases entries@.len() - j,
    {
        let ghost cur = records_of(entries@);
        let ghost done = remove_all(rs.take(i), key@);
        assert(cur[j as int] == rs[i]);
        proof {
            assert(rs.take(i + 1).drop_last() =~= rs.take(i));
            assert(rs.take(i + 1).last() == rs[i]);
            lemma_remove_all_step(rs.take(i + 1), key@);
        }
        if entry_holds(&entries[j], key, h) {
            proof {
                lemma_data_len_remove(cur, j as int);
            }
            let e = entries.remove(j);
            let gone: u32 = (8 + e.key.len() + e.val.len()) as u32;
            *dpos = *dpos - gone;
            assert(records_of(entries@) =~= cur.remove(j as int));
            assert(cur.remove(j as int) =~= done + rs.skip(i + 1));
        } else {
            assert(cur =~= done.push(rs[i]) + rs.skip(i + 1));
            j += 1;
        }
        proof {
            i = i + 1;
        }
    }
    assert(rs.take(i) =~= rs);
    assert(records_of(entries@) =~= remove_all(rs, key@));
}

/// Removes every reachable record under `key` by zeroing: those that end
/// the list are dropped, every other one has its key and value overwritten
/// with zero bytes and is no longer reachable.
pub fn zero_entries(entries: &mut Vec<Entry>, dpos: &mut u32, key: &[u8], h: u32)
    requires
        entries_wf(old(entries)@, *old(dpos)),
        h == hash_spec(key@),
    ensures
        entries_wf(final(entries)@, *final(dpos)),
        records_of(final(entries)@) == remove_zero(records_of(old(entries)@), key@),
{
    let ghost rs = records_of(entries@);
    loop
        invariant
            h == hash_spec(key@),
            entries_wf(entries@, *dpos),
            strip_tail(records_of(entries@), key@) == strip_tail(rs, key@),
        ensures
            records_of(entries@) == strip_tail(rs, key@),
        decreases entries@.len(),
    {
        let n: usize = entries.len();
        if n == 0 {
            break ;
        }
        let ghost cur = records_of(entries@);
        assert(cur.last() == cur[n - 1]);
        if !entry_holds(&entries[n - 1], key, h) {
            break ;
        }
        proof {
            lemma_data_len_drop_last(cur);
        }
        let gone: u32 = (8 + entries[n - 1].key.len() + entries[n - 1].val.len()) as u32;
        entries.pop();
        *dpos = *dpos - gone;
        assert(records_of(entries@) =~= cur.drop_last());
    }
    let ghost base = records_of(entries@);
    let mut j: usize = 0;
    while j < entries.len()
        invariant
            j <= entries@.len(),
            h == hash_spec(key@),
            entries_wf(entries@, *dpos),
            entries@.len() == base.len(),
            forall|k: int| 0 <= k < j ==> (#[trigger] entries@[k])@ == zero_all(base, key@)[k],
            forall|k: int| j <= k < base.len() ==> (#[trigger] entries@[k])@ == base[k],
        decreases entries@.len() - j,
    {
        if entry_holds(&entries[j], key, h) {
            let ghost cur = records_of(entries@);
            let klen: usize = entries[j].key.len();
            let vlen: usize = entries[j].val.len();
            let z = Entry { key: zero_bytes(klen), val: zero_bytes(vlen), hash: 0, live: false };
            assert(z@ == zero_record(base[j as int]));
            entries[j] = z;
            proof {
                let now = records_of(entries@);
                assert forall|k: int| 0 <= k < now.len() implies rec_len(#[trigger] now[k])
                    == rec_len(cur[k]) by {
                    assert(k != j ==> now[k] == cur[k]);
                }
                lemma_data_upto_same(now, cur, now.len() as int);
            }
        }
        j += 1;
    }
    assert(records_of(entries@) =~= zero_all(base, key@));
}

/// Searches the entries for `key` and treats the reachable records found
/// under it as the mode says. Tells whether there was one.
pub fn find_entries(entries: &mut Vec<Entry>, dpos: &mut u32, key: &[u8], mode: CdbFindMode) -> (found:
    bool)
    requires
        entries_wf(old(entries)@, *old(dpos)),
    ensures
        entries_wf(final(entries)@, *final(dpos)),
        found == has_key(records_of(old(entries)@), key@),
        records_of(final(entries)@) == after_find(records_of(old(entries)@), key@, mode),
{
    let h: u32 = cdb_hash(key);
    let found = entries_have(entries, key, h);
    match mode {
        CdbFindMode::Find => {},
        CdbFindMode::Remove => {
            remove_entries(entries, dpos, key, h);
        },
        CdbFindMode::Fill0 => {
            zero_entries(entries, dpos, key, h);
        },
    }
    found
}

/// Adds a record in the given mode. `Ok` tells whether the key was in the
/// entries before; `Err` that the new record does not fit.
pub fn put_entry(
    entries: &mut Vec<Entry>,
    dpos: &mut u32,
    key: &[u8],
    val: &[u8],
    mode: CdbPutMode,
) -> (r: Result<bool, ()>)
    requires
        entries_wf(old(entries)@, *old(dpos)),
    ensures
        entries_wf(final(entries)@, *final(dpos)),
        match r {
            Ok(existed) => {
                &&& existed == put_existed(records_of(old(entries)@), key@, mode)
                &&& records_of(final(entries)@) == after_put(
                    records_of(old(entries)@),
                    key@,
                    val@,
                    mode,
                )
                &&& put_adds(records_of(old(entries)@), key@, mode) ==> fits(
                    put_clears(records_of(old(entries)@), key@, mode),
                    key@,
                    val@,
                )
            },
            Err(_) => {
                &&& put_adds(records_of(old(entries)@), key@, mode)
                &&& !fits(put_clears(records_of(old(entries)@), key@, mode), key@, val@)
                &&& records_of(final(entries)@) == put_clears(
                    records_of(old(entries)@),
                    key@,
                    mode,
                )
            },
        },
{
    let existed = match mode {
        CdbPutMode::Add => false,
        CdbPutMode::Replace => find_entries(entries, dpos, key, CdbFindMode::Remove),
        CdbPutMode::Insert => find_entries(entries, dpos, key, CdbFindMode::Find),
        CdbPutMode::Warn => find_entries(entries, dpos, key, CdbFindMode::Find),
        CdbPutMode::Replace0 => find_entries(entries, dpos, key, CdbFindMode::Fill0),
    };
    if existed {
        if let CdbPutMode::Insert = mode {
            return Ok(true);
        }
    }
    assert(records_of(entries@) == put_clears(records_of(old(entries)@), key@, mode));
    if add_entry(entries, dpos, key, val) {
        Ok(existed)
    } else {
        Err(())
    }
}

} // verus!
