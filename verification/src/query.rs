//! Reading a database file: validating its header, resolving a key through
//! the slot tables, and walking the records in storage order.
use vstd::prelude::*;
use vstd::slice::slice_subrange;
use crate::hash::{cdb_hash, hash_spec};
use crate::layout::{
    Slot, cdb_unpack, hdr_pos, hdr_cnt, table_in_bounds, valid_header, file_data_end, key_len_at,
    val_len_at, next_pos, record_ok, key_at, val_at, table_of, slot_matches, bucket_of, slot_start,
    probe_index, lemma_bucket_and_start,
};
use crate::table::scan;

verus! {

/// The slot that a lookup of `key` ends at, if it finds one: the bucket is
/// chosen by the hash, and its table is probed from the hash's start slot.
pub open spec fn find_slot(bytes: Seq<u8>, key: Seq<u8>) -> Option<Slot> {
    let h = hash_spec(key);
    let t = table_of(bytes, bucket_of(h));
    if t.len() == 0 {
        None
    } else {
        scan(bytes, key, t, slot_start(h, t.len() as int), 0)
    }
}

/// The value that a lookup of `key` returns, if it finds one.
pub open spec fn lookup(bytes: Seq<u8>, key: Seq<u8>) -> Option<Seq<u8>> {
    match find_slot(bytes, key) {
        Some(slot) => Some(val_at(bytes, slot.pos as int)),
        None => None,
    }
}

/// Key and value of every record from offset `pos` on, in storage order, up
/// to the end of the record region or the first record that does not fit
/// in it.
pub open spec fn records_from(bytes: Seq<u8>, pos: int) -> Seq<(Seq<u8>, Seq<u8>)>
    decreases file_data_end(bytes) - pos,
{
    if record_ok(bytes, pos) {
        seq![(key_at(bytes, pos), val_at(bytes, pos))] + records_from(bytes, next_pos(bytes, pos))
    } else {
        Seq::empty()
    }
}

/// Key and value of every record of the file, in storage order.
pub open spec fn records(bytes: Seq<u8>) -> Seq<(Seq<u8>, Seq<u8>)> {
    records_from(bytes, 2048)
}

/// Where a record lies in the file: the offsets and lengths of its key and
/// of its value.
#[derive(Clone, Copy, Debug)]
pub struct Found {
    pub key_pos: usize,
    pub key_len: usize,
    pub val_pos: usize,
    pub val_len: usize,
}

/// The place of the record at offset `pos`.
pub open spec fn found_at(bytes: Seq<u8>, pos: int) -> Found {
    Found {
        key_pos: (pos + 8) as usize,
        key_len: key_len_at(bytes, pos) as usize,
        val_pos: (pos + 8 + key_len_at(bytes, pos)) as usize,
        val_len: val_len_at(bytes, pos) as usize,
    }
}

/// The offset at which a sequential scan starts: just behind the header.
pub fn cdb_seqinit() -> (cptr: usize)
    ensures
        cptr == 2048,
{
    2048
}

/// Tells whether the file starts with a whole header whose every entry
/// describes a table inside the file.
pub fn check_header(bytes: &[u8]) -> (ok: bool)
    ensures
        ok == valid_header(bytes@),
{
    if bytes.len() < 2048 {
        return false;
    }
    let mut b: usize = 0;
    while b < 256
        invariant
            b <= 256,
            bytes@.len() >= 2048,
            forall|c: int| 0 <= c < b ==> #[trigger] table_in_bounds(bytes@, c),
        decreases 256 - b,
    {
        let pos: u64 = cdb_unpack(bytes, 8 * b) as u64;
        let cnt: u64 = cdb_unpack(bytes, 8 * b + 4) as u64;
        if pos < 2048 || pos + 8 * cnt > bytes.len() as u64 {
            assert(!table_in_bounds(bytes@, b as int));
            return false;
        }
        b += 1;
    }
    true
}

/// Tells whether the bytes of `bytes` from offset `pos` on start with `key`.
pub fn bytes_start_with(bytes: &[u8], pos: usize, key: &[u8]) -> (same: bool)
    requires
        pos + key@.len() <= bytes@.len(),
    ensures
        same == (bytes@.subrange(pos as int, pos + key@.len()) == key@),
{
    let total: usize = bytes.len();
    let mut i: usize = 0;
    while i < key.len()
        invariant
            i <= key@.len(),
            total == bytes@.len(),
            pos + key@.len() <= bytes@.len(),
            bytes@.subrange(pos as int, pos + i) == key@.take(i as int),
        decreases key@.len() - i,
    {
        if bytes[pos + i] != key[i] {
            assert(bytes@.subrange(pos as int, pos + key@.len())[i as int] != key@[i as int]);
            return false;
        }
        assert(bytes@.subrange(pos as int, pos + i + 1) =~= bytes@.subrange(
            pos as int,
            pos + i,
        ).push(bytes@[pos + i]));
        assert(key@.take(i + 1) =~= key@.take(i as int).push(key@[i as int]));
        i += 1;
    }
    assert(key@.take(i as int) =~= key@);
    true
}

/// Tells whether a whole record lies at offset `pos`, inside the record
/// region.
pub fn record_fits(bytes: &[u8], pos: usize) -> (ok: bool)
    requires
        valid_header(bytes@),
    ensures
        ok == record_ok(bytes@, pos as int),
{
    assert(table_in_bounds(bytes@, 0));
    let dend: u64 = cdb_unpack(bytes, 0) as u64;
    if pos as u64 > dend || dend - (pos as u64) < 8 {
        return false;
    }
    let klen: u64 = cdb_unpack(bytes, pos) as u64;
    let vlen: u64 = cdb_unpack(bytes, pos + 4) as u64;
    pos as u64 + 8 + klen + vlen <= dend
}

/// Tells whether a slot answers a lookup of `key` whose hash is `h`.
pub fn slot_answers(bytes: &[u8], hash: u32, pos: u32, key: &[u8], h: u32) -> (yes: bool)
    requires
        valid_header(bytes@),
        h == hash_spec(key@),
    ensures
        yes == slot_matches(bytes@, Slot { hash, pos }, key@),
{
    if hash != h {
        return false;
    }
    if !record_fits(bytes, pos as usize) {
        return false;
    }
    assert(table_in_bounds(bytes@, 0));
    let klen: usize = cdb_unpack(bytes, pos as usize) as usize;
    if klen != key.len() {
        assert(key_at(bytes@, pos as int).len() == klen);
        return false;
    }
    bytes_start_with(bytes, pos as usize + 8, key)
}

/// Looks `key` up: probes the slot table of the key's bucket and returns
/// the place of the first record on the probing path that is stored under
/// the key, or `None` where an empty slot or the end of the path comes
/// first.
pub fn find_record(bytes: &[u8], key: &[u8]) -> (r: Option<Found>)
    requires
        valid_header(bytes@),
    ensures
        match find_slot(bytes@, key@) {
            Some(slot) => r == Some(found_at(bytes@, slot.pos as int)) && record_ok(
                bytes@,
                slot.pos as int,
            ),
            None => r.is_none(),
        },
{
    let h: u32 = cdb_hash(key);
    proof {
        lemma_bucket_and_start(h, 1);
    }
    assert(h & 0xff < 256) by (bit_vector);
    let b: usize = (h & 0xff) as usize;
    assert(table_in_bounds(bytes@, b as int));
    assert(table_in_bounds(bytes@, 0));
    let n: usize = cdb_unpack(bytes, 8 * b + 4) as usize;
    if n == 0 {
        return None;
    }
    let tpos: usize = cdb_unpack(bytes, 8 * b) as usize;
    let s: usize = ((h >> 8) as usize) % n;
    assert(s == slot_start(h, n as int));
    assert(b == bucket_of(h));
    let ghost t = table_of(bytes@, b as int);
    let total: usize = bytes.len();
    let mut idx: usize = s;
    let mut i: usize = 0;
    while i < n
        invariant
            total == bytes@.len(),
            valid_header(bytes@),
            h == hash_spec(key@),
            t == table_of(bytes@, b as int),
            t.len() == n,
            n == hdr_cnt(bytes@, b as int),
            tpos == hdr_pos(bytes@, b as int),
            tpos + 8 * n <= bytes@.len(),
            s < n,
            s == slot_start(h, n as int),
            b == bucket_of(h),
            i <= n,
            i < n ==> idx == probe_index(s as int, i as int, n as int),
            scan(bytes@, key@, t, s as int, 0) == scan(bytes@, key@, t, s as int, i as int),
        decreases n - i,
    {
        let at: usize = tpos + 8 * idx;
        let sh: u32 = cdb_unpack(bytes, at);
        let sp: u32 = cdb_unpack(bytes, at + 4);
        assert(t[idx as int] == Slot { hash: sh, pos: sp });
        assert(table_in_bounds(bytes@, 0));
        if sp == 0 {
            assert(scan(bytes@, key@, t, s as int, i as int).is_none());
            return None;
        }
        if slot_answers(bytes, sh, sp, key, h) {
            assert(scan(bytes@, key@, t, s as int, i as int) == Some(t[idx as int]));
            let klen: usize = cdb_unpack(bytes, sp as usize) as usize;
            let vlen: usize = cdb_unpack(bytes, sp as usize + 4) as usize;
            return Some(
                Found {
                    key_pos: sp as usize + 8,
                    key_len: klen,
                    val_pos: sp as usize + 8 + klen,
                    val_len: vlen,
                },
            );
        }
        assert(scan(bytes@, key@, t, s as int, i as int) == scan(
            bytes@,
            key@,
            t,
            s as int,
            i + 1,
        ));
        i += 1;
        idx += 1;
        if idx == n {
            idx = 0;
        }
    }
    None
}

/// Finds the record at offset `pos` of the record region, or `None` where
/// no whole record lies there.
pub fn next_record(bytes: &[u8], pos: usize) -> (r: Option<Found>)
    requires
        valid_header(bytes@),
    ensures
        r.is_some() == record_ok(bytes@, pos as int),
        r.is_some() ==> r == Some(found_at(bytes@, pos as int)),
{
    if !record_fits(bytes, pos) {
        return None;
    }
    assert(table_in_bounds(bytes@, 0));
    let klen: usize = cdb_unpack(bytes, pos) as usize;
    let vlen: usize = cdb_unpack(bytes, pos + 4) as usize;
    Some(Found { key_pos: pos + 8, key_len: klen, val_pos: pos + 8 + klen, val_len: vlen })
}

/// The bytes of `bytes` from offset `pos`, `len` of them.
pub fn read_at<'a>(bytes: &'a [u8], pos: usize, len: usize) -> (out: &'a [u8])
    requires
        pos + len <= bytes@.len(),
    ensures
        out@ == bytes@.subrange(pos as int, pos + len),
{
    let total: usize = bytes.len();
    slice_subrange(bytes, pos, pos + len)
}

} // verus!
