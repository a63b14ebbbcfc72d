//! The file that a finished database is: what each of its bytes holds, and
//! the function that writes it.
use vstd::prelude::*;
use crate::builder::{Entry, entries_wf, records_of};
use crate::hash::hash_spec;
use crate::layout::{
    Slot, agree, bucket_of, cdb_pack, cdb_pack_at, hdr_cnt, hdr_pos, key_at, key_len_at,
    lemma_bucket_and_start, lemma_u32_at_agree, probe_index, slot_at, slot_start, val_at,
    val_len_at,
};
use crate::model::{
    Record, data_end, data_len, data_upto, lemma_data_upto_mono, live_count, live_upto, rec_len,
    rec_pos,
};
use crate::table::{
    all_placed, build_table, empty_table, first_empty, lemma_build_table, lemma_first_empty,
    lemma_first_empty_exists, table_insert,
};

verus! {

/// The record is reachable and its key hashes into bucket `b`.
pub open spec fn in_bucket(r: Record, b: int) -> bool {
    r.live && bucket_of(hash_spec(r.key)) == b
}

/// The slot-table entry of record `j`: the hash of its key and its offset.
pub open spec fn slot_of(rs: Seq<Record>, j: int) -> Slot {
    Slot { hash: hash_spec(rs[j].key), pos: rec_pos(rs, j) as u32 }
}

/// The entries of the first `n` records that belong to bucket `b`, in
/// storage order.
pub open spec fn bucket_entries(rs: Seq<Record>, b: int, n: int) -> Seq<Slot>
    decreases n,
{
    if n <= 0 {
        Seq::empty()
    } else if in_bucket(rs[n - 1], b) {
        bucket_entries(rs, b, n - 1).push(slot_of(rs, n - 1))
    } else {
        bucket_entries(rs, b, n - 1)
    }
}

/// Number of reachable records whose key hashes into bucket `b`.
pub open spec fn bucket_count(rs: Seq<Record>, b: int) -> nat {
    bucket_entries(rs, b, rs.len() as int).len()
}

/// The slot table of bucket `b`: twice as many slots as the bucket has
/// records, filled in storage order.
pub open spec fn bucket_table(rs: Seq<Record>, b: int) -> Seq<Slot> {
    build_table(bucket_entries(rs, b, rs.len() as int), 2 * bucket_count(rs, b))
}

/// Number of bytes that the slot tables of the buckets below `b` occupy.
pub open spec fn tables_upto(rs: Seq<Record>, b: int) -> nat
    decreases b,
{
    if b <= 0 {
        0
    } else {
        tables_upto(rs, b - 1) + 16 * bucket_count(rs, b - 1)
    }
}

/// File offset of the slot table of bucket `b`.
pub open spec fn table_pos(rs: Seq<Record>, b: int) -> int {
    data_end(rs) + tables_upto(rs, b)
}

/// Length of the file: the header, the records, and two slots of eight
/// bytes for every reachable record.
pub open spec fn image_len(rs: Seq<Record>) -> int {
    data_end(rs) + 16 * live_count(rs)
}

/// Number of entries that the first `n` records have in the buckets below
/// `b`.
pub open spec fn entries_below(rs: Seq<Record>, b: int, n: int) -> nat
    decreases b,
{
    if b <= 0 {
        0
    } else {
        entries_below(rs, b - 1, n) + bucket_entries(rs, b - 1, n).len()
    }
}

/// The bytes hold record `j` at its offset: both lengths, the key, the
/// value.
pub open spec fn record_image(bytes: Seq<u8>, rs: Seq<Record>, j: int) -> bool {
    let p = rec_pos(rs, j);
    &&& p + rec_len(rs[j]) <= bytes.len()
    &&& key_len_at(bytes, p) == rs[j].key.len()
    &&& val_len_at(bytes, p) == rs[j].val.len()
    &&& key_at(bytes, p) == rs[j].key
    &&& val_at(bytes, p) == rs[j].val
}

/// Header entry `b` gives the offset and the length of the bucket's table.
pub open spec fn header_image(bytes: Seq<u8>, rs: Seq<Record>, b: int) -> bool {
    &&& hdr_pos(bytes, b) == table_pos(rs, b)
    &&& hdr_cnt(bytes, b) == 2 * bucket_count(rs, b)
}

/// The bytes hold the slot table of bucket `b` at its offset.
pub open spec fn table_image(bytes: Seq<u8>, rs: Seq<Record>, b: int) -> bool {
    forall|i: int|
        0 <= i < 2 * bucket_count(rs, b) ==> #[trigger] slot_at(bytes, table_pos(rs, b), i)
            == bucket_table(rs, b)[i]
}

/// `bytes` is the database file of the records `rs`: the header, then the
/// records in storage order, then the 256 slot tables, and nothing else.
pub open spec fn is_image(bytes: Seq<u8>, rs: Seq<Record>) -> bool {
    &&& image_len(rs) <= 0xffff_ffff
    &&& bytes.len() == image_len(rs)
    &&& forall|b: int| 0 <= b < 256 ==> #[trigger] header_image(bytes, rs, b)
    &&& forall|j: int| 0 <= j < rs.len() ==> #[trigger] record_image(bytes, rs, j)
    &&& forall|b: int| 0 <= b < 256 ==> #[trigger] table_image(bytes, rs, b)
}

/// A record that lies inside a range on which two byte strings agree is
/// held by both or by neither.
pub proof fn lemma_record_image_agree(
    a: Seq<u8>,
    b: Seq<u8>,
    rs: Seq<Record>,
    j: int,
    lo: int,
    hi: int,
)
    requires
        record_image(a, rs, j),
        agree(a, b, lo, hi),
        lo <= rec_pos(rs, j),
        rec_pos(rs, j) + rec_len(rs[j]) <= hi,
    ensures
        record_image(b, rs, j),
{
    let p = rec_pos(rs, j);
    lemma_u32_at_agree(a, b, lo, hi, p);
    lemma_u32_at_agree(a, b, lo, hi, p + 4);
    assert(key_at(b, p) =~= key_at(a, p));
    assert(val_at(b, p) =~= val_at(a, p));
}

/// A slot that lies inside a range on which two byte strings agree reads
/// the same in both.
pub proof fn lemma_slot_at_agree(a: Seq<u8>, b: Seq<u8>, tpos: int, i: int, lo: int, hi: int)
    requires
        agree(a, b, lo, hi),
        lo <= tpos + 8 * i,
        tpos + 8 * i + 8 <= hi,
    ensures
        slot_at(a, tpos, i) == slot_at(b, tpos, i),
{
    lemma_u32_at_agree(a, b, lo, hi, tpos + 8 * i);
    lemma_u32_at_agree(a, b, lo, hi, tpos + 8 * i + 4);
}

/// Every record takes at least its two length fields.
pub proof fn lemma_data_upto_min(rs: Seq<Record>, n: int)
    requires
        0 <= n,
    ensures
        data_upto(rs, n) >= 8 * n,
    decreases n,
{
    if n > 0 {
        lemma_data_upto_min(rs, n - 1);
    }
}

/// A bucket has no more entries than there are records, and where the
/// records end at an offset that 32 bits hold, none of its entries points
/// at offset 0.
pub proof fn lemma_bucket_entries(rs: Seq<Record>, b: int, n: int)
    requires
        0 <= n <= rs.len(),
        data_end(rs) <= 0xffff_ffff,
    ensures
        bucket_entries(rs, b, n).len() <= n,
        all_placed(bucket_entries(rs, b, n)),
    decreases n,
{
    if n > 0 {
        lemma_bucket_entries(rs, b, n - 1);
        lemma_data_upto_mono(rs, n - 1, rs.len() as int);
    }
}

/// One more record adds one entry to the buckets below `b` if it is
/// reachable and belongs to one of them, and none otherwise.
proof fn lemma_entries_below_step(rs: Seq<Record>, b: int, n: int)
    requires
        0 <= b,
        0 < n,
    ensures
        entries_below(rs, b, n) == entries_below(rs, b, n - 1) + if rs[n - 1].live && bucket_of(
            hash_spec(rs[n - 1].key),
        ) < b {
            1nat
        } else {
            0nat
        },
    decreases b,
{
    lemma_bucket_and_start(hash_spec(rs[n - 1].key), 1);
    if b > 0 {
        lemma_entries_below_step(rs, b - 1, n);
    }
}

/// Every reachable record has its entry in exactly one of the 256 buckets.
proof fn lemma_entries_below_all(rs: Seq<Record>, b: int, n: int)
    requires
        0 <= b <= 256,
        0 <= n,
    ensures
        n == 0 ==> entries_below(rs, b, n) == 0,
        b == 256 ==> entries_below(rs, b, n) == live_upto(rs, n),
    decreases n, b,
{
    if n == 0 {
        if b > 0 {
            lemma_entries_below_all(rs, b - 1, n);
        }
    } else if b == 256 {
        lemma_entries_below_all(rs, b, n - 1);
        lemma_entries_below_step(rs, b, n);
        lemma_bucket_and_start(hash_spec(rs[n - 1].key), 1);
    }
}

proof fn lemma_tables_upto_entries(rs: Seq<Record>, b: int)
    requires
        0 <= b,
    ensures
        tables_upto(rs, b) == 16 * entries_below(rs, b, rs.len() as int),
    decreases b,
{
    if b > 0 {
        lemma_tables_upto_entries(rs, b - 1);
    }
}

/// File size: the last slot table ends where the file ends. Header,
/// records and slot tables fill the file, and the tables together have two
/// slots for every reachable record.
pub proof fn lemma_image_len(rs: Seq<Record>)
    ensures
        table_pos(rs, 256) == image_len(rs),
        image_len(rs) == 2048 + data_len(rs) + tables_upto(rs, 256),
{
    lemma_tables_upto_entries(rs, 256);
    lemma_entries_below_all(rs, 256, rs.len() as int);
}

/// The tables of more buckets take no fewer bytes.
pub proof fn lemma_tables_upto_mono(rs: Seq<Record>, a: int, b: int)
    requires
        a <= b,
    ensures
        tables_upto(rs, a) <= tables_upto(rs, b),
    decreases b - a,
{
    if a < b {
        lemma_tables_upto_mono(rs, a, b - 1);
    }
}

/// Writes the header region, still blank, and behind it every record in
/// storage order.
pub fn write_records(entries: &Vec<Entry>, dpos: u32) -> (out: Vec<u8>)
    requires
        entries_wf(entries@, dpos),
    ensures
        out@.len() == dpos,
        forall|j: int|
            0 <= j < entries@.len() ==> #[trigger] record_image(out@, records_of(entries@), j),
{
    let ghost rs = records_of(entries@);
    let mut out: Vec<u8> = vec![0u8; 2048];
    let mut j: usize = 0;
    while j < entries.len()
        invariant
            j <= entries@.len(),
            rs == records_of(entries@),
            data_end(rs) == dpos,
            out@.len() == rec_pos(rs, j as int),
            forall|k: int| 0 <= k < j ==> #[trigger] record_image(out@, rs, k),
        decreases entries@.len() - j,
    {
        let e = &entries[j];
        let ghost before = out@;
        let ghost p = rec_pos(rs, j as int);
        proof {
            lemma_data_upto_mono(rs, j + 1, rs.len() as int);
            assert(rs[j as int] == e@);
        }
        cdb_pack(e.key.len() as u32, &mut out);
        cdb_pack(e.val.len() as u32, &mut out);
        let ghost packed = out@;
        out.extend_from_slice(e.key.as_slice());
        out.extend_from_slice(e.val.as_slice());
        proof {
            let now = out@;
            assert(agree(before, now, 0, p));
            assert(agree(packed, now, 0, p + 8));
            lemma_u32_at_agree(packed, now, 0, p + 8, p);
            lemma_u32_at_agree(packed, now, 0, p + 8, p + 4);
            assert(key_at(now, p) =~= e.key@);
            assert(val_at(now, p) =~= e.val@);
            assert(record_image(now, rs, j as int));
            assert forall|k: int| 0 <= k < j implies #[trigger] record_image(now, rs, k) by {
                lemma_data_upto_mono(rs, k + 1, j as int);
                lemma_record_image_agree(before, now, rs, k, 0, p);
            }
        }
        j += 1;
    }
    out
}

/// Sorts the entries of the reachable records into their 256 buckets,
/// keeping storage order inside each.
pub fn collect_buckets(entries: &Vec<Entry>, dpos: u32) -> (lists: Vec<Vec<Slot>>)
    requires
        entries_wf(entries@, dpos),
    ensures
        lists@.len() == 256,
        forall|b: int|
            0 <= b < 256 ==> (#[trigger] lists@[b])@ == bucket_entries(
                records_of(entries@),
                b,
                entries@.len() as int,
            ),
{
    let ghost rs = records_of(entries@);
    let mut lists: Vec<Vec<Slot>> = Vec::new();
    let mut c: usize = 0;
    while c < 256
        invariant
            c <= 256,
            lists@.len() == c,
            forall|b: int| 0 <= b < c ==> (#[trigger] lists@[b])@ == Seq::<Slot>::empty(),
        decreases 256 - c,
    {
        lists.push(Vec::new());
        c += 1;
    }
    let mut pos: u32 = 2048;
    let mut j: usize = 0;
    while j < entries.len()
        invariant
            j <= entries@.len(),
            rs == records_of(entries@),
            entries_wf(entries@, dpos),
            pos == rec_pos(rs, j as int),
            lists@.len() == 256,
            forall|b: int|
                0 <= b < 256 ==> (#[trigger] lists@[b])@ == bucket_entries(rs, b, j as int),
        decreases entries@.len() - j,
    {
        let e = &entries[j];
        proof {
            lemma_data_upto_mono(rs, j + 1, rs.len() as int);
            assert(rs[j as int] == e@);
        }
        if e.live {
            let h: u32 = e.hash;
            assert(h & 0xff < 256) by (bit_vector);
            let b: usize = (h & 0xff) as usize;
            lists[b].push(Slot { hash: h, pos });
        }
        pos = pos + (8 + e.key.len() + e.val.len()) as u32;
        j += 1;
    }
    lists
}

/// Builds the slot table of one bucket: twice as many slots as entries,
/// each entry placed in the first empty slot on the probing path of its
/// hash, in the order given.
pub fn build_slots(list: &Vec<Slot>) -> (table: Vec<Slot>)
    requires
        all_placed(list@),
        list@.len() <= 0x2000_0000,
    ensures
        table@ == build_table(list@, 2 * list@.len()),
        table@.len() == 2 * list@.len(),
{
    let n: usize = 2 * list.len();
    let mut table: Vec<Slot> = Vec::new();
    let mut c: usize = 0;
    while c < n
        invariant
            c <= n,
            table@ == empty_table(c as nat),
        decreases n - c,
    {
        table.push(Slot { hash: 0, pos: 0 });
        assert(table@ =~= empty_table((c + 1) as nat));
        c += 1;
    }
    let mut k: usize = 0;
    assert(list@.take(0) =~= Seq::<Slot>::empty());
    while k < list.len()
        invariant
            k <= list@.len(),
            n == 2 * list@.len(),
            all_placed(list@),
            table@.len() == n,
            table@ == build_table(list@.take(k as int), n as nat),
        decreases list@.len() - k,
    {
        let e: Slot = list[k];
        let ghost t = table@;
        let s: usize = ((e.hash >> 8) as usize) % n;
        proof {
            assert(list@.take(k + 1).drop_last() =~= list@.take(k as int));
            assert(list@.take(k + 1).last() == e);
            lemma_build_table(list@.take(k as int), n as nat);
            lemma_first_empty_exists(t, s as int);
            assert(s == slot_start(e.hash, n as int));
        }
        let mut idx: usize = s;
        let ghost mut d: int = 0;
        while table[idx].pos != 0
            invariant
                table@ == t,
                t.len() == n,
                0 <= s < n,
                0 <= d < n,
                idx == probe_index(s as int, d, n as int),
                first_empty(t, s as int, 0) == first_empty(t, s as int, d),
                first_empty(t, s as int, 0) < n,
            decreases n - d,
        {
            proof {
                lemma_first_empty(t, s as int, d + 1);
                d = d + 1;
            }
            idx += 1;
            if idx == n {
                idx = 0;
            }
        }
        table[idx] = e;
        assert(table@ == table_insert(t, e));
        k += 1;
    }
    assert(list@.take(k as int) =~= list@);
    table
}

/// Appends a slot table to the file: hash and offset of each slot, in
/// order.
pub fn append_table(out: &mut Vec<u8>, table: &Vec<Slot>)
    ensures
        final(out)@.len() == old(out)@.len() + 8 * table@.len(),
        agree(old(out)@, final(out)@, 0, old(out)@.len() as int),
        forall|i: int|
            0 <= i < table@.len() ==> #[trigger] slot_at(
                final(out)@,
                old(out)@.len() as int,
                i,
            ) == table@[i],
{
    let ghost start = out@.len() as int;
    let mut i: usize = 0;
    while i < table.len()
        invariant
            i <= table@.len(),
            start == old(out)@.len(),
            out@.len() == start + 8 * i,
            agree(old(out)@, out@, 0, start),
            forall|k: int| 0 <= k < i ==> #[trigger] slot_at(out@, start, k) == table@[k],
        decreases table@.len() - i,
    {
        let ghost before = out@;
        let slot: Slot = table[i];
        cdb_pack(slot.hash, out);
        let ghost mid = out@;
        cdb_pack(slot.pos, out);
        proof {
            let now = out@;
            assert(agree(before, now, 0, start + 8 * i));
            assert(agree(mid, now, 0, start + 8 * i + 4));
            lemma_u32_at_agree(mid, now, 0, start + 8 * i + 4, start + 8 * i);
            assert forall|k: int| 0 <= k < i implies #[trigger] slot_at(now, start, k)
                == table@[k] by {
                lemma_slot_at_agree(before, now, start, k, 0, start + 8 * i);
            }
        }
        i += 1;
    }
}

/// Writes the database file of the entries: the records, then for each
/// bucket its slot table and its header entry. Gives `None` where the file
/// would be longer than the format can describe.
pub fn build_image(entries: &Vec<Entry>, dpos: u32) -> (r: Option<Vec<u8>>)
    requires
        entries_wf(entries@, dpos),
    ensures
        match r {
            Some(out) => is_image(out@, records_of(entries@)),
            None => image_len(records_of(entries@)) > 0xffff_ffff,
        },
{
    let ghost rs = records_of(entries@);
    let lists = collect_buckets(entries, dpos);
    proof {
        lemma_data_upto_min(rs, rs.len() as int);
        lemma_image_len(rs);
    }
    let mut total: u64 = dpos as u64;
    let mut c: usize = 0;
    while c < 256
        invariant
            c <= 256,
            lists@.len() == 256,
            rs.len() <= 0x2000_0000,
            data_end(rs) == dpos,
            rs == records_of(entries@),
            table_pos(rs, 256) == image_len(rs),
            forall|b: int|
                0 <= b < 256 ==> (#[trigger] lists@[b])@ == bucket_entries(
                    rs,
                    b,
                    rs.len() as int,
                ),
            total == table_pos(rs, c as int),
            total <= 0xffff_ffff,
        decreases 256 - c,
    {
        proof {
            lemma_bucket_entries(rs, c as int, rs.len() as int);
        }
        total = total + 16 * (lists[c].len() as u64);
        if total > 0xffff_ffff {
            proof {
                lemma_tables_upto_mono(rs, c + 1, 256);
            }
            return None;
        }
        c += 1;
    }
    let mut out = write_records(entries, dpos);
    let mut b: usize = 0;
    while b < 256
        invariant
            b <= 256,
            lists@.len() == 256,
            rs == records_of(entries@),
            data_end(rs) == dpos,
            image_len(rs) <= 0xffff_ffff,
            table_pos(rs, 256) == image_len(rs),
            forall|c: int|
                0 <= c < 256 ==> (#[trigger] lists@[c])@ == bucket_entries(
                    rs,
                    c,
                    rs.len() as int,
                ),
            out@.len() == table_pos(rs, b as int),
            forall|j: int| 0 <= j < rs.len() ==> #[trigger] record_image(out@, rs, j),
            forall|c: int| 0 <= c < b ==> #[trigger] header_image(out@, rs, c),
            forall|c: int| 0 <= c < b ==> #[trigger] table_image(out@, rs, c),
        decreases 256 - b,
    {
        proof {
            lemma_bucket_entries(rs, b as int, rs.len() as int);
            lemma_data_upto_min(rs, rs.len() as int);
            lemma_tables_upto_mono(rs, b + 1, 256);
        }
        let table = build_slots(&lists[b]);
        let tpos: usize = out.len();
        let ghost before = out@;
        cdb_pack_at(tpos as u32, &mut out, 8 * b);
        let ghost mid = out@;
        cdb_pack_at(table.len() as u32, &mut out, 8 * b + 4);
        let ghost patched = out@;
        append_table(&mut out, &table);
        proof {
            let now = out@;
            assert(agree(before, mid, 8 * b + 4, tpos as int));
            assert(agree(mid, patched, 0, 8 * b + 4));
            assert(agree(before, patched, 0, 8 * b));
            assert(agree(before, patched, 2048, tpos as int));
            assert(agree(before, now, 0, 8 * b));
            assert(agree(before, now, 2048, tpos as int));
            assert(agree(patched, now, 0, 8 * b + 8));
            lemma_u32_at_agree(mid, patched, 0, 8 * b + 4, 8 * b as int);
            lemma_u32_at_agree(patched, now, 0, 8 * b + 8, 8 * b as int);
            lemma_u32_at_agree(patched, now, 0, 8 * b + 8, 8 * b + 4);
            assert(header_image(now, rs, b as int));
            assert(table_image(now, rs, b as int));
            assert forall|j: int| 0 <= j < rs.len() implies #[trigger] record_image(
                now,
                rs,
                j,
            ) by {
                lemma_data_upto_mono(rs, j + 1, rs.len() as int);
                lemma_data_upto_mono(rs, 0, j);
                lemma_record_image_agree(before, now, rs, j, 2048, tpos as int);
            }
            assert forall|c: int| 0 <= c < b implies #[trigger] header_image(now, rs, c) by {
                assert(header_image(before, rs, c));
                lemma_u32_at_agree(before, now, 0, 8 * b, 8 * c);
                lemma_u32_at_agree(before, now, 0, 8 * b, 8 * c + 4);
            }
            assert forall|c: int| 0 <= c < b implies #[trigger] table_image(now, rs, c) by {
                assert(table_image(before, rs, c));
                lemma_tables_upto_mono(rs, c + 1, b as int);
                assert forall|i: int| 0 <= i < 2 * bucket_count(rs, c) implies #[trigger] slot_at(
                    now,
                    table_pos(rs, c),
                    i,
                ) == bucket_table(rs, c)[i] by {
                    lemma_slot_at_agree(before, now, table_pos(rs, c), i, 2048, tpos as int);
                }
            }
        }
        b += 1;
    }
    Some(out)
}

} // verus!
