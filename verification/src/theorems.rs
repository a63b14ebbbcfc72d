//! What holds of every database: a finished file gives back exactly what
//! the builder was given, and each builder operation changes the records as
//! its name says.
use vstd::prelude::*;
use crate::hash::hash_spec;
use crate::image::{
    bucket_count, bucket_entries, bucket_table, header_image, in_bucket, is_image,
    lemma_bucket_entries, lemma_image_len, lemma_tables_upto_mono, record_image, slot_of,
    table_image, table_pos,
};
use crate::layout::{
    bucket_of, file_data_end, hdr_cnt, key_at, lemma_bucket_and_start, next_pos, record_ok, slot_at,
    slot_matches, table_in_bounds, table_of, u32_at, val_at, valid_header,
};
use crate::mode::CdbPutMode;
use crate::model::{
    Record, after_put, data_end, first_live, has_key, holds, lemma_data_upto_mono, lemma_first_live,
    lemma_model_find_has_key, lemma_remove_all_step, live_record, model_find, model_pairs,
    not_under, put_existed, rec_pos, remove_all, remove_zero, strip_tail, zero_all, zeros,
};
use crate::query::{lookup, records, records_from};
use crate::table::{first_match, lemma_build_table, lemma_scan_build, scan};

verus! {

/// The records that a builder holds after the pairs were added to an empty
/// one, in order.
pub open spec fn added(pairs: Seq<(Seq<u8>, Seq<u8>)>) -> Seq<Record> {
    Seq::new(pairs.len(), |i: int| live_record(pairs[i].0, pairs[i].1))
}

/// Adding one more pair appends one reachable record.
pub proof fn lemma_added_push(pairs: Seq<(Seq<u8>, Seq<u8>)>, key: Seq<u8>, val: Seq<u8>)
    ensures
        added(pairs.push((key, val))) == added(pairs).push(live_record(key, val)),
        added(Seq::empty()) == Seq::<Record>::empty(),
{
    assert(added(pairs.push((key, val))) =~= added(pairs).push(live_record(key, val)));
    assert(added(Seq::empty()) =~= Seq::<Record>::empty());
}

/// A database file has a valid header: a reader opens it.
pub proof fn lemma_image_opens(bytes: Seq<u8>, rs: Seq<Record>)
    requires
        is_image(bytes, rs),
    ensures
        valid_header(bytes),
        file_data_end(bytes) == data_end(rs),
{
    assert forall|b: int| 0 <= b < 256 implies #[trigger] table_in_bounds(bytes, b) by {
        assert(header_image(bytes, rs, b));
        lemma_tables_upto_mono(rs, b + 1, 256);
        lemma_image_len(rs);
    }
    assert(header_image(bytes, rs, 0));
}

/// In a database file the slot of a record answers exactly the lookups of
/// the record's key.
proof fn lemma_slot_of_matches(bytes: Seq<u8>, rs: Seq<Record>, j: int, key: Seq<u8>)
    requires
        is_image(bytes, rs),
        0 <= j < rs.len(),
    ensures
        slot_of(rs, j).pos as int == rec_pos(rs, j),
        record_ok(bytes, rec_pos(rs, j)),
        next_pos(bytes, rec_pos(rs, j)) == rec_pos(rs, j + 1),
        key_at(bytes, rec_pos(rs, j)) == rs[j].key,
        val_at(bytes, rec_pos(rs, j)) == rs[j].val,
        slot_matches(bytes, slot_of(rs, j), key) <==> rs[j].key == key,
{
    lemma_image_opens(bytes, rs);
    lemma_data_upto_mono(rs, j + 1, rs.len() as int);
    assert(record_image(bytes, rs, j));
}

/// Among the entries of a key's bucket, the first that answers the key is
/// the entry of the first record reachable under the key.
proof fn lemma_first_match_is_first_live(bytes: Seq<u8>, rs: Seq<Record>, key: Seq<u8>, n: int)
    requires
        is_image(bytes, rs),
        0 <= n <= rs.len(),
    ensures
        first_match(bytes, key, bucket_entries(rs, bucket_of(hash_spec(key)), n)) == match first_live(
            rs,
            key,
            n,
        ) {
            Some(j) => Some(slot_of(rs, j)),
            None => None,
        },
    decreases n,
{
    let b = bucket_of(hash_spec(key));
    if n > 0 {
        lemma_first_match_is_first_live(bytes, rs, key, n - 1);
        lemma_slot_of_matches(bytes, rs, n - 1, key);
        let prev = bucket_entries(rs, b, n - 1);
        if in_bucket(rs[n - 1], b) {
            let es = bucket_entries(rs, b, n);
            assert(es.drop_last() =~= prev);
            assert(es.last() == slot_of(rs, n - 1));
        }
    }
}

/// A lookup in a database file returns the value of the first record, in
/// storage order, that is reachable under the key, and nothing where no
/// record is.
pub proof fn lemma_image_lookup(bytes: Seq<u8>, rs: Seq<Record>, key: Seq<u8>)
    requires
        is_image(bytes, rs),
    ensures
        lookup(bytes, key) == model_find(rs, key),
        lookup(bytes, key).is_some() <==> has_key(rs, key),
{
    let h = hash_spec(key);
    let b = bucket_of(h);
    lemma_bucket_and_start(h, 1);
    let es = bucket_entries(rs, b, rs.len() as int);
    let n = 2 * es.len();
    assert(header_image(bytes, rs, b));
    assert(table_image(bytes, rs, b));
    lemma_image_opens(bytes, rs);
    lemma_bucket_entries(rs, b, rs.len() as int);
    lemma_build_table(es, n);
    assert(table_of(bytes, b) =~= bucket_table(rs, b));
    lemma_first_match_is_first_live(bytes, rs, key, rs.len() as int);
    lemma_first_live(rs, key, rs.len() as int);
    if es.len() > 0 {
        lemma_scan_build(bytes, key, es, n);
    }
    match first_live(rs, key, rs.len() as int) {
        Some(j) => {
            lemma_slot_of_matches(bytes, rs, j, key);
        },
        None => {},
    }
}

/// A key that no reachable record is stored under is not found.
pub proof fn lemma_image_absence(bytes: Seq<u8>, rs: Seq<Record>, key: Seq<u8>)
    requires
        is_image(bytes, rs),
        !has_key(rs, key),
    ensures
        lookup(bytes, key).is_none(),
{
    lemma_image_lookup(bytes, rs, key);
}

proof fn lemma_image_records_from(bytes: Seq<u8>, rs: Seq<Record>, j: int)
    requires
        is_image(bytes, rs),
        0 <= j <= rs.len(),
    ensures
        records_from(bytes, rec_pos(rs, j)) == model_pairs(rs).skip(j),
    decreases rs.len() - j,
{
    lemma_image_opens(bytes, rs);
    if j < rs.len() {
        lemma_slot_of_matches(bytes, rs, j, rs[j].key);
        lemma_image_records_from(bytes, rs, j + 1);
        assert(model_pairs(rs).skip(j) =~= seq![(rs[j].key, rs[j].val)] + model_pairs(rs).skip(
            j + 1,
        ));
    } else {
        assert(model_pairs(rs).skip(j) =~= Seq::empty());
    }
}

/// A sequential scan of a database file yields key and value of every
/// record, in storage order.
pub proof fn lemma_image_records(bytes: Seq<u8>, rs: Seq<Record>)
    requires
        is_image(bytes, rs),
    ensures
        records(bytes) == model_pairs(rs),
{
    lemma_image_records_from(bytes, rs, 0);
    assert(model_pairs(rs).skip(0) =~= model_pairs(rs));
}

/// Round trip: the file of a database to which pairs were added, and from
/// which nothing was removed, opens; every pair's key is found, with the
/// value of the first pair under that key; and a sequential scan yields
/// exactly the pairs, in the order in which they were added.
pub proof fn lemma_round_trip(bytes: Seq<u8>, pairs: Seq<(Seq<u8>, Seq<u8>)>)
    requires
        is_image(bytes, added(pairs)),
    ensures
        valid_header(bytes),
        records(bytes) == pairs,
        forall|i: int|
            0 <= i < pairs.len() ==> (#[trigger] lookup(bytes, pairs[i].0)) == model_find(
                added(pairs),
                pairs[i].0,
            ) && lookup(bytes, pairs[i].0).is_some(),
        forall|i: int|
            0 <= i < pairs.len() && (forall|k: int| 0 <= k < i ==> pairs[k].0 != pairs[i].0)
                ==> (#[trigger] lookup(bytes, pairs[i].0)) == Some(pairs[i].1),
{
    let rs = added(pairs);
    lemma_image_opens(bytes, rs);
    lemma_image_records(bytes, rs);
    assert(model_pairs(rs) =~= pairs);
    assert forall|i: int| 0 <= i < pairs.len() implies (#[trigger] lookup(bytes, pairs[i].0))
        == model_find(rs, pairs[i].0) && lookup(bytes, pairs[i].0).is_some() by {
        lemma_image_lookup(bytes, rs, pairs[i].0);
        assert(holds(rs[i], pairs[i].0));
    }
    assert forall|i: int|
        0 <= i < pairs.len() && (forall|k: int|
            0 <= k < i ==> pairs[k].0 != pairs[i].0) implies (#[trigger] lookup(
        bytes,
        pairs[i].0,
    )) == Some(pairs[i].1) by {
        lemma_image_lookup(bytes, rs, pairs[i].0);
        lemma_first_live(rs, pairs[i].0, rs.len() as int);
        assert(holds(rs[i], pairs[i].0));
        let j = first_live(rs, pairs[i].0, rs.len() as int).unwrap();
        if j < i {
            assert(pairs[j].0 != pairs[i].0);
        }
    }
}

/// Capacity: in a database file the slot table of every bucket has twice
/// as many slots as there are reachable records whose key hashes into the
/// bucket, so at least half of its slots are empty.
pub proof fn lemma_image_capacity(bytes: Seq<u8>, rs: Seq<Record>, b: int)
    requires
        is_image(bytes, rs),
        0 <= b < 256,
    ensures
        hdr_cnt(bytes, b) == 2 * bucket_count(rs, b),
        hdr_cnt(bytes, b) >= 2 * bucket_count(rs, b),
        table_of(bytes, b) == bucket_table(rs, b),
{
    assert(header_image(bytes, rs, b));
    assert(table_image(bytes, rs, b));
    lemma_bucket_entries(rs, b, rs.len() as int);
    lemma_build_table(bucket_entries(rs, b, rs.len() as int), 2 * bucket_count(rs, b));
    assert(table_of(bytes, b) =~= bucket_table(rs, b));
}

/// Two sequences whose first `n` records are reachable under the key at
/// the same places have the first such record at the same place.
pub proof fn lemma_first_live_same(a: Seq<Record>, b: Seq<Record>, key: Seq<u8>, n: int)
    requires
        n <= a.len(),
        n <= b.len(),
        forall|j: int| 0 <= j < n ==> holds(#[trigger] a[j], key) == holds(b[j], key),
    ensures
        first_live(a, key, n) == first_live(b, key, n),
    decreases n,
{
    if n > 0 {
        lemma_first_live_same(a, b, key, n - 1);
    }
}

/// A lookup after one more record was appended: what was found before is
/// still found; where nothing was, the new record is, if it is stored
/// under the key.
pub proof fn lemma_model_find_push(rs: Seq<Record>, r: Record, key: Seq<u8>)
    ensures
        model_find(rs.push(r), key) == match model_find(rs, key) {
            Some(v) => Some(v),
            None => if holds(r, key) {
                Some(r.val)
            } else {
                None
            },
        },
        has_key(rs.push(r), key) == (has_key(rs, key) || holds(r, key)),
{
    let ext = rs.push(r);
    lemma_first_live_same(ext, rs, key, rs.len() as int);
    lemma_first_live(rs, key, rs.len() as int);
    lemma_first_live(ext, key, ext.len() as int);
    assert(ext[rs.len() as int] == r);
    if has_key(rs, key) {
        let j = choose|j: int| 0 <= j < rs.len() && holds(#[trigger] rs[j], key);
        assert(holds(ext[j], key));
    }
    if holds(r, key) {
        assert(holds(ext[rs.len() as int], key));
    }
    if has_key(ext, key) {
        let j = choose|j: int| 0 <= j < ext.len() && holds(#[trigger] ext[j], key);
        if j < rs.len() {
            assert(holds(rs[j], key));
        }
    }
}

/// Duplicate keys: where a key is added twice, a lookup returns the value
/// that was added first, and a sequential scan yields both records.
pub proof fn lemma_duplicate_keys(
    bytes: Seq<u8>,
    rs: Seq<Record>,
    key: Seq<u8>,
    v1: Seq<u8>,
    v2: Seq<u8>,
)
    requires
        !has_key(rs, key),
        is_image(bytes, rs.push(live_record(key, v1)).push(live_record(key, v2))),
    ensures
        lookup(bytes, key) == Some(v1),
        records(bytes) == model_pairs(rs).push((key, v1)).push((key, v2)),
{
    let one = rs.push(live_record(key, v1));
    let two = one.push(live_record(key, v2));
    lemma_model_find_has_key(rs, key);
    lemma_model_find_push(rs, live_record(key, v1), key);
    lemma_model_find_push(one, live_record(key, v2), key);
    lemma_image_lookup(bytes, two, key);
    lemma_image_records(bytes, two);
    assert(model_pairs(two) =~= model_pairs(rs).push((key, v1)).push((key, v2)));
}

/// Removal leaves no record reachable under the key, and changes no lookup
/// of another key.
pub proof fn lemma_remove_all(rs: Seq<Record>, key: Seq<u8>, other: Seq<u8>)
    ensures
        !has_key(remove_all(rs, key), key),
        model_find(remove_all(rs, key), key).is_none(),
        other != key ==> model_find(remove_all(rs, key), other) == model_find(rs, other),
    decreases rs.len(),
{
    lemma_remove_all_step(rs, key);
    if rs.len() > 0 {
        let front = rs.drop_last();
        let kept = remove_all(front, key);
        lemma_remove_all(front, key, other);
        lemma_model_find_has_key(kept, key);
        assert(front.push(rs.last()) =~= rs);
        lemma_model_find_push(front, rs.last(), other);
        lemma_model_find_push(kept, rs.last(), other);
        lemma_model_find_push(kept, rs.last(), key);
    }
    lemma_model_find_has_key(remove_all(rs, key), key);
}

/// Physical removal: in the file of a database from which a key was
/// removed, a lookup of the key finds nothing, and a sequential scan yields
/// the records that were not reachable under the key, and only them, in
/// their order.
pub proof fn lemma_removed_from_file(bytes: Seq<u8>, rs: Seq<Record>, key: Seq<u8>)
    requires
        is_image(bytes, remove_all(rs, key)),
    ensures
        lookup(bytes, key).is_none(),
        records(bytes) == model_pairs(rs.filter(not_under(key))),
        forall|i: int|
            0 <= i < rs.filter(not_under(key)).len() ==> !holds(
                #[trigger] rs.filter(not_under(key))[i],
                key,
            ),
{
    lemma_remove_all(rs, key, key);
    lemma_image_lookup(bytes, remove_all(rs, key), key);
    lemma_image_records(bytes, remove_all(rs, key));
}

/// Dropping the records under a key that end the sequence changes no
/// lookup of another key.
proof fn lemma_strip_tail_other(rs: Seq<Record>, key: Seq<u8>, other: Seq<u8>)
    requires
        other != key,
    ensures
        model_find(strip_tail(rs, key), other) == model_find(rs, other),
        strip_tail(rs, key).len() <= rs.len(),
        forall|j: int| 0 <= j < strip_tail(rs, key).len() ==> strip_tail(rs, key)[j] == rs[j],
    decreases rs.len(),
{
    if rs.len() > 0 && holds(rs.last(), key) {
        lemma_strip_tail_other(rs.drop_last(), key, other);
        assert(rs.drop_last().push(rs.last()) =~= rs);
        lemma_model_find_push(rs.drop_last(), rs.last(), other);
    }
}

/// Removal by zeroing leaves no record reachable under the key, and
/// changes no lookup of another key.
pub proof fn lemma_remove_zero(rs: Seq<Record>, key: Seq<u8>, other: Seq<u8>)
    ensures
        !has_key(remove_zero(rs, key), key),
        model_find(remove_zero(rs, key), key).is_none(),
        other != key ==> model_find(remove_zero(rs, key), other) == model_find(rs, other),
{
    let base = strip_tail(rs, key);
    let z = zero_all(base, key);
    lemma_model_find_has_key(z, key);
    if other != key {
        lemma_strip_tail_other(rs, key, other);
        lemma_first_live_same(z, base, other, base.len() as int);
        lemma_first_live(base, other, base.len() as int);
    }
}

/// Zero semantics: where the last record is not one of those that are
/// removed, removal by zeroing keeps every record in its place. In the
/// file a lookup of the key finds nothing, and a sequential scan yields,
/// in the place of each record that was reachable under the key, a key and
/// a value of the same lengths with every byte zero, and every other
/// record as it was.
pub proof fn lemma_zeroed_in_file(bytes: Seq<u8>, rs: Seq<Record>, key: Seq<u8>)
    requires
        rs.len() == 0 || !holds(rs.last(), key),
        is_image(bytes, remove_zero(rs, key)),
    ensures
        lookup(bytes, key).is_none(),
        records(bytes).len() == rs.len(),
        forall|j: int|
            0 <= j < rs.len() ==> (#[trigger] records(bytes)[j]) == if holds(rs[j], key) {
                (zeros(rs[j].key.len()), zeros(rs[j].val.len()))
            } else {
                (rs[j].key, rs[j].val)
            },
{
    lemma_remove_zero(rs, key, key);
    lemma_image_lookup(bytes, remove_zero(rs, key), key);
    lemma_image_records(bytes, remove_zero(rs, key));
    assert(strip_tail(rs, key) == rs);
}

/// Put modes. `Insert` on a key that is in the database changes nothing
/// and reports that the key was there. `Replace` makes the new value the
/// one that a lookup finds. `Warn` appends the record in any case and
/// reports exactly whether the key was there before.
pub proof fn lemma_put_modes(rs: Seq<Record>, key: Seq<u8>, val: Seq<u8>)
    ensures
        has_key(rs, key) ==> after_put(rs, key, val, CdbPutMode::Insert) == rs && model_find(
            after_put(rs, key, val, CdbPutMode::Insert),
            key,
        ) == model_find(rs, key) && put_existed(rs, key, CdbPutMode::Insert),
        !has_key(rs, key) ==> model_find(after_put(rs, key, val, CdbPutMode::Insert), key)
            == Some(val) && !put_existed(rs, key, CdbPutMode::Insert),
        model_find(after_put(rs, key, val, CdbPutMode::Replace), key) == Some(val),
        model_find(after_put(rs, key, val, CdbPutMode::Replace0), key) == Some(val),
        put_existed(rs, key, CdbPutMode::Replace) == has_key(rs, key),
        after_put(rs, key, val, CdbPutMode::Warn) == rs.push(live_record(key, val)),
        put_existed(rs, key, CdbPutMode::Warn) == has_key(rs, key),
        after_put(rs, key, val, CdbPutMode::Add) == rs.push(live_record(key, val)),
{
    let r = live_record(key, val);
    lemma_model_find_has_key(rs, key);
    lemma_model_find_push(rs, r, key);
    lemma_remove_all(rs, key, key);
    lemma_model_find_push(remove_all(rs, key), r, key);
    lemma_remove_zero(rs, key, key);
    lemma_model_find_push(remove_zero(rs, key), r, key);
}

/// The entry at place `k` of a bucket is the entry of a reachable record
/// whose key hashes into the bucket.
proof fn lemma_entry_is_record(rs: Seq<Record>, b: int, n: int, k: int) -> (j: int)
    requires
        0 <= n <= rs.len(),
        0 <= k < bucket_entries(rs, b, n).len(),
    ensures
        0 <= j < n,
        in_bucket(rs[j], b),
        bucket_entries(rs, b, n)[k] == slot_of(rs, j),
    decreases n,
{
    if in_bucket(rs[n - 1], b) && k == bucket_entries(rs, b, n).len() - 1 {
        n - 1
    } else {
        lemma_entry_is_record(rs, b, n - 1, k)
    }
}

/// Occupied slots: in a database file every slot that is not empty is the
/// slot of a reachable record. It points at a whole record, carries the
/// hash of that record's key, and that hash selects the bucket in whose
/// table the slot lies.
pub proof fn lemma_image_slots(bytes: Seq<u8>, rs: Seq<Record>, b: int, i: int) -> (j: int)
    requires
        is_image(bytes, rs),
        0 <= b < 256,
        0 <= i < hdr_cnt(bytes, b),
        table_of(bytes, b)[i].pos != 0,
    ensures
        0 <= j < rs.len(),
        rs[j].live,
        table_of(bytes, b)[i] == slot_of(rs, j),
        table_of(bytes, b)[i].pos == rec_pos(rs, j),
        record_ok(bytes, table_of(bytes, b)[i].pos as int),
        key_at(bytes, table_of(bytes, b)[i].pos as int) == rs[j].key,
        table_of(bytes, b)[i].hash == hash_spec(key_at(bytes, table_of(bytes, b)[i].pos as int)),
        bucket_of(table_of(bytes, b)[i].hash) == b,
{
    let es = bucket_entries(rs, b, rs.len() as int);
    lemma_image_capacity(bytes, rs, b);
    lemma_bucket_entries(rs, b, rs.len() as int);
    lemma_build_table(es, 2 * es.len());
    let slot = table_of(bytes, b)[i];
    let k = choose|k: int| 0 <= k < es.len() && es[k] == slot;
    let j = lemma_entry_is_record(rs, b, rs.len() as int, k);
    lemma_slot_of_matches(bytes, rs, j, rs[j].key);
    j
}

/// Four bytes are known from the 32-bit value that they spell.
proof fn lemma_u32_at_bytes(a: Seq<u8>, b: Seq<u8>, p: int)
    requires
        u32_at(a, p) == u32_at(b, p),
    ensures
        a[p] == b[p],
        a[p + 1] == b[p + 1],
        a[p + 2] == b[p + 2],
        a[p + 3] == b[p + 3],
{
    let a0 = a[p];
    let a1 = a[p + 1];
    let a2 = a[p + 2];
    let a3 = a[p + 3];
    let b0 = b[p];
    let b1 = b[p + 1];
    let b2 = b[p + 2];
    let b3 = b[p + 3];
    assert((a0 as u32) | ((a1 as u32) << 8) | ((a2 as u32) << 16) | ((a3 as u32) << 24) == (b0 as u32)
        | ((b1 as u32) << 8) | ((b2 as u32) << 16) | ((b3 as u32) << 24) ==> a0 == b0 && a1 == b1
        && a2 == b2 && a3 == b3) by (bit_vector);
}

/// Every offset of the record region lies in one record.
proof fn lemma_record_of_offset(rs: Seq<Record>, i: int, n: int) -> (j: int)
    requires
        0 <= n <= rs.len(),
        2048 <= i < rec_pos(rs, n),
    ensures
        0 <= j < n,
        rec_pos(rs, j) <= i < rec_pos(rs, j + 1),
    decreases n,
{
    if i >= rec_pos(rs, n - 1) {
        n - 1
    } else {
        lemma_record_of_offset(rs, i, n - 1)
    }
}

/// Every offset behind the records lies in the slot table of one bucket.
proof fn lemma_bucket_of_offset(rs: Seq<Record>, i: int, b: int) -> (c: int)
    requires
        0 <= b,
        table_pos(rs, 0) <= i < table_pos(rs, b),
    ensures
        0 <= c < b,
        table_pos(rs, c) <= i < table_pos(rs, c + 1),
    decreases b,
{
    if i >= table_pos(rs, b - 1) {
        b - 1
    } else {
        lemma_bucket_of_offset(rs, i, b - 1)
    }
}

/// Bit-exactness: the records determine every byte of their database
/// file. Two files of the same records are the same file.
pub proof fn lemma_image_unique(a: Seq<u8>, b: Seq<u8>, rs: Seq<Record>)
    requires
        is_image(a, rs),
        is_image(b, rs),
    ensures
        a == b,
{
    lemma_image_len(rs);
    assert forall|i: int| 0 <= i < a.len() implies a[i] == b[i] by {
        if i < 2048 {
            let c = i / 8;
            assert(header_image(a, rs, c));
            assert(header_image(b, rs, c));
            lemma_u32_at_bytes(a, b, 8 * c);
            lemma_u32_at_bytes(a, b, 8 * c + 4);
        } else if i < data_end(rs) {
            let j = lemma_record_of_offset(rs, i, rs.len() as int);
            let p = rec_pos(rs, j);
            assert(record_image(a, rs, j));
            assert(record_image(b, rs, j));
            lemma_u32_at_bytes(a, b, p);
            lemma_u32_at_bytes(a, b, p + 4);
            let klen = rs[j].key.len() as int;
            if i >= p + 8 + klen {
                assert(a[i] == val_at(a, p)[i - p - 8 - klen]);
                assert(b[i] == val_at(b, p)[i - p - 8 - klen]);
            } else if i >= p + 8 {
                assert(a[i] == key_at(a, p)[i - p - 8]);
                assert(b[i] == key_at(b, p)[i - p - 8]);
            }
        } else {
            let c = lemma_bucket_of_offset(rs, i, 256);
            let tpos = table_pos(rs, c);
            let k = (i - tpos) / 8;
            assert(table_image(a, rs, c));
            assert(table_image(b, rs, c));
            assert(slot_at(a, tpos, k) == bucket_table(rs, c)[k]);
            assert(slot_at(b, tpos, k) == bucket_table(rs, c)[k]);
            lemma_u32_at_bytes(a, b, tpos + 8 * k);
            lemma_u32_at_bytes(a, b, tpos + 8 * k + 4);
        }
    }
    assert(a =~= b);
}

} // verus!
