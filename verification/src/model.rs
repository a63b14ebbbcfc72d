//! The mathematical model of a database under construction: the sequence of
//! its records in storage order, and what each builder operation does to it.
use vstd::prelude::*;
use crate::mode::{CdbFindMode, CdbPutMode, find_mode_of};

verus! {

/// One stored record. A record that is not `live` has been zeroed: it still
/// occupies its place in the file but no lookup reaches it.
pub ghost struct Record {
    pub key: Seq<u8>,
    pub val: Seq<u8>,
    pub live: bool,
}

/// `n` zero bytes.
pub open spec fn zeros(n: nat) -> Seq<u8> {
    Seq::new(n, |i: int| 0u8)
}

/// A freshly added record.
pub open spec fn live_record(key: Seq<u8>, val: Seq<u8>) -> Record {
    Record { key, val, live: true }
}

/// The record that zeroing leaves in the place of `r`: key and value of the
/// same lengths, every byte zero, unreachable by lookup.
pub open spec fn zero_record(r: Record) -> Record {
    Record { key: zeros(r.key.len()), val: zeros(r.val.len()), live: false }
}

/// Number of bytes that a record occupies in the file: two length fields,
/// then the key, then the value.
pub open spec fn rec_len(r: Record) -> nat {
    8 + r.key.len() + r.val.len()
}

/// Number of bytes that the first `n` records occupy together.
pub open spec fn data_upto(rs: Seq<Record>, n: int) -> nat
    decreases n,
{
    if n <= 0 {
        0
    } else {
        data_upto(rs, n - 1) + rec_len(rs[n - 1])
    }
}

/// Number of bytes that all records occupy together.
pub open spec fn data_len(rs: Seq<Record>) -> nat {
    data_upto(rs, rs.len() as int)
}

/// Number of records among the first `n` that are reachable by lookup.
pub open spec fn live_upto(rs: Seq<Record>, n: int) -> nat
    decreases n,
{
    if n <= 0 {
        0
    } else {
        live_upto(rs, n - 1) + if rs[n - 1].live {
            1nat
        } else {
            0nat
        }
    }
}

/// Number of records that are reachable by lookup.
pub open spec fn live_count(rs: Seq<Record>) -> nat {
    live_upto(rs, rs.len() as int)
}

/// File offset at which record `j` starts.
pub open spec fn rec_pos(rs: Seq<Record>, j: int) -> int {
    2048 + data_upto(rs, j) as int
}

/// File offset at which the records end.
pub open spec fn data_end(rs: Seq<Record>) -> int {
    2048 + data_len(rs) as int
}

/// The record is reachable by lookup and stored under `key`.
pub open spec fn holds(r: Record, key: Seq<u8>) -> bool {
    r.live && r.key == key
}

/// Some record is reachable by lookup under `key`.
pub open spec fn has_key(rs: Seq<Record>, key: Seq<u8>) -> bool {
    exists|j: int| 0 <= j < rs.len() && holds(#[trigger] rs[j], key)
}

/// Index of the first of the first `n` records that is reachable under `key`.
pub open spec fn first_live(rs: Seq<Record>, key: Seq<u8>, n: int) -> Option<int>
    decreases n,
{
    if n <= 0 {
        None
    } else {
        match first_live(rs, key, n - 1) {
            Some(j) => Some(j),
            None => if holds(rs[n - 1], key) {
                Some(n - 1)
            } else {
                None
            },
        }
    }
}

/// What a lookup of `key` is to return: the value of the first record in
/// storage order that is reachable under `key`.
pub open spec fn model_find(rs: Seq<Record>, key: Seq<u8>) -> Option<Seq<u8>> {
    match first_live(rs, key, rs.len() as int) {
        Some(j) => Some(rs[j].val),
        None => None,
    }
}

/// What a sequential scan is to return: key and value of every record, in
/// storage order, zeroed ones included.
pub open spec fn model_pairs(rs: Seq<Record>) -> Seq<(Seq<u8>, Seq<u8>)> {
    Seq::new(rs.len(), |j: int| (rs[j].key, rs[j].val))
}

/// The test that a record passes unless it is reachable under `key`.
pub open spec fn not_under(key: Seq<u8>) -> spec_fn(Record) -> bool {
    |r: Record| !holds(r, key)
}

/// The records that are left when every record reachable under `key` is
/// taken out and the rest move up.
pub open spec fn remove_all(rs: Seq<Record>, key: Seq<u8>) -> Seq<Record> {
    rs.filter(not_under(key))
}

/// The records without the run of records reachable under `key` that ends
/// the sequence.
pub open spec fn strip_tail(rs: Seq<Record>, key: Seq<u8>) -> Seq<Record>
    decreases rs.len(),
{
    if rs.len() > 0 && holds(rs.last(), key) {
        strip_tail(rs.drop_last(), key)
    } else {
        rs
    }
}

/// Every record reachable under `key` replaced by its zeroed form.
pub open spec fn zero_all(rs: Seq<Record>, key: Seq<u8>) -> Seq<Record> {
    Seq::new(
        rs.len(),
        |j: int|
            if holds(rs[j], key) {
                zero_record(rs[j])
            } else {
                rs[j]
            },
    )
}

/// Removal by zeroing: records reachable under `key` that end the sequence
/// are dropped, since nothing lies behind them; every other one is zeroed in
/// place.
pub open spec fn remove_zero(rs: Seq<Record>, key: Seq<u8>) -> Seq<Record> {
    zero_all(strip_tail(rs, key), key)
}

/// Two sequences whose first `n` records have the same lengths occupy the
/// same number of bytes up to there.
pub proof fn lemma_data_upto_same(a: Seq<Record>, b: Seq<Record>, n: int)
    requires
        n <= a.len(),
        n <= b.len(),
        forall|i: int| 0 <= i < n ==> rec_len(#[trigger] a[i]) == rec_len(b[i]),
    ensures
        data_upto(a, n) == data_upto(b, n),
    decreases n,
{
    if n > 0 {
        lemma_data_upto_same(a, b, n - 1);
    }
}

/// Offsets grow with the record index.
pub proof fn lemma_data_upto_mono(rs: Seq<Record>, i: int, j: int)
    requires
        i <= j,
    ensures
        data_upto(rs, i) <= data_upto(rs, j),
    decreases j - i,
{
    if i < j {
        lemma_data_upto_mono(rs, i, j - 1);
    }
}

/// A record appended to the sequence adds its own length to the data.
pub proof fn lemma_data_len_push(rs: Seq<Record>, r: Record)
    ensures
        data_len(rs.push(r)) == data_len(rs) + rec_len(r),
        forall|j: int| 0 <= j <= rs.len() ==> data_upto(rs.push(r), j) == data_upto(rs, j),
{
    assert forall|j: int| 0 <= j <= rs.len() implies data_upto(rs.push(r), j) == data_upto(
        rs,
        j,
    ) by {
        lemma_data_upto_same(rs.push(r), rs, j);
    }
    assert(rs.push(r)[rs.len() as int] == r);
}

/// Dropping the last record takes its length off the data.
pub proof fn lemma_data_len_drop_last(rs: Seq<Record>)
    requires
        rs.len() > 0,
    ensures
        data_len(rs.drop_last()) + rec_len(rs.last()) == data_len(rs),
{
    lemma_data_upto_same(rs.drop_last(), rs, rs.len() - 1);
}

/// Taking record `i` out takes its length off the data.
pub proof fn lemma_data_len_remove(rs: Seq<Record>, i: int)
    requires
        0 <= i < rs.len(),
    ensures
        data_len(rs.remove(i)) + rec_len(rs[i]) == data_len(rs),
    decreases rs.len(),
{
    if i == rs.len() - 1 {
        assert(rs.remove(i) =~= rs.drop_last());
        lemma_data_len_drop_last(rs);
    } else {
        lemma_data_len_remove(rs.drop_last(), i);
        assert(rs.drop_last().remove(i) =~= rs.remove(i).drop_last());
        lemma_data_len_drop_last(rs);
        lemma_data_len_drop_last(rs.remove(i));
        assert(rs.remove(i).last() == rs.last());
        assert(rs.drop_last()[i] == rs[i]);
    }
}

/// Removal looks at the last record and then at those before it.
pub proof fn lemma_remove_all_step(rs: Seq<Record>, key: Seq<u8>)
    ensures
        rs.len() == 0 ==> remove_all(rs, key) == rs,
        rs.len() > 0 && holds(rs.last(), key) ==> remove_all(rs, key) == remove_all(
            rs.drop_last(),
            key,
        ),
        rs.len() > 0 && !holds(rs.last(), key) ==> remove_all(rs, key) == remove_all(
            rs.drop_last(),
            key,
        ).push(rs.last()),
{
    reveal(Seq::filter);
}

/// `first_live` finds a record reachable under the key, and none lies
/// before it; it finds none only where there is none.
pub proof fn lemma_first_live(rs: Seq<Record>, key: Seq<u8>, n: int)
    requires
        0 <= n <= rs.len(),
    ensures
        match first_live(rs, key, n) {
            Some(j) => 0 <= j < n && holds(rs[j], key) && forall|i: int|
                0 <= i < j ==> !holds(#[trigger] rs[i], key),
            None => forall|i: int| 0 <= i < n ==> !holds(#[trigger] rs[i], key),
        },
    decreases n,
{
    if n > 0 {
        lemma_first_live(rs, key, n - 1);
    }
}

/// A lookup in the model succeeds exactly for the keys that some reachable
/// record is stored under.
pub proof fn lemma_model_find_has_key(rs: Seq<Record>, key: Seq<u8>)
    ensures
        model_find(rs, key).is_some() <==> has_key(rs, key),
{
    lemma_first_live(rs, key, rs.len() as int);
}


/// The new record fits: with it the records still end at an offset that 32
/// bits can hold.
pub open spec fn fits(rs: Seq<Record>, key: Seq<u8>, val: Seq<u8>) -> bool {
    data_end(rs) + 8 + key.len() + val.len() <= 0xffff_ffff
}

/// The records after a search in the given mode.
pub open spec fn after_find(rs: Seq<Record>, key: Seq<u8>, mode: CdbFindMode) -> Seq<Record> {
    match mode {
        CdbFindMode::Find => rs,
        CdbFindMode::Remove => remove_all(rs, key),
        CdbFindMode::Fill0 => remove_zero(rs, key),
    }
}

/// The records that `put` leaves before it adds the new one.
pub open spec fn put_clears(rs: Seq<Record>, key: Seq<u8>, mode: CdbPutMode) -> Seq<Record> {
    after_find(rs, key, find_mode_of(mode))
}

/// What `put` reports: whether the key was in the database before. In mode
/// `Add` it does not look and reports `false`.
pub open spec fn put_existed(rs: Seq<Record>, key: Seq<u8>, mode: CdbPutMode) -> bool {
    !(mode is Add) && has_key(rs, key)
}

/// Whether `put` goes on to add the new record: always, but in mode
/// `Insert` for a key that is in the database already.
pub open spec fn put_adds(rs: Seq<Record>, key: Seq<u8>, mode: CdbPutMode) -> bool {
    !(mode is Insert && has_key(rs, key))
}

/// The records after a `put` that succeeded.
pub open spec fn after_put(
    rs: Seq<Record>,
    key: Seq<u8>,
    val: Seq<u8>,
    mode: CdbPutMode,
) -> Seq<Record> {
    if put_adds(rs, key, mode) {
        put_clears(rs, key, mode).push(live_record(key, val))
    } else {
        rs
    }
}

} // verus!
