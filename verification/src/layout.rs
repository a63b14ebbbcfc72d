//! The fixed on-disk layout: little-endian 32-bit fields, the header table at
//! the front of the file, the records behind it and the slot tables at the end.
use vstd::prelude::*;

verus! {

/// Size in bytes of the header table, and the offset of the first record.
pub const HEADER_SIZE: usize = 2048;

/// Number of buckets, and of entries in the header table.
pub const BUCKETS: usize = 256;

/// Largest file size, and largest file offset, that the format can describe.
pub const MAX_SIZE: u64 = 0xffff_ffff;

/// One entry of a slot table: the hash of a key and the file offset of its
/// record. An offset of 0 marks the slot as empty.
#[derive(Clone, Copy, Debug)]
pub struct Slot {
    pub hash: u32,
    pub pos: u32,
}

/// The 32-bit value that four bytes spell in little-endian order.
pub open spec fn le32(b0: u8, b1: u8, b2: u8, b3: u8) -> u32 {
    (b0 as u32) | ((b1 as u32) << 8) | ((b2 as u32) << 16) | ((b3 as u32) << 24)
}

/// The little-endian 32-bit value stored at offset `pos` of `bytes`.
pub open spec fn u32_at(bytes: Seq<u8>, pos: int) -> u32 {
    le32(bytes[pos], bytes[pos + 1], bytes[pos + 2], bytes[pos + 3])
}

/// The four bytes that store `v` in little-endian order.
pub open spec fn u32_bytes(v: u32) -> Seq<u8> {
    seq![
        (v & 0xff) as u8,
        ((v >> 8) & 0xff) as u8,
        ((v >> 16) & 0xff) as u8,
        ((v >> 24) & 0xff) as u8,
    ]
}

/// Two byte strings hold the same bytes at every offset from `lo` up to `hi`.
pub open spec fn agree(a: Seq<u8>, b: Seq<u8>, lo: int, hi: int) -> bool {
    &&& 0 <= lo
    &&& hi <= a.len()
    &&& hi <= b.len()
    &&& forall|i: int| lo <= i < hi ==> a[i] == b[i]
}

/// Decoding the encoding of a value gives the value back.
pub proof fn lemma_le32_of_bytes(v: u32)
    ensures
        le32(
            (v & 0xff) as u8,
            ((v >> 8) & 0xff) as u8,
            ((v >> 16) & 0xff) as u8,
            ((v >> 24) & 0xff) as u8,
        ) == v,
        u32_bytes(v).len() == 4,
        u32_at(u32_bytes(v), 0) == v,
{
    assert(((v & 0xff) as u8 as u32) | ((((v >> 8) & 0xff) as u8 as u32) << 8) | ((((v >> 16)
        & 0xff) as u8 as u32) << 16) | ((((v >> 24) & 0xff) as u8 as u32) << 24) == v)
        by (bit_vector);
}

/// A field that lies inside a range on which two byte strings agree reads
/// the same in both.
pub proof fn lemma_u32_at_agree(a: Seq<u8>, b: Seq<u8>, lo: int, hi: int, pos: int)
    requires
        agree(a, b, lo, hi),
        lo <= pos,
        pos + 4 <= hi,
    ensures
        u32_at(a, pos) == u32_at(b, pos),
{
}

/// Reads the little-endian 32-bit value at offset `pos` of `buf`.
pub fn cdb_unpack(buf: &[u8], pos: usize) -> (v: u32)
    requires
        pos + 4 <= buf@.len(),
    ensures
        v == u32_at(buf@, pos as int),
{
    let b0: u32 = buf[pos] as u32;
    let b1: u32 = buf[pos + 1] as u32;
    let b2: u32 = buf[pos + 2] as u32;
    let b3: u32 = buf[pos + 3] as u32;
    b0 | (b1 << 8) | (b2 << 16) | (b3 << 24)
}

/// Appends `v` to `out` as four little-endian bytes.
pub fn cdb_pack(v: u32, out: &mut Vec<u8>)
    ensures
        final(out)@ == old(out)@ + u32_bytes(v),
        final(out)@.len() == old(out)@.len() + 4,
        u32_at(final(out)@, old(out)@.len() as int) == v,
{
    proof {
        lemma_le32_of_bytes(v);
    }
    let b0: u8 = #[verifier::truncate] ((v & 0xff) as u8);
    let b1: u8 = #[verifier::truncate] (((v >> 8) & 0xff) as u8);
    let b2: u8 = #[verifier::truncate] (((v >> 16) & 0xff) as u8);
    let b3: u8 = #[verifier::truncate] (((v >> 24) & 0xff) as u8);
    out.push(b0);
    out.push(b1);
    out.push(b2);
    out.push(b3);
    assert(out@ =~= old(out)@ + u32_bytes(v));
}

/// Overwrites the four bytes at offset `pos` of `out` with `v` in
/// little-endian order, leaving every other byte as it was.
pub fn cdb_pack_at(v: u32, out: &mut Vec<u8>, pos: usize)
    requires
        pos + 4 <= old(out).len(),
    ensures
        final(out)@.len() == old(out)@.len(),
        u32_at(final(out)@, pos as int) == v,
        forall|i: int|
            0 <= i < old(out)@.len() && !(pos <= i < pos + 4) ==> final(out)@[i] == old(out)@[i],
{
    proof {
        lemma_le32_of_bytes(v);
    }
    let b0: u8 = #[verifier::truncate] ((v & 0xff) as u8);
    let b1: u8 = #[verifier::truncate] (((v >> 8) & 0xff) as u8);
    let b2: u8 = #[verifier::truncate] (((v >> 16) & 0xff) as u8);
    let b3: u8 = #[verifier::truncate] (((v >> 24) & 0xff) as u8);
    let at1: usize = pos + 1;
    let at2: usize = pos + 2;
    let at3: usize = pos + 3;
    out[pos] = b0;
    out[at1] = b1;
    out[at2] = b2;
    out[at3] = b3;
}


/// File offset of the slot table of bucket `b`, as the header gives it.
pub open spec fn hdr_pos(bytes: Seq<u8>, b: int) -> int {
    u32_at(bytes, 8 * b) as int
}

/// Number of slots in the table of bucket `b`, as the header gives it.
pub open spec fn hdr_cnt(bytes: Seq<u8>, b: int) -> int {
    u32_at(bytes, 8 * b + 4) as int
}

/// The table that header entry `b` describes starts behind the header and
/// ends inside the file.
pub open spec fn table_in_bounds(bytes: Seq<u8>, b: int) -> bool {
    &&& 2048 <= hdr_pos(bytes, b)
    &&& hdr_pos(bytes, b) + 8 * hdr_cnt(bytes, b) <= bytes.len()
}

/// The file holds a whole header, and every entry of it describes a table
/// that lies inside the file.
pub open spec fn valid_header(bytes: Seq<u8>) -> bool {
    &&& bytes.len() >= 2048
    &&& forall|b: int| 0 <= b < 256 ==> #[trigger] table_in_bounds(bytes, b)
}

/// File offset at which the records end: where the first slot table starts.
pub open spec fn file_data_end(bytes: Seq<u8>) -> int {
    hdr_pos(bytes, 0)
}

/// Length of the key of the record at offset `pos`.
pub open spec fn key_len_at(bytes: Seq<u8>, pos: int) -> int {
    u32_at(bytes, pos) as int
}

/// Length of the value of the record at offset `pos`.
pub open spec fn val_len_at(bytes: Seq<u8>, pos: int) -> int {
    u32_at(bytes, pos + 4) as int
}

/// File offset just behind the record at offset `pos`.
pub open spec fn next_pos(bytes: Seq<u8>, pos: int) -> int {
    pos + 8 + key_len_at(bytes, pos) + val_len_at(bytes, pos)
}

/// A whole record lies at offset `pos`, inside the record region.
pub open spec fn record_ok(bytes: Seq<u8>, pos: int) -> bool {
    &&& 0 <= pos
    &&& pos + 8 <= file_data_end(bytes)
    &&& next_pos(bytes, pos) <= file_data_end(bytes)
}

/// The key of the record at offset `pos`.
pub open spec fn key_at(bytes: Seq<u8>, pos: int) -> Seq<u8> {
    bytes.subrange(pos + 8, pos + 8 + key_len_at(bytes, pos))
}

/// The value of the record at offset `pos`.
pub open spec fn val_at(bytes: Seq<u8>, pos: int) -> Seq<u8> {
    bytes.subrange(pos + 8 + key_len_at(bytes, pos), next_pos(bytes, pos))
}

/// Slot `i` of the table that starts at offset `tpos`.
pub open spec fn slot_at(bytes: Seq<u8>, tpos: int, i: int) -> Slot {
    Slot { hash: u32_at(bytes, tpos + 8 * i), pos: u32_at(bytes, tpos + 8 * i + 4) }
}

/// The slot table of bucket `b`, as the file holds it.
pub open spec fn table_of(bytes: Seq<u8>, b: int) -> Seq<Slot> {
    Seq::new(hdr_cnt(bytes, b) as nat, |i: int| slot_at(bytes, hdr_pos(bytes, b), i))
}

/// The slot answers a lookup of `key`: it carries the key's hash and points
/// at a whole record that is stored under exactly that key.
pub open spec fn slot_matches(bytes: Seq<u8>, slot: Slot, key: Seq<u8>) -> bool {
    &&& slot.hash == crate::hash::hash_spec(key)
    &&& record_ok(bytes, slot.pos as int)
    &&& key_at(bytes, slot.pos as int) == key
}

/// The bucket that a hash selects: its low eight bits.
pub open spec fn bucket_of(h: u32) -> int {
    (h & 0xff) as int
}

/// The slot at which probing for a hash starts in a table of `n` slots. The
/// low eight bits have chosen the bucket already, so the start is taken
/// from the bits above them, reduced modulo the table length.
pub open spec fn slot_start(h: u32, n: int) -> int {
    ((h >> 8) as int) % n
}

/// The slot that lies `i` steps behind slot `s` in a table of `n` slots,
/// wrapping round at the end.
pub open spec fn probe_index(s: int, i: int, n: int) -> int {
    if s + i < n {
        s + i
    } else {
        s + i - n
    }
}

/// A bucket index is below 256, and a start slot lies inside its table.
pub proof fn lemma_bucket_and_start(h: u32, n: int)
    ensures
        0 <= bucket_of(h) < 256,
        n > 0 ==> 0 <= slot_start(h, n) < n,
{
    assert(h & 0xff < 256) by (bit_vector);
}

} // verus!
