use tinycdb::base::{
    path_as_c_str, Cdb, CdbCreator, CdbError, CdbErrorKind, CdbPutMode, EEXIST, ENOMEM,
};
use tinycdb::hash::cdb_hash;
use tinycdb::layout::{cdb_pack, cdb_pack_at, cdb_unpack};
use tinycdb::mode::CdbFindMode;
use tinycdb::query::{check_header, find_record, next_record};

fn header_entry(bytes: &[u8], bucket: usize) -> (u32, u32) {
    (cdb_unpack(bytes, 8 * bucket), cdb_unpack(bytes, 8 * bucket + 4))
}

fn pairs(c: &Cdb) -> Vec<(Vec<u8>, Vec<u8>)> {
    let mut out = Vec::new();
    let mut it = c.iter();
    while let Some((k, v)) = it.next() {
        out.push((k.to_vec(), v.to_vec()));
    }
    out
}

#[test]
fn hash_of_known_keys() {
    assert_eq!(cdb_hash(b""), 5381);
    assert_eq!(cdb_hash(b"a"), (5381u32 * 33) ^ 97);
    assert_eq!(cdb_hash(b"one"), 0x0b87_5b81);
    assert_eq!(cdb_hash(b"two"), 0x0b87_6029);
}

#[test]
fn hash_wraps_at_32_bits() {
    let key = [0xffu8; 64];
    let mut h: u32 = 5381;
    for b in key.iter() {
        h = h.wrapping_mul(33) ^ (*b as u32);
    }
    assert_eq!(cdb_hash(&key), h);
}

#[test]
fn pack_is_little_endian() {
    let mut out = vec![9u8];
    cdb_pack(0x0403_0201, &mut out);
    assert_eq!(out, vec![9, 1, 2, 3, 4]);
    assert_eq!(cdb_unpack(&out, 1), 0x0403_0201);
    cdb_pack_at(0xffff_fffe, &mut out, 0);
    assert_eq!(out, vec![0xfe, 0xff, 0xff, 0xff, 4]);
    assert_eq!(cdb_unpack(&out, 0), 0xffff_fffe);
}

#[test]
fn empty_database_is_a_bare_header() {
    let bytes = CdbCreator::new().finalize().unwrap();
    assert_eq!(bytes.len(), 2048);
    for b in 0..256 {
        assert_eq!(header_entry(&bytes, b), (2048, 0));
    }
    let c = Cdb::open(bytes).unwrap();
    assert_eq!(c.find(b"anything"), None);
    assert_eq!(c.find(b""), None);
    assert!(!c.contains(b"anything"));
    assert!(c.iter().next().is_none());
    assert_eq!(c.iter().collect().len(), 0);
}

#[test]
fn round_trip_in_insertion_order() {
    let mut creator = CdbCreator::new();
    let mut expected = Vec::new();
    for i in 0..1000u32 {
        let key = format!("key{}", i).into_bytes();
        let val = format!("val{}", i * 7).into_bytes();
        creator.add(&key, &val).unwrap();
        expected.push((key, val));
    }
    let c = Cdb::new(creator).unwrap();
    for (k, v) in expected.iter() {
        assert_eq!(c.find(k), Some(v.as_slice()));
        assert_eq!(c.find_mut(k), Some(v.clone()));
        assert!(c.contains(k));
    }
    assert_eq!(c.find(b"key1000"), None);
    assert!(!c.contains(b"key1000"));
    assert_eq!(pairs(&c), expected);
}

#[test]
fn scenario_one_two() {
    let mut creator = CdbCreator::new();
    creator.add(b"one", b"Hello").unwrap();
    creator.add(b"two", b"Goodbye").unwrap();
    let c = Cdb::new(creator).unwrap();
    assert_eq!(c.find(b"one"), Some(&b"Hello"[..]));
    assert_eq!(c.find(b"two"), Some(&b"Goodbye"[..]));
    assert_eq!(c.find(b"three"), None);
    assert_eq!(
        pairs(&c),
        vec![
            (b"one".to_vec(), b"Hello".to_vec()),
            (b"two".to_vec(), b"Goodbye".to_vec())
        ]
    );
}

#[test]
fn file_layout_of_two_records() {
    let mut creator = CdbCreator::new();
    creator.add(b"one", b"Hello").unwrap();
    creator.add(b"two", b"Goodbye").unwrap();
    let bytes = creator.finalize().unwrap();
    // header, two records of 16 and 18 bytes, two tables of two slots
    assert_eq!(bytes.len(), 2048 + 16 + 18 + 2 * 16);
    assert_eq!(&bytes[2048..2064], b"\x03\0\0\0\x05\0\0\0oneHello");
    assert_eq!(&bytes[2064..2082], b"\x03\0\0\0\x07\0\0\0twoGoodbye");
    // "two" hashes into bucket 0x29, "one" into bucket 0x81
    assert_eq!(header_entry(&bytes, 0x29), (2082, 2));
    assert_eq!(header_entry(&bytes, 0x81), (2098, 2));
    assert_eq!(header_entry(&bytes, 0), (2082, 0));
    assert_eq!(header_entry(&bytes, 255), (2114, 0));
    assert_eq!(cdb_unpack(&bytes, 2082), 0x0b87_6029);
    assert_eq!(cdb_unpack(&bytes, 2086), 2064);
    assert_eq!(cdb_unpack(&bytes, 2090), 0);
    assert_eq!(cdb_unpack(&bytes, 2094), 0);
    assert_eq!(cdb_unpack(&bytes, 2098), 0);
    assert_eq!(cdb_unpack(&bytes, 2102), 0);
    assert_eq!(cdb_unpack(&bytes, 2106), 0x0b87_5b81);
    assert_eq!(cdb_unpack(&bytes, 2110), 2048);
}

#[test]
fn absent_keys_are_not_found() {
    let mut creator = CdbCreator::new();
    creator.add(b"alpha", b"1").unwrap();
    creator.add(b"beta", b"2").unwrap();
    let c = Cdb::new(creator).unwrap();
    for key in [&b"gamma"[..], b"alph", b"alphaa", b"", b"BETA"] {
        assert_eq!(c.find(key), None);
        assert_eq!(c.contains(key), c.find(key).is_some());
    }
    for key in [&b"alpha"[..], b"beta"] {
        assert_eq!(c.contains(key), c.find(key).is_some());
        assert!(c.contains(key));
    }
}

#[test]
fn duplicate_keys_first_wins() {
    let mut creator = CdbCreator::new();
    creator.add(b"k", b"v1").unwrap();
    creator.add(b"k", b"v2").unwrap();
    let c = Cdb::new(creator).unwrap();
    assert_eq!(c.find(b"k"), Some(&b"v1"[..]));
    assert_eq!(
        pairs(&c),
        vec![(b"k".to_vec(), b"v1".to_vec()), (b"k".to_vec(), b"v2".to_vec())]
    );
}

#[test]
fn empty_key_is_legal() {
    let mut creator = CdbCreator::new();
    creator.add(b"", b"nothing").unwrap();
    creator.add(b"x", b"").unwrap();
    assert_eq!(creator.contains(b"").unwrap(), true);
    let c = Cdb::new(creator).unwrap();
    assert_eq!(c.find(b""), Some(&b"nothing"[..]));
    assert_eq!(c.find(b"x"), Some(&b""[..]));
    assert_eq!(
        pairs(&c),
        vec![(b"".to_vec(), b"nothing".to_vec()), (b"x".to_vec(), b"".to_vec())]
    );
}

#[test]
fn zeroing_keeps_the_place() {
    let mut creator = CdbCreator::new();
    creator.add(b"first", b"1").unwrap();
    creator.add(b"gone", b"abc").unwrap();
    creator.add(b"last", b"3").unwrap();
    assert_eq!(creator.remove(b"gone", true).unwrap(), true);
    assert_eq!(creator.contains(b"gone").unwrap(), false);
    assert_eq!(creator.remove(b"gone", true).unwrap(), false);
    let c = Cdb::new(creator).unwrap();
    assert_eq!(c.find(b"gone"), None);
    assert_eq!(c.find(b"first"), Some(&b"1"[..]));
    assert_eq!(c.find(b"last"), Some(&b"3"[..]));
    assert_eq!(c.find(&[0u8; 4]), None);
    assert_eq!(
        pairs(&c),
        vec![
            (b"first".to_vec(), b"1".to_vec()),
            (vec![0u8; 4], vec![0u8; 3]),
            (b"last".to_vec(), b"3".to_vec())
        ]
    );
}

#[test]
fn zeroing_the_last_record_deletes_it() {
    let mut creator = CdbCreator::new();
    creator.add(b"first", b"1").unwrap();
    creator.add(b"gone", b"a").unwrap();
    creator.add(b"gone", b"b").unwrap();
    assert_eq!(creator.remove(b"gone", true).unwrap(), true);
    let bytes = creator.finalize().unwrap();
    assert_eq!(bytes.len(), 2048 + 14 + 16);
    let c = Cdb::open(bytes).unwrap();
    assert_eq!(c.find(b"gone"), None);
    assert_eq!(pairs(&c), vec![(b"first".to_vec(), b"1".to_vec())]);
}

#[test]
fn zeroing_drops_the_tail_and_zeroes_the_rest() {
    let mut creator = CdbCreator::new();
    creator.add(b"k", b"1").unwrap();
    creator.add(b"other", b"2").unwrap();
    creator.add(b"k", b"3").unwrap();
    assert_eq!(creator.find(b"k", CdbFindMode::Fill0).unwrap(), true);
    let c = Cdb::new(creator).unwrap();
    assert_eq!(
        pairs(&c),
        vec![(vec![0u8], vec![0u8]), (b"other".to_vec(), b"2".to_vec())]
    );
    assert_eq!(c.find(b"k"), None);
    assert_eq!(c.find(b"other"), Some(&b"2"[..]));
}

#[test]
fn physical_removal_omits_the_records() {
    let mut creator = CdbCreator::new();
    creator.add(b"a", b"1").unwrap();
    creator.add(b"b", b"2").unwrap();
    creator.add(b"a", b"3").unwrap();
    creator.add(b"c", b"4").unwrap();
    assert_eq!(creator.remove(b"a", false).unwrap(), true);
    assert_eq!(creator.remove(b"a", false).unwrap(), false);
    assert_eq!(creator.remove(b"zzz", false).unwrap(), false);
    let bytes = creator.finalize().unwrap();
    assert_eq!(bytes.len(), 2048 + 2 * 10 + 2 * 16);
    let c = Cdb::open(bytes).unwrap();
    assert_eq!(c.find(b"a"), None);
    assert_eq!(c.find(b"b"), Some(&b"2"[..]));
    assert_eq!(c.find(b"c"), Some(&b"4"[..]));
    assert_eq!(
        pairs(&c),
        vec![(b"b".to_vec(), b"2".to_vec()), (b"c".to_vec(), b"4".to_vec())]
    );
}

#[test]
fn find_mode_only_looks() {
    let mut creator = CdbCreator::new();
    creator.add(b"a", b"1").unwrap();
    assert_eq!(creator.find(b"a", CdbFindMode::Find).unwrap(), true);
    assert_eq!(creator.find(b"b", CdbFindMode::Find).unwrap(), false);
    assert_eq!(creator.find(b"a", CdbFindMode::Remove).unwrap(), true);
    assert_eq!(creator.find(b"a", CdbFindMode::Find).unwrap(), false);
    let c = Cdb::new(creator).unwrap();
    assert_eq!(pairs(&c), Vec::<(Vec<u8>, Vec<u8>)>::new());
}

#[test]
fn put_add_does_not_look() {
    let mut creator = CdbCreator::new();
    assert_eq!(creator.put(b"k", b"1", CdbPutMode::Add).unwrap(), false);
    assert_eq!(creator.put(b"k", b"2", CdbPutMode::Add).unwrap(), false);
    let c = Cdb::new(creator).unwrap();
    assert_eq!(c.find(b"k"), Some(&b"1"[..]));
    assert_eq!(pairs(&c).len(), 2);
}

#[test]
fn put_insert_keeps_the_first() {
    let mut creator = CdbCreator::new();
    assert_eq!(creator.put(b"k", b"1", CdbPutMode::Insert).unwrap(), false);
    assert_eq!(creator.put(b"k", b"2", CdbPutMode::Insert).unwrap(), true);
    let c = Cdb::new(creator).unwrap();
    assert_eq!(c.find(b"k"), Some(&b"1"[..]));
    assert_eq!(pairs(&c), vec![(b"k".to_vec(), b"1".to_vec())]);
}

#[test]
fn put_replace_replaces() {
    let mut creator = CdbCreator::new();
    creator.add(b"k", b"1").unwrap();
    creator.add(b"j", b"x").unwrap();
    creator.add(b"k", b"2").unwrap();
    assert_eq!(creator.put(b"k", b"3", CdbPutMode::Replace).unwrap(), true);
    assert_eq!(creator.put(b"new", b"4", CdbPutMode::Replace).unwrap(), false);
    let c = Cdb::new(creator).unwrap();
    assert_eq!(c.find(b"k"), Some(&b"3"[..]));
    assert_eq!(
        pairs(&c),
        vec![
            (b"j".to_vec(), b"x".to_vec()),
            (b"k".to_vec(), b"3".to_vec()),
            (b"new".to_vec(), b"4".to_vec())
        ]
    );
}

#[test]
fn put_warn_always_writes() {
    let mut creator = CdbCreator::new();
    assert_eq!(creator.put(b"k", b"1", CdbPutMode::Warn).unwrap(), false);
    assert_eq!(creator.put(b"k", b"2", CdbPutMode::Warn).unwrap(), true);
    let c = Cdb::new(creator).unwrap();
    assert_eq!(c.find(b"k"), Some(&b"1"[..]));
    assert_eq!(
        pairs(&c),
        vec![(b"k".to_vec(), b"1".to_vec()), (b"k".to_vec(), b"2".to_vec())]
    );
}

#[test]
fn put_replace0_zeroes_the_old() {
    let mut creator = CdbCreator::new();
    creator.add(b"k", b"old").unwrap();
    creator.add(b"j", b"x").unwrap();
    assert_eq!(creator.put(b"k", b"new", CdbPutMode::Replace0).unwrap(), true);
    let c = Cdb::new(creator).unwrap();
    assert_eq!(c.find(b"k"), Some(&b"new"[..]));
    assert_eq!(
        pairs(&c),
        vec![
            (vec![0u8], vec![0u8; 3]),
            (b"j".to_vec(), b"x".to_vec()),
            (b"k".to_vec(), b"new".to_vec())
        ]
    );
}

#[test]
fn tables_have_twice_the_slots() {
    let mut creator = CdbCreator::new();
    let mut count = [0u32; 256];
    for i in 0..5000u32 {
        let key = format!("{}", i).into_bytes();
        count[(cdb_hash(&key) & 0xff) as usize] += 1;
        creator.add(&key, b"v").unwrap();
    }
    let bytes = creator.finalize().unwrap();
    let mut pos = cdb_unpack(&bytes, 0);
    for b in 0..256 {
        let (p, n) = header_entry(&bytes, b);
        assert_eq!(p, pos);
        assert_eq!(n, 2 * count[b]);
        assert!(n >= 2 * count[b]);
        pos += 8 * n;
    }
    assert_eq!(pos as usize, bytes.len());
}

#[test]
fn colliding_start_slots_are_probed() {
    // many keys in few slots: every one must still be found
    let mut creator = CdbCreator::new();
    let mut keys = Vec::new();
    let mut i = 0u32;
    while keys.len() < 40 {
        let key = format!("c{}", i).into_bytes();
        if cdb_hash(&key) & 0xff == 7 {
            creator.add(&key, &i.to_le_bytes()).unwrap();
            keys.push((key, i));
        }
        i += 1;
    }
    let c = Cdb::new(creator).unwrap();
    assert_eq!(header_entry(c.as_bytes(), 7).1, 80);
    for (key, i) in keys.iter() {
        assert_eq!(c.find(key), Some(&i.to_le_bytes()[..]));
    }
}

#[test]
fn short_file_is_corrupt() {
    for len in [0usize, 1, 2047] {
        match Cdb::open(vec![0u8; len]) {
            Ok(_) => panic!("opened a file of {} bytes", len),
            Err(e) => {
                assert_eq!(e.kind(), CdbErrorKind::CorruptHeader);
                assert_eq!(e.message(), "Error initializing CDB");
            }
        }
        assert!(!check_header(&vec![0u8; len]));
    }
}

#[test]
fn table_outside_the_file_is_corrupt() {
    let mut creator = CdbCreator::new();
    creator.add(b"one", b"Hello").unwrap();
    let good = creator.finalize().unwrap();
    assert!(check_header(&good));

    let mut bad = good.clone();
    cdb_pack_at(3, &mut bad, 8 * 200 + 4);
    assert!(!check_header(&bad));
    assert_eq!(Cdb::open(bad).err().unwrap().kind(), CdbErrorKind::CorruptHeader);

    let mut bad = good.clone();
    cdb_pack_at(2047, &mut bad, 8 * 3);
    assert_eq!(Cdb::open(bad).err().unwrap().kind(), CdbErrorKind::CorruptHeader);

    let mut bad = good.clone();
    cdb_pack_at(good.len() as u32 + 1, &mut bad, 8 * 255);
    assert_eq!(Cdb::open(bad).err().unwrap().kind(), CdbErrorKind::CorruptHeader);

    let mut truncated = good.clone();
    truncated.pop();
    assert_eq!(Cdb::open(truncated).err().unwrap().kind(), CdbErrorKind::CorruptHeader);

    assert!(Cdb::open(vec![0u8; 2048]).is_err());
}

#[test]
fn damaged_slots_do_no_harm() {
    let mut creator = CdbCreator::new();
    creator.add(b"one", b"Hello").unwrap();
    let good = creator.finalize().unwrap();
    let (tpos, n) = header_entry(&good, 0x81);
    assert_eq!(n, 2);
    // point the slot behind the records
    let mut bad = good.clone();
    for i in 0..2 {
        if cdb_unpack(&bad, tpos as usize + 8 * i + 4) != 0 {
            cdb_pack_at(0xffff_fff0, &mut bad, tpos as usize + 8 * i + 4);
        }
    }
    let c = Cdb::open(bad).unwrap();
    assert_eq!(c.find(b"one"), None);
    assert_eq!(c.iter().collect().len(), 1);
    // a record whose lengths run over the record region ends the scan
    let mut bad = good.clone();
    cdb_pack_at(1000, &mut bad, 2048 + 4);
    let c = Cdb::open(bad).unwrap();
    assert_eq!(c.find(b"one"), None);
    assert!(c.iter().next().is_none());
}

#[test]
fn found_gives_offsets() {
    let mut creator = CdbCreator::new();
    creator.add(b"one", b"Hello").unwrap();
    creator.add(b"two", b"Goodbye").unwrap();
    let bytes = creator.finalize().unwrap();
    let f = find_record(&bytes, b"two").unwrap();
    assert_eq!((f.key_pos, f.key_len, f.val_pos, f.val_len), (2072, 3, 2075, 7));
    let f = next_record(&bytes, 2048).unwrap();
    assert_eq!((f.key_pos, f.key_len, f.val_pos, f.val_len), (2056, 3, 2059, 5));
    assert!(next_record(&bytes, 2082).is_none());
    assert!(find_record(&bytes, b"three").is_none());
}

#[test]
fn error_carries_kind_and_message() {
    let e = CdbError::new("Error creating file", CdbErrorKind::AlreadyExists);
    assert_eq!(e.kind(), CdbErrorKind::AlreadyExists);
    assert_eq!(e.message(), "Error creating file");
    let e = CdbError::new("Error adding key/value", CdbErrorKind::IoError(ENOMEM));
    assert_eq!(e.kind(), CdbErrorKind::IoError(12));
    let e = CdbError::new("Error opening file", CdbErrorKind::IoError(2));
    assert_eq!(e.kind(), CdbErrorKind::IoError(2));
    assert_ne!(e.kind(), CdbErrorKind::IoError(3));
    assert_eq!(e.clone().message(), "Error opening file");
}

#[test]
fn path_gets_its_zero_byte() {
    assert_eq!(path_as_c_str(b"basic.cdb"), b"basic.cdb\0".to_vec());
    assert_eq!(path_as_c_str(b"basic.cdb\0"), b"basic.cdb\0".to_vec());
    assert_eq!(path_as_c_str(b"a"), b"a\0".to_vec());
}

#[test]
fn errno_becomes_a_kind() {
    let e = CdbError::new_from_errno("Error opening file", 2);
    assert_eq!(e.kind(), CdbErrorKind::IoError(2));
    assert_eq!(e.message(), "Error opening file");
    let e = CdbError::new_from_create_errno("Error creating file", EEXIST);
    assert_eq!(e.kind(), CdbErrorKind::AlreadyExists);
    assert_eq!(e.message(), "Error creating file");
    let e = CdbError::new_from_create_errno("Error creating file", 13);
    assert_eq!(e.kind(), CdbErrorKind::IoError(13));
    let e = CdbError::new_from_errno("Error opening file", 17);
    assert_eq!(e.kind(), CdbErrorKind::IoError(17));
}
