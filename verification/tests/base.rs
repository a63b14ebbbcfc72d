use inflate::inflate_bytes;
use rustc_serialize::base64::FromBase64;
use tinycdb::base::{Cdb, CdbCreator, CdbPutMode, CdbResult};

// De-base64s and decompresses
fn decompress(input: &[u8]) -> Vec<u8> {
    let raw = match input.from_base64() {
        Err(why) => panic!("Could not decode base64: {}", why),
        Ok(val) => val,
    };
    match inflate_bytes(&raw) {
        Err(why) => panic!("Could not inflate bytes: {}", why),
        Ok(val) => val,
    }
}

fn with_test_file<F: FnOnce(Vec<u8>)>(input: &[u8], f: F) {
    f(decompress(input));
}

// Builds a database as the closure says, finishes it and opens it.
fn create<F: FnOnce(&mut CdbCreator)>(fill: F) -> CdbResult<Cdb> {
    let mut creator = CdbCreator::new();
    fill(&mut creator);
    Cdb::new(creator)
}

// Simple compressed/base64'd CDB that contains the key/values:
//      "one" --> "Hello"
//      "two" --> "Goodbye"
const HELLO_CDB: &[u8] = b"7dIxCoAwDAXQoohCF8/QzdUjuOgdXETMVswiiKNTr20qGdydWn7g8/ghY1xj3nHwt4XY\
      a4cwNeP/DtohhPlbSioJ7zSR9xx7LTlOHpm39aJuCbbV6+/cc7BG9g8=";

#[test]
fn test_basic_find() {
    let mut ran = false;

    with_test_file(HELLO_CDB, |bytes| {
        let c = match Cdb::open(bytes) {
            Err(why) => panic!("Could not open CDB: {:?}", why),
            Ok(c) => c,
        };

        let res = match c.find_mut(b"one") {
            None => panic!("Could not find 'one' in CDB (find_mut)"),
            Some(val) => val,
        };
        assert_eq!(res.as_slice(), b"Hello");

        let res = match c.find(b"one") {
            None => panic!("Could not find 'one' in CDB (find)"),
            Some(val) => val,
        };
        assert_eq!(res, b"Hello");

        ran = true;
    });

    assert!(ran);
}

#[test]
fn test_find_not_found() {
    with_test_file(HELLO_CDB, |bytes| {
        let c = match Cdb::open(bytes) {
            Err(why) => panic!("Could not open CDB: {:?}", why),
            Ok(c) => c,
        };
        match c.find("bad".as_bytes()) {
            None => {}
            Some(val) => panic!("Found unexpected value: {:?}", val),
        };
    });
}

#[test]
fn test_iteration() {
    with_test_file(HELLO_CDB, |bytes| {
        let c = match Cdb::open(bytes) {
            Err(why) => panic!("Could not open CDB: {:?}", why),
            Ok(c) => c,
        };

        let kvs: Vec<(&[u8], &[u8])> = c.iter().collect();

        assert_eq!(kvs.len(), 2);

        assert_eq!(kvs[0].0, b"one");
        assert_eq!(kvs[0].1, b"Hello");

        assert_eq!(kvs[1].0, b"two");
        assert_eq!(kvs[1].1, b"Goodbye");
    });
}

#[test]
fn test_simple_create() {
    let mut ran = false;

    let c = create(|_creator| {
        ran = true;
    });

    match c {
        Ok(_) => {}
        Err(why) => panic!("Could not create: {:?}", why),
    }

    assert!(ran);
}

#[test]
fn test_add_and_exists() {
    let res = create(|creator| {
        let r = creator.add(b"foo", b"bar");
        assert!(r.is_ok());

        match creator.contains(b"foo") {
            Ok(v) => assert!(v),
            Err(why) => panic!("Could not check: {:?}", why),
        }

        match creator.contains(b"notexisting") {
            Ok(v) => assert!(!v),
            Err(why) => panic!("Could not check: {:?}", why),
        }
    });

    let c = match res {
        Ok(c) => c,
        Err(why) => panic!("Could not create: {:?}", why),
    };

    let res = match c.find(b"foo") {
        None => panic!("Could not find 'foo' in CDB"),
        Some(val) => val,
    };

    assert_eq!(res, b"bar");
}

#[test]
fn test_remove() {
    let res = create(|creator| {
        let r = creator.add(b"foo", b"bar");
        assert!(r.is_ok());

        match creator.contains(b"foo") {
            Ok(v) => assert!(v),
            Err(why) => panic!("Could not check: {:?}", why),
        }

        let r = creator.remove(b"foo", false);
        assert!(r.is_ok());

        match creator.contains(b"foo") {
            Ok(v) => assert!(!v),
            Err(why) => panic!("Could not check: {:?}", why),
        }
    });

    let c = match res {
        Ok(c) => c,
        Err(why) => panic!("Could not create: {:?}", why),
    };

    match c.find(b"foo") {
        None => {}
        Some(val) => panic!("Found value for 'foo' when not expected: {:?}", val),
    };
}

#[test]
fn test_put() {
    let res = create(|creator| {
        let r = creator.add(b"foo", b"bar");
        assert!(r.is_ok());

        match creator.contains(b"foo") {
            Ok(v) => assert!(v),
            Err(why) => panic!("Could not check: {:?}", why),
        }

        let r = creator.put(b"foo", b"baz", CdbPutMode::Insert);
        assert!(r.is_ok());

        match creator.contains(b"foo") {
            Ok(v) => assert!(v),
            Err(why) => panic!("Could not check: {:?}", why),
        }
    });

    let c = match res {
        Ok(c) => c,
        Err(why) => panic!("Could not create: {:?}", why),
    };

    // The 'insert' operation should have only inserted if it didn't exist,
    // and since it did, the value is 'bar'
    match c.find(b"foo") {
        None => panic!("Could not find 'foo' in CDB"),
        Some(val) => assert_eq!(val, b"bar"),
    };
}

#[test]
fn fixture_holds_both_keys() {
    let c = Cdb::open(decompress(HELLO_CDB)).unwrap();
    assert_eq!(c.find(b"two"), Some(&b"Goodbye"[..]));
    assert_eq!(c.find(b"three"), None);
    assert!(c.contains(b"one"));
    assert!(c.contains(b"two"));
    assert!(!c.contains(b"three"));
    assert_eq!(c.as_bytes().len(), 2114);
}

#[test]
fn built_file_is_bit_exact() {
    let mut creator = CdbCreator::new();
    creator.add(b"one", b"Hello").unwrap();
    creator.add(b"two", b"Goodbye").unwrap();
    let bytes = creator.finalize().unwrap();
    assert_eq!(bytes, decompress(HELLO_CDB));
}
