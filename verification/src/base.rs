//! The basic interface: a builder that collects records and writes the
//! database file, and a reader that answers lookups and scans from it.
use vstd::prelude::*;
use crate::builder::{Entry, add_entry, entries_wf, find_entries, put_entry, records_of};
use crate::image::{build_image, image_len, is_image};
use crate::layout::{table_in_bounds, valid_header};
use crate::model::{
    Record, after_find, after_put, fits, has_key, live_record, put_adds, put_clears, put_existed,
    remove_all, remove_zero,
};
use crate::mode::CdbFindMode;
use crate::query::{
    cdb_seqinit, check_header, find_record, lookup, next_record, read_at, records, records_from,
};
use crate::theorems::lemma_image_opens;

pub use crate::mode::CdbPutMode;

verus! {

/// The error code of a database that has grown beyond what the format can
/// describe: no room is left.
pub const ENOMEM: i32 = 12;

/// The error code of the operating system for a file that exists already.
pub const EEXIST: i32 = 17;

/// Kinds of errors that can be encountered.
#[derive(Clone, Copy, Debug, PartialEq, Eq, Structural)]
pub enum CdbErrorKind {
    /// An error of the underlying input or output, with the code that the
    /// operating system gave for it.
    IoError(i32),
    /// A database was to be created where a file exists already.
    AlreadyExists,
    /// The file is too short for a header, or an entry of its header
    /// describes a slot table that does not lie inside the file.
    CorruptHeader,
}

/// Our error type.
#[derive(Clone, Debug)]
pub struct CdbError {
    kind: CdbErrorKind,
    message: String,
}

impl CdbError {
    /// The kind of the error.
    pub closed spec fn spec_kind(&self) -> CdbErrorKind {
        self.kind
    }

    /// The message of the error.
    pub closed spec fn spec_message(&self) -> Seq<char> {
        self.message@
    }

    /// Create a new CdbError from the given kind and message.
    pub fn new(msg: &str, kind: CdbErrorKind) -> (e: CdbError)
        ensures
            e.spec_kind() == kind,
            e.spec_message() == msg@,
    {
        CdbError { kind, message: msg.to_owned() }
    }

    /// Create a new CdbError for an operation that the operating system
    /// refused with the given error code.
    pub fn new_from_errno(msg: &str, errno: i32) -> (e: CdbError)
        ensures
            e.spec_kind() == CdbErrorKind::IoError(errno),
            e.spec_message() == msg@,
    {
        CdbError::new(msg, CdbErrorKind::IoError(errno))
    }

    /// Create a new CdbError for a database file that could not be
    /// created: of all error codes only the one for a file that exists
    /// already is told apart.
    pub fn new_from_create_errno(msg: &str, errno: i32) -> (e: CdbError)
        ensures
            e.spec_kind() == if errno == EEXIST {
                CdbErrorKind::AlreadyExists
            } else {
                CdbErrorKind::IoError(errno)
            },
            e.spec_message() == msg@,
    {
        if errno == EEXIST {
            CdbError::new(msg, CdbErrorKind::AlreadyExists)
        } else {
            CdbError::new(msg, CdbErrorKind::IoError(errno))
        }
    }

    /// The kind of the error.
    #[verifier::when_used_as_spec(spec_kind)]
    pub fn kind(&self) -> (k: CdbErrorKind)
        ensures
            k == self.spec_kind(),
    {
        self.kind
    }

    /// The message of the error.
    pub fn message(&self) -> (m: &str)
        ensures
            m@ == self.spec_message(),
    {
        self.message.as_str()
    }
}

/// A specialized Result type that might contain a CdbError.
pub type CdbResult<T> = Result<T, CdbError>;

/// The bytes of a path with a zero byte behind them, unless the path ends
/// in one already.
pub open spec fn c_path(path: Seq<u8>) -> Seq<u8> {
    if path.last() == 0 {
        path
    } else {
        path.push(0)
    }
}

/// Convert the bytes of a path to a C-style string: ensure that it is
/// null-terminated.
pub fn path_as_c_str(path: &[u8]) -> (pvec: Vec<u8>)
    requires
        path@.len() > 0,
    ensures
        pvec@ == c_path(path@),
{
    let mut pvec = vstd::slice::slice_to_vec(path);
    if pvec[pvec.len() - 1] != 0 {
        pvec.push(0);
    }
    pvec
}

/// The `Cdb` struct represents an open instance of a CDB database: the
/// bytes of a file whose header has been validated.
pub struct Cdb {
    mem: Vec<u8>,
}

impl View for Cdb {
    type V = Seq<u8>;

    closed spec fn view(&self) -> Seq<u8> {
        self.mem@
    }
}

/// A `CdbIterator` allows iterating over all the records in a CDB
/// database, in storage order.
pub struct CdbIterator<'a> {
    underlying: &'a Cdb,
    cptr: usize,
}

impl<'a> View for CdbIterator<'a> {
    type V = Seq<(Seq<u8>, Seq<u8>)>;

    /// The records that the iterator has still to yield.
    closed spec fn view(&self) -> Seq<(Seq<u8>, Seq<u8>)> {
        records_from(self.underlying@, self.cptr as int)
    }
}

impl<'a> CdbIterator<'a> {
    /// Yields the next record, key and value, or `None` at the end of the
    /// records.
    pub fn next(&mut self) -> (r: Option<(&'a [u8], &'a [u8])>)
        ensures
            old(self)@.len() == 0 ==> r.is_none() && final(self)@ == old(self)@,
            old(self)@.len() > 0 ==> r.is_some() && r.unwrap().0@ == old(self)@[0].0
                && r.unwrap().1@ == old(self)@[0].1 && final(self)@ == old(self)@.skip(1),
    {
        let cdb: &'a Cdb = self.underlying;
        proof {
            use_type_invariant(cdb);
            assert(table_in_bounds(cdb.mem@, 0));
        }
        let ghost before = self@;
        match next_record(cdb.mem.as_slice(), self.cptr) {
            None => None,
            Some(f) => {
                let k = read_at(cdb.mem.as_slice(), f.key_pos, f.key_len);
                let v = read_at(cdb.mem.as_slice(), f.val_pos, f.val_len);
                self.cptr = f.val_pos + f.val_len;
                assert(before.skip(1) =~= self@);
                Some((k, v))
            },
        }
    }

    /// Yields all the records that are left, in order.
    pub fn collect(self) -> (all: Vec<(&'a [u8], &'a [u8])>)
        ensures
            all@.len() == self@.len(),
            forall|i: int|
                0 <= i < all@.len() ==> (#[trigger] all@[i]).0@ == self@[i].0 && all@[i].1@
                    == self@[i].1,
    {
        let mut it = self;
        let mut all: Vec<(&'a [u8], &'a [u8])> = Vec::new();
        loop
            invariant
                all@.len() + it@.len() == self@.len(),
                it@ == self@.skip(all@.len() as int),
                forall|i: int|
                    0 <= i < all@.len() ==> (#[trigger] all@[i]).0@ == self@[i].0 && all@[i].1@
                        == self@[i].1,
            ensures
                all@.len() == self@.len(),
                forall|i: int|
                    0 <= i < all@.len() ==> (#[trigger] all@[i]).0@ == self@[i].0 && all@[i].1@
                        == self@[i].1,
            decreases it@.len(),
        {
            let ghost rest = it@;
            match it.next() {
                None => {
                    break ;
                },
                Some(kv) => {
                    assert(rest[0] == self@[all@.len() as int]);
                    all.push(kv);
                    assert(it@ =~= self@.skip(all@.len() as int));
                },
            }
        }
        all
    }
}

impl Cdb {
    #[verifier::type_invariant]
    spec fn header_checked(self) -> bool {
        valid_header(self.mem@)
    }

    /// `open(bytes)` opens the CDB database that the bytes of a file are,
    /// returning either the `Cdb` struct or an error: the header must be
    /// whole, and each of its entries must describe a slot table that
    /// lies inside the file.
    pub fn open(bytes: Vec<u8>) -> (r: CdbResult<Cdb>)
        ensures
            match r {
                Ok(c) => valid_header(bytes@) && c@ == bytes@,
                Err(e) => !valid_header(bytes@) && e.kind() == CdbErrorKind::CorruptHeader,
            },
    {
        if check_header(bytes.as_slice()) {
            Ok(Cdb { mem: bytes })
        } else {
            Err(CdbError::new("Error initializing CDB", CdbErrorKind::CorruptHeader))
        }
    }

    /// `new(creator)` finishes the database that the creator has
    /// collected and opens it. It fails where the file would be longer
    /// than the format can describe.
    pub fn new(creator: CdbCreator) -> (r: CdbResult<Cdb>)
        ensures
            match r {
                Ok(c) => is_image(c@, creator@),
                Err(e) => image_len(creator@) > 0xffff_ffff && e.kind() == CdbErrorKind::IoError(
                    ENOMEM,
                ),
            },
    {
        match creator.finalize() {
            Ok(bytes) => {
                proof {
                    lemma_image_opens(bytes@, creator@);
                }
                Cdb::open(bytes)
            },
            Err(e) => Err(e),
        }
    }

    /// The bytes of the database file.
    pub fn as_bytes(&self) -> (bytes: &[u8])
        ensures
            bytes@ == self@,
    {
        self.mem.as_slice()
    }

    /// `find(key)` searches the database for the given key, and, if it's
    /// found, will return the associated value as an immutable byte
    /// slice. Note that, since it is possible to have multiple records
    /// with the same key, `find` will only return the value of the first
    /// one on the probing path.
    pub fn find<'a>(&'a self, key: &[u8]) -> (r: Option<&'a [u8]>)
        ensures
            match lookup(self@, key@) {
                Some(v) => r.is_some() && r.unwrap()@ == v,
                None => r.is_none(),
            },
    {
        proof {
            use_type_invariant(self);
            assert(table_in_bounds(self.mem@, 0));
        }
        match find_record(self.mem.as_slice(), key) {
            Some(f) => Some(read_at(self.mem.as_slice(), f.val_pos, f.val_len)),
            None => None,
        }
    }

    /// `find_mut(key)` searches the database for the given key, and, if
    /// it's found, will return the associated value as a `Vec<u8>`.
    pub fn find_mut(&self, key: &[u8]) -> (r: Option<Vec<u8>>)
        ensures
            match lookup(self@, key@) {
                Some(v) => r.is_some() && r.unwrap()@ == v,
                None => r.is_none(),
            },
    {
        match self.find(key) {
            Some(val) => Some(vstd::slice::slice_to_vec(val)),
            None => None,
        }
    }

    /// `contains(key)` returns whether the key is in the database. This
    /// is the same search as `find(key)`, without the value.
    pub fn contains(&self, key: &[u8]) -> (found: bool)
        ensures
            found == lookup(self@, key@).is_some(),
    {
        proof {
            use_type_invariant(self);
        }
        find_record(self.mem.as_slice(), key).is_some()
    }

    /// `iter()` returns an iterator over all the records in the
    /// database, in storage order.
    pub fn iter<'s>(&'s self) -> (it: CdbIterator<'s>)
        ensures
            it@ == records(self@),
    {
        CdbIterator { underlying: self, cptr: cdb_seqinit() }
    }
}

/// The `CdbCreator` struct is used while building a new CDB instance.
pub struct CdbCreator {
    entries: Vec<Entry>,
    dpos: u32,
}

impl View for CdbCreator {
    type V = Seq<Record>;

    /// The records collected so far, in storage order.
    closed spec fn view(&self) -> Seq<Record> {
        records_of(self.entries@)
    }
}

impl CdbCreator {
    #[verifier::type_invariant]
    spec fn well_formed(self) -> bool {
        entries_wf(self.entries@, self.dpos)
    }

    /// A creator that holds no record yet.
    pub fn new() -> (c: CdbCreator)
        ensures
            c@ == Seq::<Record>::empty(),
    {
        let c = CdbCreator { entries: Vec::new(), dpos: 2048 };
        assert(c@ =~= Seq::<Record>::empty());
        c
    }

    /// Writes the database file: the records, the 256 slot tables behind
    /// them and the header in front. It fails where the file would be
    /// longer than the format can describe.
    pub fn finalize(self) -> (r: CdbResult<Vec<u8>>)
        ensures
            match r {
                Ok(bytes) => is_image(bytes@, self@),
                Err(e) => image_len(self@) > 0xffff_ffff && e.kind() == CdbErrorKind::IoError(
                    ENOMEM,
                ),
            },
    {
        proof {
            use_type_invariant(&self);
        }
        match build_image(&self.entries, self.dpos) {
            Some(bytes) => Ok(bytes),
            None => Err(CdbError::new("Error finalizing CDB", CdbErrorKind::IoError(ENOMEM))),
        }
    }

    /// `add(key, val)` adds the given key/value pair to the database,
    /// also where the key is in it already. It fails, and changes
    /// nothing, where the records would then end behind the largest offset
    /// that the format can hold.
    pub fn add(&mut self, key: &[u8], val: &[u8]) -> (r: CdbResult<()>)
        ensures
            match r {
                Ok(_) => fits(old(self)@, key@, val@) && final(self)@ == old(self)@.push(
                    live_record(key@, val@),
                ),
                Err(e) => !fits(old(self)@, key@, val@) && final(self)@ == old(self)@ && e.kind()
                    == CdbErrorKind::IoError(ENOMEM),
            },
    {
        let mut taken = CdbCreator::new();
        core::mem::swap(self, &mut taken);
        proof {
            use_type_invariant(&taken);
        }
        let CdbCreator { mut entries, mut dpos } = taken;
        let ok = add_entry(&mut entries, &mut dpos, key, val);
        *self = CdbCreator { entries, dpos };
        if ok {
            Ok(())
        } else {
            Err(CdbError::new("Error adding key/value", CdbErrorKind::IoError(ENOMEM)))
        }
    }

    /// `find(key, mode)` searches the records collected so far for the
    /// key, treats those found as the mode says, and tells whether there
    /// was one.
    pub fn find(&mut self, key: &[u8], mode: CdbFindMode) -> (r: CdbResult<bool>)
        ensures
            r.is_ok(),
            r.unwrap() == has_key(old(self)@, key@),
            final(self)@ == after_find(old(self)@, key@, mode),
    {
        let mut taken = CdbCreator::new();
        core::mem::swap(self, &mut taken);
        proof {
            use_type_invariant(&taken);
        }
        let CdbCreator { mut entries, mut dpos } = taken;
        let found = find_entries(&mut entries, &mut dpos, key, mode);
        *self = CdbCreator { entries, dpos };
        Ok(found)
    }

    /// `contains(key)` checks whether the given key is within the
    /// database.
    pub fn contains(&mut self, key: &[u8]) -> (r: CdbResult<bool>)
        ensures
            r.is_ok(),
            r.unwrap() == has_key(old(self)@, key@),
            final(self)@ == old(self)@,
    {
        self.find(key, CdbFindMode::Find)
    }

    /// `remove(key, zero)` will remove the given key from the database.
    /// If the `zero` parameter is true, then an existing key/value pair
    /// will be zeroed out in the database. This prevents it from being
    /// found in normal lookups, but it will still be present in
    /// sequential scans of the database. If the `zero` parameter is
    /// false, then the entire record will be removed from the database.
    /// Note that a `remove()` of the most recently-added key, regardless
    /// of the `zero` parameter, will always remove it from the database
    /// entirely. The return value from this function indicates whether or
    /// not any keys were removed.
    pub fn remove(&mut self, key: &[u8], zero: bool) -> (r: CdbResult<bool>)
        ensures
            r.is_ok(),
            r.unwrap() == has_key(old(self)@, key@),
            final(self)@ == if zero {
                remove_zero(old(self)@, key@)
            } else {
                remove_all(old(self)@, key@)
            },
    {
        if zero {
            self.find(key, CdbFindMode::Fill0)
        } else {
            self.find(key, CdbFindMode::Remove)
        }
    }

    /// `put(key, val, mode)` will add a new key to the database, with a
    /// configurable behaviour if the key already exists. See the
    /// documentation on `CdbPutMode` for more information on the options
    /// available. The return value from this function indicates whether
    /// or not any existing keys were found in the database during the put
    /// operation. It fails where the new record does not fit behind the
    /// records that the mode leaves.
    pub fn put(&mut self, key: &[u8], val: &[u8], mode: CdbPutMode) -> (r: CdbResult<bool>)
        ensures
            match r {
                Ok(existed) => {
                    &&& existed == put_existed(old(self)@, key@, mode)
                    &&& final(self)@ == after_put(old(self)@, key@, val@, mode)
                    &&& put_adds(old(self)@, key@, mode) ==> fits(
                        put_clears(old(self)@, key@, mode),
                        key@,
                        val@,
                    )
                },
                Err(e) => {
                    &&& put_adds(old(self)@, key@, mode)
                    &&& !fits(put_clears(old(self)@, key@, mode), key@, val@)
                    &&& final(self)@ == put_clears(old(self)@, key@, mode)
                    &&& e.kind() == CdbErrorKind::IoError(ENOMEM)
                },
            },
    {
        let mut taken = CdbCreator::new();
        core::mem::swap(self, &mut taken);
        proof {
            use_type_invariant(&taken);
        }
        let CdbCreator { mut entries, mut dpos } = taken;
        let r = put_entry(&mut entries, &mut dpos, key, val, mode);
        *self = CdbCreator { entries, dpos };
        match r {
            Ok(existed) => Ok(existed),
            Err(_) => Err(CdbError::new("Error putting key/value", CdbErrorKind::IoError(ENOMEM))),
        }
    }
}

} // verus!
