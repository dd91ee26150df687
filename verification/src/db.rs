//! The meta record that heads the database file, in its two copies, and the
//! options a database is opened with.

use vstd::prelude::*;
use vstd::slice::slice_subrange;
use crate::bucket::BucketView;
use crate::checksum::{
    checksum_of, FNV_OFFSET, hash_more, lemma_checksum_detects_byte_change,
    lemma_fnv_fold_concat,
};
use crate::constants::{
    DEF_FILL_PERCENTAGE, DEFAULT_READERS, MAGIC_KEY, MAX_FILL_PERCENTAGE, MIN_FILL_PERCENTAGE,
    OS_PAGE_SIZE, VERSION,
};
use crate::enc::{
    append_zeros, copy_into, get_le, le_bytes, le_value, lemma_le_bytes_len,
    lemma_le_bytes_of_value, lemma_le_value_bound, lemma_number_read_back, lemma_pow256_values,
    overwrite, pow256, push_le, zeros,
};
use crate::errors::Error;
use crate::freelist::{Freelist, freelist_check, freelist_ids, PageAllocator};
use crate::node::{fill_threshold, spec_fill_threshold};
use crate::page::{Page, PAGE_FREELIST};
use crate::store::{
    in_bounds, lemma_overwrite_keeps_pages, page_bytes, PageArray, Record, record_data,
    records_cover, Run, run_of, runs_cover, same_but_meta,
};
use crate::transaction::{
    all_lie_in, database_in, database_lookup, database_lookup_in, has_oversized_bucket,
    lemma_database_kept, lemma_database_spared, lemma_runs_in_bounds, plan_spares_pending,
    retirable, runs_in, same_content, Transaction,
};

verus! {

/// The number of a page of the database file. Pages 0 and 1 hold the two
/// copies of the meta record.
pub type PageId = u64;

/// The internal number of a transaction.
pub type TransactionId = u64;

/// The number of bytes that a meta record takes at the start of its page.
pub const META_SIZE: usize = 57;

/// Where the checksum of a meta record starts.
pub const META_CHECKSUM_OFFSET: usize = 16;

/// Where the fields after the checksum start.
pub const META_TAIL_OFFSET: usize = 24;

/// Where the byte-order flag of a meta record lies.
pub const META_ENDIAN_OFFSET: usize = 32;

/// The record that describes the state of the database: where the root and
/// the freelist are, how far the file is in use, and which transaction wrote
/// it. The file starts with two copies of it.
#[derive(Debug, Copy, Clone, PartialEq, Eq, Hash, Structural)]
pub struct Meta {
    /// The stamp that marks the file as a database.
    pub magic: u32,
    /// The version of the file format.
    pub version: u32,
    /// Free for flags.
    pub flags: u32,
    /// The size of a page, in bytes.
    pub page_size: u32,
    /// The checksum of all other fields; zero means that none was taken.
    pub checksum: u64,
    /// The transaction that wrote this record.
    pub transaction_id: TransactionId,
    /// Whether numbers in the file are stored least significant byte first.
    pub little_endian: bool,
    /// The page of the root bucket; zero while there is none.
    pub root: PageId,
    /// The page of the freelist; zero while there is none.
    pub freelist: PageId,
    /// The first page past those in use.
    pub pgid: PageId,
}

/// The byte that stands for a flag.
pub open spec fn flag_byte(b: bool) -> u8 {
    if b {
        1
    } else {
        0
    }
}

impl Meta {
    /// The bytes of the fields in front of the checksum.
    pub open spec fn head_bytes(self) -> Seq<u8> {
        le_bytes(self.magic as nat, 4) + le_bytes(self.version as nat, 4) + le_bytes(
            self.flags as nat,
            4,
        ) + le_bytes(self.page_size as nat, 4)
    }

    /// The bytes of the fields behind the checksum.
    pub open spec fn tail_bytes(self) -> Seq<u8> {
        le_bytes(self.transaction_id as nat, 8) + seq![flag_byte(self.little_endian)] + le_bytes(
            self.root as nat,
            8,
        ) + le_bytes(self.freelist as nat, 8) + le_bytes(self.pgid as nat, 8)
    }

    /// The bytes that the checksum is taken over: every field but the
    /// checksum itself.
    pub open spec fn body_bytes(self) -> Seq<u8> {
        self.head_bytes() + self.tail_bytes()
    }

    /// The checksum that matches the fields.
    pub open spec fn sum(self) -> u64 {
        checksum_of(self.body_bytes())
    }

    /// The record as it lies in the file.
    pub open spec fn bytes(self) -> Seq<u8> {
        self.head_bytes() + le_bytes(self.checksum as nat, 8) + self.tail_bytes()
    }

    /// The record of a database that holds nothing yet.
    pub open spec fn spec_default() -> Meta {
        Meta {
            magic: MAGIC_KEY,
            version: VERSION,
            flags: 0,
            page_size: OS_PAGE_SIZE as u32,
            checksum: 0,
            transaction_id: 0,
            little_endian: true,
            root: 0,
            freelist: 0,
            pgid: 0,
        }
    }

    /// What `validate` answers.
    pub open spec fn spec_validate(self) -> Result<(), Error> {
        if self.magic != MAGIC_KEY {
            Err(Error::DatabaseInvalid)
        } else if self.version != VERSION {
            Err(Error::DatabaseVersionMismatch)
        } else if self.checksum != 0 && self.checksum != self.sum() {
            Err(Error::ChecksumError)
        } else {
            Ok(())
        }
    }

    /// Whether the record passes `validate`.
    pub open spec fn valid(self) -> bool {
        self.spec_validate() is Ok
    }

    /// The record of a database that holds nothing yet.
    pub fn default() -> (m: Meta)
        ensures
            m == Meta::spec_default(),
            m.valid(),
    {
        Meta {
            magic: MAGIC_KEY,
            version: VERSION,
            flags: 0,
            page_size: OS_PAGE_SIZE as u32,
            checksum: 0,
            transaction_id: 0,
            little_endian: true,
            root: 0,
            freelist: 0,
            pgid: 0,
        }
    }

    /// Writes the record into `page` from `offset` on. Fails with
    /// `PageOutOfBounds`, and leaves `page` as it was, when the record would
    /// not lie inside `page`.
    pub fn write(&self, page: &mut Vec<u8>, offset: usize) -> (r: Result<(), Error>)
        ensures
            offset + META_SIZE <= old(page)@.len() ==> r == Ok::<(), Error>(()) && final(page)@
                == overwrite(old(page)@, offset as int, self.bytes()),
            offset + META_SIZE > old(page)@.len() ==> r == Err::<(), Error>(
                Error::PageOutOfBounds,
            ) && final(page)@ == old(page)@,
    {
        if page.len() < META_SIZE || offset > page.len() - META_SIZE {
            return Err(Error::PageOutOfBounds);
        }
        let record = self.to_bytes();
        copy_into(page, offset, record.as_slice());
        Ok(())
    }

    /// The record as it lies in the file.
    pub fn to_bytes(&self) -> (record: Vec<u8>)
        ensures
            record@ == self.bytes(),
            record@.len() == META_SIZE,
    {
        let mut record: Vec<u8> = Vec::new();
        push_le(&mut record, self.magic as u64, 4);
        push_le(&mut record, self.version as u64, 4);
        push_le(&mut record, self.flags as u64, 4);
        push_le(&mut record, self.page_size as u64, 4);
        push_le(&mut record, self.checksum, 8);
        push_le(&mut record, self.transaction_id, 8);
        record.push(if self.little_endian {
            1
        } else {
            0
        });
        push_le(&mut record, self.root, 8);
        push_le(&mut record, self.freelist, 8);
        push_le(&mut record, self.pgid, 8);
        proof {
            self.lemma_bytes_len();
            assert(record@ =~= self.bytes());
        }
        record
    }

    /// The checksum that matches the fields of this record.
    pub fn compute_checksum(&self) -> (r: u64)
        ensures
            r == self.sum(),
    {
        let record = self.to_bytes();
        proof {
            self.lemma_bytes_len();
            assert(record@.subrange(0, META_CHECKSUM_OFFSET as int) =~= self.head_bytes());
            assert(record@.subrange(META_TAIL_OFFSET as int, META_SIZE as int)
                =~= self.tail_bytes());
            lemma_fnv_fold_concat(FNV_OFFSET, self.head_bytes(), self.tail_bytes());
        }
        let head = hash_more(FNV_OFFSET, slice_subrange(record.as_slice(), 0, META_CHECKSUM_OFFSET));
        hash_more(head, slice_subrange(record.as_slice(), META_TAIL_OFFSET, META_SIZE))
    }

    /// The record with its checksum set to match its fields.
    pub fn sealed(&self) -> (m: Meta)
        ensures
            m == (Meta { checksum: self.sum(), ..*self }),
            m.sum() == self.sum(),
    {
        let sum = self.compute_checksum();
        Meta { checksum: sum, ..*self }
    }

    /// Checks that the record is one of this engine: `DatabaseInvalid` for a
    /// wrong stamp, `DatabaseVersionMismatch` for another version of the
    /// format, `ChecksumError` for a checksum that is neither zero nor the
    /// one that matches the fields.
    pub fn validate(&self) -> (r: Result<(), Error>)
        ensures
            r == self.spec_validate(),
    {
        if self.magic != MAGIC_KEY {
            return Err(Error::DatabaseInvalid);
        }
        if self.version != VERSION {
            return Err(Error::DatabaseVersionMismatch);
        }
        if self.checksum != 0 && self.checksum != self.compute_checksum() {
            return Err(Error::ChecksumError);
        }
        Ok(())
    }

    /// The lengths of the parts of a record.
    pub proof fn lemma_bytes_len(self)
        ensures
            self.head_bytes().len() == 16,
            self.tail_bytes().len() == 33,
            self.body_bytes().len() == 49,
            self.bytes().len() == META_SIZE,
    {
        lemma_le_bytes_len(self.magic as nat, 4);
        lemma_le_bytes_len(self.version as nat, 4);
        lemma_le_bytes_len(self.flags as nat, 4);
        lemma_le_bytes_len(self.page_size as nat, 4);
        lemma_le_bytes_len(self.checksum as nat, 8);
        lemma_le_bytes_len(self.transaction_id as nat, 8);
        lemma_le_bytes_len(self.root as nat, 8);
        lemma_le_bytes_len(self.freelist as nat, 8);
        lemma_le_bytes_len(self.pgid as nat, 8);
    }
}


/// The record that the first `META_SIZE` bytes of `s` spell.
pub open spec fn meta_of_bytes(s: Seq<u8>) -> Meta {
    Meta {
        magic: le_value(s.subrange(0, 4)) as u32,
        version: le_value(s.subrange(4, 8)) as u32,
        flags: le_value(s.subrange(8, 12)) as u32,
        page_size: le_value(s.subrange(12, 16)) as u32,
        checksum: le_value(s.subrange(16, 24)) as u64,
        transaction_id: le_value(s.subrange(24, 32)) as u64,
        little_endian: s[32] != 0,
        root: le_value(s.subrange(33, 41)) as u64,
        freelist: le_value(s.subrange(41, 49)) as u64,
        pgid: le_value(s.subrange(49, 57)) as u64,
    }
}

/// What `Meta::read` answers on bytes `s`.
pub open spec fn spec_read(s: Seq<u8>) -> Result<Meta, Error> {
    if s.len() < META_SIZE {
        Err(Error::PageOutOfBounds)
    } else if s[META_ENDIAN_OFFSET as int] > 1 {
        Err(Error::DatabaseInvalid)
    } else {
        Ok(meta_of_bytes(s))
    }
}

/// What `Meta::load` answers on bytes `s`: the record read from them, if it
/// is valid.
pub open spec fn spec_load(s: Seq<u8>) -> Result<Meta, Error> {
    match spec_read(s) {
        Ok(m) => match m.spec_validate() {
            Ok(_) => Ok(m),
            Err(e) => Err(e),
        },
        Err(e) => Err(e),
    }
}

/// Which of the two copies a database is opened from, given what loading
/// each gave: the valid one; of two valid ones the one with the strictly
/// higher transaction id, and the first when they are level; and
/// `DatabaseInvalid` when neither is valid.
pub open spec fn spec_select(first: Result<Meta, Error>, second: Result<Meta, Error>) -> Result<
    (usize, Meta),
    Error,
> {
    match (first, second) {
        (Ok(a), Ok(b)) => if b.transaction_id > a.transaction_id {
            Ok((1, b))
        } else {
            Ok((0, a))
        },
        (Ok(a), Err(_)) => Ok((0, a)),
        (Err(_), Ok(b)) => Ok((1, b)),
        (Err(_), Err(_)) => Err(Error::DatabaseInvalid),
    }
}

/// Of two copies of which one is valid, the valid one is picked, whatever
/// its slot; of two valid copies the one with the higher transaction id is
/// picked, whatever its slot.
pub proof fn lemma_select(first: Result<Meta, Error>, second: Result<Meta, Error>)
    ensures
        first is Ok && second is Err ==> spec_select(first, second) == Ok::<(usize, Meta), Error>(
            (0, first->Ok_0),
        ),
        first is Err && second is Ok ==> spec_select(first, second) == Ok::<(usize, Meta), Error>(
            (1, second->Ok_0),
        ),
        first is Ok && second is Ok && first->Ok_0.transaction_id > second->Ok_0.transaction_id
            ==> spec_select(first, second) == Ok::<(usize, Meta), Error>((0, first->Ok_0)),
        first is Ok && second is Ok && first->Ok_0.transaction_id < second->Ok_0.transaction_id
            ==> spec_select(first, second) == Ok::<(usize, Meta), Error>((1, second->Ok_0)),
        first is Err && second is Err ==> spec_select(first, second) == Err::<
            (usize, Meta),
            Error,
        >(Error::DatabaseInvalid),
{
}

impl Meta {
    /// Reads a record from the start of `page`. Fails with `PageOutOfBounds`
    /// when `page` is shorter than a record, and with `DatabaseInvalid` when
    /// the byte-order flag is neither 0 nor 1.
    pub fn read(page: &[u8]) -> (r: Result<Meta, Error>)
        ensures
            r == spec_read(page@),
    {
        if page.len() < META_SIZE {
            return Err(Error::PageOutOfBounds);
        }
        let flag = page[META_ENDIAN_OFFSET];
        if flag > 1 {
            return Err(Error::DatabaseInvalid);
        }
        proof {
            lemma_pow256_values();
            lemma_le_value_bound(page@.subrange(0, 4));
            lemma_le_value_bound(page@.subrange(4, 8));
            lemma_le_value_bound(page@.subrange(8, 12));
            lemma_le_value_bound(page@.subrange(12, 16));
        }
        Ok(
            Meta {
                magic: get_le(page, 0, 4) as u32,
                version: get_le(page, 4, 4) as u32,
                flags: get_le(page, 8, 4) as u32,
                page_size: get_le(page, 12, 4) as u32,
                checksum: get_le(page, 16, 8),
                transaction_id: get_le(page, 24, 8),
                little_endian: flag != 0,
                root: get_le(page, 33, 8),
                freelist: get_le(page, 41, 8),
                pgid: get_le(page, 49, 8),
            },
        )
    }

    /// Reads a record from the start of `page` and validates it.
    pub fn load(page: &[u8]) -> (r: Result<Meta, Error>)
        ensures
            r == spec_load(page@),
    {
        match Meta::read(page) {
            Ok(m) => match m.validate() {
                Ok(_) => Ok(m),
                Err(e) => Err(e),
            },
            Err(e) => Err(e),
        }
    }

    /// Picks the copy to open the database from, given what loading each of
    /// the two gave, and says which slot it came from.
    pub fn select(first: Result<Meta, Error>, second: Result<Meta, Error>) -> (r: Result<
        (usize, Meta),
        Error,
    >)
        ensures
            r == spec_select(first, second),
    {
        match (first, second) {
            (Ok(a), Ok(b)) => if b.transaction_id > a.transaction_id {
                Ok((1, b))
            } else {
                Ok((0, a))
            },
            (Ok(a), Err(_)) => Ok((0, a)),
            (Err(_), Ok(b)) => Ok((1, b)),
            (Err(_), Err(_)) => Err(Error::DatabaseInvalid),
        }
    }

    /// Reading a record back from its own bytes, whatever follows them,
    /// gives the record.
    pub proof fn lemma_read_of_bytes(self, rest: Seq<u8>)
        ensures
            spec_read(self.bytes() + rest) == Ok::<Meta, Error>(self),
    {
        let s = self.bytes() + rest;
        self.lemma_bytes_len();
        lemma_pow256_values();
        lemma_le_bytes_len(self.magic as nat, 4);
        lemma_le_bytes_len(self.version as nat, 4);
        lemma_le_bytes_len(self.flags as nat, 4);
        lemma_le_bytes_len(self.page_size as nat, 4);
        lemma_le_bytes_len(self.checksum as nat, 8);
        lemma_le_bytes_len(self.transaction_id as nat, 8);
        lemma_le_bytes_len(self.root as nat, 8);
        lemma_le_bytes_len(self.freelist as nat, 8);
        lemma_le_bytes_len(self.pgid as nat, 8);
        lemma_number_read_back(self.magic as nat, 4, s, 0);
        lemma_number_read_back(self.version as nat, 4, s, 4);
        lemma_number_read_back(self.flags as nat, 4, s, 8);
        lemma_number_read_back(self.page_size as nat, 4, s, 12);
        lemma_number_read_back(self.checksum as nat, 8, s, 16);
        lemma_number_read_back(self.transaction_id as nat, 8, s, 24);
        lemma_number_read_back(self.root as nat, 8, s, 33);
        lemma_number_read_back(self.freelist as nat, 8, s, 41);
        lemma_number_read_back(self.pgid as nat, 8, s, 49);
        assert(s[32] == flag_byte(self.little_endian));
    }
}

/// The bytes that the record read from `s` spells are the bytes it was read
/// from.
pub proof fn lemma_bytes_of_read(s: Seq<u8>)
    requires
        s.len() >= META_SIZE,
        s[META_ENDIAN_OFFSET as int] <= 1,
    ensures
        meta_of_bytes(s).bytes() == s.subrange(0, META_SIZE as int),
        meta_of_bytes(s).head_bytes() == s.subrange(0, 16),
        meta_of_bytes(s).tail_bytes() == s.subrange(24, 57),
{
    let m = meta_of_bytes(s);
    lemma_pow256_values();
    lemma_field_bytes(s, 0, 4);
    lemma_field_bytes(s, 4, 4);
    lemma_field_bytes(s, 8, 4);
    lemma_field_bytes(s, 12, 4);
    lemma_field_bytes(s, 16, 8);
    lemma_field_bytes(s, 24, 8);
    lemma_field_bytes(s, 33, 8);
    lemma_field_bytes(s, 41, 8);
    lemma_field_bytes(s, 49, 8);
    assert(m.head_bytes() =~= s.subrange(0, 16));
    assert(m.tail_bytes() =~= s.subrange(24, 57));
    assert(m.bytes() =~= s.subrange(0, META_SIZE as int));
}

/// The number read from `n` bytes of `s` spells those bytes again.
proof fn lemma_field_bytes(s: Seq<u8>, at: int, n: nat)
    requires
        0 <= at,
        at + n <= s.len(),
    ensures
        le_bytes(le_value(s.subrange(at, at + n)), n) == s.subrange(at, at + n),
        le_value(s.subrange(at, at + n)) < pow256(n),
{
    lemma_le_bytes_of_value(s.subrange(at, at + n));
    lemma_le_value_bound(s.subrange(at, at + n));
}

/// A valid record with a checksum does not survive the change of one of its
/// bytes: loading the changed bytes fails. A change to the stamp is reported
/// as `DatabaseInvalid`, one to the version as `DatabaseVersionMismatch`,
/// one that makes the byte-order flag neither 0 nor 1 as `DatabaseInvalid`,
/// and every other as `ChecksumError`. The one change left out is that of
/// the checksum itself to zero, which switches the check off.
pub proof fn lemma_byte_change_fails_load(m: Meta, i: int, b: u8)
    requires
        m.valid(),
        m.checksum != 0,
        0 <= i < META_SIZE,
        b != m.bytes()[i],
        meta_of_bytes(m.bytes().update(i, b)).checksum != 0,
    ensures
        spec_load(m.bytes().update(i, b)) is Err,
        i < 4 ==> spec_load(m.bytes().update(i, b)) == Err::<Meta, Error>(Error::DatabaseInvalid),
        4 <= i < 8 ==> spec_load(m.bytes().update(i, b)) == Err::<Meta, Error>(
            Error::DatabaseVersionMismatch,
        ),
        i == META_ENDIAN_OFFSET && b > 1 ==> spec_load(m.bytes().update(i, b)) == Err::<
            Meta,
            Error,
        >(Error::DatabaseInvalid),
        8 <= i && !(i == META_ENDIAN_OFFSET && b > 1) ==> spec_load(m.bytes().update(i, b))
            == Err::<Meta, Error>(Error::ChecksumError),
{
    let s = m.bytes();
    let t = s.update(i, b);
    m.lemma_bytes_len();
    m.lemma_read_of_bytes(Seq::empty());
    assert(s + Seq::<u8>::empty() =~= s);
    assert(meta_of_bytes(s) == m);
    if i == META_ENDIAN_OFFSET && b > 1 {
    } else {
        let n = meta_of_bytes(t);
        assert(s[32] <= 1);
        lemma_bytes_of_read(s);
        lemma_bytes_of_read(t);
        assert(t.subrange(0, META_SIZE as int) =~= t);
        assert(s.subrange(0, META_SIZE as int) =~= s);
        if i < 4 {
            assert(t.subrange(0, 4)[i] != s.subrange(0, 4)[i]);
            lemma_field_bytes(s, 0, 4);
            lemma_field_bytes(t, 0, 4);
            lemma_pow256_values();
            assert(n.magic != m.magic);
        } else if i < 8 {
            assert(t.subrange(0, 4) =~= s.subrange(0, 4));
            assert(t.subrange(4, 8)[i - 4] != s.subrange(4, 8)[i - 4]);
            lemma_field_bytes(s, 4, 4);
            lemma_field_bytes(t, 4, 4);
            lemma_pow256_values();
            assert(n.version != m.version);
        } else {
            assert(t.subrange(0, 4) =~= s.subrange(0, 4));
            assert(t.subrange(4, 8) =~= s.subrange(4, 8));
            if 16 <= i < 24 {
                assert(t.subrange(0, 16) =~= s.subrange(0, 16));
                assert(t.subrange(24, 57) =~= s.subrange(24, 57));
                assert(n.body_bytes() == m.body_bytes());
                assert(t.subrange(16, 24)[i - 16] != s.subrange(16, 24)[i - 16]);
                lemma_field_bytes(s, 16, 8);
                lemma_field_bytes(t, 16, 8);
                lemma_pow256_values();
                assert(n.checksum != m.checksum);
            } else {
                assert(t.subrange(16, 24) =~= s.subrange(16, 24));
                assert(n.checksum == m.checksum);
                let body = m.body_bytes();
                let at = if i < 16 {
                    i
                } else {
                    i - 8
                };
                assert(n.body_bytes() =~= body.update(at, b));
                assert(body[at] == s[i]);
                lemma_checksum_detects_byte_change(body, at, b);
            }
        }
    }
}

/// The options that a database is opened with.
#[derive(Debug, Copy, Clone, PartialEq, Eq, Structural)]
pub struct Settings {
    /// Create the database if it does not exist.
    pub auto_create: bool,
    /// Open the database for reading only: no lock is taken on the file and
    /// nothing may be written.
    pub read_only: bool,
    /// The size to map at first, in bytes: a hint that saves remapping. It
    /// has no effect when the file is already larger.
    pub initial_mmap_size: u32,
    /// Skip the flush to disk after a commit. Unsafe; for bulk loading only.
    pub no_sync: bool,
    /// Skip the flush to disk after the file has grown. Unsafe on some file
    /// systems.
    pub no_grow_sync: bool,
    /// The most commits that are grouped into one batch; batching is off
    /// when it is zero or less.
    pub max_batch_size: i32,
    /// The longest a batch waits before it is committed, in milliseconds;
    /// batching is off when it is zero or less.
    pub max_batch_delay: i64,
    /// The step by which the file grows, in bytes, to spare remapping.
    pub alloc_size: u32,
    /// A hint to the operating system for copies of large databases.
    pub write_flag: u32,
    /// The share of a page that is filled when it is split, in percent.
    pub fill_percent: u32,
}

impl Settings {
    /// The options that are used when none are given.
    pub open spec fn spec_default() -> Settings {
        Settings {
            auto_create: true,
            read_only: false,
            initial_mmap_size: 0,
            no_sync: false,
            no_grow_sync: false,
            max_batch_size: 0,
            max_batch_delay: 0,
            alloc_size: 0,
            write_flag: 0,
            fill_percent: DEF_FILL_PERCENTAGE,
        }
    }

    /// The fill target in force: `fill_percent`, held between
    /// `MIN_FILL_PERCENTAGE` and `MAX_FILL_PERCENTAGE`.
    pub open spec fn spec_fill_target(self) -> u32 {
        if self.fill_percent < MIN_FILL_PERCENTAGE {
            MIN_FILL_PERCENTAGE
        } else if self.fill_percent > MAX_FILL_PERCENTAGE {
            MAX_FILL_PERCENTAGE
        } else {
            self.fill_percent
        }
    }

    /// The fill target in force, in percent.
    pub fn fill_target(&self) -> (r: u32)
        ensures
            r == self.spec_fill_target(),
            MIN_FILL_PERCENTAGE <= r <= MAX_FILL_PERCENTAGE,
    {
        if self.fill_percent < MIN_FILL_PERCENTAGE {
            MIN_FILL_PERCENTAGE
        } else if self.fill_percent > MAX_FILL_PERCENTAGE {
            MAX_FILL_PERCENTAGE
        } else {
            self.fill_percent
        }
    }

    /// The number of bytes that the image of a database of `len` bytes is
    /// made long when the database is opened: `initial_mmap_size` bytes,
    /// rounded up to whole pages, when that is more than `len`, can be
    /// addressed, and the database is not opened for reading only; `len`
    /// otherwise.
    pub open spec fn spec_preallocation(self, len: nat) -> nat {
        let wanted = (self.initial_mmap_size + OS_PAGE_SIZE - 1) / (OS_PAGE_SIZE as int)
            * OS_PAGE_SIZE;
        if !self.read_only && wanted > len && wanted <= usize::MAX {
            wanted as nat
        } else {
            len
        }
    }

    /// The number of bytes that the image of a database of `len` bytes is
    /// made long when the database is opened.
    pub fn preallocation(&self, len: usize) -> (r: usize)
        ensures
            r == self.spec_preallocation(len as nat),
            r >= len,
    {
        let pages: u64 = (self.initial_mmap_size as u64 + OS_PAGE_SIZE as u64 - 1)
            / OS_PAGE_SIZE as u64;
        assert(pages <= 0x10_0000) by {
            assert(OS_PAGE_SIZE == 4096);
        }
        let wanted: u64 = pages * OS_PAGE_SIZE as u64;
        if !self.read_only && wanted > len as u64 && wanted <= usize::MAX as u64 {
            wanted as usize
        } else {
            len
        }
    }

    /// The number of pages that the image is made long when its file has
    /// to hold `pages` pages: `pages` rounded up to whole steps of
    /// `alloc_size` bytes, when the step is more than a page and so many
    /// pages can be addressed, and `pages` otherwise.
    pub open spec fn spec_growth(self, pages: PageId) -> PageId {
        let step = self.alloc_size as int / (OS_PAGE_SIZE as int);
        let steps = (pages + step - 1) / step;
        if step > 1 && steps * step * OS_PAGE_SIZE <= usize::MAX {
            (steps * step) as u64
        } else {
            pages
        }
    }

    /// The number of pages that the image is made long when its file has
    /// to hold `pages` pages.
    pub fn growth(&self, pages: PageId) -> (r: PageId)
        ensures
            r == self.spec_growth(pages),
            r >= pages,
    {
        let step = (self.alloc_size as u64) / (OS_PAGE_SIZE as u64);
        if step <= 1 || pages > u64::MAX - step {
            proof {
                if step > 1 {
                    let steps = (pages + step - 1) / (step as int);
                    assert(steps * step >= pages) by (nonlinear_arith)
                        requires
                            steps == (pages + step - 1) / (step as int),
                            step > 1,
                    ;
                    assert(steps * step * OS_PAGE_SIZE > usize::MAX) by (nonlinear_arith)
                        requires
                            steps * step >= pages,
                            pages > u64::MAX - step,
                            step <= 0x10_0000,
                            OS_PAGE_SIZE == 4096,
                    ;
                }
            }
            return pages;
        }
        let steps = (pages + step - 1) / step;
        let limit = (usize::MAX / OS_PAGE_SIZE) as u64;
        proof {
            assert(steps * step >= pages && steps * step <= pages + step - 1) by (nonlinear_arith)
                requires
                    steps == (pages + step - 1) / (step as int),
                    step > 1,
            ;
            assert(steps <= pages + step) by (nonlinear_arith)
                requires
                    steps * step <= pages + step - 1,
                    step > 1,
                    steps >= 0,
            ;
        }
        if steps > limit / step {
            proof {
                assert(steps * step > limit) by (nonlinear_arith)
                    requires
                        steps > (limit as int) / (step as int),
                        step > 1,
                        limit >= 0,
                ;
                assert(steps * step * OS_PAGE_SIZE > usize::MAX) by (nonlinear_arith)
                    requires
                        steps * step > limit,
                        limit == usize::MAX / OS_PAGE_SIZE,
                        OS_PAGE_SIZE == 4096,
                ;
            }
            return pages;
        }
        proof {
            assert(steps * step <= limit) by (nonlinear_arith)
                requires
                    steps <= (limit as int) / (step as int),
                    step > 1,
                    steps >= 0,
            ;
            assert(steps * step * OS_PAGE_SIZE <= usize::MAX) by (nonlinear_arith)
                requires
                    steps * step <= limit,
                    limit == usize::MAX / OS_PAGE_SIZE,
                    OS_PAGE_SIZE == 4096,
            ;
        }
        steps * step
    }

    /// Whether commits are grouped into batches.
    pub fn batching(&self) -> (r: bool)
        ensures
            r == (self.max_batch_size > 0 && self.max_batch_delay > 0),
    {
        self.max_batch_size > 0 && self.max_batch_delay > 0
    }

    /// Whether a commit is flushed to disk.
    pub fn sync_on_commit(&self) -> (r: bool)
        ensures
            r == !self.no_sync,
    {
        !self.no_sync
    }

    /// Whether the file is flushed to disk after it has grown.
    pub fn sync_on_grow(&self) -> (r: bool)
        ensures
            r == (!self.no_sync && !self.no_grow_sync),
    {
        !self.no_sync && !self.no_grow_sync
    }
}

impl Default for Settings {
    fn default() -> (s: Settings)
        ensures
            s == Settings::spec_default(),
    {
        Settings {
            auto_create: true,
            read_only: false,
            initial_mmap_size: 0,
            no_sync: false,
            no_grow_sync: false,
            max_batch_size: 0,
            max_batch_delay: 0,
            alloc_size: 0,
            write_flag: 0,
            fill_percent: DEF_FILL_PERCENTAGE,
        }
    }
}


/// The meta record in slot `slot` of image `image`, if the slot lies inside
/// the image and holds a valid record.
pub open spec fn meta_in(image: Seq<u8>, slot: int) -> Result<Meta, Error> {
    if in_bounds(image.len(), slot) {
        spec_load(page_bytes(image, slot))
    } else {
        Err(Error::PageOutOfBounds)
    }
}

/// The meta record that image `image` is opened from, and its slot.
pub open spec fn open_meta(image: Seq<u8>) -> Result<(usize, Meta), Error> {
    spec_select(meta_in(image, 0), meta_in(image, 1))
}

/// The free pages that the freelist record at page `id` of image `image`
/// lists; none when `id` is zero. Otherwise what reading the record finds
/// wrong, and `DatabaseInvalid` when `id` is a meta page or the record is
/// not marked as a freelist.
pub open spec fn freelist_in(image: Seq<u8>, id: PageId) -> Result<Seq<PageId>, Error> {
    if id == 0 {
        Ok(Seq::empty())
    } else if id < 2 {
        Err(Error::DatabaseInvalid)
    } else {
        match record_data(image, id as int) {
            Ok(found) => if found.0.flags != PAGE_FREELIST {
                Err(Error::DatabaseInvalid)
            } else {
                match freelist_check(found.0.count, found.1) {
                    Ok(_) => Ok(freelist_ids(found.0.count, found.1)),
                    Err(e) => Err(e),
                }
            },
            Err(e) => Err(e),
        }
    }
}

/// Whether the freelist record at page `id` of image `image` lists the
/// pages of the freelist `list`: every page that is free or pending, in
/// ascending order. Pending pages are listed with the free ones, because no
/// reader outlives the database.
pub open spec fn freelist_stored(image: Seq<u8>, id: PageId, list: Freelist) -> bool {
    &&& freelist_in(image, id) is Ok
    &&& crate::freelist::ascending(freelist_in(image, id)->Ok_0)
    &&& forall|q: PageId| freelist_in(image, id)->Ok_0.contains(q) <==> list.is_listed(q)
}

/// A freelist record that lists the pages of a freelist does so in every
/// image that differs in the meta pages only.
pub proof fn lemma_freelist_spared(a: Seq<u8>, b: Seq<u8>, id: PageId, list: Freelist)
    requires
        same_but_meta(a, b),
        freelist_stored(a, id, list),
    ensures
        freelist_stored(b, id, list),
        freelist_in(b, id) == freelist_in(a, id),
{
    if id >= 2 {
        crate::store::lemma_record_data_spared(a, b, id as int);
    }
}

/// A checksum that is neither zero nor `sum`.
pub open spec fn torn_checksum(sum: u64) -> u64 {
    if sum == 1 {
        2
    } else {
        1
    }
}

impl Meta {
    /// The record as it is written first in a commit: with all its fields,
    /// but with a checksum that cannot match them, so that the record does
    /// not count until the true checksum has been written.
    pub open spec fn torn(self) -> Meta {
        Meta { checksum: torn_checksum(self.sum()), ..self }
    }

    /// The record as it is written first in a commit.
    pub fn staged(&self) -> (m: Meta)
        ensures
            m == self.torn(),
    {
        let sum = self.compute_checksum();
        Meta {
            checksum: if sum == 1 {
                2
            } else {
                1
            },
            ..*self
        }
    }

    /// A record whose last step of writing is missing is not valid: it
    /// fails with `ChecksumError`, or for its stamp or version.
    pub proof fn lemma_torn_is_invalid(self)
        ensures
            self.torn().spec_validate() is Err,
            self.torn().sum() == self.sum(),
    {
        assert(self.torn().body_bytes() == self.body_bytes());
    }

    /// The bytes of a sealed record, at the start of a page, load as the
    /// record.
    pub proof fn lemma_load_of_bytes(self, rest: Seq<u8>)
        ensures
            spec_load(self.bytes() + rest) == match self.spec_validate() {
                Ok(_) => Ok::<Meta, Error>(self),
                Err(e) => Err::<Meta, Error>(e),
            },
    {
        self.lemma_read_of_bytes(rest);
    }
}

/// The number of pages that a new database gets under settings `settings`:
/// four, or as many as hold `initial_mmap_size` bytes if that is more and
/// can be addressed.
pub open spec fn fresh_pages(settings: Settings) -> nat {
    let wanted = (settings.initial_mmap_size + OS_PAGE_SIZE - 1) / (OS_PAGE_SIZE as int);
    if wanted > 4 && wanted * OS_PAGE_SIZE <= usize::MAX {
        wanted as nat
    } else {
        4
    }
}

/// The image of a new database of `pages` pages: all zero but for the two
/// meta records of a database that holds nothing yet.
pub open spec fn fresh_image(pages: nat) -> Seq<u8> {
    overwrite(
        overwrite(zeros((pages * OS_PAGE_SIZE) as nat), 0, Meta::spec_default().bytes()),
        OS_PAGE_SIZE as int,
        Meta::spec_default().bytes(),
    )
}

/// A new database is opened from its first meta record, has no freelist
/// and holds no bucket.
pub proof fn lemma_fresh_image(pages: nat)
    requires
        pages >= 2,
    ensures
        fresh_image(pages).len() == pages * OS_PAGE_SIZE,
        meta_in(fresh_image(pages), 0) == Ok::<Meta, Error>(Meta::spec_default()),
        meta_in(fresh_image(pages), 1) == Ok::<Meta, Error>(Meta::spec_default()),
        open_meta(fresh_image(pages)) == Ok::<(usize, Meta), Error>((0, Meta::spec_default())),
        freelist_in(fresh_image(pages), 0) == Ok::<Seq<PageId>, Error>(Seq::empty()),
        database_in(fresh_image(pages), 0) == Ok::<Map<Seq<u8>, BucketView>, Error>(Map::empty()),
{
    let m = Meta::spec_default();
    let image = fresh_image(pages);
    m.lemma_bytes_len();
    assert(OS_PAGE_SIZE == 4096);
    assert(pages * 4096 >= 8192);
    assert(image.len() == pages * OS_PAGE_SIZE);
    let rest0 = page_bytes(image, 0).skip(META_SIZE as int);
    let rest1 = page_bytes(image, 1).skip(META_SIZE as int);
    assert(page_bytes(image, 0) =~= m.bytes() + rest0);
    assert(page_bytes(image, 1) =~= m.bytes() + rest1);
    m.lemma_load_of_bytes(rest0);
    m.lemma_load_of_bytes(rest1);
    assert(m.valid());
    let entries = Seq::<crate::node::Entry>::empty();
    assert(crate::transaction::directory_in(image, 0) == Ok::<Seq<crate::node::Entry>, Error>(
        entries,
    ));
    assert(crate::transaction::buckets_in(image, entries, 0) == Ok::<Seq<BucketView>, Error>(
        Seq::empty(),
    ));
    assert(database_in(image, 0) is Ok);
    assert(database_in(image, 0)->Ok_0 =~= Map::<Seq<u8>, BucketView>::empty());
}


/// The database: the image of its file, the two meta records, the
/// freelist, and who is at work on it.
#[derive(Debug)]
pub struct Db {
    path: String,
    data: PageArray,
    meta0: Meta,
    meta1: Meta,
    settings: Settings,
    active: usize,
    freelist: Freelist,
    writer: bool,
    readers: Vec<TransactionId>,
    staged: bool,
    staged_meta: Meta,
    staged_list: Freelist,
    opened: bool,
}

impl Db {
    /// The image of the file.
    pub closed spec fn image(&self) -> Seq<u8> {
        self.data@
    }

    /// The slot of the meta record in force.
    pub closed spec fn spec_active(&self) -> usize {
        self.active
    }

    /// The meta record in force.
    pub closed spec fn active_meta(&self) -> Meta {
        if self.active == 0 {
            self.meta0
        } else {
            self.meta1
        }
    }

    /// The options that the database was opened with.
    pub closed spec fn spec_settings(&self) -> Settings {
        self.settings
    }

    /// The place of the file that the database was opened at.
    pub closed spec fn spec_path(&self) -> Seq<char> {
        self.path@
    }

    /// The freelist.
    pub closed spec fn list(&self) -> Freelist {
        self.freelist
    }

    /// Whether a transaction that may write is under way.
    pub closed spec fn writer_active(&self) -> bool {
        self.writer
    }

    /// The snapshots of the transactions that only read and are under way.
    pub closed spec fn spec_readers(&self) -> Seq<TransactionId> {
        self.readers@
    }

    /// Whether the database is open.
    pub closed spec fn is_open(&self) -> bool {
        self.opened
    }

    /// The meta record of a commit that has been written all but its
    /// checksum, if there is such a commit.
    pub closed spec fn staged_meta(&self) -> Option<Meta> {
        if self.staged {
            Some(self.staged_meta)
        } else {
            None
        }
    }

    /// The freelist of the commit that is half written, which `seal` puts
    /// in force.
    pub closed spec fn staged_list(&self) -> Freelist {
        self.staged_list
    }

    /// What holds of the parts of a database that its users do not see.
    pub closed spec fn inner_wf(&self) -> bool {
        &&& self.freelist.wf()
        &&& self.staged_list.wf()
    }

    /// What holds of every database: the meta record in force is valid and
    /// is the one that the image would be opened from, the reader table is
    /// not over full, and a commit that is half written belongs to the
    /// transaction that may write and is newer than the record in force.
    pub open spec fn wf(&self) -> bool {
        &&& self.inner_wf()
        &&& self.spec_active() < 2
        &&& self.active_meta().valid()
        &&& open_meta(self.image()) == Ok::<(usize, Meta), Error>(
            (self.spec_active(), self.active_meta()),
        )
        &&& self.list().wf()
        &&& self.spec_readers().len() <= DEFAULT_READERS
        &&& self.staged_meta() matches Some(m) ==> self.writer_active() && m.valid()
            && m.transaction_id > self.active_meta().transaction_id && in_bounds(
            self.image().len(),
            1,
        ) && freelist_stored(self.image(), m.freelist, self.staged_list())
    }

    /// The image of a new database under settings `settings`.
    pub fn create(settings: &Settings) -> (image: Vec<u8>)
        ensures
            image@ == fresh_image(fresh_pages(*settings)),
            fresh_pages(*settings) >= 4,
    {
        let wanted: u64 = (settings.initial_mmap_size as u64 + OS_PAGE_SIZE as u64 - 1)
            / OS_PAGE_SIZE as u64;
        let pages: usize = if wanted > 4 && wanted <= (usize::MAX / OS_PAGE_SIZE) as u64 {
            wanted as usize
        } else {
            4
        };
        let mut image: Vec<u8> = Vec::new();
        append_zeros(&mut image, pages * OS_PAGE_SIZE);
        let meta = Meta::default();
        proof {
            meta.lemma_bytes_len();
            assert(Seq::<u8>::empty() + zeros((pages * OS_PAGE_SIZE) as nat) =~= zeros(
                (pages * OS_PAGE_SIZE) as nat,
            ));
        }
        let first = meta.write(&mut image, 0);
        let second = meta.write(&mut image, OS_PAGE_SIZE);
        image
    }

    /// The image of the file.
    pub fn as_bytes(&self) -> (image: &[u8])
        ensures
            image@ == self.image(),
    {
        self.data.as_bytes()
    }

    /// The image of the file, given back when the database is done with.
    pub fn into_bytes(self) -> (image: Vec<u8>)
        ensures
            image@ == self.image(),
    {
        self.data.into_bytes()
    }

    /// The place of the file that the database was opened at.
    pub fn path(&self) -> (p: &String)
        ensures
            p@ == self.spec_path(),
    {
        &self.path
    }

    /// The options that the database was opened with.
    pub fn settings(&self) -> (s: Settings)
        ensures
            s == self.spec_settings(),
    {
        self.settings
    }

    /// The meta record in force.
    pub fn meta(&self) -> (m: Meta)
        ensures
            m == self.active_meta(),
    {
        if self.active == 0 {
            self.meta0
        } else {
            self.meta1
        }
    }

    /// The slot of the meta record in force.
    pub fn active_slot(&self) -> (slot: usize)
        ensures
            slot == self.spec_active(),
    {
        self.active
    }

    /// The number of transactions that only read and are under way.
    pub fn reader_count(&self) -> (n: usize)
        ensures
            n == self.spec_readers().len(),
    {
        self.readers.len()
    }

    /// The number of pages that are free for reuse.
    pub fn free_page_count(&self) -> (n: usize)
        ensures
            n == self.list().free_ids().len(),
    {
        self.freelist.free_count()
    }

    /// The number of pages that wait to become free.
    pub fn pending_page_count(&self) -> (n: usize)
        ensures
            n == self.list().pending_ids().len(),
    {
        self.freelist.pending_count()
    }

    /// Looks `key` up in the bucket named `bucket`, in what the meta record
    /// in force reaches, without a transaction: the directory of the
    /// buckets is read, and of the bucket only the way to the key. Fails
    /// with `DatabaseNotOpen` on a database that is closed, and with what
    /// `database_lookup_in` finds wrong on the way.
    pub fn lookup(&self, bucket: &[u8], key: &[u8]) -> (r: Result<Option<Vec<u8>>, Error>)
        ensures
            !self.is_open() ==> (r matches Err(e) && e == Error::DatabaseNotOpen),
            self.is_open() ==> match r {
                Ok(Some(v)) => database_lookup_in(
                    self.image(),
                    self.active_meta().root,
                    bucket@,
                    key@,
                ) == Ok::<Option<Seq<u8>>, Error>(Some(v@)),
                Ok(None) => database_lookup_in(
                    self.image(),
                    self.active_meta().root,
                    bucket@,
                    key@,
                ) == Ok::<Option<Seq<u8>>, Error>(None),
                Err(e) => database_lookup_in(
                    self.image(),
                    self.active_meta().root,
                    bucket@,
                    key@,
                ) == Err::<Option<Seq<u8>>, Error>(e),
            },
    {
        if !self.opened {
            return Err(Error::DatabaseNotOpen);
        }
        let meta = self.meta();
        database_lookup(&self.data, meta.root, bucket, key)
    }

    /// Closes the database: no transaction can begin or end on it any
    /// more.
    pub fn close(&mut self)
        ensures
            !final(self).is_open(),
            final(self).image() == old(self).image(),
            final(self).spec_active() == old(self).spec_active(),
            final(self).active_meta() == old(self).active_meta(),
            final(self).spec_settings() == old(self).spec_settings(),
            final(self).spec_path() == old(self).spec_path(),
            final(self).staged_meta() == old(self).staged_meta(),
            final(self).spec_readers() == old(self).spec_readers(),
            final(self).writer_active() == old(self).writer_active(),
            final(self).list() == old(self).list(),
    {
        self.opened = false;
    }

    /// Reads the meta record in slot `slot` of the image, and validates it.
    pub fn load_meta(data: &PageArray, slot: u64) -> (r: Result<Meta, Error>)
        ensures
            r == meta_in(data@, slot as int),
    {
        match data.read(slot) {
            Ok(page) => Meta::load(page),
            Err(e) => Err(e),
        }
    }

    /// Reads the freelist whose record starts at page `id` of the image.
    /// Returns it with the number of pages behind the first that its record
    /// takes. Fails with what `freelist_in` finds wrong.
    pub fn load_freelist(data: &PageArray, id: PageId) -> (r: Result<(Freelist, u32), Error>)
        ensures
            match r {
                Ok(found) => found.0.wf() && freelist_in(data@, id) == Ok::<Seq<PageId>, Error>(
                    found.0.free_ids(),
                ) && found.0.pending_ids() == Seq::<crate::freelist::Freed>::empty(),
                Err(e) => freelist_in(data@, id) == Err::<Seq<PageId>, Error>(e),
            },
    {
        if id == 0 {
            return Ok((Freelist::new(), 0));
        }
        if id < 2 {
            return Err(Error::DatabaseInvalid);
        }
        let (header, payload) = match data.read_record(id) {
            Ok(found) => found,
            Err(e) => {
                return Err(e);
            },
        };
        if header.flags != PAGE_FREELIST {
            return Err(Error::DatabaseInvalid);
        }
        let page = Page { header, data: payload.as_slice() };
        match Freelist::from_page(&page) {
            Ok(list) => Ok((list, header.overflow)),
            Err(e) => Err(e),
        }
    }

    /// Makes a database of the image `image` of its file: picks the meta
    /// record to open it from and reads the freelist. Fails with
    /// `DatabaseInvalid` when neither meta record is valid, and with what
    /// `freelist_in` finds wrong with the freelist.
    pub fn init(path: &str, image: Vec<u8>, settings: Settings) -> (r: Result<Db, Error>)
        ensures
            match r {
                Ok(db) => {
                    &&& db.wf()
                    &&& db.is_open()
                    &&& db.image() == image@
                    &&& db.spec_settings() == settings
                    &&& db.spec_path() == path@
                    &&& !db.writer_active()
                    &&& db.spec_readers() == Seq::<TransactionId>::empty()
                    &&& db.staged_meta().is_none()
                    &&& open_meta(image@) == Ok::<(usize, Meta), Error>(
                        (db.spec_active(), db.active_meta()),
                    )
                    &&& freelist_in(image@, db.active_meta().freelist) == Ok::<
                        Seq<PageId>,
                        Error,
                    >(db.list().free_ids())
                    &&& db.list().pending_ids() == Seq::<crate::freelist::Freed>::empty()
                },
                Err(e) => match open_meta(image@) {
                    Ok(found) => freelist_in(image@, found.1.freelist) == Err::<
                        Seq<PageId>,
                        Error,
                    >(e),
                    Err(other) => e == other,
                },
            },
    {
        let data = PageArray::new(image);
        let first = Db::load_meta(&data, 0);
        let second = Db::load_meta(&data, 1);
        let meta0 = match &first {
            Ok(m) => *m,
            Err(_) => Meta::default(),
        };
        let meta1 = match &second {
            Ok(m) => *m,
            Err(_) => Meta::default(),
        };
        let (active, meta) = match Meta::select(first, second) {
            Ok(found) => found,
            Err(e) => {
                return Err(e);
            },
        };
        let (freelist, _) = match Db::load_freelist(&data, meta.freelist) {
            Ok(found) => found,
            Err(e) => {
                return Err(e);
            },
        };
        let total = data.page_count();
        Ok(
            Db {
                path: path.to_owned(),
                data,
                meta0,
                meta1,
                settings,
                active,
                freelist,
                writer: false,
                readers: Vec::new(),
                staged: false,
                staged_meta: Meta::default(),
                staged_list: Freelist::new(),
                opened: true,
            },
        )
    }

    /// Opens the database at `path`, whose file holds `image`, or holds
    /// nothing when there is no file. Without a file a new database is made
    /// if the settings allow it; `DatabaseNotFound` is the answer if they do
    /// not. The image of a file is made as long as `initial_mmap_size` asks
    /// for, if it is shorter, before the database is made of it. Without
    /// settings those of `Settings::default` are in force.
    pub fn open(path: &str, image: Option<Vec<u8>>, settings: Option<Settings>) -> (r: Result<
        Db,
        Error,
    >)
        ensures
            image.is_none() && !settings_or_default(settings).auto_create ==> (r matches Err(e)
                && e == Error::DatabaseNotFound),
            image.is_none() && settings_or_default(settings).auto_create ==> (r matches Ok(db)
                && db.wf() && db.is_open() && db.image() == fresh_image(
                fresh_pages(settings_or_default(settings)),
            ) && db.active_meta() == Meta::spec_default() && db.spec_active() == 0
                && !db.writer_active() && db.spec_readers() == Seq::<TransactionId>::empty()
                && db.spec_settings() == settings_or_default(settings) && db.spec_path()
                == path@ && db.staged_meta().is_none() && db.list().free_ids() == Seq::<
                PageId,
            >::empty() && db.list().pending_ids() == Seq::<crate::freelist::Freed>::empty()),
            image matches Some(bytes) ==> match r {
                Ok(db) => {
                    &&& db.wf()
                    &&& db.is_open()
                    &&& db.image() == opened_image(bytes@, settings_or_default(settings))
                    &&& db.spec_settings() == settings_or_default(settings)
                    &&& db.spec_path() == path@
                    &&& !db.writer_active()
                    &&& db.spec_readers() == Seq::<TransactionId>::empty()
                    &&& open_meta(db.image()) == Ok::<(usize, Meta), Error>(
                        (db.spec_active(), db.active_meta()),
                    )
                    &&& freelist_in(db.image(), db.active_meta().freelist) == Ok::<
                        Seq<PageId>,
                        Error,
                    >(db.list().free_ids())
                    &&& db.list().pending_ids() == Seq::<crate::freelist::Freed>::empty()
                    &&& db.staged_meta().is_none()
                },
                Err(e) => match open_meta(
                    opened_image(bytes@, settings_or_default(settings)),
                ) {
                    Ok(found) => freelist_in(
                        opened_image(bytes@, settings_or_default(settings)),
                        found.1.freelist,
                    ) == Err::<Seq<PageId>, Error>(e),
                    Err(other) => e == other,
                },
            },
    {
        let settings = match settings {
            Some(s) => s,
            None => Settings::default(),
        };
        match image {
            Some(bytes) => {
                let mut bytes = bytes;
                let len = bytes.len();
                let target = settings.preallocation(len);
                if target > len {
                    append_zeros(&mut bytes, target - len);
                }
                Db::init(path, bytes, settings)
            },
            None => {
                if !settings.auto_create {
                    return Err(Error::DatabaseNotFound);
                }
                let fresh = Db::create(&settings);
                proof {
                    lemma_fresh_image(fresh_pages(settings));
                }
                Db::init(path, fresh, settings)
            },
        }
    }
}

/// The image that a database is made of when the file that is opened under
/// settings `settings` holds `bytes`: the bytes of the file, with zeros
/// behind them up to the length that `initial_mmap_size` asks for.
pub open spec fn opened_image(bytes: Seq<u8>, settings: Settings) -> Seq<u8> {
    if settings.spec_preallocation(bytes.len()) > bytes.len() {
        bytes + zeros((settings.spec_preallocation(bytes.len()) - bytes.len()) as nat)
    } else {
        bytes
    }
}

/// A file that can be made long enough for some pages can be made long
/// enough for fewer.
pub proof fn lemma_growth_fits(settings: Settings, fewer: PageId, more: PageId)
    requires
        fewer <= more,
        settings.spec_growth(more) * OS_PAGE_SIZE <= usize::MAX,
    ensures
        settings.spec_growth(fewer) * OS_PAGE_SIZE <= usize::MAX,
{
    let step = settings.alloc_size as int / (OS_PAGE_SIZE as int);
    assert(OS_PAGE_SIZE == 4096);
    if step > 1 {
        let steps = (more + step - 1) / step;
        assert(steps * step >= more) by (nonlinear_arith)
            requires
                steps == (more + step - 1) / step,
                step > 1,
        ;
    }
    assert(settings.spec_growth(more) >= more);
}

/// The settings in force when `settings` are given to `Db::open`.
pub open spec fn settings_or_default(settings: Option<Settings>) -> Settings {
    match settings {
        Some(s) => s,
        None => Settings::spec_default(),
    }
}


/// The lowest of the snapshot numbers `readers` and the number `bound`.
pub open spec fn oldest_of(readers: Seq<TransactionId>, bound: TransactionId) -> TransactionId
    decreases readers.len(),
{
    if readers.len() == 0 {
        bound
    } else {
        let rest = oldest_of(readers.drop_last(), bound);
        if readers.last() < rest {
            readers.last()
        } else {
            rest
        }
    }
}

/// The lowest number is no higher than any of the numbers.
pub proof fn lemma_oldest_of(readers: Seq<TransactionId>, bound: TransactionId)
    ensures
        oldest_of(readers, bound) <= bound,
        forall|i: int| 0 <= i < readers.len() ==> oldest_of(readers, bound) <= #[trigger] readers[i],
    decreases readers.len(),
{
    if readers.len() > 0 {
        lemma_oldest_of(readers.drop_last(), bound);
        assert forall|i: int| 0 <= i < readers.len() implies oldest_of(readers, bound)
            <= #[trigger] readers[i] by {
            if i < readers.len() - 1 {
                assert(readers.drop_last()[i] == readers[i]);
            }
        }
    }
}

/// While a transaction reads whose snapshot is `readers[i]`, the pages
/// that a later transaction `t` has freed stay pending and do not become
/// free when a transaction that may write begins and has pages released:
/// no transaction can be handed them.
pub proof fn lemma_reader_pins_pages(
    before: Freelist,
    after: Freelist,
    readers: Seq<TransactionId>,
    id: TransactionId,
    i: int,
    t: TransactionId,
    p: PageId,
)
    requires
        before.wf(),
        before.released(&after, oldest_of(readers, id)),
        0 <= i < readers.len(),
        readers[i] < t,
        before.is_pending(t, p),
    ensures
        after.is_pending(t, p),
        !after.is_free(p),
{
    lemma_oldest_of(readers, id);
    crate::freelist::lemma_release_keeps_later_pages(before, after, oldest_of(readers, id), t, p);
}

/// The first page past those in use, by meta record `meta`: the meta pages
/// are always in use.
pub open spec fn end_of_file(meta: Meta) -> PageId {
    if meta.pgid < 2 {
        2
    } else {
        meta.pgid
    }
}

impl Db {
    /// On a new database that is open for writing, and on which no
    /// transaction that may write is under way, such a transaction can
    /// begin, and it sees no bucket.
    pub proof fn lemma_new_database_begins(&self, pages: nat)
        requires
            pages >= 2,
            self.is_open(),
            self.image() == fresh_image(pages),
            self.active_meta() == Meta::spec_default(),
            self.list().free_ids() == Seq::<PageId>::empty(),
            self.list().pending_ids() == Seq::<crate::freelist::Freed>::empty(),
            !self.writer_active(),
            !self.spec_settings().read_only,
        ensures
            self.begin_outcome(true) == Ok::<Map<Seq<u8>, BucketView>, Error>(Map::empty()),
    {
        lemma_fresh_image(pages);
        assert(self.writer_runs() =~= Seq::<Run>::empty());
    }

    /// Why a transaction cannot begin, if it cannot: `DatabaseNotOpen` on a
    /// database that is closed; for a transaction that may write,
    /// `TransactionReadOnly` on a database that was opened for reading
    /// only, `TxInProgress` while another such transaction is under way,
    /// and `ValueTooLarge` when the numbers of transactions are used up;
    /// for one that only reads, `ReaderTableFull` when the reader table is
    /// full.
    pub open spec fn begin_refused(&self, writable: bool) -> Option<Error> {
        if !self.is_open() {
            Some(Error::DatabaseNotOpen)
        } else if writable {
            if self.spec_settings().read_only {
                Some(Error::TransactionReadOnly)
            } else if self.writer_active() {
                Some(Error::TxInProgress)
            } else if self.active_meta().transaction_id == u64::MAX {
                Some(Error::ValueTooLarge)
            } else {
                None
            }
        } else if self.spec_readers().len() >= DEFAULT_READERS {
            Some(Error::ReaderTableFull)
        } else {
            None
        }
    }

    /// Whether this database and `other` have the same file and the same
    /// meta record in force.
    pub open spec fn same_file(&self, other: &Db) -> bool {
        &&& self.image() == other.image()
        &&& self.spec_active() == other.spec_active()
        &&& self.active_meta() == other.active_meta()
        &&& self.spec_settings() == other.spec_settings()
        &&& self.spec_path() == other.spec_path()
        &&& self.is_open() == other.is_open()
        &&& self.staged_meta() == other.staged_meta()
    }

    /// The lowest snapshot of the transactions that only read and are
    /// under way, or `bound` when that is lower or there are none.
    pub fn oldest(&self, bound: TransactionId) -> (r: TransactionId)
        ensures
            r == oldest_of(self.spec_readers(), bound),
    {
        let mut lowest = bound;
        let mut i: usize = 0;
        while i < self.readers.len()
            invariant
                i <= self.readers@.len(),
                lowest == oldest_of(self.readers@.subrange(0, i as int), bound),
            decreases self.readers@.len() - i,
        {
            proof {
                assert(self.readers@.subrange(0, i + 1).drop_last() =~= self.readers@.subrange(
                    0,
                    i as int,
                ));
            }
            if self.readers[i] < lowest {
                lowest = self.readers[i];
            }
            i += 1;
        }
        proof {
            assert(self.readers@.subrange(0, i as int) =~= self.readers@);
        }
        lowest
    }

    /// The records that a transaction that may write retires when it
    /// begins: those of the database that the meta record in force reaches,
    /// and that of the freelist.
    pub open spec fn writer_runs(&self) -> Seq<Run> {
        let runs = runs_in(self.image(), self.active_meta().root);
        if self.active_meta().freelist != 0 {
            runs.push(run_of(self.image(), self.active_meta().freelist))
        } else {
            runs
        }
    }

    /// Whether the freelist reaches behind the end of the file.
    pub open spec fn freelist_overreaches(&self) -> bool {
        !(forall|p: PageId| self.list().is_listed(p) ==> p < end_of_file(self.active_meta()))
    }

    /// What `begin` comes to: the database that the transaction sees, or
    /// why it cannot begin. The reasons of `begin_refused` come first; then,
    /// for a transaction that may write, `DatabaseInvalid` when the
    /// freelist reaches behind the end of the file; then what `database_in`
    /// finds wrong with the image; and last, again for a transaction that
    /// may write, what reading the record of the freelist finds wrong, and
    /// `DatabaseInvalid` when the records of the database and of the
    /// freelist cannot be retired, because they and the freelist do not go
    /// together.
    pub open spec fn begin_outcome(&self, writable: bool) -> Result<
        Map<Seq<u8>, BucketView>,
        Error,
    > {
        match self.begin_refused(writable) {
            Some(e) => Err(e),
            None => if writable && self.freelist_overreaches() {
                Err(Error::DatabaseInvalid)
            } else {
                match database_in(self.image(), self.active_meta().root) {
                    Err(e) => Err(e),
                    Ok(state) => if writable && self.active_meta().freelist != 0 && record_data(
                        self.image(),
                        self.active_meta().freelist as int,
                    ) is Err {
                        Err(record_data(self.image(), self.active_meta().freelist as int)->Err_0)
                    } else if writable && !retirable(
                        self.list(),
                        end_of_file(self.active_meta()),
                        self.writer_runs(),
                    ) {
                        Err(Error::DatabaseInvalid)
                    } else {
                        Ok(state)
                    },
                }
            },
        }
    }

    /// Begins a transaction on what the meta record in force reaches. One
    /// that may write takes the place of the single writer, gets the number
    /// after that of the record, has the pages released that no reader can
    /// see any more, and retires the records of the database and of the
    /// freelist, which its commit writes anew; one that only reads is entered into the reader
    /// table under the number of the record. Fails as `begin_outcome` says,
    /// and then leaves writer and readers as they were.
    pub fn begin(&mut self, writable: bool) -> (r: Result<Transaction, Error>)
        requires
            old(self).wf(),
        ensures
            final(self).wf(),
            final(self).same_file(old(self)),
            match r {
                Ok(tx) => {
                    &&& old(self).begin_outcome(writable) == Ok::<
                        Map<Seq<u8>, BucketView>,
                        Error,
                    >(tx.state())
                    &&& tx.wf()
                    &&& tx.spec_writable() == writable
                    &&& tx.spec_meta() == old(self).active_meta()
                    &&& writable ==> tx.spec_id() == old(self).active_meta().transaction_id + 1
                        && final(self).writer_active() && final(self).spec_readers() == old(
                        self,
                    ).spec_readers() && old(self).list().released(
                        &final(self).list(),
                        oldest_of(old(self).spec_readers(), tx.spec_id()),
                    ) && tx.pins(old(self).image(), old(self).active_meta().root) && tx.pins_list(
                        old(self).image(),
                        old(self).active_meta().freelist,
                    ) && writer_list(
                        final(self).list(),
                        tx.allocator(),
                        old(self).writer_runs(),
                        end_of_file(old(self).active_meta()),
                    )
                    &&& !writable ==> tx.spec_id() == old(self).active_meta().transaction_id
                        && final(self).writer_active() == old(self).writer_active()
                        && final(self).spec_readers() == old(self).spec_readers().push(
                        tx.spec_id(),
                    ) && final(self).list() == old(self).list()
                },
                Err(e) => {
                    &&& old(self).begin_outcome(writable) == Err::<
                        Map<Seq<u8>, BucketView>,
                        Error,
                    >(e)
                    &&& final(self).writer_active() == old(self).writer_active()
                    &&& final(self).spec_readers() == old(self).spec_readers()
                },
            },
    {
        if !self.opened {
            return Err(Error::DatabaseNotOpen);
        }
        if writable {
            self.begin_write()
        } else {
            self.begin_read()
        }
    }

    /// Begins a transaction that only reads.
    fn begin_read(&mut self) -> (r: Result<Transaction, Error>)
        requires
            old(self).wf(),
            old(self).is_open(),
        ensures
            final(self).wf(),
            final(self).same_file(old(self)),
            final(self).writer_active() == old(self).writer_active(),
            final(self).list() == old(self).list(),
            match r {
                Ok(tx) => {
                    &&& old(self).begin_outcome(false) == Ok::<Map<Seq<u8>, BucketView>, Error>(
                        tx.state(),
                    )
                    &&& tx.wf()
                    &&& !tx.spec_writable()
                    &&& tx.spec_meta() == old(self).active_meta()
                    &&& tx.spec_id() == old(self).active_meta().transaction_id
                    &&& final(self).spec_readers() == old(self).spec_readers().push(tx.spec_id())
                },
                Err(e) => {
                    &&& old(self).begin_outcome(false) == Err::<Map<Seq<u8>, BucketView>, Error>(e)
                    &&& final(self).spec_readers() == old(self).spec_readers()
                },
            },
    {
        if self.readers.len() >= DEFAULT_READERS as usize {
            return Err(Error::ReaderTableFull);
        }
        let meta = self.meta();
        let next_page = if meta.pgid < 2 {
            2
        } else {
            meta.pgid
        };
        let none = Freelist::new();
        proof {
            assert forall|p: PageId| !none.is_listed(p) by {
                assert(!none.is_free(p));
                assert(!none.is_held(p));
            }
        }
        let pages = match PageAllocator::new(none, next_page) {
            Ok(p) => p,
            Err(e) => {
                return Err(e);
            },
        };
        let (tx, _) = match Transaction::load(&self.data, meta, meta.transaction_id, false, pages) {
            Ok(found) => found,
            Err(e) => {
                return Err(e);
            },
        };
        self.readers.push(meta.transaction_id);
        Ok(tx)
    }

    /// Begins a transaction that may write.
    fn begin_write(&mut self) -> (r: Result<Transaction, Error>)
        requires
            old(self).wf(),
            old(self).is_open(),
        ensures
            final(self).wf(),
            final(self).same_file(old(self)),
            final(self).spec_readers() == old(self).spec_readers(),
            match r {
                Ok(tx) => {
                    &&& old(self).begin_outcome(true) == Ok::<Map<Seq<u8>, BucketView>, Error>(
                        tx.state(),
                    )
                    &&& tx.wf()
                    &&& tx.spec_writable()
                    &&& tx.spec_meta() == old(self).active_meta()
                    &&& tx.spec_id() == old(self).active_meta().transaction_id + 1
                    &&& final(self).writer_active()
                    &&& old(self).list().released(
                        &final(self).list(),
                        oldest_of(old(self).spec_readers(), tx.spec_id()),
                    )
                    &&& tx.pins(old(self).image(), old(self).active_meta().root)
                    &&& tx.pins_list(old(self).image(), old(self).active_meta().freelist)
                    &&& writer_list(
                        final(self).list(),
                        tx.allocator(),
                        old(self).writer_runs(),
                        end_of_file(old(self).active_meta()),
                    )
                },
                Err(e) => {
                    &&& old(self).begin_outcome(true) == Err::<Map<Seq<u8>, BucketView>, Error>(e)
                    &&& final(self).writer_active() == old(self).writer_active()
                },
            },
    {
        if self.settings.read_only {
            return Err(Error::TransactionReadOnly);
        }
        if self.writer {
            return Err(Error::TxInProgress);
        }
        let meta = self.meta();
        if meta.transaction_id == u64::MAX {
            return Err(Error::ValueTooLarge);
        }
        let next_page = if meta.pgid < 2 {
            2
        } else {
            meta.pgid
        };
        let id = meta.transaction_id + 1;
        let oldest = self.oldest(id);
        let ghost before = self.freelist;
        self.freelist.release(oldest);
        let list = self.freelist.duplicate();
        proof {
            crate::freelist::lemma_release_keeps_listed(before, self.freelist, oldest);
            crate::freelist::lemma_held_alike(self.freelist, list);
            assert forall|p: PageId| #[trigger] list.is_listed(p) <==> before.is_listed(p) by {
                assert(self.freelist.is_listed(p) <==> before.is_listed(p));
            }
        }
        let pages = match PageAllocator::new(list, next_page) {
            Ok(p) => p,
            Err(e) => {
                proof {
                    if !old(self).freelist_overreaches() {
                        assert forall|p: PageId| list.is_listed(p) implies p < next_page by {
                            assert(before.is_listed(p));
                        }
                    }
                }
                return Err(e);
            },
        };
        proof {
            assert(!old(self).freelist_overreaches()) by {
                assert forall|p: PageId| before.is_listed(p) implies p < next_page by {
                    assert(list.is_listed(p));
                }
            }
        }
        let ghost fresh = pages;
        let (mut tx, mut runs) = match Transaction::load(&self.data, meta, id, true, pages) {
            Ok(found) => found,
            Err(e) => {
                return Err(e);
            },
        };
        if meta.freelist != 0 {
            let header = match self.data.read_record(meta.freelist) {
                Ok(found) => found.0,
                Err(e) => {
                    return Err(e);
                },
            };
            runs.push(Run { id: meta.freelist, overflow: header.overflow });
        }
        proof {
            assert(runs@ =~= old(self).writer_runs());
            crate::transaction::lemma_can_retire(fresh, before, runs@);
        }
        match tx.retire(&runs) {
            Ok(_) => {},
            Err(e) => {
                return Err(e);
            },
        }
        proof {
            crate::freelist::lemma_held_alike(self.freelist, fresh.list());
            if meta.freelist != 0 {
                assert forall|q: PageId|
                    run_of(self.image(), meta.freelist).covers(
                        q as int,
                    ) implies #[trigger] tx.allocator().list().is_held(q) by {
                    assert(runs@[runs@.len() - 1].covers(q as int));
                    assert(runs_cover(runs@, q as int));
                }
            }
            let held = runs_in(self.image(), meta.root);
            assert forall|q: PageId|
                runs_cover(held, q as int) implies #[trigger] tx.allocator().list().is_held(q) by {
                let i = choose|i: int| 0 <= i < held.len() && (#[trigger] held[i]).covers(q as int);
                assert(runs@[i].covers(q as int));
                assert(runs_cover(runs@, q as int));
            }
        }
        self.writer = true;
        Ok(tx)
    }
}

/// Whether `mine` is what a transaction that may write gets its pages
/// from, when it begins on a database with the freelist `shared` whose file
/// ends at page `end` and retires the records `runs`: the same pages are
/// free, the pages that are pending in the database and those of the
/// retired records are pending, and the file ends where it did.
pub open spec fn writer_list(
    shared: Freelist,
    mine: PageAllocator,
    runs: Seq<Run>,
    end: PageId,
) -> bool {
    &&& mine.spec_next_page() == end
    &&& mine.list().free_ids() == shared.free_ids()
    &&& mine.list().pending_ids().len() == shared.pending_ids().len() + crate::store::run_pages(
        runs,
        runs.len(),
    )
    &&& forall|q: PageId|
        #[trigger] mine.list().is_held(q) <==> shared.is_held(q) || runs_cover(runs, q as int)
}

/// The place of the first of the numbers `s` that is `id`.
pub open spec fn first_reader(s: Seq<TransactionId>, id: TransactionId) -> int {
    choose|i: int| 0 <= i < s.len() && s[i] == id && forall|j: int| 0 <= j < i ==> s[j] != id
}

/// The reader table `s` without the first entry of snapshot `id`.
pub open spec fn drop_reader(s: Seq<TransactionId>, id: TransactionId) -> Seq<TransactionId> {
    if s.contains(id) {
        s.remove(first_reader(s, id))
    } else {
        s
    }
}

impl Db {
    /// Takes the first entry of snapshot `id` out of the reader table.
    fn unregister(&mut self, id: TransactionId)
        requires
            old(self).wf(),
        ensures
            final(self).wf(),
            final(self).same_file(old(self)),
            final(self).writer_active() == old(self).writer_active(),
            final(self).list() == old(self).list(),
            final(self).spec_readers() == drop_reader(old(self).spec_readers(), id),
    {
        let mut i: usize = 0;
        while i < self.readers.len()
            invariant
                i <= self.readers@.len(),
                *self == *old(self),
                self.wf(),
                forall|j: int| 0 <= j < i ==> self.readers@[j] != id,
            decreases self.readers@.len() - i,
        {
            if self.readers[i] == id {
                let gone = self.readers.remove(i);
                return ;
            }
            i += 1;
        }
    }

    /// Ends the transaction `tx` without a trace in the file: what it
    /// changed is forgotten. A transaction that may write gives up the
    /// place of the single writer; one that only reads leaves the reader
    /// table. Fails with `DatabaseNotOpen`, and changes nothing, on a
    /// database that is closed.
    pub fn rollback(&mut self, tx: Transaction) -> (r: Result<(), Error>)
        requires
            old(self).wf(),
        ensures
            final(self).wf(),
            final(self).same_file(old(self)),
            final(self).list() == old(self).list(),
            !old(self).is_open() ==> r == Err::<(), Error>(Error::DatabaseNotOpen)
                && final(self).writer_active() == old(self).writer_active()
                && final(self).spec_readers() == old(self).spec_readers(),
            old(self).is_open() ==> r == Ok::<(), Error>(()),
            old(self).is_open() && !tx.spec_writable() ==> final(self).writer_active() == old(
                self,
            ).writer_active() && final(self).spec_readers() == drop_reader(
                old(self).spec_readers(),
                tx.spec_id(),
            ),
            old(self).is_open() && tx.spec_writable() ==> final(self).spec_readers() == old(
                self,
            ).spec_readers() && final(self).writer_active() == (old(self).writer_active() && !old(
                self,
            ).holds_writer(&tx)),
    {
        if !self.opened {
            return Err(Error::DatabaseNotOpen);
        }
        if tx.writable() {
            if self.is_writer(&tx) {
                self.writer = false;
            }
        } else {
            self.unregister(tx.id());
        }
        Ok(())
    }

    /// Whether `tx` is the transaction that holds the place of the single
    /// writer: it may write, it started from the meta record in force, and
    /// no commit is half written.
    pub open spec fn holds_writer(&self, tx: &Transaction) -> bool {
        &&& self.writer_active()
        &&& self.staged_meta().is_none()
        &&& tx.spec_writable()
        &&& tx.spec_meta() == self.active_meta()
        &&& tx.spec_id() == self.active_meta().transaction_id + 1
    }

    /// Whether `tx` is the transaction that holds the place of the single
    /// writer.
    pub fn is_writer(&self, tx: &Transaction) -> (r: bool)
        ensures
            r == self.holds_writer(tx),
    {
        let meta = self.meta();
        self.writer && !self.staged && tx.writable() && tx.meta() == meta && meta.transaction_id
            < u64::MAX && tx.id() == meta.transaction_id + 1
    }

    /// Gives up a commit that is half written: the place of the single
    /// writer is free again, and the meta record in force stays in force.
    /// Says whether there was such a commit.
    pub fn abort(&mut self) -> (r: bool)
        requires
            old(self).wf(),
        ensures
            final(self).wf(),
            r == old(self).staged_meta().is_some(),
            final(self).staged_meta().is_none(),
            final(self).image() == old(self).image(),
            final(self).spec_active() == old(self).spec_active(),
            final(self).active_meta() == old(self).active_meta(),
            final(self).spec_settings() == old(self).spec_settings(),
            final(self).spec_path() == old(self).spec_path(),
            final(self).is_open() == old(self).is_open(),
            final(self).spec_readers() == old(self).spec_readers(),
            final(self).list() == old(self).list(),
            final(self).writer_active() == (old(self).writer_active() && !r),
    {
        if self.staged {
            self.staged = false;
            self.writer = false;
            true
        } else {
            false
        }
    }
}



/// The record of the freelist that a transaction has pinned is not
/// touched by the commit of the transaction: the records of the commit go
/// to pages that are not pending, and the meta record goes to a meta page.
proof fn lemma_stage_keeps_freelist(
    before: Seq<u8>,
    flushed: Seq<u8>,
    last: Seq<u8>,
    id: PageId,
    records: Seq<Record>,
    pages: PageAllocator,
)
    requires
        freelist_in(before, id) is Ok,
        id != 0 ==> forall|q: PageId|
            run_of(before, id).covers(q as int) ==> #[trigger] pages.list().is_held(q),
        plan_spares_pending(records, pages),
        before.len() <= flushed.len() <= usize::MAX,
        forall|q: int|
            0 <= q && in_bounds(before.len(), q) && !records_cover(records, q)
                ==> #[trigger] page_bytes(flushed, q) == page_bytes(before, q),
        same_but_meta(flushed, last),
    ensures
        freelist_in(last, id) == freelist_in(before, id),
{
    if id != 0 {
        let n = crate::store::record_check(before, id as int)->Ok_0;
        assert forall|k: int| 0 <= k < n implies #[trigger] page_bytes(before, id + k)
            == page_bytes(last, id + k) by {
            let q = id + k;
            crate::store::lemma_record_in_bounds(before, id as int, k);
            assert(OS_PAGE_SIZE == 4096);
            assert((q + 1) * 4096 <= before.len());
            let p = q as u64;
            assert(run_of(before, id).covers(p as int));
            assert(pages.list().is_held(p));
            if records_cover(records, q) {
                let j = choose|j: int| 0 <= j < records.len() && (#[trigger] records[j]).covers(q);
                assert(records[j].covers(p as int));
                assert(!pages.list().is_held(p));
            }
            assert(page_bytes(flushed, q) == page_bytes(before, q));
            assert(in_bounds(flushed.len(), q));
            assert(page_bytes(flushed, q) == page_bytes(last, q));
        }
        crate::store::lemma_record_data_frame(before, last, id as int);
    }
}

/// The database that a transaction has pinned is not touched by the
/// commit of the transaction: the records of the commit go to pages that
/// are not pending, and the meta record goes to a meta page.
proof fn lemma_stage_keeps_database(
    before: Seq<u8>,
    flushed: Seq<u8>,
    last: Seq<u8>,
    root: PageId,
    records: Seq<Record>,
    pages: PageAllocator,
)
    requires
        database_in(before, root) is Ok,
        forall|q: PageId|
            runs_cover(runs_in(before, root), q as int) ==> #[trigger] pages.list().is_held(q),
        plan_spares_pending(records, pages),
        before.len() <= flushed.len() <= usize::MAX,
        forall|q: int|
            0 <= q && in_bounds(before.len(), q) && !records_cover(records, q)
                ==> #[trigger] page_bytes(flushed, q) == page_bytes(before, q),
        same_but_meta(flushed, last),
    ensures
        database_in(last, root) == database_in(before, root),
{
    assert forall|q: int| runs_cover(runs_in(before, root), q) implies #[trigger] page_bytes(
        before,
        q,
    ) == page_bytes(last, q) by {
        lemma_runs_in_bounds(before, root, q);
        assert(OS_PAGE_SIZE == 4096);
        assert((q + 1) * 4096 <= before.len());
        let p = q as u64;
        assert(pages.list().is_held(p));
        if records_cover(records, q) {
            let j = choose|j: int| 0 <= j < records.len() && (#[trigger] records[j]).covers(q);
            assert(records[j].covers(p as int));
            assert(!pages.list().is_held(p));
        }
        assert(page_bytes(flushed, q) == page_bytes(before, q));
        assert(in_bounds(flushed.len(), q));
        assert(page_bytes(flushed, q) == page_bytes(last, q));
    }
    lemma_database_kept(before, last, root);
}

/// Writing a meta record into its slot changes that slot only: the other
/// slot and every page behind the meta pages stay as they were, and the
/// slot loads as the record if the record is valid, and fails as the record
/// does if it is not.
pub proof fn lemma_meta_written(image: Seq<u8>, slot: int, m: Meta)
    requires
        0 <= slot < 2,
        in_bounds(image.len(), slot),
    ensures
        ({
            let after = overwrite(image, slot * OS_PAGE_SIZE, m.bytes());
            &&& same_but_meta(image, after)
            &&& meta_in(after, slot) == match m.spec_validate() {
                Ok(_) => Ok::<Meta, Error>(m),
                Err(e) => Err::<Meta, Error>(e),
            }
            &&& meta_in(after, 1 - slot) == meta_in(image, 1 - slot)
        }),
{
    let after = overwrite(image, slot * OS_PAGE_SIZE, m.bytes());
    m.lemma_bytes_len();
    assert(OS_PAGE_SIZE == 4096);
    assert((slot + 1) * 4096 <= image.len());
    assert forall|q: int| 0 <= q && q != slot && in_bounds(image.len(), q) implies page_bytes(
        after,
        q,
    ) == page_bytes(image, q) by {
        if q < slot {
            assert((q + 1) * 4096 <= slot * 4096);
        } else {
            assert(slot * 4096 + 4096 <= q * 4096);
        }
        lemma_overwrite_keeps_pages(image, slot * OS_PAGE_SIZE, m.bytes(), q);
    }
    let rest = page_bytes(after, slot).skip(META_SIZE as int);
    assert(page_bytes(after, slot) =~= m.bytes() + rest);
    m.lemma_load_of_bytes(rest);
    if in_bounds(image.len(), 1 - slot) {
        assert(page_bytes(after, 1 - slot) == page_bytes(image, 1 - slot));
    }
}

impl Db {
    /// Why the commit of `tx` cannot be written, if it cannot:
    /// `DatabaseNotOpen` on a database that is closed, and
    /// `TransactionReadOnly` for a transaction that may not write or does
    /// not hold the place of the single writer.
    pub open spec fn stage_refused(&self, tx: &Transaction) -> Option<Error> {
        if !self.is_open() {
            Some(Error::DatabaseNotOpen)
        } else if !self.holds_writer(tx) {
            Some(Error::TransactionReadOnly)
        } else {
            None
        }
    }

    /// Whether the image can be made long enough for a file of `end`
    /// pages, grown as the settings say.
    pub open spec fn can_hold(&self, end: nat) -> bool {
        &&& end <= u64::MAX
        &&& self.spec_settings().spec_growth(end as u64) * OS_PAGE_SIZE <= usize::MAX
    }

    /// Writes the meta record `m` into slot `slot` of the image.
    fn write_meta(&mut self, slot: usize, m: &Meta)
        requires
            slot < 2,
            in_bounds(old(self).image().len(), slot as int),
        ensures
            final(self).image() == overwrite(
                old(self).image(),
                slot * OS_PAGE_SIZE,
                m.bytes(),
            ),
            final(self).meta0 == old(self).meta0,
            final(self).meta1 == old(self).meta1,
            final(self).active == old(self).active,
            final(self).settings == old(self).settings,
            final(self).path == old(self).path,
            final(self).freelist == old(self).freelist,
            final(self).writer == old(self).writer,
            final(self).readers == old(self).readers,
            final(self).staged == old(self).staged,
            final(self).staged_meta == old(self).staged_meta,
            final(self).staged_list == old(self).staged_list,
            final(self).opened == old(self).opened,
    {
        let stamp = m.to_bytes();
        let written = self.data.write(slot as u64, stamp.as_slice());
    }

    /// Writes the commit of `tx` all but its last step: the records of the
    /// buckets, of their directory and of the freelist go to fresh pages,
    /// and the new meta record goes to the slot that is not in force, with
    /// a checksum that cannot match. The file is then as a crash in the
    /// middle of a commit leaves it: it is still opened from the meta
    /// record in force. `seal` takes the last step.
    ///
    /// Fails for the reasons of `stage_refused`, with `ValueTooLarge` when
    /// a bucket holds more than a record can or the file would get too
    /// long, and with `PageOutOfBounds` when the image cannot be made as
    /// long as the file has to be; a transaction that only reads leaves the
    /// reader table, one that holds the place of the single writer and
    /// fails gives it up, and the image stays as it was. It does not fail
    /// where none of the reasons of `plan_fails` holds and the image can
    /// hold a file of `commit_end` pages, which no commit goes beyond.
    /// The record of the freelist that the commit writes lists the pages
    /// of the freelist that `seal` puts in force; the old record and the
    /// old database stay readable where the transaction has pinned them,
    /// as every transaction has that `begin` gave out.
    pub fn stage(&mut self, tx: Transaction) -> (r: Result<(), Error>)
        requires
            old(self).wf(),
            tx.wf(),
        ensures
            final(self).wf(),
            final(self).spec_active() == old(self).spec_active(),
            final(self).active_meta() == old(self).active_meta(),
            final(self).spec_settings() == old(self).spec_settings(),
            final(self).spec_path() == old(self).spec_path(),
            final(self).is_open() == old(self).is_open(),
            final(self).list() == old(self).list(),
            old(self).stage_refused(&tx) matches Some(e) ==> r == Err::<(), Error>(e)
                && final(self).writer_active() == old(self).writer_active(),
            r is Err ==> final(self).image() == old(self).image() && final(self).staged_meta()
                == old(self).staged_meta(),
            r is Err && old(self).stage_refused(&tx).is_none() ==> !final(self).writer_active()
                && (r->Err_0 == Error::ValueTooLarge || r->Err_0 == Error::PageOutOfBounds),
            r is Err && old(self).stage_refused(&tx).is_none() && r->Err_0 == Error::ValueTooLarge
                ==> tx.plan_fails(spec_fill_threshold(old(self).spec_settings().fill_percent)),
            old(self).stage_refused(&tx).is_none() && has_oversized_bucket(
                tx.buckets(),
                spec_fill_threshold(old(self).spec_settings().fill_percent),
            ) ==> r is Err,
            old(self).stage_refused(&tx).is_none() && !tx.plan_fails(
                spec_fill_threshold(old(self).spec_settings().fill_percent),
            ) && old(self).can_hold(tx.commit_end()) ==> r is Ok,
            !tx.spec_writable() && old(self).is_open() ==> final(self).spec_readers()
                == drop_reader(old(self).spec_readers(), tx.spec_id()),
            tx.spec_writable() || !old(self).is_open() ==> final(self).spec_readers() == old(
                self,
            ).spec_readers(),
            r is Ok ==> {
                let m = final(self).staged_meta()->Some_0;
                &&& old(self).stage_refused(&tx).is_none()
                &&& final(self).staged_meta().is_some()
                &&& m.transaction_id == tx.spec_id()
                &&& m.root >= 2
                &&& final(self).image().len() >= old(self).image().len()
                &&& database_in(final(self).image(), m.root) matches Ok(stored) && same_content(
                    stored,
                    tx.state(),
                )
                &&& freelist_stored(final(self).image(), m.freelist, final(self).staged_list())
                &&& tx.allocator().keeps_pending_in(final(self).staged_list())
            },
            r is Ok && tx.pins(old(self).image(), old(self).active_meta().root) && database_in(
                old(self).image(),
                old(self).active_meta().root,
            ) is Ok ==> database_in(final(self).image(), old(self).active_meta().root)
                == database_in(old(self).image(), old(self).active_meta().root),
            r is Ok && tx.pins_list(old(self).image(), old(self).active_meta().freelist)
                && freelist_in(old(self).image(), old(self).active_meta().freelist) is Ok
                ==> freelist_in(final(self).image(), old(self).active_meta().freelist)
                == freelist_in(old(self).image(), old(self).active_meta().freelist),
    {
        if !self.opened {
            return Err(Error::DatabaseNotOpen);
        }
        if !tx.writable() {
            self.unregister(tx.id());
            return Err(Error::TransactionReadOnly);
        }
        if !self.is_writer(&tx) {
            return Err(Error::TransactionReadOnly);
        }
        let active = self.meta();
        let id = tx.id();
        let ghost pages = tx.allocator();
        let plan = match tx.plan(fill_threshold(self.settings.fill_percent)) {
            Ok(plan) => plan,
            Err(e) => {
                self.writer = false;
                return Err(e);
            },
        };
        let ghost before = self.data@;
        let target = self.settings.growth(plan.end);
        proof {
            if old(self).can_hold(tx.commit_end()) {
                lemma_growth_fits(self.settings, plan.end, tx.commit_end() as u64);
            }
        }
        match self.data.put_records(&plan.records, target) {
            Ok(_) => {},
            Err(e) => {
                self.writer = false;
                return Err(e);
            },
        }
        let ghost flushed = self.data@;
        let size = self.data.len();
        let sealed = (Meta {
            magic: MAGIC_KEY,
            version: VERSION,
            flags: active.flags,
            page_size: OS_PAGE_SIZE as u32,
            checksum: 0,
            transaction_id: id,
            little_endian: true,
            root: plan.root,
            freelist: plan.freelist,
            pgid: plan.end,
        }).sealed();
        let slot = 1 - self.active;
        let kept = self.active;
        let torn = sealed.staged();
        proof {
            assert(OS_PAGE_SIZE == 4096);
            assert(2 * 4096 <= plan.end * 4096);
            assert(in_bounds(flushed.len(), slot as int));
            assert(all_lie_in(plan.records@, flushed));
            assert(database_in(flushed, plan.root) == Ok::<Map<Seq<u8>, BucketView>, Error>(
                plan.state@,
            ));
            assert(in_bounds(before.len(), kept as int));
            assert(!records_cover(plan.records@, kept as int)) by {
                if records_cover(plan.records@, kept as int) {
                    let i = choose|i: int|
                        0 <= i < plan.records@.len() && (#[trigger] plan.records@[i]).covers(
                            kept as int,
                        );
                    assert(plan.records@[i].id >= 2);
                }
            }
            assert(page_bytes(flushed, kept as int) == page_bytes(before, kept as int));
            assert((kept + 1) * 4096 <= before.len());
            assert(in_bounds(flushed.len(), kept as int));
            assert(meta_in(flushed, kept as int) == meta_in(before, kept as int));
        }
        self.write_meta(slot, &torn);
        proof {
            let last = self.data@;
            lemma_meta_written(flushed, slot as int, torn);
            lemma_database_spared(flushed, last, plan.root);
            lemma_freelist_spared(flushed, last, plan.freelist, plan.list);
            (Meta { checksum: 0, ..sealed }).lemma_torn_is_invalid();
            assert((Meta { checksum: 0, ..sealed }).body_bytes() == sealed.body_bytes());
            sealed.lemma_torn_is_invalid();
            assert(torn.spec_validate() is Err);
            assert(meta_in(last, slot as int) is Err);
            assert(meta_in(last, kept as int) == meta_in(before, kept as int));
            assert(sealed.valid());
            if tx.pins_list(before, active.freelist) && freelist_in(before, active.freelist) is Ok {
                lemma_stage_keeps_freelist(
                    before,
                    flushed,
                    last,
                    active.freelist,
                    plan.records@,
                    pages,
                );
            }
            if tx.pins(before, active.root) && database_in(before, active.root) is Ok {
                lemma_stage_keeps_database(
                    before,
                    flushed,
                    last,
                    active.root,
                    plan.records@,
                    pages,
                );
            }
        }
        self.staged = true;
        self.staged_meta = sealed;
        self.staged_list = plan.list;
        Ok(())
    }
}


impl Db {
    /// Takes the last step of a commit that `stage` has written: the
    /// checksum of the new meta record is written, which puts the record in
    /// force. From then on the file is opened from it. The place of the
    /// single writer is free again. Fails, and changes nothing, with
    /// `DatabaseNotOpen` on a database that is closed and with
    /// `TransactionReadOnly` when no commit is half written.
    pub fn seal(&mut self) -> (r: Result<(), Error>)
        requires
            old(self).wf(),
        ensures
            final(self).wf(),
            final(self).spec_settings() == old(self).spec_settings(),
            final(self).spec_path() == old(self).spec_path(),
            final(self).is_open() == old(self).is_open(),
            final(self).spec_readers() == old(self).spec_readers(),
            !old(self).is_open() ==> r == Err::<(), Error>(Error::DatabaseNotOpen),
            old(self).is_open() && old(self).staged_meta().is_none() ==> r == Err::<(), Error>(
                Error::TransactionReadOnly,
            ),
            old(self).is_open() && old(self).staged_meta().is_some() ==> r == Ok::<(), Error>(()),
            r is Err ==> final(self).same_file(old(self)) && final(self).writer_active() == old(
                self,
            ).writer_active() && final(self).list() == old(self).list(),
            r is Ok ==> {
                &&& final(self).active_meta() == old(self).staged_meta()->Some_0
                &&& final(self).spec_active() == 1 - old(self).spec_active()
                &&& final(self).staged_meta().is_none()
                &&& !final(self).writer_active()
                &&& same_but_meta(old(self).image(), final(self).image())
                &&& meta_in(final(self).image(), old(self).spec_active() as int) == meta_in(
                    old(self).image(),
                    old(self).spec_active() as int,
                )
                &&& final(self).list() == old(self).staged_list()
                &&& freelist_stored(
                    final(self).image(),
                    final(self).active_meta().freelist,
                    final(self).list(),
                )
            },
    {
        if !self.opened {
            return Err(Error::DatabaseNotOpen);
        }
        if !self.staged {
            return Err(Error::TransactionReadOnly);
        }
        let slot = 1 - self.active;
        let sealed = self.staged_meta;
        let ghost before = self.image();
        let ghost old_meta = self.active_meta();
        let ghost kept = self.active as int;
        self.write_meta(slot, &sealed);
        proof {
            lemma_meta_written(before, slot as int, sealed);
            lemma_freelist_spared(before, self.image(), sealed.freelist, self.staged_list);
            assert(meta_in(self.image(), slot as int) == Ok::<Meta, Error>(sealed));
            assert(meta_in(self.image(), kept) == Ok::<Meta, Error>(old_meta));
        }
        if slot == 0 {
            self.meta0 = sealed;
        } else {
            self.meta1 = sealed;
        }
        self.active = slot;
        std::mem::swap(&mut self.freelist, &mut self.staged_list);
        self.staged = false;
        self.writer = false;
        Ok(())
    }

    /// Commits the transaction `tx`: `stage` and then `seal`. Afterwards
    /// the database holds what the transaction held, and the file is opened
    /// from the meta record of this commit, with the freelist that the
    /// commit wrote. Fails as `stage` does, and leaves the file as it was;
    /// like `stage` it does not fail where none of the reasons of
    /// `plan_fails` holds and the image can hold a file of `commit_end`
    /// pages.
    pub fn commit(&mut self, tx: Transaction) -> (r: Result<(), Error>)
        requires
            old(self).wf(),
            tx.wf(),
        ensures
            final(self).wf(),
            final(self).spec_settings() == old(self).spec_settings(),
            final(self).spec_path() == old(self).spec_path(),
            final(self).is_open() == old(self).is_open(),
            old(self).stage_refused(&tx) matches Some(e) ==> r == Err::<(), Error>(e)
                && final(self).writer_active() == old(self).writer_active(),
            r is Err ==> final(self).same_file(old(self)) && final(self).list() == old(self).list(),
            r is Err && old(self).stage_refused(&tx).is_none() ==> !final(self).writer_active()
                && (r->Err_0 == Error::ValueTooLarge || r->Err_0 == Error::PageOutOfBounds),
            r is Err && old(self).stage_refused(&tx).is_none() && r->Err_0 == Error::ValueTooLarge
                ==> tx.plan_fails(spec_fill_threshold(old(self).spec_settings().fill_percent)),
            old(self).stage_refused(&tx).is_none() && has_oversized_bucket(
                tx.buckets(),
                spec_fill_threshold(old(self).spec_settings().fill_percent),
            ) ==> r is Err,
            old(self).stage_refused(&tx).is_none() && !tx.plan_fails(
                spec_fill_threshold(old(self).spec_settings().fill_percent),
            ) && old(self).can_hold(tx.commit_end()) ==> r is Ok,
            !tx.spec_writable() && old(self).is_open() ==> final(self).spec_readers()
                == drop_reader(old(self).spec_readers(), tx.spec_id()),
            tx.spec_writable() || !old(self).is_open() ==> final(self).spec_readers() == old(
                self,
            ).spec_readers(),
            r is Ok ==> {
                &&& old(self).stage_refused(&tx).is_none()
                &&& !final(self).writer_active()
                &&& final(self).staged_meta().is_none()
                &&& final(self).spec_active() == 1 - old(self).spec_active()
                &&& final(self).active_meta().transaction_id == tx.spec_id()
                &&& freelist_stored(
                    final(self).image(),
                    final(self).active_meta().freelist,
                    final(self).list(),
                )
                &&& tx.allocator().keeps_pending_in(final(self).list())
                &&& final(self).image().len() >= old(self).image().len()
                &&& database_in(final(self).image(), final(self).active_meta().root) matches Ok(
                    stored,
                ) && same_content(stored, tx.state())
            },
    {
        match self.stage(tx) {
            Ok(_) => {},
            Err(e) => {
                return Err(e);
            },
        }
        let ghost staged = self.image();
        let ghost root = self.staged_meta()->Some_0.root;
        let done = self.seal();
        proof {
            lemma_database_spared(staged, self.image(), root);
        }
        done
    }
}

} // verus!
