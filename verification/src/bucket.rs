//! A bucket: a named collection of keys and values. A small bucket lies
//! inline, in the value that its name has in the directory of buckets; one
//! that has outgrown that place has a record of its own.

use vstd::prelude::*;
use vstd::slice::slice_subrange;
use crate::constants::MAX_KEY_SIZE;
use crate::db::PageId;
use crate::enc::{
    append_bytes, get_le, le_bytes, le_value, lemma_le_bytes_len, lemma_number_read_back,
    lemma_pow256_values, push_le,
};
use crate::errors::Error;
use crate::freelist::PageAllocator;
use crate::node::{
    entries_map, Entry, has_key, leaf_payload, lemma_leaf_roundtrip, MAX_NODE_ENTRIES, Node,
    payload_len, sorted, spec_delete, spec_put, spec_put_fits, within_limits,
};
use crate::page::{Page, PAGE_HEADER_SIZE, PAGE_LEAF, PageHeader};
use crate::store::{PageArray, Record, Run, same_but_meta};
use crate::transaction::{MAX_RECORD_PAGES, planning};
use crate::tree::{
    extends, leaf_of, lemma_lookup_agrees, lemma_tree_spared, load_tree, lookup, lookup_in,
    oversized, plan_tree, tree_holds, tree_in, tree_runs, value_in, value_of,
};

verus! {

/// The number of bytes that the header of a bucket takes: the page of its
/// record and its sequence.
pub const BUCKET_HEADER_SIZE: usize = 16;

/// The most bytes that a bucket may take in the directory: a quarter of a
/// page. A bucket that needs more gets a record of its own.
pub const MAX_INLINE_BUCKET_SIZE: u64 = 1024;

/// A bucket as a mathematical value.
pub struct BucketView {
    /// The page where the record of the bucket starts; zero for a bucket
    /// that lies inline.
    pub root: PageId,
    /// The counter that `next_sequence` advances.
    pub sequence: u64,
    /// The entries, in the order of their keys.
    pub entries: Seq<Entry>,
}

/// The header of the page image of an inline bucket with `count` entries.
pub open spec fn inline_header(count: nat) -> PageHeader {
    PageHeader { id: 0, flags: PAGE_LEAF, count: count as u16, overflow: 0 }
}

/// The number of bytes that a bucket with entries `s` takes when it lies
/// inline.
pub open spec fn inline_size(s: Seq<Entry>) -> nat {
    (BUCKET_HEADER_SIZE + PAGE_HEADER_SIZE + payload_len(s)) as nat
}

/// The value that the name of a bucket has in the directory: the header of
/// the bucket, and behind it, for an inline bucket, the image of its page.
pub open spec fn bucket_value(b: BucketView) -> Seq<u8> {
    le_bytes(b.root as nat, 8) + le_bytes(b.sequence as nat, 8) + if b.root == 0 {
        inline_header(b.entries.len()).bytes() + leaf_payload(b.entries)
    } else {
        Seq::empty()
    }
}

/// The bucket that the value `value` of a name in the directory stands for,
/// in the image `data`, or what is wrong with it: `DatabaseInvalid` when the
/// value is too short for what it should hold; for the rest what reading
/// the inline leaf or the tree of the bucket finds.
pub open spec fn bucket_of(data: Seq<u8>, value: Seq<u8>) -> Result<BucketView, Error> {
    let root = le_value(value.subrange(0, 8)) as u64;
    let sequence = le_value(value.subrange(8, 16)) as u64;
    if value.len() < BUCKET_HEADER_SIZE {
        Err(Error::DatabaseInvalid)
    } else if root == 0 {
        if value.len() < BUCKET_HEADER_SIZE + PAGE_HEADER_SIZE {
            Err(Error::DatabaseInvalid)
        } else {
            match leaf_of(
                PageHeader::of_bytes(value.skip(BUCKET_HEADER_SIZE as int)),
                value.skip(BUCKET_HEADER_SIZE + PAGE_HEADER_SIZE),
            ) {
                Ok(entries) => Ok(BucketView { root, sequence, entries }),
                Err(e) => Err(e),
            }
        }
    } else {
        match tree_in(data, root) {
            Ok(entries) => Ok(BucketView { root, sequence, entries }),
            Err(e) => Err(e),
        }
    }
}

/// A bucket of a transaction.
#[derive(Debug)]
pub struct Bucket {
    name: Vec<u8>,
    root: PageId,
    sequence: u64,
    writable: bool,
    node: Node,
}

impl Bucket {
    /// The name of the bucket.
    pub closed spec fn spec_name(&self) -> Seq<u8> {
        self.name@
    }

    /// The page where the record of the bucket starts; zero for a bucket
    /// that lies inline.
    pub closed spec fn spec_root(&self) -> PageId {
        self.root
    }

    /// The counter that `next_sequence` advances.
    pub closed spec fn spec_sequence(&self) -> u64 {
        self.sequence
    }

    /// Whether the bucket belongs to a transaction that may write.
    pub closed spec fn spec_writable(&self) -> bool {
        self.writable
    }

    /// The entries, in the order of their keys.
    pub closed spec fn entries(&self) -> Seq<Entry> {
        self.node.entries()
    }

    /// The bucket as a map from key to value.
    pub open spec fn view(&self) -> Map<Seq<u8>, Seq<u8>> {
        entries_map(self.entries())
    }

    /// The bucket as a mathematical value.
    pub open spec fn state(&self) -> BucketView {
        BucketView { root: self.spec_root(), sequence: self.spec_sequence(), entries: self.entries() }
    }

    /// What holds of every bucket: its name is no longer than a key may be,
    /// its keys strictly ascend, keys and values are within the limits of
    /// the format, and as long as it lies inline it is small enough for
    /// that.
    pub open spec fn wf(&self) -> bool {
        &&& self.spec_name().len() <= MAX_KEY_SIZE
        &&& sorted(self.entries())
        &&& within_limits(self.entries())
        &&& self.entries().len() <= MAX_NODE_ENTRIES
        &&& self.spec_root() == 0 ==> inline_size(self.entries()) <= MAX_INLINE_BUCKET_SIZE
    }

    /// The name of the bucket.
    pub fn name(&self) -> (n: &Vec<u8>)
        ensures
            n@ == self.spec_name(),
    {
        &self.name
    }

    /// The page where the record of the bucket starts; zero for a bucket
    /// that lies inline.
    pub fn root_page_id(&self) -> (r: PageId)
        ensures
            r == self.spec_root(),
    {
        self.root
    }

    /// The counter that `next_sequence` advances.
    pub fn sequence(&self) -> (r: u64)
        ensures
            r == self.spec_sequence(),
    {
        self.sequence
    }

    /// Whether the bucket lies inline.
    pub fn is_inline(&self) -> (r: bool)
        ensures
            r == (self.spec_root() == 0),
    {
        self.root == 0
    }

    /// The number of keys in the bucket.
    pub fn len(&self) -> (n: usize)
        ensures
            n == self.entries().len(),
    {
        self.node.len()
    }

    /// The value that `key` has in the bucket, if it has one.
    pub fn get(&self, key: &[u8]) -> (r: Option<&Vec<u8>>)
        requires
            self.wf(),
        ensures
            match r {
                Some(v) => self@.contains_key(key@) && v@ == self@[key@],
                None => !self@.contains_key(key@),
            },
    {
        self.node.get(key)
    }

    /// A cursor over the entries of the bucket, placed on the first.
    pub fn cursor(&self) -> (c: Cursor<'_>)
        requires
            self.wf(),
        ensures
            c.wf(),
            c.entries() == self.entries(),
            c.position() == 0,
    {
        Cursor { node: &self.node, at: 0 }
    }

    /// The number of bytes that the bucket takes when it lies inline.
    pub fn inline_size(&self) -> (n: u64)
        requires
            self.wf(),
        ensures
            n == inline_size(self.entries()),
    {
        proof {
            crate::node::lemma_data_len_bound(self.entries(), self.entries().len());
            assert(self.entries().len() * (MAX_KEY_SIZE + crate::constants::MAX_VALUE_SIZE)
                <= 0xFFFF * (MAX_KEY_SIZE + crate::constants::MAX_VALUE_SIZE))
                by (nonlinear_arith)
                requires
                    self.entries().len() <= 0xFFFF,
            ;
        }
        (BUCKET_HEADER_SIZE + PAGE_HEADER_SIZE) as u64 + self.node.size()
    }
}

/// A place among the entries of a bucket, from which they are read one
/// after the other in the order of their keys.
#[derive(Debug)]
pub struct Cursor<'a> {
    node: &'a Node,
    at: usize,
}

impl<'a> Cursor<'a> {
    /// The entries that the cursor moves over.
    pub closed spec fn entries(&self) -> Seq<Entry> {
        self.node.entries()
    }

    /// The number of entries in front of the cursor.
    pub closed spec fn position(&self) -> nat {
        self.at as nat
    }

    /// What holds of every cursor: the keys it moves over strictly ascend.
    pub closed spec fn wf(&self) -> bool {
        self.node.wf()
    }

    /// Puts the cursor on the first entry.
    pub fn first(&mut self)
        requires
            old(self).wf(),
        ensures
            final(self).wf(),
            final(self).entries() == old(self).entries(),
            final(self).position() == 0,
    {
        self.at = 0;
    }

    /// Puts the cursor on the first entry whose key does not come before
    /// `key`, and says whether that entry has this very key.
    pub fn seek(&mut self, key: &[u8]) -> (found: bool)
        requires
            old(self).wf(),
        ensures
            final(self).wf(),
            final(self).entries() == old(self).entries(),
            final(self).position() <= final(self).entries().len(),
            forall|i: int|
                0 <= i < final(self).position() ==> crate::node::key_lt(
                    #[trigger] final(self).entries()[i].key,
                    key@,
                ),
            forall|i: int|
                final(self).position() <= i < final(self).entries().len() ==> !crate::node::key_lt(
                    #[trigger] final(self).entries()[i].key,
                    key@,
                ),
            found == has_key(final(self).entries(), key@),
    {
        let (found, at) = self.node.search(key);
        self.at = at;
        found
    }

    /// The entry that the cursor is on, and a step on to the next; `None`
    /// when the cursor is behind the last entry.
    pub fn next(&mut self) -> (r: Option<(&'a Vec<u8>, &'a Vec<u8>)>)
        requires
            old(self).wf(),
        ensures
            final(self).wf(),
            final(self).entries() == old(self).entries(),
            match r {
                Some(entry) => old(self).position() < old(self).entries().len() && entry.0@
                    == old(self).entries()[old(self).position() as int].key && entry.1@
                    == old(self).entries()[old(self).position() as int].value
                    && final(self).position() == old(self).position() + 1,
                None => old(self).position() >= old(self).entries().len()
                    && final(self).position() == old(self).position(),
            },
    {
        if self.at < self.node.len() {
            let inode = self.node.inode(self.at);
            self.at = self.at + 1;
            Some((&inode.key, &inode.value))
        } else {
            None
        }
    }
}


/// Whether `put` has room for the value `value` of key `key` in the bucket
/// with entries `s`.
pub open spec fn put_fits(s: Seq<Entry>, key: Seq<u8>, value: Seq<u8>) -> bool {
    spec_put_fits(s, key, value)
}

impl Bucket {
    /// A bucket without keys, which lies inline.
    pub fn new(name: Vec<u8>, writable: bool) -> (b: Bucket)
        requires
            name@.len() <= MAX_KEY_SIZE,
        ensures
            b.wf(),
            b.spec_name() == name@,
            b.spec_writable() == writable,
            b.state() == (BucketView { root: 0, sequence: 0, entries: Seq::empty() }),
    {
        let node = Node::new();
        proof {
            assert(payload_len(Seq::<Entry>::empty()) == 0) by {
                assert(crate::node::data_len(Seq::<Entry>::empty(), 0) == 0);
            }
        }
        Bucket { name, root: 0, sequence: 0, writable, node }
    }

    /// The value that the name of the bucket has in the directory.
    pub fn to_value(&self) -> (out: Vec<u8>)
        requires
            self.wf(),
        ensures
            out@ == bucket_value(self.state()),
    {
        let mut out: Vec<u8> = Vec::new();
        push_le(&mut out, self.root, 8);
        push_le(&mut out, self.sequence, 8);
        if self.root == 0 {
            let header = PageHeader {
                id: 0,
                flags: PAGE_LEAF,
                count: self.node.len() as u16,
                overflow: 0,
            };
            let bytes = header.to_bytes();
            append_bytes(&mut out, bytes.as_slice());
            match self.node.to_payload() {
                Ok(payload) => {
                    append_bytes(&mut out, payload.as_slice());
                },
                Err(_) => {},
            }
            proof {
                assert(out@ =~= bucket_value(self.state()));
            }
        } else {
            proof {
                assert(out@ =~= bucket_value(self.state()));
            }
        }
        out
    }

    /// Reads the bucket named `name` from the value `value` that the name
    /// has in the directory of the image in `pa`. Returns the bucket and
    /// the pages of the records of its tree. Fails with what `bucket_of`
    /// finds wrong, and with `DatabaseInvalid` when an inline bucket is
    /// larger than an inline bucket may be.
    pub fn load(pa: &PageArray, name: Vec<u8>, value: &[u8], writable: bool) -> (r: Result<
        (Bucket, Vec<Run>),
        Error,
    >)
        requires
            name@.len() <= MAX_KEY_SIZE,
        ensures
            match r {
                Ok(found) => {
                    &&& found.0.wf()
                    &&& found.0.spec_name() == name@
                    &&& found.0.spec_writable() == writable
                    &&& bucket_in(pa@, value@) == Ok::<BucketView, Error>(found.0.state())
                    &&& found.1@ == if found.0.spec_root() == 0 {
                        Seq::<Run>::empty()
                    } else {
                        tree_runs(pa@, found.0.spec_root())
                    }
                },
                Err(e) => bucket_in(pa@, value@) == Err::<BucketView, Error>(e),
            },
    {
        if value.len() < BUCKET_HEADER_SIZE {
            return Err(Error::DatabaseInvalid);
        }
        let root = get_le(value, 0, 8);
        let sequence = get_le(value, 8, 8);
        if root == 0 {
            if value.len() < BUCKET_HEADER_SIZE + PAGE_HEADER_SIZE {
                return Err(Error::DatabaseInvalid);
            }
            let header = match PageHeader::read(
                slice_subrange(value, BUCKET_HEADER_SIZE, value.len()),
            ) {
                Ok(h) => h,
                Err(e) => {
                    return Err(Error::DatabaseInvalid);
                },
            };
            if header.flags != PAGE_LEAF {
                return Err(Error::DatabaseInvalid);
            }
            let page = Page {
                header,
                data: slice_subrange(value, BUCKET_HEADER_SIZE + PAGE_HEADER_SIZE, value.len()),
            };
            let node = match Node::from_page(&page) {
                Ok(n) => n,
                Err(e) => {
                    return Err(e);
                },
            };
            let bucket = Bucket { name, root, sequence, writable, node };
            if bucket.node.size() > MAX_INLINE_BUCKET_SIZE - (BUCKET_HEADER_SIZE
                + PAGE_HEADER_SIZE) as u64 {
                return Err(Error::DatabaseInvalid);
            }
            Ok((bucket, Vec::new()))
        } else {
            let (node, runs) = match load_tree(pa, root) {
                Ok(found) => found,
                Err(e) => {
                    return Err(e);
                },
            };
            Ok((Bucket { name, root, sequence, writable, node }, runs))
        }
    }

    /// Whether `key` can be given the value `value` with the pages of
    /// `pages`: the transaction may write, key and value fit the format and
    /// the bucket, and a bucket that lies inline and would get too large
    /// for that can have a page.
    pub open spec fn can_put(&self, pages: PageAllocator, key: Seq<u8>, value: Seq<u8>) -> bool {
        &&& self.spec_writable()
        &&& put_fits(self.entries(), key, value)
        &&& self.spec_root() != 0 || inline_size(
            spec_put(self.entries(), Entry { flags: 0, key, value }),
        ) <= MAX_INLINE_BUCKET_SIZE || pages.has_room(1)
    }

    /// Gives `key` the value `value`, whether it had one or not. A bucket
    /// that lies inline and that would get too large for that gets a page
    /// from `pages` as the start of a record of its own, and no bucket ever
    /// goes back to lying inline. Fails, and changes nothing, with
    /// `TransactionReadOnly` in a transaction that may not write, and with
    /// `ValueTooLarge` when the key or the value is longer than the format
    /// allows, the bucket is full, or no page can be had.
    pub fn put(&mut self, pages: &mut PageAllocator, key: Vec<u8>, value: Vec<u8>) -> (r: Result<
        (),
        Error,
    >)
        requires
            old(self).wf(),
            old(pages).wf(),
        ensures
            final(self).wf(),
            final(pages).wf(),
            final(self).spec_name() == old(self).spec_name(),
            final(self).spec_writable() == old(self).spec_writable(),
            final(self).spec_sequence() == old(self).spec_sequence(),
            old(self).spec_root() != 0 ==> final(self).spec_root() == old(self).spec_root(),
            final(self).spec_root() != 0 ==> old(self).spec_root() != 0 || final(self).spec_root()
                >= 2,
            final(pages).list().pending_ids() == old(pages).list().pending_ids(),
            r is Err ==> final(self).state() == old(self).state() && final(pages).same_as(
                old(pages),
            ),
            !old(self).spec_writable() ==> r == Err::<(), Error>(Error::TransactionReadOnly),
            old(self).spec_writable() && !put_fits(old(self).entries(), key@, value@) ==> r
                == Err::<(), Error>(Error::ValueTooLarge),
            r is Err ==> r->Err_0 == Error::TransactionReadOnly || r->Err_0
                == Error::ValueTooLarge,
            r is Ok <==> old(self).can_put(*old(pages), key@, value@),
            r is Ok ==> {
                &&& final(self)@ == old(self)@.insert(key@, value@)
                &&& final(self).entries() == spec_put(
                    old(self).entries(),
                    Entry { flags: 0, key: key@, value: value@ },
                )
                &&& old(self).spec_root() == 0 ==> (final(self).spec_root() != 0 <==> inline_size(
                    final(self).entries(),
                ) > MAX_INLINE_BUCKET_SIZE)
                &&& old(self).spec_root() == 0 && final(self).spec_root() != 0 ==> old(pages).hands_out(final(pages), final(self).spec_root(), 1)
                &&& old(self).spec_root() != 0 || final(self).spec_root() == 0 ==> final(pages).same_as(old(pages))
            },
    {
        if !self.writable {
            return Err(Error::TransactionReadOnly);
        }
        if key.len() > MAX_KEY_SIZE as usize || value.len() > crate::constants::MAX_VALUE_SIZE as usize {
            return Err(Error::ValueTooLarge);
        }
        let (found, _) = self.node.search(key.as_slice());
        if !found && self.node.len() >= MAX_NODE_ENTRIES {
            return Err(Error::ValueTooLarge);
        }
        let ghost entry = Entry { flags: 0, key: key@, value: value@ };
        let after = self.node.size_with(key.as_slice(), value.len());
        proof {
            assert(after == payload_len(spec_put(self.entries(), entry)));
        }
        let mut root = self.root;
        if root == 0 && after > MAX_INLINE_BUCKET_SIZE - (BUCKET_HEADER_SIZE + PAGE_HEADER_SIZE) as u64 {
            root = match pages.allocate(1) {
                Ok(p) => p,
                Err(e) => {
                    return Err(Error::ValueTooLarge);
                },
            };
        }
        let done = self.node.put(0, key, value);
        self.root = root;
        Ok(())
    }

    /// Removes `key` and its value, and says whether the key was there. The
    /// bucket stays where it lies. Fails with `TransactionReadOnly`, and
    /// changes nothing, in a transaction that may not write.
    pub fn delete(&mut self, key: &[u8]) -> (r: Result<bool, Error>)
        requires
            old(self).wf(),
        ensures
            final(self).wf(),
            final(self).spec_name() == old(self).spec_name(),
            final(self).spec_writable() == old(self).spec_writable(),
            final(self).spec_sequence() == old(self).spec_sequence(),
            final(self).spec_root() == old(self).spec_root(),
            !old(self).spec_writable() ==> r == Err::<bool, Error>(Error::TransactionReadOnly)
                && final(self).state() == old(self).state(),
            old(self).spec_writable() ==> r == Ok::<bool, Error>(old(self)@.contains_key(key@))
                && final(self)@ == old(self)@.remove(key@) && final(self).entries()
                == spec_delete(old(self).entries(), key@),
    {
        if !self.writable {
            return Err(Error::TransactionReadOnly);
        }
        Ok(self.node.delete(key))
    }

    /// Advances the sequence of the bucket by one and returns it. Fails,
    /// and changes nothing, with `TransactionReadOnly` in a transaction
    /// that may not write, and with `ValueTooLarge` when the sequence is at
    /// its end.
    pub fn next_sequence(&mut self) -> (r: Result<u64, Error>)
        requires
            old(self).wf(),
        ensures
            final(self).wf(),
            final(self).spec_name() == old(self).spec_name(),
            final(self).spec_writable() == old(self).spec_writable(),
            final(self).spec_root() == old(self).spec_root(),
            final(self).entries() == old(self).entries(),
            !old(self).spec_writable() ==> r == Err::<u64, Error>(Error::TransactionReadOnly)
                && final(self).spec_sequence() == old(self).spec_sequence(),
            old(self).spec_writable() && old(self).spec_sequence() == u64::MAX ==> r == Err::<
                u64,
                Error,
            >(Error::ValueTooLarge) && final(self).spec_sequence() == old(self).spec_sequence(),
            old(self).spec_writable() && old(self).spec_sequence() < u64::MAX ==> r == Ok::<
                u64,
                Error,
            >((old(self).spec_sequence() + 1) as u64) && final(self).spec_sequence() == old(self).spec_sequence() + 1,
    {
        if !self.writable {
            return Err(Error::TransactionReadOnly);
        }
        if self.sequence == u64::MAX {
            return Err(Error::ValueTooLarge);
        }
        self.sequence = self.sequence + 1;
        Ok(self.sequence)
    }
}

/// The bucket that the value `value` of a name in the directory stands for,
/// in the image `data`, as `Bucket::load` reads it: what `bucket_of` finds,
/// but `DatabaseInvalid` for an inline bucket that is larger than an inline
/// bucket may be.
pub open spec fn bucket_in(data: Seq<u8>, value: Seq<u8>) -> Result<BucketView, Error> {
    match bucket_of(data, value) {
        Ok(b) => if b.root == 0 && inline_size(b.entries) > MAX_INLINE_BUCKET_SIZE {
            Err(Error::DatabaseInvalid)
        } else {
            Ok(b)
        },
        Err(e) => Err(e),
    }
}


impl BucketView {
    /// What holds of the view of every bucket: its keys strictly ascend,
    /// keys and values are within the limits of the format, there are no
    /// more entries than a page can count, and as long as it lies inline it
    /// is small enough for that.
    pub open spec fn wf(self) -> bool {
        &&& sorted(self.entries)
        &&& within_limits(self.entries)
        &&& self.entries.len() <= MAX_NODE_ENTRIES
        &&& self.root == 0 ==> inline_size(self.entries) <= MAX_INLINE_BUCKET_SIZE
    }

}

/// An inline bucket is read back from its value in the directory as it was.
pub proof fn lemma_inline_bucket_read_back(data: Seq<u8>, b: BucketView)
    requires
        b.wf(),
        b.root == 0,
    ensures
        bucket_in(data, bucket_value(b)) == Ok::<BucketView, Error>(b),
{
    let value = bucket_value(b);
    let header = inline_header(b.entries.len());
    let payload = leaf_payload(b.entries);
    lemma_pow256_values();
    lemma_le_bytes_len(b.root as nat, 8);
    lemma_le_bytes_len(b.sequence as nat, 8);
    header.lemma_bytes_len();
    lemma_number_read_back(b.root as nat, 8, value, 0);
    lemma_number_read_back(b.sequence as nat, 8, value, 8);
    assert(value.skip(BUCKET_HEADER_SIZE as int) =~= header.bytes() + payload);
    header.lemma_of_bytes(payload);
    assert(value.skip(BUCKET_HEADER_SIZE + PAGE_HEADER_SIZE) =~= payload + Seq::<u8>::empty());
    lemma_leaf_roundtrip(b.entries, Seq::<u8>::empty());
}

/// A bucket with a tree of its own is read back as it was from its value
/// in the directory and an image that gives the entries of the bucket from
/// the root of the tree.
pub proof fn lemma_paged_bucket_read_back(data: Seq<u8>, b: BucketView)
    requires
        b.wf(),
        b.root != 0,
        tree_in(data, b.root) == Ok::<Seq<Entry>, Error>(b.entries),
    ensures
        bucket_in(data, bucket_value(b)) == Ok::<BucketView, Error>(b),
{
    let value = bucket_value(b);
    lemma_pow256_values();
    lemma_le_bytes_len(b.root as nat, 8);
    lemma_le_bytes_len(b.sequence as nat, 8);
    assert(value =~= le_bytes(b.root as nat, 8) + le_bytes(b.sequence as nat, 8));
    lemma_number_read_back(b.root as nat, 8, value, 0);
    lemma_number_read_back(b.sequence as nat, 8, value, 8);
}

impl Bucket {
    /// Plans the tree of the bucket for a commit, as `plan_tree` does for
    /// its entries.
    pub fn plan(
        &self,
        threshold: u64,
        pages: &mut PageAllocator,
        records: &mut Vec<Record>,
        Ghost(start): Ghost<PageAllocator>,
    ) -> (r: Result<PageId, Error>)
        requires
            self.wf(),
            planning(start, *old(pages), old(records)@),
        ensures
            final(pages).wf(),
            r is Err ==> r->Err_0 == Error::ValueTooLarge && (oversized(
                self.entries(),
                threshold as nat,
            ) || old(pages).spec_next_page() + 0x1_0000 * MAX_RECORD_PAGES > u64::MAX),
            oversized(self.entries(), threshold as nat) ==> r is Err,
            r matches Ok(root) ==> {
                &&& root >= 2
                &&& planning(start, *final(pages), final(records)@)
                &&& extends(old(records)@, final(records)@)
                &&& final(records)@.len() <= old(records)@.len() + 0x1_0000
                &&& tree_holds(final(records)@, root, self.entries())
                &&& final(pages).spec_next_page() <= old(pages).spec_next_page() + (final(records)@.len() - old(records)@.len()) * MAX_RECORD_PAGES
                &&& (final(pages).spec_next_page() - old(pages).spec_next_page())
                    * crate::store::PAGE_DATA_SIZE <= crate::tree::tree_bytes(self.entries())
            },
    {
        plan_tree(&self.node, threshold, pages, records, Ghost(start))
    }

    /// Moves the record of a bucket that does not lie inline to page
    /// `root`.
    pub fn set_root(&mut self, root: PageId)
        requires
            old(self).wf(),
            old(self).spec_root() != 0,
            root != 0,
        ensures
            final(self).wf(),
            final(self).spec_name() == old(self).spec_name(),
            final(self).spec_writable() == old(self).spec_writable(),
            final(self).state() == (BucketView { root, ..old(self).state() }),
    {
        self.root = root;
    }

    /// The view of a well-formed bucket is well formed.
    pub proof fn lemma_state_wf(&self)
        requires
            self.wf(),
        ensures
            self.state().wf(),
    {
    }
}


/// A bucket is read alike from images that differ in the meta pages only.
pub proof fn lemma_bucket_spared(a: Seq<u8>, b: Seq<u8>, value: Seq<u8>)
    requires
        same_but_meta(a, b),
        bucket_in(a, value) is Ok,
    ensures
        bucket_in(b, value) == bucket_in(a, value),
{
    let root = le_value(value.subrange(0, 8)) as u64;
    if root != 0 {
        lemma_tree_spared(a, b, root);
    }
}


/// What looking `key` up finds in the bucket that the value `value` of a
/// name in the directory stands for, in the image `data`: the value that
/// the key has in the inline leaf, or what looking it up in the tree of
/// the bucket finds. Otherwise what is wrong on the way, as for
/// `bucket_in`.
pub open spec fn bucket_lookup_in(data: Seq<u8>, value: Seq<u8>, key: Seq<u8>) -> Result<
    Option<Seq<u8>>,
    Error,
> {
    let root = le_value(value.subrange(0, 8)) as u64;
    if value.len() < BUCKET_HEADER_SIZE {
        Err(Error::DatabaseInvalid)
    } else if root == 0 {
        match bucket_in(data, value) {
            Ok(b) => Ok(value_of(b.entries, key)),
            Err(e) => Err(e),
        }
    } else {
        lookup_in(data, root, key)
    }
}

/// Looks `key` up in the bucket that the value `value` of a name in the
/// directory of the image in `pa` stands for, without reading more of the
/// bucket than the way to the key. Fails with what `bucket_lookup_in`
/// finds wrong on the way.
pub fn bucket_lookup(pa: &PageArray, value: &[u8], key: &[u8]) -> (r: Result<
    Option<Vec<u8>>,
    Error,
>)
    ensures
        match r {
            Ok(Some(v)) => bucket_lookup_in(pa@, value@, key@) == Ok::<Option<Seq<u8>>, Error>(
                Some(v@),
            ),
            Ok(None) => bucket_lookup_in(pa@, value@, key@) == Ok::<Option<Seq<u8>>, Error>(None),
            Err(e) => bucket_lookup_in(pa@, value@, key@) == Err::<Option<Seq<u8>>, Error>(e),
        },
{
    if value.len() < BUCKET_HEADER_SIZE {
        return Err(Error::DatabaseInvalid);
    }
    let root = get_le(value, 0, 8);
    if root == 0 {
        let mut name: Vec<u8> = Vec::new();
        match Bucket::load(pa, name, value, false) {
            Ok(found) => Ok(value_in(&found.0.node, key)),
            Err(e) => Err(e),
        }
    } else {
        lookup(pa, root, key)
    }
}

/// Looking a key up in a bucket finds what the key has in the bucket as it
/// is read whole.
pub proof fn lemma_bucket_lookup_agrees(data: Seq<u8>, value: Seq<u8>, key: Seq<u8>)
    requires
        bucket_in(data, value) is Ok,
    ensures
        bucket_lookup_in(data, value, key) == Ok::<Option<Seq<u8>>, Error>(
            value_of(bucket_in(data, value)->Ok_0.entries, key),
        ),
{
    let root = le_value(value.subrange(0, 8)) as u64;
    if root != 0 {
        lemma_lookup_agrees(data, root, key);
    }
}

} // verus!
