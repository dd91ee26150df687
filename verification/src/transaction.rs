//! A transaction: a view of the database as one commit left it, and, in a
//! transaction that may write, the changes that the next commit will make.

use vstd::prelude::*;
use crate::bucket::{
    Bucket, bucket_in, bucket_lookup, bucket_lookup_in, bucket_value, BucketView,
    lemma_bucket_lookup_agrees, lemma_bucket_spared, lemma_inline_bucket_read_back,
    lemma_paged_bucket_read_back,
};
use crate::constants::MAX_KEY_SIZE;
use crate::db::{Meta, PageId, TransactionId};
use crate::enc::append_bytes;
use crate::errors::Error;
use crate::freelist::{
    ascending, Freelist, freelist_count, freelist_payload, freelist_to_payload, PageAllocator,
};
use crate::node::{
    compare_keys, entries_map, Entry, has_key, index_of_key, KeyOrder, leaf_check, leaf_entries,
    leaf_payload, lemma_key_lt_irreflexive, lemma_leaf_roundtrip, lemma_sorted_place,
    MAX_NODE_ENTRIES, Node, payload_len, sorted, within_limits,
};
use crate::page::{BUCKET_LEAF_FLAG, Page, PAGE_BUCKET_LEAF, PageKind};
use crate::store::{
    in_bounds, lemma_record_data_frame, lemma_record_data_spared, lemma_record_found,
    lemma_record_in_bounds, padded, page_bytes, page_count_for, PageArray, Record, record_check,
    record_data, records_apart, records_within, Run, run_of, runs_cover, same_but_meta,
};
use crate::tree::{
    extends, lemma_tree_holds_more, lemma_tree_kept, lemma_tree_runs_in_bounds, oversized,
    tree_holds, tree_in, tree_runs, value_of,
};

verus! {

/// What a transaction has done so far, in numbers.
#[derive(Debug, Copy, Clone, PartialEq, Eq, Structural)]
pub struct TxStats {
    /// The number of pages that the transaction has asked for, as far as
    /// the counter reaches.
    pub page_count: u32,
}

/// A read-only or read-write transaction on the database. A transaction
/// works on its own copy of what its snapshot reaches, taken when it begins,
/// so that no later commit changes what it sees.
#[derive(Debug)]
pub struct Transaction {
    id: TransactionId,
    writable: bool,
    meta: Meta,
    buckets: Vec<Bucket>,
    pages: PageAllocator,
    stats: TxStats,
}

/// Whether some bucket of `s` is named `name`.
pub open spec fn has_bucket(s: Seq<Bucket>, name: Seq<u8>) -> bool {
    exists|i: int| 0 <= i < s.len() && #[trigger] s[i].spec_name() == name
}

/// The place of a bucket of `s` that is named `name`.
pub open spec fn bucket_index(s: Seq<Bucket>, name: Seq<u8>) -> int {
    choose|i: int| 0 <= i < s.len() && #[trigger] s[i].spec_name() == name
}

/// Whether no two buckets of `s` have the same name.
pub open spec fn distinct_names(s: Seq<Bucket>) -> bool {
    forall|i: int, j: int|
        0 <= i < j < s.len() ==> (#[trigger] s[i]).spec_name() != (#[trigger] s[j]).spec_name()
}

/// The buckets `s` as a map from name to bucket.
pub open spec fn buckets_map(s: Seq<Bucket>) -> Map<Seq<u8>, BucketView> {
    Map::new(|name: Seq<u8>| has_bucket(s, name), |name: Seq<u8>| s[bucket_index(s, name)].state())
}

/// Among buckets with distinct names a name has one place only.
pub proof fn lemma_bucket_place(s: Seq<Bucket>, i: int)
    requires
        distinct_names(s),
        0 <= i < s.len(),
    ensures
        has_bucket(s, s[i].spec_name()),
        bucket_index(s, s[i].spec_name()) == i,
{
    let j = bucket_index(s, s[i].spec_name());
    if j < i {
        assert(s[j].spec_name() != s[i].spec_name());
    } else if i < j {
        assert(s[i].spec_name() != s[j].spec_name());
    }
}

impl Transaction {
    /// The number of the transaction: for one that may write, the number
    /// that its commit will carry; for one that only reads, the number of
    /// the commit that it sees.
    pub closed spec fn spec_id(&self) -> TransactionId {
        self.id
    }

    /// Whether the transaction may write.
    pub closed spec fn spec_writable(&self) -> bool {
        self.writable
    }

    /// The meta record that the transaction started from.
    pub closed spec fn spec_meta(&self) -> Meta {
        self.meta
    }

    /// The buckets of the transaction.
    pub closed spec fn buckets(&self) -> Seq<Bucket> {
        self.buckets@
    }

    /// Where the transaction gets pages from.
    pub closed spec fn allocator(&self) -> PageAllocator {
        self.pages
    }

    /// The numbers of the transaction.
    pub closed spec fn spec_stats(&self) -> TxStats {
        self.stats
    }

    /// The transaction as a map from the names of its buckets to the
    /// buckets.
    pub open spec fn state(&self) -> Map<Seq<u8>, BucketView> {
        buckets_map(self.buckets())
    }

    /// What holds of every transaction: its buckets are well formed, have
    /// distinct names and may write exactly if the transaction may, there
    /// are no more of them than a directory page can count, and its
    /// allocator is well formed.
    pub open spec fn wf(&self) -> bool {
        &&& self.allocator().wf()
        &&& distinct_names(self.buckets())
        &&& self.buckets().len() <= MAX_NODE_ENTRIES
        &&& forall|i: int|
            0 <= i < self.buckets().len() ==> (#[trigger] self.buckets()[i]).wf()
                && self.buckets()[i].spec_writable() == self.spec_writable()
    }

    /// The number of the transaction.
    pub fn id(&self) -> (r: TransactionId)
        ensures
            r == self.spec_id(),
    {
        self.id
    }

    /// Whether the transaction may write.
    pub fn writable(&self) -> (r: bool)
        ensures
            r == self.spec_writable(),
    {
        self.writable
    }

    /// The meta record that the transaction started from.
    pub fn meta(&self) -> (r: Meta)
        ensures
            r == self.spec_meta(),
    {
        self.meta
    }

    /// The numbers of the transaction.
    pub fn stats(&self) -> (r: TxStats)
        ensures
            r == self.spec_stats(),
    {
        self.stats
    }

    /// The number of buckets.
    pub fn bucket_count(&self) -> (n: usize)
        ensures
            n == self.buckets().len(),
    {
        self.buckets.len()
    }

    /// The place of the bucket named `name` among the buckets, if there is
    /// one.
    pub fn find(&self, name: &[u8]) -> (r: Option<usize>)
        requires
            self.wf(),
        ensures
            match r {
                Some(i) => has_bucket(self.buckets(), name@) && i == bucket_index(
                    self.buckets(),
                    name@,
                ) && i < self.buckets().len() && self.buckets()[i as int].spec_name() == name@,
                None => !has_bucket(self.buckets(), name@),
            },
    {
        let mut i: usize = 0;
        while i < self.buckets.len()
            invariant
                i <= self.buckets@.len(),
                self.wf(),
                forall|j: int| 0 <= j < i ==> (#[trigger] self.buckets@[j]).spec_name() != name@,
            decreases self.buckets@.len() - i,
        {
            match compare_keys(self.buckets[i].name().as_slice(), name) {
                KeyOrder::Equal => {
                    proof {
                        lemma_bucket_place(self.buckets(), i as int);
                    }
                    return Some(i);
                },
                _ => {},
            }
            i += 1;
        }
        None
    }

    /// The bucket named `name`, if there is one.
    pub fn bucket(&self, name: &[u8]) -> (r: Option<&Bucket>)
        requires
            self.wf(),
        ensures
            match r {
                Some(b) => self.state().contains_key(name@) && b.state() == self.state()[name@]
                    && b.wf() && b.spec_name() == name@ && b.spec_writable()
                    == self.spec_writable(),
                None => !self.state().contains_key(name@),
            },
    {
        match self.find(name) {
            Some(i) => Some(&self.buckets[i]),
            None => None,
        }
    }

    /// The value that `key` has in the bucket named `bucket`. Fails with
    /// `BucketNotFound` when there is no such bucket.
    pub fn get(&self, bucket: &[u8], key: &[u8]) -> (r: Result<Option<&Vec<u8>>, Error>)
        requires
            self.wf(),
        ensures
            match r {
                Ok(Some(v)) => self.state().contains_key(bucket@) && entries_of(
                    self.state()[bucket@],
                ).contains_key(key@) && v@ == entries_of(self.state()[bucket@])[key@],
                Ok(None) => self.state().contains_key(bucket@) && !entries_of(
                    self.state()[bucket@],
                ).contains_key(key@),
                Err(e) => e == Error::BucketNotFound && !self.state().contains_key(bucket@),
            },
    {
        match self.bucket(bucket) {
            Some(b) => Ok(b.get(key)),
            None => Err(Error::BucketNotFound),
        }
    }
}

/// The keys and values of a bucket as a map.
pub open spec fn entries_of(b: BucketView) -> Map<Seq<u8>, Seq<u8>> {
    crate::node::entries_map(b.entries)
}


/// Another bucket of the same name in place of a bucket keeps the names
/// distinct and sets the name's bucket in the map.
pub proof fn lemma_replace_bucket(s: Seq<Bucket>, at: int, b: Bucket)
    requires
        distinct_names(s),
        0 <= at < s.len(),
        s[at].spec_name() == b.spec_name(),
    ensures
        distinct_names(s.update(at, b)),
        buckets_map(s.update(at, b)) == buckets_map(s).insert(b.spec_name(), b.state()),
{
    let t = s.update(at, b);
    assert forall|i: int, j: int| 0 <= i < j < t.len() implies (#[trigger] t[i]).spec_name() != (
    #[trigger] t[j]).spec_name() by {
        assert(s[i].spec_name() != s[j].spec_name());
    }
    assert forall|name: Seq<u8>| has_bucket(t, name) <==> (name == b.spec_name() || has_bucket(
        s,
        name,
    )) by {
        if has_bucket(t, name) {
            let i = bucket_index(t, name);
            assert(s[i].spec_name() == name);
        }
        if has_bucket(s, name) {
            let i = bucket_index(s, name);
            assert(t[i].spec_name() == name);
        }
        if name == b.spec_name() {
            assert(t[at].spec_name() == name);
            assert(s[at].spec_name() == name);
        }
    }
    assert forall|name: Seq<u8>| has_bucket(t, name) implies #[trigger] buckets_map(t)[name]
        == buckets_map(s).insert(b.spec_name(), b.state())[name] by {
        let i = bucket_index(t, name);
        lemma_bucket_place(t, i);
        if i != at {
            lemma_bucket_place(s, i);
            lemma_bucket_place(s, at);
        }
    }
    assert(buckets_map(t) =~= buckets_map(s).insert(b.spec_name(), b.state()));
}

/// A bucket with a new name behind the others keeps the names distinct and
/// adds the bucket to the map.
pub proof fn lemma_push_bucket(s: Seq<Bucket>, b: Bucket)
    requires
        distinct_names(s),
        !has_bucket(s, b.spec_name()),
    ensures
        distinct_names(s.push(b)),
        buckets_map(s.push(b)) == buckets_map(s).insert(b.spec_name(), b.state()),
{
    let t = s.push(b);
    let at = s.len() as int;
    assert forall|i: int, j: int| 0 <= i < j < t.len() implies (#[trigger] t[i]).spec_name() != (
    #[trigger] t[j]).spec_name() by {
        if j < at {
            assert(s[i].spec_name() != s[j].spec_name());
        } else {
            assert(s[i].spec_name() == t[i].spec_name());
        }
    }
    assert forall|name: Seq<u8>| has_bucket(t, name) <==> (name == b.spec_name() || has_bucket(
        s,
        name,
    )) by {
        if has_bucket(t, name) {
            let i = bucket_index(t, name);
            if i < at {
                assert(s[i].spec_name() == name);
            }
        }
        if has_bucket(s, name) {
            let i = bucket_index(s, name);
            assert(t[i].spec_name() == name);
        }
        if name == b.spec_name() {
            assert(t[at].spec_name() == name);
        }
    }
    assert forall|name: Seq<u8>| has_bucket(t, name) implies #[trigger] buckets_map(t)[name]
        == buckets_map(s).insert(b.spec_name(), b.state())[name] by {
        let i = bucket_index(t, name);
        lemma_bucket_place(t, i);
        if i < at {
            assert(s[i].spec_name() == name);
            lemma_bucket_place(s, i);
        }
    }
    assert(buckets_map(t) =~= buckets_map(s).insert(b.spec_name(), b.state()));
}

/// Taking a bucket out keeps the names distinct and takes its name out of
/// the map.
pub proof fn lemma_remove_bucket(s: Seq<Bucket>, at: int)
    requires
        distinct_names(s),
        0 <= at < s.len(),
    ensures
        distinct_names(s.remove(at)),
        buckets_map(s.remove(at)) == buckets_map(s).remove(s[at].spec_name()),
{
    let t = s.remove(at);
    let gone = s[at].spec_name();
    assert forall|i: int, j: int| 0 <= i < j < t.len() implies (#[trigger] t[i]).spec_name() != (
    #[trigger] t[j]).spec_name() by {
        let a = if i < at {
            i
        } else {
            i + 1
        };
        let b = if j < at {
            j
        } else {
            j + 1
        };
        assert(s[a].spec_name() != s[b].spec_name());
    }
    assert forall|name: Seq<u8>| has_bucket(t, name) <==> (name != gone && has_bucket(s, name)) by {
        if has_bucket(t, name) {
            let i = bucket_index(t, name);
            let a = if i < at {
                i
            } else {
                i + 1
            };
            assert(s[a].spec_name() == name);
            lemma_bucket_place(s, a);
            lemma_bucket_place(s, at);
        }
        if has_bucket(s, name) && name != gone {
            let a = bucket_index(s, name);
            let i = if a < at {
                a
            } else {
                a - 1
            };
            assert(t[i].spec_name() == name);
        }
    }
    assert forall|name: Seq<u8>| has_bucket(t, name) implies #[trigger] buckets_map(t)[name]
        == buckets_map(s).remove(gone)[name] by {
        let i = bucket_index(t, name);
        lemma_bucket_place(t, i);
        let a = if i < at {
            i
        } else {
            i + 1
        };
        lemma_bucket_place(s, a);
    }
    assert(buckets_map(t) =~= buckets_map(s).remove(gone));
}

impl Transaction {
    /// Whether this transaction and `other` are alike in all but their
    /// buckets and the pages they hold.
    pub open spec fn same_frame(&self, other: &Transaction) -> bool {
        &&& self.spec_id() == other.spec_id()
        &&& self.spec_writable() == other.spec_writable()
        &&& self.spec_meta() == other.spec_meta()
    }

    /// Finds the bucket named `name`, or makes it when there is none, the
    /// transaction may write and `auto_create` is set; the new bucket is
    /// empty and lies inline. Says whether the transaction has a bucket of
    /// that name afterwards. Fails with `ValueTooLarge`, and changes
    /// nothing, when a bucket would have to be made and the name is longer
    /// than `MAX_KEY_SIZE` or the transaction has `MAX_NODE_ENTRIES`
    /// buckets already.
    pub fn open_bucket(&mut self, name: &[u8], auto_create: bool) -> (r: Result<bool, Error>)
        requires
            old(self).wf(),
        ensures
            final(self).wf(),
            final(self).same_frame(old(self)),
            final(self).spec_stats() == old(self).spec_stats(),
            final(self).allocator() == old(self).allocator(),
            old(self).state().contains_key(name@) ==> r == Ok::<bool, Error>(true)
                && final(self).buckets() == old(self).buckets(),
            !old(self).state().contains_key(name@) && !(old(self).spec_writable() && auto_create)
                ==> r == Ok::<bool, Error>(false) && final(self).buckets() == old(self).buckets(),
            !old(self).state().contains_key(name@) && old(self).spec_writable() && auto_create
                ==> if name@.len() <= MAX_KEY_SIZE && old(self).buckets().len() < MAX_NODE_ENTRIES {
                r == Ok::<bool, Error>(true) && final(self).state() == old(self).state().insert(
                    name@,
                    BucketView { root: 0, sequence: 0, entries: Seq::empty() },
                )
            } else {
                r == Err::<bool, Error>(Error::ValueTooLarge) && final(self).buckets() == old(self).buckets()
            },
    {
        match self.find(name) {
            Some(_) => Ok(true),
            None => {
                if !(self.writable && auto_create) {
                    return Ok(false);
                }
                if name.len() > MAX_KEY_SIZE as usize || self.buckets.len() >= MAX_NODE_ENTRIES {
                    return Err(Error::ValueTooLarge);
                }
                let mut copy: Vec<u8> = Vec::new();
                append_bytes(&mut copy, name);
                proof {
                    assert(copy@ =~= name@);
                }
                let bucket = Bucket::new(copy, true);
                proof {
                    lemma_push_bucket(self.buckets(), bucket);
                }
                self.buckets.push(bucket);
                Ok(true)
            },
        }
    }

    /// Removes the bucket named `name` with all its keys, and says whether
    /// there was one. Fails with `TransactionReadOnly`, and changes
    /// nothing, in a transaction that may not write.
    pub fn delete_bucket(&mut self, name: &[u8]) -> (r: Result<bool, Error>)
        requires
            old(self).wf(),
        ensures
            final(self).wf(),
            final(self).same_frame(old(self)),
            final(self).spec_stats() == old(self).spec_stats(),
            final(self).allocator() == old(self).allocator(),
            !old(self).spec_writable() ==> r == Err::<bool, Error>(Error::TransactionReadOnly)
                && final(self).buckets() == old(self).buckets(),
            old(self).spec_writable() ==> r == Ok::<bool, Error>(
                old(self).state().contains_key(name@),
            ) && final(self).state() == old(self).state().remove(name@),
    {
        if !self.writable {
            return Err(Error::TransactionReadOnly);
        }
        match self.find(name) {
            Some(i) => {
                proof {
                    lemma_remove_bucket(self.buckets(), i as int);
                }
                let gone = self.buckets.remove(i);
                Ok(true)
            },
            None => {
                proof {
                    assert(self.state() =~= self.state().remove(name@));
                }
                Ok(false)
            },
        }
    }

    /// Whether `key` can be given the value `value` in the bucket named
    /// `bucket`: there is such a bucket, the transaction may write, key and
    /// value fit the format and the bucket, and a bucket that lies inline
    /// and would get too large for that can have a page.
    pub open spec fn can_put(&self, bucket: Seq<u8>, key: Seq<u8>, value: Seq<u8>) -> bool {
        &&& self.state().contains_key(bucket)
        &&& self.spec_writable()
        &&& crate::bucket::put_fits(self.state()[bucket].entries, key, value)
        &&& self.state()[bucket].root != 0 || crate::bucket::inline_size(
            crate::node::spec_put(self.state()[bucket].entries, Entry { flags: 0, key, value }),
        ) <= crate::bucket::MAX_INLINE_BUCKET_SIZE || self.allocator().has_room(1)
    }

    /// Gives `key` the value `value` in the bucket named `bucket`. A bucket
    /// that lies inline and that gets too large for that is given the
    /// number of a page of its own; what it holds is written to a record in
    /// the commit. Fails, and changes nothing, with `BucketNotFound` when
    /// there is no such bucket, with `TransactionReadOnly` in a transaction
    /// that may not write, and with `ValueTooLarge` when the key or the
    /// value is longer than the format allows, the bucket is full, or no
    /// page can be had.
    pub fn put(&mut self, bucket: &[u8], key: Vec<u8>, value: Vec<u8>) -> (r: Result<(), Error>)
        requires
            old(self).wf(),
        ensures
            final(self).wf(),
            final(self).same_frame(old(self)),
            old(self).allocator().keeps_pending(&final(self).allocator()),
            r is Err ==> final(self).state() == old(self).state() && final(self).spec_stats()
                == old(self).spec_stats(),
            r is Ok ==> final(self).spec_stats().page_count == if old(self).state()[bucket@].root == 0 && final(self).state()[bucket@].root != 0 && old(self).spec_stats().page_count < u32::MAX {
                (old(self).spec_stats().page_count + 1) as u32
            } else {
                old(self).spec_stats().page_count
            },
            !old(self).state().contains_key(bucket@) ==> r == Err::<(), Error>(
                Error::BucketNotFound,
            ),
            old(self).state().contains_key(bucket@) && !old(self).spec_writable() ==> r == Err::<
                (),
                Error,
            >(Error::TransactionReadOnly),
            old(self).state().contains_key(bucket@) && old(self).spec_writable()
                && !crate::bucket::put_fits(old(self).state()[bucket@].entries, key@, value@)
                ==> r == Err::<(), Error>(Error::ValueTooLarge),
            r is Err ==> r->Err_0 == Error::BucketNotFound || r->Err_0
                == Error::TransactionReadOnly || r->Err_0 == Error::ValueTooLarge,
            r is Ok <==> old(self).can_put(bucket@, key@, value@),
            r is Ok ==> {
                let before = old(self).state()[bucket@];
                let after = final(self).state()[bucket@];
                &&& old(self).state().contains_key(bucket@)
                &&& final(self).state() == old(self).state().insert(bucket@, after)
                &&& after.entries == crate::node::spec_put(
                    before.entries,
                    Entry { flags: 0, key: key@, value: value@ },
                )
                &&& entries_of(after) == entries_of(before).insert(key@, value@)
                &&& after.sequence == before.sequence
                &&& before.root != 0 ==> after.root == before.root
                &&& before.root == 0 ==> (after.root != 0 <==> crate::bucket::inline_size(
                    after.entries,
                ) > crate::bucket::MAX_INLINE_BUCKET_SIZE)
            },
    {
        let at = match self.find(bucket) {
            Some(i) => i,
            None => {
                return Err(Error::BucketNotFound);
            },
        };
        let ghost before = self.buckets();
        proof {
            lemma_bucket_place(before, at as int);
        }
        let old_root = self.buckets[at].root_page_id();
        let ghost was = self.pages;
        let done = self.buckets[at].put(&mut self.pages, key, value);
        proof {
            crate::freelist::lemma_held_alike(was.list(), self.pages.list());
        }
        let new_root = self.buckets[at].root_page_id();
        let failed = done.is_err();
        let ghost b = self.buckets()[at as int];
        if !failed && old_root == 0 && new_root != 0 {
            let ghost held = self.pages;
            proof {
                assert(held.in_use(new_root));
                assert(held.can_free(new_root, 0)) by {
                    assert forall|k: int| 0 <= k <= 0 implies held.in_use(
                        #[trigger] ((new_root + k) as u64),
                    ) by {}
                }
            }
            let freed = self.pages.free(self.id, new_root, 0);
            proof {
                crate::freelist::lemma_freed(held, self.pages, self.id, new_root, 0);
            }
            if self.stats.page_count < u32::MAX {
                self.stats.page_count = self.stats.page_count + 1;
            }
        }
        proof {
            lemma_replace_bucket(before, at as int, b);
            if failed {
                assert(b.state() == before[at as int].state());
                assert(buckets_map(before).insert(b.spec_name(), b.state()) =~= buckets_map(
                    before,
                ));
            }
            assert(self.buckets() =~= before.update(at as int, b));
            assert forall|i: int| 0 <= i < self.buckets().len() implies (
            #[trigger] self.buckets()[i]).wf() && self.buckets()[i].spec_writable()
                == self.spec_writable() by {
                if i != at {
                    assert(before[i].wf());
                }
            }
        }
        done
    }
}


impl Transaction {
    /// Removes `key` and its value from the bucket named `bucket`, and says
    /// whether the key was there. The bucket stays where it lies. Fails,
    /// and changes nothing, with `BucketNotFound` when there is no such
    /// bucket, and with `TransactionReadOnly` in a transaction that may not
    /// write.
    pub fn delete(&mut self, bucket: &[u8], key: &[u8]) -> (r: Result<bool, Error>)
        requires
            old(self).wf(),
        ensures
            final(self).wf(),
            final(self).same_frame(old(self)),
            final(self).spec_stats() == old(self).spec_stats(),
            final(self).allocator() == old(self).allocator(),
            r is Err ==> final(self).state() == old(self).state(),
            !old(self).state().contains_key(bucket@) ==> r == Err::<bool, Error>(
                Error::BucketNotFound,
            ),
            old(self).state().contains_key(bucket@) && !old(self).spec_writable() ==> r == Err::<
                bool,
                Error,
            >(Error::TransactionReadOnly),
            old(self).state().contains_key(bucket@) && old(self).spec_writable() ==> {
                let before = old(self).state()[bucket@];
                let after = final(self).state()[bucket@];
                &&& r == Ok::<bool, Error>(entries_of(before).contains_key(key@))
                &&& final(self).state() == old(self).state().insert(bucket@, after)
                &&& after.entries == crate::node::spec_delete(before.entries, key@)
                &&& entries_of(after) == entries_of(before).remove(key@)
                &&& after.sequence == before.sequence
                &&& after.root == before.root
            },
    {
        let at = match self.find(bucket) {
            Some(i) => i,
            None => {
                return Err(Error::BucketNotFound);
            },
        };
        let ghost before = self.buckets();
        proof {
            lemma_bucket_place(before, at as int);
        }
        let done = self.buckets[at].delete(key);
        let ghost b = self.buckets()[at as int];
        proof {
            lemma_replace_bucket(before, at as int, b);
            if done is Err {
                assert(buckets_map(before).insert(b.spec_name(), b.state()) =~= buckets_map(
                    before,
                ));
            }
            assert(self.buckets() =~= before.update(at as int, b));
            assert forall|i: int| 0 <= i < self.buckets().len() implies (
            #[trigger] self.buckets()[i]).wf() && self.buckets()[i].spec_writable()
                == self.spec_writable() by {
                if i != at {
                    assert(before[i].wf());
                }
            }
        }
        done
    }

    /// Advances the sequence of the bucket named `bucket` by one and
    /// returns it. Fails, and changes nothing, with `BucketNotFound` when
    /// there is no such bucket, with `TransactionReadOnly` in a transaction
    /// that may not write, and with `ValueTooLarge` when the sequence is at
    /// its end.
    pub fn next_sequence(&mut self, bucket: &[u8]) -> (r: Result<u64, Error>)
        requires
            old(self).wf(),
        ensures
            final(self).wf(),
            final(self).same_frame(old(self)),
            final(self).spec_stats() == old(self).spec_stats(),
            final(self).allocator() == old(self).allocator(),
            r is Err ==> final(self).state() == old(self).state(),
            !old(self).state().contains_key(bucket@) ==> r == Err::<u64, Error>(
                Error::BucketNotFound,
            ),
            old(self).state().contains_key(bucket@) && !old(self).spec_writable() ==> r == Err::<
                u64,
                Error,
            >(Error::TransactionReadOnly),
            old(self).state().contains_key(bucket@) && old(self).spec_writable() && old(self).state()[bucket@].sequence == u64::MAX ==> r == Err::<u64, Error>(
                Error::ValueTooLarge,
            ),
            old(self).state().contains_key(bucket@) && old(self).spec_writable() && old(self).state()[bucket@].sequence < u64::MAX ==> {
                let before = old(self).state()[bucket@];
                &&& r == Ok::<u64, Error>((before.sequence + 1) as u64)
                &&& final(self).state() == old(self).state().insert(
                    bucket@,
                    BucketView { sequence: (before.sequence + 1) as u64, ..before },
                )
            },
    {
        let at = match self.find(bucket) {
            Some(i) => i,
            None => {
                return Err(Error::BucketNotFound);
            },
        };
        let ghost before = self.buckets();
        proof {
            lemma_bucket_place(before, at as int);
        }
        let done = self.buckets[at].next_sequence();
        let ghost b = self.buckets()[at as int];
        proof {
            lemma_replace_bucket(before, at as int, b);
            if done is Err {
                assert(b.state() == before[at as int].state());
                assert(buckets_map(before).insert(b.spec_name(), b.state()) =~= buckets_map(
                    before,
                ));
            }
            assert(self.buckets() =~= before.update(at as int, b));
            assert forall|i: int| 0 <= i < self.buckets().len() implies (
            #[trigger] self.buckets()[i]).wf() && self.buckets()[i].spec_writable()
                == self.spec_writable() by {
                if i != at {
                    assert(before[i].wf());
                }
            }
        }
        done
    }
}


/// The entries of the directory of buckets whose record starts at page
/// `root` of image `data`; there is no directory, and no bucket, when
/// `root` is zero. Otherwise what reading the record and its leaf finds
/// wrong, and `DatabaseInvalid` when `root` is a meta page or the record is
/// not marked as a directory.
pub open spec fn directory_in(data: Seq<u8>, root: PageId) -> Result<Seq<Entry>, Error> {
    if root == 0 {
        Ok(Seq::empty())
    } else if root < 2 {
        Err(Error::DatabaseInvalid)
    } else {
        match record_data(data, root as int) {
            Ok(found) => if found.0.flags != PAGE_BUCKET_LEAF {
                Err(Error::DatabaseInvalid)
            } else {
                match leaf_check(found.1, found.0.count as nat, 0) {
                    Ok(_) => Ok(leaf_entries(found.1, found.0.count as nat)),
                    Err(e) => Err(e),
                }
            },
            Err(e) => Err(e),
        }
    }
}

/// The buckets that the first `n` entries of a directory stand for, in the
/// image `data`, or what is wrong with the first entry that has something
/// wrong with it: `DatabaseInvalid` when it is not marked as a bucket, and
/// for the rest what `bucket_in` finds.
pub open spec fn buckets_in(data: Seq<u8>, entries: Seq<Entry>, n: nat) -> Result<
    Seq<BucketView>,
    Error,
>
    decreases n,
{
    if n == 0 {
        Ok(Seq::empty())
    } else {
        match buckets_in(data, entries, (n - 1) as nat) {
            Ok(head) => if entries[n - 1].flags != BUCKET_LEAF_FLAG {
                Err(Error::DatabaseInvalid)
            } else {
                match bucket_in(data, entries[n - 1].value) {
                    Ok(b) => Ok(head.push(b)),
                    Err(e) => Err(e),
                }
            },
            Err(e) => Err(e),
        }
    }
}

/// The buckets of the database whose directory starts at page `root` of
/// image `data`, as a map from name to bucket, or what is wrong with the
/// image.
pub open spec fn database_in(data: Seq<u8>, root: PageId) -> Result<
    Map<Seq<u8>, BucketView>,
    Error,
> {
    match directory_in(data, root) {
        Ok(entries) => match buckets_in(data, entries, entries.len()) {
            Ok(views) => Ok(
                Map::new(
                    |name: Seq<u8>| has_key(entries, name),
                    |name: Seq<u8>| views[index_of_key(entries, name)],
                ),
            ),
            Err(e) => Err(e),
        },
        Err(e) => Err(e),
    }
}

/// As many buckets come out of a directory as it has entries.
pub proof fn lemma_buckets_in_len(data: Seq<u8>, entries: Seq<Entry>, n: nat)
    requires
        buckets_in(data, entries, n) is Ok,
    ensures
        buckets_in(data, entries, n)->Ok_0.len() == n,
    decreases n,
{
    if n > 0 {
        lemma_buckets_in_len(data, entries, (n - 1) as nat);
    }
}

/// Buckets that stand at the places of the entries of a sorted directory,
/// under the names that the entries have, form the map that the directory
/// stands for.
pub proof fn lemma_directory_map(entries: Seq<Entry>, views: Seq<BucketView>, s: Seq<Bucket>)
    requires
        sorted(entries),
        views.len() == entries.len(),
        s.len() == entries.len(),
        forall|k: int|
            0 <= k < s.len() ==> (#[trigger] s[k]).spec_name() == entries[k].key && s[k].state()
                == views[k],
    ensures
        distinct_names(s),
        buckets_map(s) == Map::new(
            |name: Seq<u8>| has_key(entries, name),
            |name: Seq<u8>| views[index_of_key(entries, name)],
        ),
{
    let m = Map::new(
        |name: Seq<u8>| has_key(entries, name),
        |name: Seq<u8>| views[index_of_key(entries, name)],
    );
    assert forall|i: int, j: int| 0 <= i < j < s.len() implies (#[trigger] s[i]).spec_name() != (
    #[trigger] s[j]).spec_name() by {
        assert(crate::node::key_lt(entries[i].key, entries[j].key));
        lemma_key_lt_irreflexive(entries[i].key);
    }
    assert forall|name: Seq<u8>| has_bucket(s, name) <==> has_key(entries, name) by {
        if has_bucket(s, name) {
            let i = bucket_index(s, name);
            assert(entries[i].key == name);
        }
        if has_key(entries, name) {
            let i = index_of_key(entries, name);
            assert(s[i].spec_name() == name);
        }
    }
    assert forall|name: Seq<u8>| has_bucket(s, name) implies #[trigger] buckets_map(s)[name]
        == m[name] by {
        let i = bucket_index(s, name);
        lemma_bucket_place(s, i);
        assert(entries[i].key == name);
        lemma_sorted_place(entries, i);
    }
    assert(buckets_map(s) =~= m);
}

impl Transaction {
    /// Reads what the meta record `meta` reaches in the image in `pa` into
    /// a transaction with number `id` that gets its pages from `pages`.
    /// Returns the transaction and the pages of the records that were read.
    /// Fails with what `database_in` finds wrong with the image.
    pub fn load(
        pa: &PageArray,
        meta: Meta,
        id: TransactionId,
        writable: bool,
        pages: PageAllocator,
    ) -> (r: Result<(Transaction, Vec<Run>), Error>)
        requires
            pages.wf(),
        ensures
            match r {
                Ok(found) => {
                    &&& found.0.wf()
                    &&& found.0.spec_id() == id
                    &&& found.0.spec_writable() == writable
                    &&& found.0.spec_meta() == meta
                    &&& found.0.allocator() == pages
                    &&& found.0.spec_stats() == (TxStats { page_count: 0 })
                    &&& database_in(pa@, meta.root) == Ok::<Map<Seq<u8>, BucketView>, Error>(
                        found.0.state(),
                    )
                    &&& found.1@ == runs_in(pa@, meta.root)
                },
                Err(e) => database_in(pa@, meta.root) == Err::<Map<Seq<u8>, BucketView>, Error>(e),
            },
    {
        let mut buckets: Vec<Bucket> = Vec::new();
        let mut runs: Vec<Run> = Vec::new();
        if meta.root == 0 {
            let tx = Transaction {
                id,
                writable,
                meta,
                buckets,
                pages,
                stats: TxStats { page_count: 0 },
            };
            proof {
                lemma_directory_map(
                    Seq::<Entry>::empty(),
                    Seq::<BucketView>::empty(),
                    tx.buckets(),
                );
                assert(runs@ =~= runs_in(pa@, meta.root));
            }
            return Ok((tx, runs));
        }
        if meta.root < 2 {
            return Err(Error::DatabaseInvalid);
        }
        let (header, payload) = match pa.read_record(meta.root) {
            Ok(found) => found,
            Err(e) => {
                return Err(e);
            },
        };
        if header.flags != PAGE_BUCKET_LEAF {
            return Err(Error::DatabaseInvalid);
        }
        let page = Page { header, data: payload.as_slice() };
        let dir = match Node::from_page(&page) {
            Ok(n) => n,
            Err(e) => {
                return Err(e);
            },
        };
        runs.push(Run { id: meta.root, overflow: header.overflow });
        let ghost entries = dir.entries();
        let ghost mut views: Seq<BucketView> = Seq::empty();
        let n = dir.len();
        let mut i: usize = 0;
        proof {
            assert(runs@ =~= seq![run_of(pa@, meta.root)] + bucket_runs(pa@, views, 0));
        }
        while i < n
            invariant
                i <= n,
                n == entries.len(),
                meta.root != 0,
                runs@ == seq![run_of(pa@, meta.root)] + bucket_runs(pa@, views, i as nat),
                entries == dir.entries(),
                dir.wf(),
                directory_in(pa@, meta.root) == Ok::<Seq<Entry>, Error>(entries),
                buckets_in(pa@, entries, i as nat) == Ok::<Seq<BucketView>, Error>(views),
                views.len() == i,
                buckets@.len() == i,
                forall|k: int|
                    0 <= k < i ==> (#[trigger] buckets@[k]).spec_name() == entries[k].key
                        && buckets@[k].state() == views[k] && buckets@[k].wf()
                        && buckets@[k].spec_writable() == writable,
            decreases n - i,
        {
            let inode = dir.inode(i);
            if inode.flags != BUCKET_LEAF_FLAG {
                proof {
                    lemma_buckets_in_fails(pa@, entries, (i + 1) as nat, n as nat);
                }
                return Err(Error::DatabaseInvalid);
            }
            let mut name: Vec<u8> = Vec::new();
            append_bytes(&mut name, inode.key.as_slice());
            proof {
                assert(name@ =~= entries[i as int].key);
                assert(entries[i as int].key.len() <= MAX_KEY_SIZE);
            }
            let (bucket, mut more) = match Bucket::load(
                pa,
                name,
                inode.value.as_slice(),
                writable,
            ) {
                Ok(found) => found,
                Err(e) => {
                    proof {
                        lemma_buckets_in_fails(pa@, entries, (i + 1) as nat, n as nat);
                    }
                    return Err(e);
                },
            };
            let ghost listed = runs@;
            let ghost seen = views;
            let ghost added = more@;
            runs.append(&mut more);
            proof {
                views = views.push(bucket.state());
                lemma_bucket_runs_agree(pa@, seen, views, i as nat);
                let head = bucket_runs(pa@, views, i as nat);
                assert(runs@ =~= seq![run_of(pa@, meta.root)] + (head + added));
            }
            buckets.push(bucket);
            i += 1;
        }
        let tx = Transaction {
            id,
            writable,
            meta,
            buckets,
            pages,
            stats: TxStats { page_count: 0 },
        };
        proof {
            lemma_directory_map(entries, views, tx.buckets());
        }
        Ok((tx, runs))
    }
}

/// Where the buckets of the first entries of a directory cannot be read,
/// those of more entries cannot either, for the same reason.
pub proof fn lemma_buckets_in_fails(data: Seq<u8>, entries: Seq<Entry>, n: nat, m: nat)
    requires
        n <= m,
        buckets_in(data, entries, n) is Err,
    ensures
        buckets_in(data, entries, m) == buckets_in(data, entries, n),
    decreases m,
{
    if n < m {
        lemma_buckets_in_fails(data, entries, n, (m - 1) as nat);
    }
}


/// Whether the record `r` holds the directory with entries `dir` at page
/// `root`.
pub open spec fn directory_stored_as(dir: Seq<Entry>, root: PageId, r: Record) -> bool {
    &&& r.id == root
    &&& r.kind == PageKind::BucketLeaf
    &&& r.count == dir.len()
    &&& r.payload@ == leaf_payload(dir)
}

/// Whether the bucket `b` is held by the records `records`: it lies
/// inline, or the records hold the tree of its entries at its root.
pub open spec fn bucket_held(b: BucketView, records: Seq<Record>) -> bool {
    b.root == 0 || tree_holds(records, b.root, b.entries)
}

/// Whether each entry of the directory `dir` is marked as a bucket and
/// carries the value of the bucket of `s` that has its name, and each
/// bucket of `s` has an entry.
pub open spec fn directory_of(dir: Seq<Entry>, s: Seq<Bucket>) -> bool {
    &&& forall|k: int| 0 <= k < dir.len() ==> (#[trigger] dir[k]).flags == BUCKET_LEAF_FLAG
    &&& forall|name: Seq<u8>| has_key(dir, name) <==> has_bucket(s, name)
    &&& forall|k: int|
        0 <= k < dir.len() ==> (#[trigger] dir[k]).value == bucket_value(
            s[bucket_index(s, dir[k].key)].state(),
        )
}

/// Where the buckets of the first `n` entries of a directory can each be
/// read, they can be read together.
proof fn lemma_buckets_read(data: Seq<u8>, dir: Seq<Entry>, views: Seq<BucketView>, n: nat)
    requires
        n <= dir.len(),
        n <= views.len(),
        forall|k: int|
            0 <= k < n ==> (#[trigger] dir[k]).flags == BUCKET_LEAF_FLAG && bucket_in(
                data,
                dir[k].value,
            ) == Ok::<BucketView, Error>(views[k]),
    ensures
        buckets_in(data, dir, n) == Ok::<Seq<BucketView>, Error>(views.subrange(0, n as int)),
    decreases n,
{
    if n == 0 {
        assert(views.subrange(0, 0) =~= Seq::<BucketView>::empty());
    } else {
        lemma_buckets_read(data, dir, views, (n - 1) as nat);
        assert(dir[n - 1].flags == BUCKET_LEAF_FLAG);
        assert(views.subrange(0, n - 1).push(views[n - 1]) =~= views.subrange(0, n as int));
    }
}

/// What a commit writes is read back as the database that was committed:
/// an image in which the record of the directory and the records of the
/// buckets lie gives, from the page of the directory, the buckets with
/// their names.
pub proof fn lemma_database_stored(
    data: Seq<u8>,
    root: PageId,
    dir: Seq<Entry>,
    s: Seq<Bucket>,
    records: Seq<Record>,
    at: int,
)
    requires
        data.len() <= usize::MAX,
        root >= 2,
        sorted(dir),
        within_limits(dir),
        dir.len() <= MAX_NODE_ENTRIES,
        payload_len(dir) <= u32::MAX,
        directory_of(dir, s),
        distinct_names(s),
        forall|i: int| 0 <= i < s.len() ==> (#[trigger] s[i]).wf(),
        forall|i: int| 0 <= i < s.len() ==> bucket_held((#[trigger] s[i]).state(), records),
        forall|j: int| 0 <= j < records.len() ==> (#[trigger] records[j]).lies_in(data),
        0 <= at < records.len(),
        directory_stored_as(dir, root, records[at]),
        records[at].writable(),
    ensures
        database_in(data, root) == Ok::<Map<Seq<u8>, BucketView>, Error>(buckets_map(s)),
{
    let r = records[at];
    lemma_record_found(data, r);
    let rest = crate::enc::zeros(
        (crate::store::pages_for(r.payload@.len()) * crate::store::PAGE_DATA_SIZE
            - r.payload@.len()) as nat,
    );
    assert(padded(r.payload@) == leaf_payload(dir) + rest);
    lemma_leaf_roundtrip(dir, rest);
    assert(directory_in(data, root) == Ok::<Seq<Entry>, Error>(dir));
    let views = Seq::new(dir.len(), |k: int| s[bucket_index(s, dir[k].key)].state());
    assert forall|k: int| 0 <= k < dir.len() implies (#[trigger] dir[k]).flags == BUCKET_LEAF_FLAG
        && bucket_in(data, dir[k].value) == Ok::<BucketView, Error>(views[k]) by {
        let name = dir[k].key;
        assert(has_key(dir, name));
        assert(has_bucket(s, name));
        let i = bucket_index(s, name);
        let b = s[i].state();
        assert(s[i].wf());
        s[i].lemma_state_wf();
        assert(bucket_held(s[i].state(), records));
        if b.root == 0 {
            lemma_inline_bucket_read_back(data, b);
        } else {
            assert(all_lie_in(records, data));
            lemma_paged_bucket_read_back(data, b);
        }
    }
    lemma_buckets_read(data, dir, views, dir.len());
    assert(views.subrange(0, dir.len() as int) =~= views);
    let m = Map::new(
        |name: Seq<u8>| has_key(dir, name),
        |name: Seq<u8>| views[index_of_key(dir, name)],
    );
    assert forall|name: Seq<u8>| has_bucket(s, name) implies #[trigger] buckets_map(s)[name]
        == m[name] by {
        assert(has_key(dir, name));
        let k = index_of_key(dir, name);
        assert(dir[k].key == name);
    }
    assert(buckets_map(s) =~= m);
}


/// The most pages that one record can take: its data is no longer than an
/// element of a leaf can point at.
pub const MAX_RECORD_PAGES: u64 = 0x20_0000;

/// The most pages that may be free or pending for a commit to be sure
/// that the freelist fits its record.
pub const MAX_LISTED_PAGES: u64 = 0x100_0000_0000;

/// The farthest that the end of the file may have come for a commit to be
/// sure of the pages it needs.
pub const MAX_COMMIT_START: u64 = 0x4000_0000_0000_0000;

/// Whether buckets `a` and `b` hold the same: the same sequence and the
/// same entries, inline or not as the other.
pub open spec fn same_bucket_content(a: BucketView, b: BucketView) -> bool {
    &&& a.sequence == b.sequence
    &&& a.entries == b.entries
    &&& (a.root == 0) == (b.root == 0)
}

/// Whether the databases `a` and `b` hold the same: buckets of the same
/// names, each holding the same as the other of its name.
pub open spec fn same_content(a: Map<Seq<u8>, BucketView>, b: Map<Seq<u8>, BucketView>) -> bool {
    &&& forall|name: Seq<u8>| a.contains_key(name) <==> b.contains_key(name)
    &&& forall|name: Seq<u8>|
        a.contains_key(name) ==> same_bucket_content(#[trigger] a[name], b[name])
}

/// Whether every record of `records` lies in image `data`.
pub open spec fn all_lie_in(records: Seq<Record>, data: Seq<u8>) -> bool {
    forall|j: int| 0 <= j < records.len() ==> (#[trigger] records[j]).lies_in(data)
}

/// Whether the records `records` hold the database `state` with its
/// directory at page `root`: every image in which they lie gives that
/// database from that page.
pub open spec fn records_hold(
    records: Seq<Record>,
    root: PageId,
    state: Map<Seq<u8>, BucketView>,
) -> bool {
    forall|data: Seq<u8>|
        data.len() <= usize::MAX && #[trigger] all_lie_in(records, data) ==> database_in(data, root)
            == Ok::<Map<Seq<u8>, BucketView>, Error>(state)
}

/// Whether the pages of the records `records` are fresh: in use in the
/// allocator `now`, and neither in use nor pending in the allocator `was`.
pub open spec fn records_fresh(records: Seq<Record>, was: PageAllocator, now: PageAllocator) -> bool {
    forall|j: int, q: PageId|
        0 <= j < records.len() && (#[trigger] records[j]).covers(q as int) ==> #[trigger] now.in_use(
            q,
        ) && !was.in_use(q) && !was.list().is_held(q)
}

/// Whether the records `records` are a sound part of the plan of a commit
/// that started with allocator `start` and has come to allocator `now`:
/// they share no page, each can be written and spares the meta pages,
/// their pages are fresh, the pages that were in use still are, and the
/// pending pages are as they were.
pub open spec fn planning(start: PageAllocator, now: PageAllocator, records: Seq<Record>) -> bool {
    &&& now.wf()
    &&& records_apart(records)
    &&& records_sound(records)
    &&& records_fresh(records, start, now)
    &&& now.list().pending_ids() == start.list().pending_ids()
    &&& now.list().free_ids().len() <= start.list().free_ids().len()
    &&& forall|q: PageId| start.in_use(q) ==> #[trigger] now.in_use(q)
}

/// Gives a record with data `payload` fresh pages from `pages` and adds it
/// to the plan `records`. Returns the page where the record starts. Fails
/// with `ValueTooLarge`, and changes nothing, when the file cannot get as
/// long as it would have to.
pub fn place_record(
    pages: &mut PageAllocator,
    records: &mut Vec<Record>,
    kind: PageKind,
    count: u16,
    payload: Vec<u8>,
    Ghost(start): Ghost<PageAllocator>,
) -> (r: Result<PageId, Error>)
    requires
        planning(start, *old(pages), old(records)@),
        kind != PageKind::Overflow,
        payload@.len() <= u32::MAX,
    ensures
        r is Err ==> r->Err_0 == Error::ValueTooLarge && old(pages).spec_next_page()
            + MAX_RECORD_PAGES > u64::MAX && final(pages).same_as(old(pages)) && final(records)@
            == old(records)@ && final(pages).wf(),
        r matches Ok(id) ==> {
            &&& id >= 2
            &&& final(records)@ == old(records)@.push(Record { id, kind, count, payload })
            &&& planning(start, *final(pages), final(records)@)
            &&& final(pages).spec_next_page() <= old(pages).spec_next_page() + MAX_RECORD_PAGES
            &&& final(pages).spec_next_page() <= old(pages).spec_next_page() + crate::store::pages_for(
                payload@.len(),
            )
        },
{
    let n = page_count_for(payload.len());
    let ghost was = *pages;
    let ghost listed = records@;
    let id = match pages.allocate(n) {
        Ok(id) => id,
        Err(e) => {
            return Err(e);
        },
    };
    let record = Record { id, kind, count, payload };
    records.push(record);
    proof {
        let now = *pages;
        let all = records@;
        assert(all == listed.push(record));
        assert(record.writable());
        assert forall|a: int, b: int| 0 <= a < b < all.len() implies (#[trigger] all[a]).id
            + all[a].pages() <= (#[trigger] all[b]).id || all[b].id + all[b].pages()
            <= all[a].id by {
            if b == listed.len() {
                let other = listed[a];
                if !(other.id + other.pages() <= id || id + n <= other.id) {
                    let q: PageId = if other.id >= id {
                        other.id
                    } else {
                        id
                    };
                    assert(other.covers(q as int));
                    assert(was.in_use(q));
                    assert(now.in_use(q));
                }
            } else {
                assert(listed[a].id + listed[a].pages() <= listed[b].id || listed[b].id
                    + listed[b].pages() <= listed[a].id);
            }
        }
        assert forall|j: int, q: PageId|
            0 <= j < all.len() && (#[trigger] all[j]).covers(q as int) implies #[trigger] now.in_use(
            q,
        ) && !start.in_use(q) && !start.list().is_held(q) by {
            if j < listed.len() {
                assert(listed[j].covers(q as int));
                assert(was.in_use(q));
            } else {
                assert(now.in_use(q));
                assert(!was.in_use(q));
                crate::freelist::lemma_held_alike(start.list(), was.list());
            }
        }
        assert forall|j: int| 0 <= j < all.len() implies (#[trigger] all[j]).writable()
            && all[j].id >= 2 && all[j].pages() <= MAX_RECORD_PAGES by {
            if j < listed.len() {
                assert(listed[j].writable());
            }
        }
    }
    Ok(id)
}

/// Whether each of the records `records` can be written and spares the
/// meta pages.
pub open spec fn records_sound(records: Seq<Record>) -> bool {
    forall|j: int|
        0 <= j < records.len() ==> (#[trigger] records[j]).writable() && records[j].id >= 2
            && records[j].pages() <= MAX_RECORD_PAGES
}

/// The most bytes that a bucket takes in the directory of the buckets: its
/// element, its name, and its value.
pub const DIRECTORY_ENTRY_MAX: usize = 1295;

/// A bound on the room that the trees of the first `i` of the buckets `s`
/// take at the end of the file, in bytes of page data: what `tree_bytes`
/// gives for each bucket that does not lie inline.
pub open spec fn buckets_bytes(s: Seq<Bucket>, i: int) -> nat
    decreases i,
{
    if i <= 0 {
        0
    } else {
        buckets_bytes(s, i - 1) + if s[i - 1].spec_root() != 0 {
            crate::tree::tree_bytes(s[i - 1].entries())
        } else {
            0
        }
    }
}

/// A bound on the room that the records of the buckets `s` and of their
/// directory take at the end of the file, in bytes of page data.
pub open spec fn spill_bytes(s: Seq<Bucket>) -> nat {
    (buckets_bytes(s, s.len() as int) + DIRECTORY_ENTRY_MAX * s.len()
        + crate::store::PAGE_DATA_SIZE) as nat
}

/// The most records that the tree of one bucket takes.
pub const MAX_TREE_RECORDS: u64 = 0x1_0000;

impl Transaction {
    /// What holds while the buckets are made ready for a commit, when the
    /// first `i` of them have been: the buckets have kept their names and
    /// what they hold, those that are ready are held by `records`, `dir`
    /// has an entry for each of them and for no other, and the records are
    /// a sound part of the plan.
    pub open spec fn spilling(
        &self,
        start: &Transaction,
        records: Seq<Record>,
        dir: &Node,
        i: int,
    ) -> bool {
        let s = self.buckets();
        let t = start.buckets();
        &&& self.wf()
        &&& self.spec_writable()
        &&& self.same_frame(start)
        &&& 0 <= i <= s.len()
        &&& s.len() == t.len()
        &&& forall|k: int|
            0 <= k < s.len() ==> (#[trigger] s[k]).spec_name() == t[k].spec_name()
                && same_bucket_content(s[k].state(), t[k].state())
        &&& forall|k: int| 0 <= k < i ==> bucket_held((#[trigger] s[k]).state(), records)
        &&& dir.wf()
        &&& dir.entries().len() == i
        &&& forall|k: int|
            0 <= k < dir.entries().len() ==> (#[trigger] dir.entries()[k]).flags
                == BUCKET_LEAF_FLAG && dir.entries()[k].value.len()
                <= crate::bucket::MAX_INLINE_BUCKET_SIZE
        &&& forall|k: int|
            0 <= k < i ==> dir@.contains_key((#[trigger] s[k]).spec_name()) && dir@[s[k].spec_name()]
                == bucket_value(s[k].state())
        &&& forall|name: Seq<u8>|
            #[trigger] dir@.contains_key(name) ==> has_bucket(s.subrange(0, i), name)
        &&& planning(start.allocator(), self.allocator(), records)
        &&& records.len() <= i * MAX_TREE_RECORDS
        &&& self.allocator().spec_next_page() <= start.allocator().spec_next_page()
            + records.len() * MAX_RECORD_PAGES
        &&& (self.allocator().spec_next_page() - start.allocator().spec_next_page())
            * crate::store::PAGE_DATA_SIZE <= buckets_bytes(start.buckets(), i)
    }
}

impl Transaction {
    /// Plans the tree of bucket `i`, when it does not lie inline, on fresh
    /// pages, and adds its records to `records`.
    fn place_bucket(
        &mut self,
        i: usize,
        threshold: u64,
        records: &mut Vec<Record>,
        Ghost(start): Ghost<Transaction>,
    ) -> (r: Result<(), Error>)
        requires
            old(self).wf(),
            old(self).spec_writable(),
            i < old(self).buckets().len(),
            planning(start.allocator(), old(self).allocator(), old(records)@),
        ensures
            r is Err ==> r->Err_0 == Error::ValueTooLarge && old(self).buckets()[i as int].spec_root() != 0 && (oversized(
                old(self).buckets()[i as int].entries(),
                threshold as nat,
            ) || old(self).allocator().spec_next_page() + MAX_TREE_RECORDS * MAX_RECORD_PAGES
                > u64::MAX),
            old(self).buckets()[i as int].spec_root() != 0 && oversized(
                old(self).buckets()[i as int].entries(),
                threshold as nat,
            ) ==> r is Err,
            r is Ok ==> {
                let s = final(self).buckets();
                let t = old(self).buckets();
                &&& final(self).wf()
                &&& final(self).same_frame(old(self))
                &&& s.len() == t.len()
                &&& forall|k: int| 0 <= k < s.len() && k != i ==> #[trigger] s[k] == t[k]
                &&& s[i as int].spec_name() == t[i as int].spec_name()
                &&& same_bucket_content(s[i as int].state(), t[i as int].state())
                &&& bucket_held(s[i as int].state(), final(records)@)
                &&& extends(old(records)@, final(records)@)
                &&& final(records)@.len() <= old(records)@.len() + MAX_TREE_RECORDS
                &&& planning(start.allocator(), final(self).allocator(), final(records)@)
                &&& final(self).allocator().spec_next_page() <= old(self).allocator().spec_next_page() + (final(records)@.len() - old(records)@.len())
                    * MAX_RECORD_PAGES
                &&& (final(self).allocator().spec_next_page() - old(
                    self,
                ).allocator().spec_next_page()) * crate::store::PAGE_DATA_SIZE <= if old(
                    self,
                ).buckets()[i as int].spec_root() != 0 {
                    crate::tree::tree_bytes(old(self).buckets()[i as int].entries())
                } else {
                    0
                }
            },
    {
        if self.buckets[i].root_page_id() == 0 {
            return Ok(());
        }
        let ghost before = self.buckets();
        let root = match self.buckets[i].plan(
            threshold,
            &mut self.pages,
            records,
            Ghost(start.allocator()),
        ) {
            Ok(root) => root,
            Err(e) => {
                return Err(e);
            },
        };
        self.buckets[i].set_root(root);
        proof {
            let s = self.buckets();
            assert forall|k: int| 0 <= k < s.len() implies (#[trigger] s[k]).wf()
                && s[k].spec_writable() == self.spec_writable() by {
                if k != i {
                    assert(before[k].wf());
                }
            }
            assert forall|a: int, b: int| 0 <= a < b < s.len() implies (#[trigger] s[a]).spec_name()
                != (#[trigger] s[b]).spec_name() by {
                assert(before[a].spec_name() != before[b].spec_name());
            }
        }
        Ok(())
    }
}

impl Transaction {
    /// Enters bucket `i` into the directory `dir`, under its name and with
    /// its value.
    fn list_bucket(&self, i: usize, dir: &mut Node)
        requires
            self.wf(),
            i < self.buckets().len(),
            old(dir).wf(),
            old(dir).entries().len() == i,
            forall|k: int|
                0 <= k < old(dir).entries().len() ==> (#[trigger] old(dir).entries()[k]).flags
                    == BUCKET_LEAF_FLAG && old(dir).entries()[k].value.len()
                    <= crate::bucket::MAX_INLINE_BUCKET_SIZE,
            forall|name: Seq<u8>|
                #[trigger] old(dir)@.contains_key(name) ==> has_bucket(
                    self.buckets().subrange(0, i as int),
                    name,
                ),
        ensures
            final(dir).wf(),
            final(dir).entries().len() == i + 1,
            forall|k: int|
                0 <= k < final(dir).entries().len() ==> (#[trigger] final(dir).entries()[k]).flags
                    == BUCKET_LEAF_FLAG && final(dir).entries()[k].value.len()
                    <= crate::bucket::MAX_INLINE_BUCKET_SIZE,
            final(dir)@ == old(dir)@.insert(
                self.buckets()[i as int].spec_name(),
                bucket_value(self.buckets()[i as int].state()),
            ),
            forall|name: Seq<u8>|
                #[trigger] final(dir)@.contains_key(name) ==> has_bucket(
                    self.buckets().subrange(0, i + 1),
                    name,
                ),
    {
        let s = &self.buckets;
        let ghost b = self.buckets()[i as int];
        let ghost listed = dir.entries();
        let value = self.buckets[i].to_value();
        let mut name: Vec<u8> = Vec::new();
        append_bytes(&mut name, self.buckets[i].name().as_slice());
        proof {
            assert(name@ =~= b.spec_name());
            assert(b.wf());
            let entries = b.entries();
            crate::node::lemma_leaf_parts_len(entries, entries.len());
            crate::enc::lemma_le_bytes_len(b.spec_root() as nat, 8);
            crate::enc::lemma_le_bytes_len(b.spec_sequence() as nat, 8);
            crate::bucket::inline_header(entries.len()).lemma_bytes_len();
            assert(value@.len() <= crate::bucket::MAX_INLINE_BUCKET_SIZE);
            if has_key(listed, name@) {
                assert(dir@.contains_key(name@));
                let head = self.buckets().subrange(0, i as int);
                let k = bucket_index(head, name@);
                assert(head[k].spec_name() == name@);
                assert(self.buckets()[k].spec_name() != self.buckets()[i as int].spec_name());
            }
            let entry = Entry { flags: BUCKET_LEAF_FLAG, key: name@, value: value@ };
            let at = crate::node::place_of(listed, name@);
            crate::node::lemma_place_of_bounds(listed, name@);
            assert(crate::node::spec_put(listed, entry) == listed.insert(at, entry));
            assert forall|k: int| 0 <= k < listed.len() + 1 implies (#[trigger] listed.insert(
                at,
                entry,
            )[k]).flags == BUCKET_LEAF_FLAG && listed.insert(at, entry)[k].value.len()
                <= crate::bucket::MAX_INLINE_BUCKET_SIZE by {
                if k < at {
                    assert(listed[k].flags == BUCKET_LEAF_FLAG);
                } else if k > at {
                    assert(listed[k - 1].flags == BUCKET_LEAF_FLAG);
                }
            }
        }
        let done = dir.put(BUCKET_LEAF_FLAG, name, value);
        proof {
            assert forall|name: Seq<u8>| #[trigger] dir@.contains_key(name) implies has_bucket(
                self.buckets().subrange(0, i + 1),
                name,
            ) by {
                let wide = self.buckets().subrange(0, i + 1);
                if name == b.spec_name() {
                    assert(wide[i as int].spec_name() == name);
                } else {
                    let head = self.buckets().subrange(0, i as int);
                    let k = bucket_index(head, name);
                    assert(head[k].spec_name() == name);
                    assert(wide[k].spec_name() == name);
                }
            }
        }
    }
}



impl Transaction {
    /// Gives the directory `dir` of the buckets, all of which are ready for
    /// the commit, fresh pages for its record, and adds the record to
    /// `records`. Returns the page of the directory.
    fn place_directory(&mut self, records: &mut Vec<Record>, dir: &Node, Ghost(start): Ghost<
        Transaction,
    >) -> (r: Result<PageId, Error>)
        requires
            start.wf(),
            old(self).spilling(&start, old(records)@, dir, old(self).buckets().len() as int),
        ensures
            r is Err ==> r->Err_0 == Error::ValueTooLarge && old(self).allocator().spec_next_page() + MAX_RECORD_PAGES > u64::MAX,
            r matches Ok(root) ==> {
                let listed = final(records)@;
                &&& final(self).wf()
                &&& final(self).same_frame(&start)
                &&& root >= 2
                &&& planning(start.allocator(), final(self).allocator(), listed)
                &&& same_content(final(self).state(), start.state())
                &&& records_hold(listed, root, final(self).state())
                &&& listed.len() == old(records)@.len() + 1
                &&& final(self).allocator().spec_next_page() <= old(self).allocator().spec_next_page() + MAX_RECORD_PAGES
                &&& (final(self).allocator().spec_next_page() - start.allocator().spec_next_page())
                    * crate::store::PAGE_DATA_SIZE <= spill_bytes(start.buckets())
            },
    {
        proof {
            let entries = dir.entries();
            crate::node::lemma_data_len_capped(
                entries,
                entries.len(),
                (MAX_KEY_SIZE + crate::bucket::MAX_INLINE_BUCKET_SIZE) as nat,
            );
            assert(entries.len() * (MAX_KEY_SIZE + crate::bucket::MAX_INLINE_BUCKET_SIZE)
                <= 0xFFFF * (MAX_KEY_SIZE + crate::bucket::MAX_INLINE_BUCKET_SIZE))
                by (nonlinear_arith)
                requires
                    entries.len() <= 0xFFFF,
            ;
            crate::node::lemma_leaf_parts_len(entries, entries.len());
        }
        let payload = match dir.to_payload() {
            Ok(p) => p,
            Err(e) => {
                return Err(e);
            },
        };
        let ghost listed = records@;
        let ghost n = self.buckets().len();
        let ghost mark = self.pages.spec_next_page();
        let ghost size = payload@.len();
        proof {
            let entries = dir.entries();
            assert(size == crate::node::payload_len(entries));
            assert(size <= DIRECTORY_ENTRY_MAX * entries.len()) by (nonlinear_arith)
                requires
                    size == 16 * entries.len() + crate::node::data_len(entries, entries.len()),
                    crate::node::data_len(entries, entries.len()) <= entries.len() * (255 + 1024),
                    DIRECTORY_ENTRY_MAX == 1295,
            ;
        }
        let root = match place_record(
            &mut self.pages,
            records,
            PageKind::BucketLeaf,
            dir.len() as u16,
            payload,
            Ghost(start.allocator()),
        ) {
            Ok(id) => id,
            Err(e) => {
                return Err(e);
            },
        };
        proof {
            crate::tree::lemma_page_budget(mark, self.pages.spec_next_page(), size);
            let low = mark - start.allocator().spec_next_page();
            let high = self.pages.spec_next_page() - mark;
            assert((low + high) * crate::store::PAGE_DATA_SIZE == low
                * crate::store::PAGE_DATA_SIZE + high * crate::store::PAGE_DATA_SIZE)
                by (nonlinear_arith);
        }
        proof {
            let s = self.buckets();
            let t = start.buckets();
            let all = records@;
            let entries = dir.entries();
            let last = listed.len() as int;
            assert(extends(listed, all));
            assert(s.subrange(0, n as int) =~= s);
            assert(directory_of(entries, s)) by {
                assert forall|name: Seq<u8>| has_key(entries, name) <==> has_bucket(s, name) by {
                    if has_key(entries, name) {
                        assert(dir@.contains_key(name));
                    }
                    if has_bucket(s, name) {
                        let k = bucket_index(s, name);
                        assert(dir@.contains_key(s[k].spec_name()));
                    }
                }
                assert forall|k: int| 0 <= k < entries.len() implies (#[trigger] entries[k]).value
                    == bucket_value(s[bucket_index(s, entries[k].key)].state()) by {
                    lemma_sorted_place(entries, k);
                    let name = entries[k].key;
                    assert(dir@.contains_key(name));
                    let b = bucket_index(s, name);
                    assert(s[b].spec_name() == name);
                    assert(dir@[s[b].spec_name()] == bucket_value(s[b].state()));
                }
            }
            assert forall|k: int| 0 <= k < s.len() implies bucket_held(
                (#[trigger] s[k]).state(),
                all,
            ) by {
                let b = s[k].state();
                assert(bucket_held(b, listed));
                if b.root != 0 {
                    lemma_tree_holds_more(listed, all, b.root, b.entries);
                }
            }
            assert(directory_stored_as(entries, root, all[last]));
            assert forall|data: Seq<u8>|
                data.len() <= usize::MAX && #[trigger] all_lie_in(all, data) implies database_in(
                data,
                root,
            ) == Ok::<Map<Seq<u8>, BucketView>, Error>(self.state()) by {
                lemma_database_stored(data, root, entries, s, all, last);
            }
            assert(same_content(self.state(), start.state())) by {
                assert forall|name: Seq<u8>|
                    self.state().contains_key(name) <==> start.state().contains_key(name) by {
                    if has_bucket(s, name) {
                        let k = bucket_index(s, name);
                        assert(t[k].spec_name() == name);
                    }
                    if has_bucket(t, name) {
                        let k = bucket_index(t, name);
                        assert(s[k].spec_name() == name);
                    }
                }
                assert forall|name: Seq<u8>|
                    self.state().contains_key(name) implies same_bucket_content(
                    #[trigger] self.state()[name],
                    start.state()[name],
                ) by {
                    let k = bucket_index(s, name);
                    assert(t[k].spec_name() == name);
                    lemma_bucket_place(s, k);
                    lemma_bucket_place(t, k);
                }
            }
        }
        Ok(root)
    }
}

/// Whether one of the buckets `s` that do not lie inline has a part, when
/// it is split for pages filled to `threshold` bytes, that holds more than
/// a record can.
pub open spec fn has_oversized_bucket(s: Seq<Bucket>, threshold: nat) -> bool {
    exists|k: int|
        0 <= k < s.len() && (#[trigger] s[k]).spec_root() != 0 && oversized(
            s[k].entries(),
            threshold,
        )
}

impl Transaction {
    /// Makes the transaction ready for its commit: every bucket that does
    /// not lie inline gets fresh pages for the records of its tree, whose
    /// leaves are filled to `threshold` bytes, and so does the directory of
    /// the buckets. Returns the records that the commit has to write, and
    /// the page of the directory. The buckets keep what they hold; written
    /// to any image, the records give the database again. Fails with
    /// `ValueTooLarge` when a bucket holds more than its records can, or
    /// the file cannot get as long as it would have to.
    pub fn spill(&mut self, threshold: u64) -> (r: Result<(Vec<Record>, PageId), Error>)
        requires
            old(self).wf(),
            old(self).spec_writable(),
        ensures
            r is Err ==> r->Err_0 == Error::ValueTooLarge && (has_oversized_bucket(
                old(self).buckets(),
                threshold as nat,
            ) || old(self).allocator().spec_next_page() > MAX_COMMIT_START),
            has_oversized_bucket(old(self).buckets(), threshold as nat) ==> r is Err,
            r is Ok ==> {
                let records = r->Ok_0.0@;
                let root = r->Ok_0.1;
                &&& final(self).wf()
                &&& final(self).same_frame(old(self))
                &&& root >= 2
                &&& planning(old(self).allocator(), final(self).allocator(), records)
                &&& same_content(final(self).state(), old(self).state())
                &&& records_hold(records, root, final(self).state())
                &&& records.len() <= 0x1_0000 * MAX_TREE_RECORDS
                &&& final(self).allocator().spec_next_page() <= old(self).allocator().spec_next_page() + records.len() * MAX_RECORD_PAGES
                &&& (final(self).allocator().spec_next_page() - old(
                    self,
                ).allocator().spec_next_page()) * crate::store::PAGE_DATA_SIZE <= spill_bytes(
                    old(self).buckets(),
                )
            },
    {
        let ghost start = *self;
        let mut records: Vec<Record> = Vec::new();
        let mut dir = Node::new();
        let n = self.buckets.len();
        let mut i: usize = 0;
        proof {
            assert forall|name: Seq<u8>| #[trigger] dir@.contains_key(name) implies has_bucket(
                self.buckets().subrange(0, 0),
                name,
            ) by {}
        }
        while i < n
            invariant
                n == self.buckets().len(),
                start.wf(),
                start == *old(self),
                self.spilling(&start, records@, &dir, i as int),
                forall|k: int|
                    0 <= k < i && (#[trigger] start.buckets()[k]).spec_root() != 0 ==> !oversized(
                        start.buckets()[k].entries(),
                        threshold as nat,
                    ),
            decreases n - i,
        {
            let ghost before = *self;
            let ghost listed = records@;
            let ghost dir_before = dir;
            proof {
                assert(i * MAX_TREE_RECORDS <= 0xFFFF * MAX_TREE_RECORDS) by (nonlinear_arith)
                    requires
                        i <= 0xFFFF,
                ;
                assert(listed.len() * MAX_RECORD_PAGES <= 0xFFFF * MAX_TREE_RECORDS
                    * MAX_RECORD_PAGES) by (nonlinear_arith)
                    requires
                        listed.len() <= 0xFFFF * MAX_TREE_RECORDS,
                ;
            }
            match self.place_bucket(i, threshold, &mut records, Ghost(start)) {
                Ok(_) => {},
                Err(e) => {
                    proof {
                        let t = start.buckets();
                        assert(before.buckets()[i as int].spec_name() == t[i as int].spec_name());
                        assert(t[i as int].spec_root() != 0);
                        if oversized(before.buckets()[i as int].entries(), threshold as nat) {
                            assert(t[i as int].spec_root() != 0 && oversized(
                                t[i as int].entries(),
                                threshold as nat,
                            ));
                            assert(has_oversized_bucket(t, threshold as nat));
                        } else {
                            assert(start.allocator().spec_next_page() > MAX_COMMIT_START);
                        }
                    }
                    return Err(e);
                },
            }
            proof {
                assert forall|name: Seq<u8>| #[trigger] dir@.contains_key(name) implies has_bucket(
                    self.buckets().subrange(0, i as int),
                    name,
                ) by {
                    let head = before.buckets().subrange(0, i as int);
                    let k = bucket_index(head, name);
                    assert(head[k].spec_name() == name);
                    assert(self.buckets().subrange(0, i as int)[k].spec_name() == name);
                }
            }
            self.list_bucket(i, &mut dir);
            proof {
                let s = self.buckets();
                let t = start.buckets();
                let all = records@;
                assert forall|k: int| 0 <= k < s.len() implies (#[trigger] s[k]).spec_name()
                    == t[k].spec_name() && same_bucket_content(s[k].state(), t[k].state()) by {
                    assert(before.buckets()[k].spec_name() == t[k].spec_name());
                }
                assert forall|k: int| 0 <= k < i + 1 implies bucket_held(
                    (#[trigger] s[k]).state(),
                    all,
                ) by {
                    if k < i {
                        let b = before.buckets()[k].state();
                        assert(bucket_held(b, listed));
                        if b.root != 0 {
                            lemma_tree_holds_more(listed, all, b.root, b.entries);
                        }
                    }
                }
                assert forall|k: int| 0 <= k < i + 1 implies dir@.contains_key(
                    (#[trigger] s[k]).spec_name(),
                ) && dir@[s[k].spec_name()] == bucket_value(s[k].state()) by {
                    if k < i {
                        assert(dir_before@.contains_key(before.buckets()[k].spec_name()));
                        assert(s[k].spec_name() != s[i as int].spec_name());
                    }
                }
                assert((all.len() - listed.len()) * MAX_RECORD_PAGES + listed.len()
                    * MAX_RECORD_PAGES == all.len() * MAX_RECORD_PAGES) by (nonlinear_arith);
                assert((i + 1) * MAX_TREE_RECORDS == i * MAX_TREE_RECORDS + MAX_TREE_RECORDS)
                    by (nonlinear_arith);
                let low = before.allocator().spec_next_page() - start.allocator().spec_next_page();
                let high = self.allocator().spec_next_page() - before.allocator().spec_next_page();
                assert((low + high) * crate::store::PAGE_DATA_SIZE == low
                    * crate::store::PAGE_DATA_SIZE + high * crate::store::PAGE_DATA_SIZE)
                    by (nonlinear_arith);
                assert(same_bucket_content(
                    before.buckets()[i as int].state(),
                    t[i as int].state(),
                ));
            }
            i += 1;
        }
        let ghost listed = records@;
        proof {
            assert(n * MAX_TREE_RECORDS <= 0xFFFF * MAX_TREE_RECORDS) by (nonlinear_arith)
                requires
                    n <= 0xFFFF,
            ;
            assert(listed.len() * MAX_RECORD_PAGES <= 0xFFFF * MAX_TREE_RECORDS * MAX_RECORD_PAGES)
                by (nonlinear_arith)
                requires
                    listed.len() <= 0xFFFF * MAX_TREE_RECORDS,
            ;
            assert((listed.len() + 1) * MAX_RECORD_PAGES == listed.len() * MAX_RECORD_PAGES
                + MAX_RECORD_PAGES) by (nonlinear_arith);
        }
        match self.place_directory(&mut records, &dir, Ghost(start)) {
            Ok(root) => Ok((records, root)),
            Err(e) => Err(e),
        }
    }
}

impl Transaction {
    /// Frees the pages of the records `runs` in the name of this
    /// transaction: they become pending. Fails with `DatabaseInvalid` when
    /// the records cannot be retired: a page of them is a meta page, is not
    /// in use, or belongs to two of them.
    pub fn retire(&mut self, runs: &Vec<Run>) -> (r: Result<(), Error>)
        requires
            old(self).wf(),
        ensures
            final(self).wf(),
            final(self).same_frame(old(self)),
            final(self).buckets() == old(self).buckets(),
            final(self).allocator().spec_next_page() == old(self).allocator().spec_next_page(),
            final(self).allocator().list().free_ids() == old(self).allocator().list().free_ids(),
            !can_retire(old(self).allocator(), runs@) ==> r == Err::<(), Error>(
                Error::DatabaseInvalid,
            ),
            can_retire(old(self).allocator(), runs@) ==> r == Ok::<(), Error>(()) && retired(
                old(self).allocator(),
                final(self).allocator(),
                runs@,
            ) && final(self).allocator().list().pending_ids().len() == old(
                self,
            ).allocator().list().pending_ids().len() + crate::store::run_pages(
                runs@,
                runs@.len(),
            ),
    {
        let ghost start = self.allocator();
        let mut i: usize = 0;
        proof {
            assert(retired(start, start, runs@.subrange(0, 0)));
        }
        while i < runs.len()
            invariant
                i <= runs@.len(),
                self.wf(),
                start == old(self).allocator(),
                self.same_frame(old(self)),
                self.buckets() == old(self).buckets(),
                self.allocator().spec_next_page() == start.spec_next_page(),
                self.allocator().list().free_ids() == start.list().free_ids(),
                can_retire(start, runs@.subrange(0, i as int)),
                retired(start, self.allocator(), runs@.subrange(0, i as int)),
                self.allocator().list().pending_ids().len() == start.list().pending_ids().len()
                    + crate::store::run_pages(runs@, i as nat),
            decreases runs@.len() - i,
        {
            let run = runs[i];
            let ghost was = self.allocator();
            let ghost done = runs@.subrange(0, i as int);
            let ghost more = runs@.subrange(0, i + 1);
            proof {
                assert(more[i as int] == run);
                assert forall|k: int| 0 <= k < i implies more[k] == done[k] by {}
                if was.can_free(run.id, run.overflow) {
                    assert forall|k: int| 0 <= k < i implies (#[trigger] more[k]).id
                        + more[k].overflow < run.id || run.id + run.overflow < more[k].id by {
                        if !(more[k].id + more[k].overflow < run.id || run.id + run.overflow
                            < more[k].id) {
                            let q: PageId = if more[k].id >= run.id {
                                more[k].id
                            } else {
                                run.id
                            };
                            assert(done[k].covers(q as int));
                            assert(runs_cover(done, q as int));
                            assert(was.in_use(((run.id + (q - run.id)) as u64)));
                        }
                    }
                    assert(start.can_free(run.id, run.overflow)) by {
                        assert forall|k: int| 0 <= k <= run.overflow implies start.in_use(
                            #[trigger] ((run.id + k) as u64),
                        ) by {
                            assert(was.in_use(((run.id + k) as u64)));
                        }
                    }
                    assert(can_retire(start, more)) by {
                        assert forall|k: int| 0 <= k < more.len() implies start.can_free(
                            (#[trigger] more[k]).id,
                            more[k].overflow,
                        ) by {
                            if k < i {
                                assert(start.can_free(done[k].id, done[k].overflow));
                            }
                        }
                        assert forall|a: int, b: int| 0 <= a < b < more.len() implies (
                        #[trigger] more[a]).id + more[a].overflow < (#[trigger] more[b]).id
                            || more[b].id + more[b].overflow < more[a].id by {
                            if b < i {
                                assert(done[a].id + done[a].overflow < done[b].id || done[b].id
                                    + done[b].overflow < done[a].id);
                            }
                        }
                    }
                } else {
                    if can_retire(start, runs@) {
                        assert(start.can_free(runs@[i as int].id, runs@[i as int].overflow));
                        assert forall|k: int| 0 <= k <= run.overflow implies was.in_use(
                            #[trigger] ((run.id + k) as u64),
                        ) by {
                            let q = (run.id + k) as u64;
                            assert(start.in_use(q));
                            if runs_cover(done, q as int) {
                                let j = choose|j: int|
                                    0 <= j < done.len() && (#[trigger] done[j]).covers(q as int);
                                assert(runs@[j] == done[j]);
                                assert(runs@[j].id + runs@[j].overflow < runs@[i as int].id
                                    || runs@[i as int].id + runs@[i as int].overflow < runs@[j].id);
                            }
                        }
                    }
                }
            }
            match self.pages.free(self.id, run.id, run.overflow) {
                Ok(_) => {},
                Err(e) => {
                    return Err(e);
                },
            }
            proof {
                let now = self.allocator();
                crate::freelist::lemma_freed(was, now, self.id, run.id, run.overflow);
                assert forall|p: PageId|
                    #[trigger] now.in_use(p) <==> start.in_use(p) && !runs_cover(more, p as int) by {
                    if runs_cover(more, p as int) {
                        let j = choose|j: int|
                            0 <= j < more.len() && (#[trigger] more[j]).covers(p as int);
                        if j < i {
                            assert(done[j].covers(p as int));
                            assert(runs_cover(done, p as int));
                        }
                    }
                    if runs_cover(done, p as int) {
                        let j = choose|j: int|
                            0 <= j < done.len() && (#[trigger] done[j]).covers(p as int);
                        assert(more[j].covers(p as int));
                    }
                    if run.covers(p as int) {
                        assert(more[i as int].covers(p as int));
                    }
                }
                assert forall|p: PageId|
                    #[trigger] now.list().is_held(p) <==> start.list().is_held(p) || runs_cover(
                        more,
                        p as int,
                    ) by {
                    if runs_cover(more, p as int) {
                        let j = choose|j: int|
                            0 <= j < more.len() && (#[trigger] more[j]).covers(p as int);
                        if j < i {
                            assert(done[j].covers(p as int));
                            assert(runs_cover(done, p as int));
                        }
                    }
                    if runs_cover(done, p as int) {
                        let j = choose|j: int|
                            0 <= j < done.len() && (#[trigger] done[j]).covers(p as int);
                        assert(more[j].covers(p as int));
                    }
                    if run.covers(p as int) {
                        assert(more[i as int].covers(p as int));
                    }
                }
            }
            i += 1;
        }
        proof {
            assert(runs@.subrange(0, i as int) =~= runs@);
        }
        Ok(())
    }

    /// Plans the record of the freelist for the commit: it takes the pages
    /// at the end of the file, and lists every page that is free or
    /// pending. Fails with `ValueTooLarge` when more pages are free or
    /// pending than a record can list, or the file cannot get as long as it
    /// would have to.
    pub fn plan_freelist(&mut self) -> (r: Result<Record, Error>)
        requires
            old(self).wf(),
        ensures
            final(self).wf(),
            final(self).same_frame(old(self)),
            final(self).buckets() == old(self).buckets(),
            final(self).allocator().list() == old(self).allocator().list(),
            r is Err ==> r->Err_0 == Error::ValueTooLarge && (old(self).allocator().list().listed_len() > MAX_LISTED_PAGES || old(self).allocator().spec_next_page() + u32::MAX > u64::MAX),
            r matches Ok(record) ==> {
                &&& record.id == old(self).allocator().spec_next_page()
                &&& record.kind == PageKind::Freelist
                &&& record.writable()
                &&& final(self).allocator().spec_next_page() == record.id + record.pages()
                &&& record.pages() * crate::store::PAGE_DATA_SIZE <= 8 * old(
                    self,
                ).allocator().list().listed_len() + 8 + crate::store::PAGE_DATA_SIZE
                &&& exists|ids: Seq<PageId>|
                    #![trigger freelist_payload(ids)]
                    {
                        &&& ascending(ids)
                        &&& forall|i: int| 0 <= i < ids.len() ==> #[trigger] ids[i] >= 2
                        &&& forall|q: PageId|
                            ids.contains(q) <==> old(self).allocator().list().is_listed(q)
                        &&& record.count == freelist_count(ids)
                        &&& record.payload@ == freelist_payload(ids)
                    }
            },
    {
        let ids = self.pages.freelist().all_ids();
        let (count, payload) = freelist_to_payload(&ids);
        let n = page_count_for(payload.len());
        proof {
            crate::freelist::lemma_ids_bytes_len(ids@, ids@.len());
            crate::enc::lemma_le_bytes_len(ids@.len(), 8);
            assert(payload@.len() <= 8 * ids@.len() + 8);
        }
        if n > u32::MAX as u64 {
            return Err(Error::ValueTooLarge);
        }
        let id = match self.pages.take_end(n) {
            Ok(id) => id,
            Err(e) => {
                return Err(e);
            },
        };
        let record = Record { id, kind: PageKind::Freelist, count, payload };
        proof {
            assert(freelist_payload(ids@) == record.payload@);
            crate::store::lemma_pages_for(record.payload@.len());
        }
        Ok(record)
    }

    /// Ends the transaction and hands back where it got its pages from.
    pub fn into_allocator(self) -> (pages: PageAllocator)
        ensures
            pages == self.allocator(),
    {
        self.pages
    }
}

/// Whether none of the pages of the records `records` is pending in
/// allocator `a`.
pub open spec fn plan_spares_pending(records: Seq<Record>, a: PageAllocator) -> bool {
    forall|j: int, q: PageId|
        0 <= j < records.len() && (#[trigger] records[j]).covers(q as int) ==> !#[trigger] a.list().is_held(
            q,
        )
}

/// Whether the records `runs` can be retired from allocator `a`: the pages
/// of each can be freed, and no page belongs to two of them.
pub open spec fn can_retire(a: PageAllocator, runs: Seq<Run>) -> bool {
    &&& forall|i: int|
        0 <= i < runs.len() ==> a.can_free((#[trigger] runs[i]).id, runs[i].overflow)
    &&& forall|i: int, j: int|
        0 <= i < j < runs.len() ==> (#[trigger] runs[i]).id + runs[i].overflow < (
        #[trigger] runs[j]).id || runs[j].id + runs[j].overflow < runs[i].id
}

/// Whether allocator `now` is allocator `was` with the records `runs`
/// retired: their pages are pending and in use no more, and every other
/// page is as it was.
pub open spec fn retired(was: PageAllocator, now: PageAllocator, runs: Seq<Run>) -> bool {
    &&& forall|p: PageId|
        #[trigger] now.in_use(p) <==> was.in_use(p) && !runs_cover(runs, p as int)
    &&& forall|p: PageId|
        #[trigger] now.list().is_held(p) <==> was.list().is_held(p) || runs_cover(runs, p as int)
}

/// The buckets of a directory are read alike from images that differ in
/// the meta pages only.
proof fn lemma_buckets_spared(a: Seq<u8>, b: Seq<u8>, entries: Seq<Entry>, n: nat)
    requires
        same_but_meta(a, b),
        buckets_in(a, entries, n) is Ok,
    ensures
        buckets_in(b, entries, n) == buckets_in(a, entries, n),
    decreases n,
{
    if n > 0 {
        lemma_buckets_spared(a, b, entries, (n - 1) as nat);
        lemma_bucket_spared(a, b, entries[n - 1].value);
    }
}

/// A database is read alike from images that differ in the meta pages
/// only: what a commit has written stays what it is when the meta record
/// is written.
pub proof fn lemma_database_spared(a: Seq<u8>, b: Seq<u8>, root: PageId)
    requires
        same_but_meta(a, b),
        database_in(a, root) is Ok,
    ensures
        database_in(b, root) == database_in(a, root),
{
    if root >= 2 {
        lemma_record_data_spared(a, b, root as int);
    }
    let entries = directory_in(a, root)->Ok_0;
    lemma_buckets_spared(a, b, entries, entries.len());
}

/// The record of a freelist, among the records of a plan, holds the
/// freelist: it is read back from every image in which the records lie.
proof fn lemma_list_held(records: Seq<Record>, r: Record, list: Freelist)
    requires
        records.len() > 0,
        records.last() == r,
        r.kind == PageKind::Freelist,
        r.writable(),
        r.id >= 2,
        exists|ids: Seq<PageId>|
            #![trigger freelist_payload(ids)]
            {
                &&& ascending(ids)
                &&& forall|i: int| 0 <= i < ids.len() ==> #[trigger] ids[i] >= 2
                &&& forall|q: PageId| ids.contains(q) <==> list.is_listed(q)
                &&& r.count == freelist_count(ids)
                &&& r.payload@ == freelist_payload(ids)
            },
    ensures
        list_held(records, r.id, list),
{
    let ids = choose|ids: Seq<PageId>|
        #![trigger freelist_payload(ids)]
        {
            &&& ascending(ids)
            &&& forall|i: int| 0 <= i < ids.len() ==> #[trigger] ids[i] >= 2
            &&& forall|q: PageId| ids.contains(q) <==> list.is_listed(q)
            &&& r.count == freelist_count(ids)
            &&& r.payload@ == freelist_payload(ids)
        };
    assert forall|data: Seq<u8>|
        data.len() <= usize::MAX && #[trigger] all_lie_in(records, data) implies crate::db::freelist_stored(
        data,
        r.id,
        list,
    ) by {
        assert(records[records.len() - 1].lies_in(data));
        lemma_record_found(data, r);
        let rest = crate::enc::zeros(
            (crate::store::pages_for(r.payload@.len()) * crate::store::PAGE_DATA_SIZE
                - r.payload@.len()) as nat,
        );
        assert(padded(r.payload@) == freelist_payload(ids) + rest);
        crate::freelist::lemma_ascending_len(ids);
        crate::freelist::lemma_freelist_roundtrip(ids, rest);
    }
}

/// What a commit is going to write: the records of the buckets, of their
/// directory and of the freelist, and what the new meta record has to say
/// of them.
pub struct Plan {
    /// The records to write.
    pub records: Vec<Record>,
    /// The page of the directory of the buckets.
    pub root: PageId,
    /// The page of the freelist.
    pub freelist: PageId,
    /// The first page past those in use.
    pub end: PageId,
    /// The freelist as it is after the commit.
    pub list: Freelist,
    /// The database that the records hold.
    pub state: Ghost<Map<Seq<u8>, BucketView>>,
}

impl Plan {
    /// What holds of every plan: its records share no page, spare the meta
    /// pages and end in front of the end of the file, and written to any
    /// image they give the database that the plan is for, from the page of
    /// the directory.
    pub open spec fn wf(&self) -> bool {
        &&& records_apart(self.records@)
        &&& records_within(self.records@, self.end)
        &&& self.root >= 2
        &&& self.freelist >= 2
        &&& self.end >= 2
        &&& self.list.wf()
        &&& records_hold(self.records@, self.root, self.state@)
        &&& list_held(self.records@, self.freelist, self.list)
    }
}

/// Whether the records `records` hold the freelist `list` at page `id`:
/// every image in which they lie lists the pages of that freelist there.
pub open spec fn list_held(records: Seq<Record>, id: PageId, list: Freelist) -> bool {
    forall|data: Seq<u8>|
        data.len() <= usize::MAX && #[trigger] all_lie_in(records, data) ==> crate::db::freelist_stored(
            data,
            id,
            list,
        )
}

impl Transaction {
    /// Plans the commit of the transaction: what `spill` and
    /// `plan_freelist` give, put together. Fails with `ValueTooLarge` when
    /// a bucket holds more than its records can, more pages are free or
    /// pending than a record can list, or the file would get too long.
    pub fn plan(self, threshold: u64) -> (r: Result<Plan, Error>)
        requires
            self.wf(),
            self.spec_writable(),
        ensures
            r is Err ==> r->Err_0 == Error::ValueTooLarge && self.plan_fails(threshold as nat),
            has_oversized_bucket(self.buckets(), threshold as nat) ==> r is Err,
            r matches Ok(plan) ==> plan.wf() && same_content(plan.state@, self.state())
                && plan_spares_pending(plan.records@, self.allocator())
                && self.allocator().keeps_pending_in(plan.list) && plan.end <= self.commit_end(),
    {
        let ghost start = self;
        let mut tx = self;
        let (mut records, root) = match tx.spill(threshold) {
            Ok(found) => found,
            Err(e) => {
                return Err(e);
            },
        };
        let ghost spilled = records@;
        let ghost state = tx.state();
        let ghost mid = tx.allocator();
        proof {
            lemma_fresh_records_end(spilled, start.allocator(), mid);
            assert(spilled.len() * MAX_RECORD_PAGES <= 0x1_0000 * MAX_TREE_RECORDS
                * MAX_RECORD_PAGES) by (nonlinear_arith)
                requires
                    spilled.len() <= 0x1_0000 * MAX_TREE_RECORDS,
            ;
        }
        let list_record = match tx.plan_freelist() {
            Ok(record) => record,
            Err(e) => {
                return Err(e);
            },
        };
        let freelist = list_record.id;
        records.push(list_record);
        let pages = tx.into_allocator();
        let end = pages.next_page();
        proof {
            let low = mid.spec_next_page() - start.allocator().spec_next_page();
            let high = end - mid.spec_next_page();
            assert((low + high) * crate::store::PAGE_DATA_SIZE == low
                * crate::store::PAGE_DATA_SIZE + high * crate::store::PAGE_DATA_SIZE)
                by (nonlinear_arith);
            assert(mid.list().listed_len() <= start.allocator().list().listed_len());
            assert((end - start.allocator().spec_next_page()) * crate::store::PAGE_DATA_SIZE
                <= start.commit_bytes());
            assert(crate::store::PAGE_DATA_SIZE == 4080);
            assert(end - start.allocator().spec_next_page() <= start.commit_bytes() / 4080);
        }
        proof {
            let all = records@;
            assert(all == spilled.push(list_record));
            assert forall|i: int, j: int| 0 <= i < j < all.len() implies (#[trigger] all[i]).id
                + all[i].pages() <= (#[trigger] all[j]).id || all[j].id + all[j].pages()
                <= all[i].id by {
                if j < spilled.len() {
                    assert(spilled[i].id + spilled[i].pages() <= spilled[j].id || spilled[j].id
                        + spilled[j].pages() <= spilled[i].id);
                } else {
                    assert(spilled[i].id + spilled[i].pages() <= mid.spec_next_page());
                }
            }
            assert forall|i: int| 0 <= i < all.len() implies (#[trigger] all[i]).writable()
                && all[i].id >= 2 && all[i].id + all[i].pages() <= end by {
                if i < spilled.len() {
                    assert(spilled[i].writable());
                    assert(spilled[i].id + spilled[i].pages() <= mid.spec_next_page());
                }
            }
            assert forall|data: Seq<u8>|
                data.len() <= usize::MAX && #[trigger] all_lie_in(all, data) implies database_in(
                data,
                root,
            ) == Ok::<Map<Seq<u8>, BucketView>, Error>(state) by {
                assert forall|j: int| 0 <= j < spilled.len() implies (#[trigger] spilled[j]).lies_in(
                    data,
                ) by {
                    assert(all[j].lies_in(data));
                }
                assert(all_lie_in(spilled, data));
            }
            crate::freelist::lemma_held_alike(start.allocator().list(), mid.list());
            lemma_list_held(all, list_record, mid.list());
            assert forall|j: int, q: PageId|
                0 <= j < all.len() && (#[trigger] all[j]).covers(q as int)
                    implies !#[trigger] start.allocator().list().is_held(q) by {
                if j < spilled.len() {
                    assert(spilled[j].covers(q as int));
                    assert(mid.in_use(q));
                } else {
                    assert(q >= mid.spec_next_page());
                    crate::freelist::lemma_held_alike(start.allocator().list(), mid.list());
                    if start.allocator().list().is_held(q) {
                        assert(mid.list().is_held(q));
                        assert(mid.list().is_listed(q));
                    }
                }
            }
        }
        Ok(
            Plan {
                records,
                root,
                freelist,
                end,
                list: pages.into_freelist(),
                state: Ghost(state),
            },
        )
    }

    /// A bound on the room that the commit of the transaction takes at
    /// the end of the file, in bytes of page data: that of the records of
    /// the buckets and of their directory, and that of the record of the
    /// freelist, which lists no more pages than are free or pending now.
    pub open spec fn commit_bytes(&self) -> nat {
        (spill_bytes(self.buckets()) + 8 * self.allocator().list().listed_len() + 8
            + crate::store::PAGE_DATA_SIZE) as nat
    }

    /// A bound on the end of the file after the commit of the
    /// transaction: the end of the file now, and behind it the pages that
    /// hold `commit_bytes` bytes of data. The commit ends there or in front
    /// of it.
    pub open spec fn commit_end(&self) -> nat {
        (self.allocator().spec_next_page() + self.commit_bytes() / (
        crate::store::PAGE_DATA_SIZE as nat)) as nat
    }

    /// Why the commit of the transaction cannot be planned for pages
    /// filled to `threshold` bytes, when it cannot: a bucket holds more
    /// than its records can, more pages are free or pending than a record
    /// can list, or the file has come too far for the pages of a commit to
    /// be sure.
    pub open spec fn plan_fails(&self, threshold: nat) -> bool {
        ||| has_oversized_bucket(self.buckets(), threshold)
        ||| self.allocator().list().listed_len() > MAX_LISTED_PAGES
        ||| self.allocator().spec_next_page() > MAX_COMMIT_START
    }
}

/// Fresh records end in front of the end of the file.
pub proof fn lemma_fresh_records_end(records: Seq<Record>, was: PageAllocator, now: PageAllocator)
    requires
        records_fresh(records, was, now),
        records_sound(records),
    ensures
        forall|j: int|
            0 <= j < records.len() ==> (#[trigger] records[j]).id + records[j].pages()
                <= now.spec_next_page(),
{
    assert forall|j: int| 0 <= j < records.len() implies (#[trigger] records[j]).id
        + records[j].pages() <= now.spec_next_page() by {
        let r = records[j];
        crate::store::lemma_pages_for(r.payload@.len());
        lemma_fresh_record_end(records, was, now, j, r.pages() as int);
    }
}

/// The first `k` pages of a fresh record lie in front of the end of the
/// file.
proof fn lemma_fresh_record_end(
    records: Seq<Record>,
    was: PageAllocator,
    now: PageAllocator,
    j: int,
    k: int,
)
    requires
        records_fresh(records, was, now),
        0 <= j < records.len(),
        0 <= k <= records[j].pages(),
    ensures
        records[j].id + k <= now.spec_next_page(),
    decreases k,
{
    if k > 0 {
        lemma_fresh_record_end(records, was, now, j, k - 1);
        let q = (records[j].id + k - 1) as u64;
        assert(records[j].covers(q as int));
        assert(now.in_use(q));
    } else {
        let limit = now.spec_next_page();
        if records[j].pages() > 0 {
            let q = records[j].id;
            assert(records[j].covers(q as int));
            assert(now.in_use(q));
        }
    }
}

/// The pages of the records of the first `n` of the buckets `views`, in
/// image `data`: those of the tree of each bucket that does not lie
/// inline.
pub open spec fn bucket_runs(data: Seq<u8>, views: Seq<BucketView>, n: nat) -> Seq<Run>
    decreases n,
{
    if n == 0 {
        Seq::empty()
    } else {
        let head = bucket_runs(data, views, (n - 1) as nat);
        if views[n - 1].root != 0 {
            head + tree_runs(data, views[n - 1].root)
        } else {
            head
        }
    }
}

/// The pages of the records of the database whose directory starts at page
/// `root` of image `data`: those of the directory, and those of the
/// buckets.
pub open spec fn runs_in(data: Seq<u8>, root: PageId) -> Seq<Run> {
    if root == 0 || database_in(data, root) is Err {
        Seq::empty()
    } else {
        let entries = directory_in(data, root)->Ok_0;
        let views = buckets_in(data, entries, entries.len())->Ok_0;
        seq![run_of(data, root)] + bucket_runs(data, views, views.len())
    }
}

/// The records of the first buckets do not depend on the buckets behind
/// them.
proof fn lemma_bucket_runs_agree(data: Seq<u8>, s: Seq<BucketView>, t: Seq<BucketView>, n: nat)
    requires
        n <= s.len(),
        n <= t.len(),
        forall|k: int| 0 <= k < n ==> s[k] == t[k],
    ensures
        bucket_runs(data, s, n) == bucket_runs(data, t, n),
    decreases n,
{
    if n > 0 {
        lemma_bucket_runs_agree(data, s, t, (n - 1) as nat);
    }
}

/// A page is a page of the records of the first buckets exactly if it is
/// a page of the tree of one of them.
proof fn lemma_bucket_runs_cover(data: Seq<u8>, views: Seq<BucketView>, n: nat, q: int)
    requires
        n <= views.len(),
    ensures
        runs_cover(bucket_runs(data, views, n), q) <==> exists|k: int|
            0 <= k < n && (#[trigger] views[k]).root != 0 && runs_cover(
                tree_runs(data, views[k].root),
                q,
            ),
    decreases n,
{
    if n > 0 {
        lemma_bucket_runs_cover(data, views, (n - 1) as nat, q);
        let head = bucket_runs(data, views, (n - 1) as nat);
        let all = bucket_runs(data, views, n);
        let last = views[n - 1];
        if runs_cover(all, q) {
            let i = choose|i: int| 0 <= i < all.len() && (#[trigger] all[i]).covers(q);
            if i < head.len() {
                assert(head[i].covers(q));
                assert(runs_cover(head, q));
                let k = choose|k: int|
                    0 <= k < n - 1 && (#[trigger] views[k]).root != 0 && runs_cover(
                        tree_runs(data, views[k].root),
                        q,
                    );
                assert(views[k].root != 0);
            } else {
                let tail = tree_runs(data, last.root);
                assert(tail[i - head.len()].covers(q));
                assert(runs_cover(tail, q));
                assert(views[n - 1].root != 0);
            }
        }
        if exists|k: int|
            0 <= k < n && (#[trigger] views[k]).root != 0 && runs_cover(
                tree_runs(data, views[k].root),
                q,
            ) {
            let k = choose|k: int|
                0 <= k < n && (#[trigger] views[k]).root != 0 && runs_cover(
                    tree_runs(data, views[k].root),
                    q,
                );
            if k < n - 1 {
                assert(runs_cover(head, q));
                let i = choose|i: int| 0 <= i < head.len() && (#[trigger] head[i]).covers(q);
                assert(all[i] == head[i]);
            } else {
                let tail = tree_runs(data, last.root);
                let i = choose|i: int| 0 <= i < tail.len() && (#[trigger] tail[i]).covers(q);
                assert(all[head.len() + i] == tail[i]);
            }
        }
    }
}

/// The buckets of a directory are read alike from an image and from one
/// that is no shorter and holds the same in the pages of their records.
proof fn lemma_buckets_kept(
    a: Seq<u8>,
    b: Seq<u8>,
    entries: Seq<Entry>,
    views: Seq<BucketView>,
    n: nat,
)
    requires
        a.len() <= b.len(),
        n <= entries.len(),
        buckets_in(a, entries, entries.len()) == Ok::<Seq<BucketView>, Error>(views),
        forall|q: int|
            runs_cover(bucket_runs(a, views, views.len()), q) ==> #[trigger] page_bytes(a, q)
                == page_bytes(b, q),
    ensures
        buckets_in(b, entries, n) == buckets_in(a, entries, n),
        buckets_in(a, entries, n) is Ok,
        buckets_in(a, entries, n)->Ok_0 == views.subrange(0, n as int),
    decreases n,
{
    lemma_buckets_in_len(a, entries, entries.len());
    if n == 0 {
        assert(views.subrange(0, 0) =~= Seq::<BucketView>::empty());
    } else {
        lemma_buckets_kept(a, b, entries, views, (n - 1) as nat);
        if buckets_in(a, entries, n) is Err {
            lemma_buckets_in_fails(a, entries, n, entries.len());
        }
        let value = entries[n - 1].value;
        let view = bucket_in(a, value)->Ok_0;
        assert(buckets_in(a, entries, n)->Ok_0 == views.subrange(0, n - 1).push(view));
        lemma_buckets_prefix(a, entries, n, entries.len());
        let sofar = buckets_in(a, entries, n)->Ok_0;
        assert(sofar == views.subrange(0, n as int));
        assert(sofar[n - 1] == view);
        assert(views.subrange(0, n as int)[n - 1] == views[n - 1]);
        assert(view == views[n - 1]);
        if view.root != 0 {
            let all = bucket_runs(a, views, views.len());
            assert forall|q: int| runs_cover(tree_runs(a, view.root), q) implies #[trigger] page_bytes(
                a,
                q,
            ) == page_bytes(b, q) by {
                lemma_bucket_runs_cover(a, views, views.len(), q);
                assert(views[n - 1].root != 0);
                assert(runs_cover(all, q));
            }
            lemma_tree_kept(a, b, view.root);
        }
    }
}

/// The buckets of the first entries of a directory are the first of the
/// buckets of more of its entries.
proof fn lemma_buckets_prefix(data: Seq<u8>, entries: Seq<Entry>, n: nat, m: nat)
    requires
        n <= m,
        buckets_in(data, entries, m) is Ok,
    ensures
        buckets_in(data, entries, n) is Ok,
        buckets_in(data, entries, n)->Ok_0 == buckets_in(data, entries, m)->Ok_0.subrange(
            0,
            n as int,
        ),
    decreases m,
{
    lemma_buckets_in_len(data, entries, m);
    if n < m {
        lemma_buckets_prefix(data, entries, n, (m - 1) as nat);
        lemma_buckets_in_len(data, entries, (m - 1) as nat);
        let more = buckets_in(data, entries, m)->Ok_0;
        let fewer = buckets_in(data, entries, (m - 1) as nat)->Ok_0;
        assert(fewer =~= more.subrange(0, m - 1));
        assert(fewer.subrange(0, n as int) =~= more.subrange(0, n as int));
    } else {
        let all = buckets_in(data, entries, m)->Ok_0;
        assert(all.subrange(0, m as int) =~= all);
    }
}

/// A database is read alike from an image and from one that is no shorter
/// and holds the same in the pages of its records: what is written
/// elsewhere does not change it.
pub proof fn lemma_database_kept(a: Seq<u8>, b: Seq<u8>, root: PageId)
    requires
        a.len() <= b.len(),
        database_in(a, root) is Ok,
        forall|q: int| runs_cover(runs_in(a, root), q) ==> #[trigger] page_bytes(a, q) == page_bytes(
            b,
            q,
        ),
    ensures
        database_in(b, root) == database_in(a, root),
{
    if root != 0 {
        let entries = directory_in(a, root)->Ok_0;
        let views = buckets_in(a, entries, entries.len())->Ok_0;
        let runs = runs_in(a, root);
        let rest = bucket_runs(a, views, views.len());
        let pages = record_check(a, root as int)->Ok_0;
        assert forall|k: int| 0 <= k < pages implies #[trigger] page_bytes(a, root + k)
            == page_bytes(b, root + k) by {
            assert(runs[0].covers(root + k));
            assert(runs_cover(runs, root + k));
        }
        lemma_record_data_frame(a, b, root as int);
        assert forall|q: int| runs_cover(rest, q) implies #[trigger] page_bytes(a, q)
            == page_bytes(b, q) by {
            let i = choose|i: int| 0 <= i < rest.len() && (#[trigger] rest[i]).covers(q);
            assert(runs[i + 1] == rest[i]);
            assert(runs_cover(runs, q));
        }
        lemma_buckets_kept(a, b, entries, views, entries.len());
    }
}


impl Transaction {
    /// Whether the transaction keeps the database whose directory starts
    /// at page `root` of image `image` out of the reach of its commit:
    /// every page of its records is pending, so that the commit writes to
    /// none of them.
    pub open spec fn pins(&self, image: Seq<u8>, root: PageId) -> bool {
        forall|q: PageId|
            runs_cover(runs_in(image, root), q as int) ==> #[trigger] self.allocator().list().is_held(
                q,
            )
    }

    /// Whether the transaction keeps the record of the freelist at page
    /// `id` of image `image` out of the reach of its commit: every page of
    /// the record is pending. A freelist without a record, at page 0, has
    /// nothing to keep.
    pub open spec fn pins_list(&self, image: Seq<u8>, id: PageId) -> bool {
        id != 0 ==> forall|q: PageId|
            run_of(image, id).covers(q as int) ==> #[trigger] self.allocator().list().is_held(q)
    }
}

/// A transaction that has pinned a database keeps it pinned as long as
/// its pending pages stay pending, which they do through everything that
/// a transaction does.
pub proof fn lemma_pins_kept(was: Transaction, now: Transaction, image: Seq<u8>, root: PageId)
    requires
        was.pins(image, root),
        was.allocator().keeps_pending(&now.allocator()),
    ensures
        now.pins(image, root),
{
    assert forall|q: PageId|
        runs_cover(runs_in(image, root), q as int) implies #[trigger] now.allocator().list().is_held(
        q,
    ) by {
        assert(was.allocator().list().is_held(q));
    }
}

/// The pages of the records of a database lie inside the image, behind the
/// meta pages.
pub proof fn lemma_runs_in_bounds(data: Seq<u8>, root: PageId, q: int)
    requires
        runs_cover(runs_in(data, root), q),
    ensures
        2 <= q,
        in_bounds(data.len(), q),
{
    let runs = runs_in(data, root);
    let i = choose|i: int| 0 <= i < runs.len() && (#[trigger] runs[i]).covers(q);
    let entries = directory_in(data, root)->Ok_0;
    let views = buckets_in(data, entries, entries.len())->Ok_0;
    if i == 0 {
        lemma_record_in_bounds(data, root as int, q - root);
    } else {
        let rest = bucket_runs(data, views, views.len());
        assert(runs[i] == rest[i - 1]);
        assert(runs_cover(rest, q));
        lemma_buckets_in_len(data, entries, entries.len());
        lemma_bucket_runs_cover(data, views, views.len(), q);
        let k = choose|k: int|
            0 <= k < views.len() && (#[trigger] views[k]).root != 0 && runs_cover(
                tree_runs(data, views[k].root),
                q,
            );
        lemma_buckets_prefix(data, entries, (k + 1) as nat, entries.len());
        let sofar = buckets_in(data, entries, (k + 1) as nat)->Ok_0;
        assert(sofar == views.subrange(0, k + 1));
        assert(sofar[k] == views[k]);
        assert(bucket_in(data, entries[k].value) == Ok::<BucketView, Error>(views[k]));
        assert(tree_in(data, views[k].root) is Ok);
        lemma_tree_runs_in_bounds(data, views[k].root, q);
    }
}

/// Whether the records `runs` can be retired where the pages `list` are
/// free or pending and the file ends in front of page `next`: the pages of
/// each lie behind the meta pages and in front of the end of the file and
/// are neither free nor pending, and no page belongs to two of them.
pub open spec fn retirable(list: Freelist, next: PageId, runs: Seq<Run>) -> bool {
    &&& forall|i: int|
        0 <= i < runs.len() ==> (#[trigger] runs[i]).id >= 2 && runs[i].id + runs[i].overflow
            < next
    &&& forall|i: int, q: PageId|
        0 <= i < runs.len() && (#[trigger] runs[i]).covers(q as int) ==> !#[trigger] list.is_listed(q)
    &&& forall|i: int, j: int|
        0 <= i < j < runs.len() ==> (#[trigger] runs[i]).id + runs[i].overflow < (
        #[trigger] runs[j]).id || runs[j].id + runs[j].overflow < runs[i].id
}

/// Records can be retired from an allocator exactly if they can be where
/// the pages of its freelist are free or pending and the file ends where
/// it ends for the allocator.
pub proof fn lemma_can_retire(a: PageAllocator, list: Freelist, runs: Seq<Run>)
    requires
        forall|p: PageId| #[trigger] a.list().is_listed(p) <==> list.is_listed(p),
    ensures
        can_retire(a, runs) == retirable(list, a.spec_next_page(), runs),
{
    let next = a.spec_next_page();
    if can_retire(a, runs) {
        assert forall|i: int, q: PageId|
            0 <= i < runs.len() && (#[trigger] runs[i]).covers(q as int) implies !#[trigger] list.is_listed(
            q,
        ) by {
            assert(a.can_free(runs[i].id, runs[i].overflow));
            let k = q - runs[i].id;
            assert(a.in_use(((runs[i].id + k) as u64)));
            assert(!a.list().is_listed(q));
        }
        assert forall|i: int| 0 <= i < runs.len() implies (#[trigger] runs[i]).id >= 2
            && runs[i].id + runs[i].overflow < next by {
            assert(a.can_free(runs[i].id, runs[i].overflow));
        }
    }
    if retirable(list, next, runs) {
        assert forall|i: int| 0 <= i < runs.len() implies a.can_free(
            (#[trigger] runs[i]).id,
            runs[i].overflow,
        ) by {
            assert forall|k: int| 0 <= k <= runs[i].overflow implies a.in_use(
                #[trigger] ((runs[i].id + k) as u64),
            ) by {
                let q = (runs[i].id + k) as u64;
                assert(runs[i].covers(q as int));
                assert(!list.is_listed(q));
                assert(!a.list().is_listed(q));
            }
        }
    }
}


/// What looking `key` up in the bucket named `bucket` finds in the
/// database whose directory starts at page `root` of image `data`: the
/// directory is read, and from the bucket only the way to the key.
/// `BucketNotFound` is the answer when the directory has no such bucket,
/// `DatabaseInvalid` when its entry is not marked as a bucket; for the
/// rest what `directory_in` and `bucket_lookup_in` find.
pub open spec fn database_lookup_in(
    data: Seq<u8>,
    root: PageId,
    bucket: Seq<u8>,
    key: Seq<u8>,
) -> Result<Option<Seq<u8>>, Error> {
    match directory_in(data, root) {
        Ok(entries) => if !has_key(entries, bucket) {
            Err(Error::BucketNotFound)
        } else if entries[index_of_key(entries, bucket)].flags != BUCKET_LEAF_FLAG {
            Err(Error::DatabaseInvalid)
        } else {
            bucket_lookup_in(data, entries[index_of_key(entries, bucket)].value, key)
        },
        Err(e) => Err(e),
    }
}

/// Looks `key` up in the bucket named `bucket` of the database whose
/// directory starts at page `root` of the image in `pa`. Fails with what
/// `database_lookup_in` finds wrong on the way.
pub fn database_lookup(pa: &PageArray, root: PageId, bucket: &[u8], key: &[u8]) -> (r: Result<
    Option<Vec<u8>>,
    Error,
>)
    ensures
        match r {
            Ok(Some(v)) => database_lookup_in(pa@, root, bucket@, key@) == Ok::<
                Option<Seq<u8>>,
                Error,
            >(Some(v@)),
            Ok(None) => database_lookup_in(pa@, root, bucket@, key@) == Ok::<
                Option<Seq<u8>>,
                Error,
            >(None),
            Err(e) => database_lookup_in(pa@, root, bucket@, key@) == Err::<
                Option<Seq<u8>>,
                Error,
            >(e),
        },
{
    if root == 0 {
        return Err(Error::BucketNotFound);
    }
    if root < 2 {
        return Err(Error::DatabaseInvalid);
    }
    let (header, payload) = match pa.read_record(root) {
        Ok(found) => found,
        Err(e) => {
            return Err(e);
        },
    };
    if header.flags != PAGE_BUCKET_LEAF {
        return Err(Error::DatabaseInvalid);
    }
    let page = Page { header, data: payload.as_slice() };
    let dir = match Node::from_page(&page) {
        Ok(n) => n,
        Err(e) => {
            return Err(e);
        },
    };
    let (found, at) = dir.search(bucket);
    if !found {
        return Err(Error::BucketNotFound);
    }
    proof {
        lemma_sorted_place(dir.entries(), at as int);
    }
    let inode = dir.inode(at);
    if inode.flags != BUCKET_LEAF_FLAG {
        return Err(Error::DatabaseInvalid);
    }
    bucket_lookup(pa, inode.value.as_slice(), key)
}

/// Looking a key up in a database that can be read whole finds what the
/// key has in its bucket, and `BucketNotFound` for a bucket that the
/// database does not have.
pub proof fn lemma_database_lookup_agrees(
    data: Seq<u8>,
    root: PageId,
    bucket: Seq<u8>,
    key: Seq<u8>,
)
    requires
        database_in(data, root) is Ok,
    ensures
        database_lookup_in(data, root, bucket, key) == if database_in(
            data,
            root,
        )->Ok_0.contains_key(bucket) {
            Ok::<Option<Seq<u8>>, Error>(
                value_of(database_in(data, root)->Ok_0[bucket].entries, key),
            )
        } else {
            Err::<Option<Seq<u8>>, Error>(Error::BucketNotFound)
        },
{
    let entries = directory_in(data, root)->Ok_0;
    let views = buckets_in(data, entries, entries.len())->Ok_0;
    if has_key(entries, bucket) {
        let k = index_of_key(entries, bucket);
        lemma_buckets_in_len(data, entries, entries.len());
        lemma_buckets_prefix(data, entries, (k + 1) as nat, entries.len());
        let sofar = buckets_in(data, entries, (k + 1) as nat)->Ok_0;
        assert(sofar == views.subrange(0, k + 1));
        assert(sofar[k] == views[k]);
        assert(bucket_in(data, entries[k].value) == Ok::<BucketView, Error>(views[k]));
        lemma_bucket_lookup_agrees(data, entries[k].value, key);
    }
}

} // verus!
