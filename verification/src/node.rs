//! The contents of a bucket in memory: its entries, kept sorted by key.

use vstd::prelude::*;
use vstd::slice::slice_subrange;
use crate::constants::{
    MAX_FILL_PERCENTAGE, MAX_KEY_SIZE, MAX_VALUE_SIZE, MIN_FILL_PERCENTAGE, MIN_KEYS_PER_PAGE,
    OS_PAGE_SIZE,
};
use crate::enc::append_bytes;
use crate::errors::Error;
use crate::page::{LEAF_PAGE_ELEMENT_SIZE, LeafPageElement, Page};

verus! {

/// Whether key `a` comes before key `b`: bytes are compared one by one, and
/// a key comes before every key that it is a proper prefix of.
pub open spec fn key_lt(a: Seq<u8>, b: Seq<u8>) -> bool
    decreases a.len(),
{
    if b.len() == 0 {
        false
    } else if a.len() == 0 {
        true
    } else if a[0] != b[0] {
        a[0] < b[0]
    } else {
        key_lt(a.drop_first(), b.drop_first())
    }
}

/// No key comes before itself.
pub proof fn lemma_key_lt_irreflexive(a: Seq<u8>)
    ensures
        !key_lt(a, a),
    decreases a.len(),
{
    if a.len() > 0 {
        lemma_key_lt_irreflexive(a.drop_first());
    }
}

/// Of two different keys exactly one comes before the other.
pub proof fn lemma_key_lt_total(a: Seq<u8>, b: Seq<u8>)
    ensures
        a != b ==> (key_lt(a, b) <==> !key_lt(b, a)),
        a == b ==> !key_lt(a, b) && !key_lt(b, a),
    decreases a.len(),
{
    if a.len() > 0 && b.len() > 0 && a[0] == b[0] {
        lemma_key_lt_total(a.drop_first(), b.drop_first());
        if a.drop_first() == b.drop_first() {
            assert(a =~= seq![a[0]] + a.drop_first());
            assert(b =~= seq![b[0]] + b.drop_first());
        }
    } else if a.len() == 0 && b.len() == 0 {
        assert(a =~= b);
    }
    if a == b {
        lemma_key_lt_irreflexive(a);
    }
}

/// The order of keys is transitive.
pub proof fn lemma_key_lt_transitive(a: Seq<u8>, b: Seq<u8>, c: Seq<u8>)
    requires
        key_lt(a, b),
        key_lt(b, c),
    ensures
        key_lt(a, c),
    decreases a.len(),
{
    if a.len() > 0 && a[0] == b[0] && b[0] == c[0] {
        lemma_key_lt_transitive(a.drop_first(), b.drop_first(), c.drop_first());
    }
}

/// Keys that agree on their first `n` bytes are ordered as what is left of
/// them is.
pub proof fn lemma_key_lt_skip(a: Seq<u8>, b: Seq<u8>, n: int)
    requires
        0 <= n <= a.len(),
        n <= b.len(),
        a.subrange(0, n) == b.subrange(0, n),
    ensures
        key_lt(a, b) == key_lt(a.skip(n), b.skip(n)),
        (a == b) == (a.skip(n) == b.skip(n)),
    decreases n,
{
    if n == 0 {
        assert(a.skip(0) =~= a);
        assert(b.skip(0) =~= b);
    } else {
        assert(a[0] == a.subrange(0, n)[0]);
        assert(b[0] == b.subrange(0, n)[0]);
        assert(a.drop_first().subrange(0, n - 1) =~= a.subrange(0, n).drop_first());
        assert(b.drop_first().subrange(0, n - 1) =~= b.subrange(0, n).drop_first());
        lemma_key_lt_skip(a.drop_first(), b.drop_first(), n - 1);
        assert(a.drop_first().skip(n - 1) =~= a.skip(n));
        assert(b.drop_first().skip(n - 1) =~= b.skip(n));
        if a.skip(n) == b.skip(n) {
            assert(a =~= a.subrange(0, n) + a.skip(n));
            assert(b =~= b.subrange(0, n) + b.skip(n));
        }
    }
}

/// How one key stands to another.
#[derive(Debug, Copy, Clone, PartialEq, Eq, Structural)]
pub enum KeyOrder {
    /// The first key comes before the second.
    Less,
    /// The keys are equal.
    Equal,
    /// The first key comes after the second.
    Greater,
}

/// How key `a` stands to key `b`.
pub open spec fn key_order(a: Seq<u8>, b: Seq<u8>) -> KeyOrder {
    if key_lt(a, b) {
        KeyOrder::Less
    } else if a == b {
        KeyOrder::Equal
    } else {
        KeyOrder::Greater
    }
}

/// Compares two keys byte by byte.
pub fn compare_keys(a: &[u8], b: &[u8]) -> (r: KeyOrder)
    ensures
        r == key_order(a@, b@),
        r == KeyOrder::Greater <==> key_lt(b@, a@),
{
    let mut i: usize = 0;
    proof {
        lemma_key_lt_total(a@, b@);
    }
    while i < a.len() && i < b.len()
        invariant
            i <= a.len(),
            i <= b.len(),
            a@.subrange(0, i as int) == b@.subrange(0, i as int),
        decreases a.len() - i,
    {
        let x = a[i];
        let y = b[i];
        if x != y {
            proof {
                lemma_key_lt_skip(a@, b@, i as int);
                lemma_key_lt_total(a@, b@);
                assert(a@.skip(i as int)[0] == x);
                assert(b@.skip(i as int)[0] == y);
            }
            if x < y {
                return KeyOrder::Less;
            } else {
                return KeyOrder::Greater;
            }
        }
        proof {
            assert(a@.subrange(0, i + 1) =~= a@.subrange(0, i as int) + seq![x]);
            assert(b@.subrange(0, i + 1) =~= b@.subrange(0, i as int) + seq![y]);
        }
        i += 1;
    }
    proof {
        lemma_key_lt_skip(a@, b@, i as int);
        lemma_key_lt_total(a@, b@);
        if a@.len() == b@.len() {
            assert(a@.skip(i as int) =~= b@.skip(i as int));
            lemma_key_lt_irreflexive(a@.skip(i as int));
        }
    }
    if a.len() < b.len() {
        KeyOrder::Less
    } else if a.len() == b.len() {
        KeyOrder::Equal
    } else {
        KeyOrder::Greater
    }
}


/// The most entries that a node can hold: as many as the count of a page
/// header can say.
pub const MAX_NODE_ENTRIES: usize = 0xFFFF;

/// One entry of a node.
#[derive(Debug)]
pub struct Inode {
    /// The flags of the entry as they lie in a leaf element.
    pub flags: u32,
    /// The key.
    pub key: Vec<u8>,
    /// The value.
    pub value: Vec<u8>,
}

/// An entry of a node, as a mathematical value.
pub struct Entry {
    /// The flags of the entry.
    pub flags: u32,
    /// The key.
    pub key: Seq<u8>,
    /// The value.
    pub value: Seq<u8>,
}

impl View for Inode {
    type V = Entry;

    open spec fn view(&self) -> Entry {
        Entry { flags: self.flags, key: self.key@, value: self.value@ }
    }
}

/// Whether the keys of `s` strictly ascend.
pub open spec fn sorted(s: Seq<Entry>) -> bool {
    forall|i: int, j: int| 0 <= i < j < s.len() ==> key_lt(#[trigger] s[i].key, #[trigger] s[j].key)
}

/// Whether some entry of `s` has key `k`.
pub open spec fn has_key(s: Seq<Entry>, k: Seq<u8>) -> bool {
    exists|i: int| 0 <= i < s.len() && #[trigger] s[i].key == k
}

/// The place of an entry of `s` with key `k`.
pub open spec fn index_of_key(s: Seq<Entry>, k: Seq<u8>) -> int {
    choose|i: int| 0 <= i < s.len() && #[trigger] s[i].key == k
}

/// The entries of `s` as a map from key to value.
pub open spec fn entries_map(s: Seq<Entry>) -> Map<Seq<u8>, Seq<u8>> {
    Map::new(|k: Seq<u8>| has_key(s, k), |k: Seq<u8>| s[index_of_key(s, k)].value)
}

/// The entries `s` without the entry with key `k`, if there is one; the
/// entries that stay are as they were, and in their order.
pub open spec fn spec_delete(s: Seq<Entry>, k: Seq<u8>) -> Seq<Entry> {
    if has_key(s, k) {
        s.remove(index_of_key(s, k))
    } else {
        s
    }
}

/// Whether every key and value of `s` is within the limits of the format.
pub open spec fn within_limits(s: Seq<Entry>) -> bool {
    forall|i: int|
        0 <= i < s.len() ==> (#[trigger] s[i]).key.len() <= MAX_KEY_SIZE && s[i].value.len()
            <= MAX_VALUE_SIZE
}

/// In a sorted sequence a key has one place only, and the map gives the
/// value at that place.
pub proof fn lemma_sorted_place(s: Seq<Entry>, i: int)
    requires
        sorted(s),
        0 <= i < s.len(),
    ensures
        has_key(s, s[i].key),
        index_of_key(s, s[i].key) == i,
        entries_map(s).contains_key(s[i].key),
        entries_map(s)[s[i].key] == s[i].value,
{
    let k = s[i].key;
    let j = index_of_key(s, k);
    lemma_key_lt_irreflexive(k);
    if j < i {
        assert(key_lt(s[j].key, s[i].key));
    } else if i < j {
        assert(key_lt(s[i].key, s[j].key));
    }
}

/// Putting an entry with a new key at its place keeps the sequence sorted
/// and adds the entry to the map.
pub proof fn lemma_insert_entry(s: Seq<Entry>, at: int, e: Entry)
    requires
        sorted(s),
        0 <= at <= s.len(),
        forall|i: int| 0 <= i < at ==> key_lt(#[trigger] s[i].key, e.key),
        forall|i: int| at <= i < s.len() ==> key_lt(e.key, #[trigger] s[i].key),
    ensures
        sorted(s.insert(at, e)),
        entries_map(s.insert(at, e)) == entries_map(s).insert(e.key, e.value),
{
    let t = s.insert(at, e);
    assert forall|i: int, j: int| 0 <= i < j < t.len() implies key_lt(
        #[trigger] t[i].key,
        #[trigger] t[j].key,
    ) by {
        let a = if i < at {
            i
        } else {
            i - 1
        };
        let b = if j < at {
            j
        } else {
            j - 1
        };
        if i != at && j != at {
            assert(key_lt(s[a].key, s[b].key));
        }
    }
    assert forall|k: Seq<u8>| has_key(t, k) <==> (k == e.key || has_key(s, k)) by {
        if has_key(t, k) {
            let i = index_of_key(t, k);
            if i != at {
                let a = if i < at {
                    i
                } else {
                    i - 1
                };
                assert(s[a].key == k);
            }
        }
        if has_key(s, k) {
            let a = index_of_key(s, k);
            let i = if a < at {
                a
            } else {
                a + 1
            };
            assert(t[i].key == k);
        }
        if k == e.key {
            assert(t[at].key == k);
        }
    }
    assert forall|k: Seq<u8>| has_key(t, k) implies #[trigger] entries_map(t)[k] == entries_map(
        s,
    ).insert(e.key, e.value)[k] by {
        let i = index_of_key(t, k);
        lemma_sorted_place(t, i);
        if i != at {
            let a = if i < at {
                i
            } else {
                i - 1
            };
            lemma_sorted_place(s, a);
            lemma_key_lt_irreflexive(k);
        }
    }
    assert(entries_map(t) =~= entries_map(s).insert(e.key, e.value));
}

/// Replacing an entry by one with the same key keeps the sequence sorted and
/// sets the key's value in the map.
pub proof fn lemma_replace_entry(s: Seq<Entry>, at: int, e: Entry)
    requires
        sorted(s),
        0 <= at < s.len(),
        s[at].key == e.key,
    ensures
        sorted(s.update(at, e)),
        entries_map(s.update(at, e)) == entries_map(s).insert(e.key, e.value),
{
    let t = s.update(at, e);
    assert forall|i: int, j: int| 0 <= i < j < t.len() implies key_lt(
        #[trigger] t[i].key,
        #[trigger] t[j].key,
    ) by {
        assert(key_lt(s[i].key, s[j].key));
    }
    assert forall|k: Seq<u8>| has_key(t, k) <==> (k == e.key || has_key(s, k)) by {
        if has_key(t, k) {
            let i = index_of_key(t, k);
            assert(s[i].key == k);
        }
        if has_key(s, k) {
            let a = index_of_key(s, k);
            assert(t[a].key == k);
        }
        if k == e.key {
            assert(t[at].key == k);
            assert(s[at].key == k);
        }
    }
    assert forall|k: Seq<u8>| has_key(t, k) implies #[trigger] entries_map(t)[k] == entries_map(
        s,
    ).insert(e.key, e.value)[k] by {
        let i = index_of_key(t, k);
        lemma_sorted_place(t, i);
        if i != at {
            lemma_sorted_place(s, i);
            lemma_sorted_place(s, at);
        }
    }
    assert(entries_map(t) =~= entries_map(s).insert(e.key, e.value));
}

/// Taking an entry out keeps the sequence sorted and takes its key out of
/// the map.
pub proof fn lemma_remove_entry(s: Seq<Entry>, at: int)
    requires
        sorted(s),
        0 <= at < s.len(),
    ensures
        sorted(s.remove(at)),
        entries_map(s.remove(at)) == entries_map(s).remove(s[at].key),
{
    let t = s.remove(at);
    let gone = s[at].key;
    assert forall|i: int, j: int| 0 <= i < j < t.len() implies key_lt(
        #[trigger] t[i].key,
        #[trigger] t[j].key,
    ) by {
        let a = if i < at {
            i
        } else {
            i + 1
        };
        let b = if j < at {
            j
        } else {
            j + 1
        };
        assert(key_lt(s[a].key, s[b].key));
    }
    assert forall|k: Seq<u8>| has_key(t, k) <==> (k != gone && has_key(s, k)) by {
        if has_key(t, k) {
            let i = index_of_key(t, k);
            let a = if i < at {
                i
            } else {
                i + 1
            };
            assert(s[a].key == k);
            lemma_sorted_place(s, a);
            lemma_sorted_place(s, at);
        }
        if has_key(s, k) && k != gone {
            let a = index_of_key(s, k);
            let i = if a < at {
                a
            } else {
                a - 1
            };
            assert(t[i].key == k);
        }
    }
    assert forall|k: Seq<u8>| has_key(t, k) implies #[trigger] entries_map(t)[k] == entries_map(
        s,
    ).remove(gone)[k] by {
        let i = index_of_key(t, k);
        lemma_sorted_place(t, i);
        let a = if i < at {
            i
        } else {
            i + 1
        };
        lemma_sorted_place(s, a);
    }
    assert(entries_map(t) =~= entries_map(s).remove(gone));
}

/// The entries of a bucket, sorted by key, with no key twice.
#[derive(Debug)]
pub struct Node {
    inodes: Vec<Inode>,
}

impl Node {
    /// The entries, in the order of their keys.
    pub closed spec fn entries(&self) -> Seq<Entry> {
        Seq::new(self.inodes@.len(), |i: int| self.inodes@[i]@)
    }

    /// What holds of every node: the keys strictly ascend, there are no
    /// more than `MAX_NODE_ENTRIES` entries, and keys and values are within
    /// the limits of the format.
    pub open spec fn wf(&self) -> bool {
        &&& sorted(self.entries())
        &&& self.entries().len() <= MAX_NODE_ENTRIES
        &&& within_limits(self.entries())
    }

    /// The node as a map from key to value.
    pub open spec fn view(&self) -> Map<Seq<u8>, Seq<u8>> {
        entries_map(self.entries())
    }

    /// A node without entries.
    pub fn new() -> (n: Node)
        ensures
            n.wf(),
            n.entries() == Seq::<Entry>::empty(),
            n@ == Map::<Seq<u8>, Seq<u8>>::empty(),
    {
        let n = Node { inodes: Vec::new() };
        proof {
            assert(n.entries() =~= Seq::<Entry>::empty());
            assert(n@ =~= Map::<Seq<u8>, Seq<u8>>::empty());
        }
        n
    }

    /// The number of entries.
    pub fn len(&self) -> (n: usize)
        ensures
            n == self.entries().len(),
    {
        self.inodes.len()
    }

    /// The entry at place `i`, counted in the order of the keys.
    pub fn inode(&self, i: usize) -> (e: &Inode)
        requires
            i < self.entries().len(),
        ensures
            e@ == self.entries()[i as int],
    {
        &self.inodes[i]
    }

    /// Finds the place of `key`: the number of entries whose keys come
    /// before it, and whether the entry at that place has this key.
    pub fn search(&self, key: &[u8]) -> (r: (bool, usize))
        requires
            self.wf(),
        ensures
            r.1 <= self.entries().len(),
            forall|i: int| 0 <= i < r.1 ==> key_lt(#[trigger] self.entries()[i].key, key@),
            forall|i: int|
                r.1 <= i < self.entries().len() ==> !key_lt(
                    #[trigger] self.entries()[i].key,
                    key@,
                ),
            r.0 == (r.1 < self.entries().len() && self.entries()[r.1 as int].key == key@),
            r.0 == self@.contains_key(key@),
    {
        let ghost s = self.entries();
        let mut lo: usize = 0;
        let mut hi: usize = self.inodes.len();
        while lo < hi
            invariant
                lo <= hi <= s.len(),
                s == self.entries(),
                s.len() == self.inodes@.len(),
                sorted(s),
                forall|i: int| 0 <= i < lo ==> key_lt(#[trigger] s[i].key, key@),
                forall|i: int| hi <= i < s.len() ==> !key_lt(#[trigger] s[i].key, key@),
            decreases hi - lo,
        {
            let mid = lo + (hi - lo) / 2;
            let order = compare_keys(self.inodes[mid].key.as_slice(), key);
            proof {
                assert(s[mid as int].key == self.inodes@[mid as int].key@);
            }
            match order {
                KeyOrder::Less => {
                    proof {
                        assert forall|i: int| 0 <= i < mid + 1 implies key_lt(
                            #[trigger] s[i].key,
                            key@,
                        ) by {
                            if i < mid {
                                assert(key_lt(s[i].key, s[mid as int].key));
                                lemma_key_lt_transitive(s[i].key, s[mid as int].key, key@);
                            }
                        }
                    }
                    lo = mid + 1;
                },
                _ => {
                    proof {
                        assert forall|i: int| mid <= i < s.len() implies !key_lt(
                            #[trigger] s[i].key,
                            key@,
                        ) by {
                            if i > mid && key_lt(s[i].key, key@) {
                                assert(key_lt(s[mid as int].key, s[i].key));
                                lemma_key_lt_transitive(s[mid as int].key, s[i].key, key@);
                            }
                        }
                    }
                    hi = mid;
                },
            }
        }
        let found = lo < self.inodes.len() && match compare_keys(
            self.inodes[lo].key.as_slice(),
            key,
        ) {
            KeyOrder::Equal => true,
            _ => false,
        };
        proof {
            if found {
                lemma_sorted_place(s, lo as int);
            } else if has_key(s, key@) {
                let i = index_of_key(s, key@);
                lemma_key_lt_irreflexive(key@);
                lemma_key_lt_total(s[lo as int].key, key@);
                if i > lo {
                    assert(key_lt(s[lo as int].key, s[i].key));
                }
            }
        }
        (found, lo)
    }

    /// The value that `key` has, if it has one.
    pub fn get(&self, key: &[u8]) -> (r: Option<&Vec<u8>>)
        requires
            self.wf(),
        ensures
            match r {
                Some(v) => self@.contains_key(key@) && v@ == self@[key@],
                None => !self@.contains_key(key@),
            },
    {
        let (found, at) = self.search(key);
        if found {
            proof {
                lemma_sorted_place(self.entries(), at as int);
            }
            Some(&self.inodes[at].value)
        } else {
            None
        }
    }

    /// Gives `key` the value `value`, whether it had one or not. Fails with
    /// `ValueTooLarge`, and changes nothing, when the key is longer than
    /// `MAX_KEY_SIZE`, the value is longer than `MAX_VALUE_SIZE`, or the key
    /// is new and the node already holds `MAX_NODE_ENTRIES` entries.
    pub fn put(&mut self, flags: u32, key: Vec<u8>, value: Vec<u8>) -> (r: Result<(), Error>)
        requires
            old(self).wf(),
        ensures
            final(self).wf(),
            spec_put_fits(old(self).entries(), key@, value@) ==> r == Ok::<(), Error>(())
                && final(self)@ == old(self)@.insert(key@, value@) && final(self).entries()
                == spec_put(old(self).entries(), Entry { flags, key: key@, value: value@ }),
            !spec_put_fits(old(self).entries(), key@, value@) ==> r == Err::<(), Error>(
                Error::ValueTooLarge,
            ) && final(self).entries() == old(self).entries(),
    {
        if key.len() > MAX_KEY_SIZE as usize || value.len() > MAX_VALUE_SIZE as usize {
            return Err(Error::ValueTooLarge);
        }
        let (found, at) = self.search(key.as_slice());
        let ghost before = self.entries();
        let ghost entry = Entry { flags, key: key@, value: value@ };
        if found {
            self.inodes[at] = Inode { flags, key, value };
            proof {
                assert(self.entries() =~= before.update(at as int, entry));
                lemma_replace_entry(before, at as int, entry);
                lemma_sorted_place(before, at as int);
            }
        } else {
            if self.inodes.len() >= MAX_NODE_ENTRIES {
                return Err(Error::ValueTooLarge);
            }
            proof {
                assert forall|i: int| at <= i < before.len() implies key_lt(
                    key@,
                    #[trigger] before[i].key,
                ) by {
                    lemma_key_lt_total(before[i].key, key@);
                    if before[i].key == key@ {
                        lemma_sorted_place(before, i);
                        lemma_sorted_place(before, at as int);
                    }
                }
            }
            self.inodes.insert(at, Inode { flags, key, value });
            proof {
                assert(self.entries() =~= before.insert(at as int, entry));
                lemma_insert_entry(before, at as int, entry);
                lemma_place_of_new_key(before, entry.key, at as int);
            }
        }
        Ok(())
    }

    /// Removes `key` and its value, and says whether the key was there.
    pub fn delete(&mut self, key: &[u8]) -> (r: bool)
        requires
            old(self).wf(),
        ensures
            final(self).wf(),
            r == old(self)@.contains_key(key@),
            final(self).entries() == spec_delete(old(self).entries(), key@),
            final(self)@ == old(self)@.remove(key@),
            payload_len(final(self).entries()) <= payload_len(old(self).entries()),
            final(self).entries().len() <= old(self).entries().len(),
    {
        let (found, at) = self.search(key);
        let ghost before = self.entries();
        if found {
            let gone = self.inodes.remove(at);
            proof {
                assert(self.entries() =~= before.remove(at as int));
                lemma_sorted_place(before, at as int);
                lemma_remove_entry(before, at as int);
                lemma_payload_len_remove(before, at as int);
            }
        } else {
            proof {
                assert(self@ =~= self@.remove(key@));
            }
        }
        found
    }
}

/// Whether `put` has room for the value `value` of key `key` in entries
/// `s`.
pub open spec fn spec_put_fits(s: Seq<Entry>, key: Seq<u8>, value: Seq<u8>) -> bool {
    &&& key.len() <= MAX_KEY_SIZE
    &&& value.len() <= MAX_VALUE_SIZE
    &&& (has_key(s, key) || s.len() < MAX_NODE_ENTRIES)
}


/// The number of bytes that the keys and values of the first `n` entries of
/// `s` take.
pub open spec fn data_len(s: Seq<Entry>, n: nat) -> nat
    decreases n,
{
    if n == 0 {
        0
    } else {
        data_len(s, (n - 1) as nat) + s[n - 1].key.len() + s[n - 1].value.len()
    }
}

/// The number of bytes that the entries `s` take as the data of a leaf
/// page: an element for each, and the keys and values.
pub open spec fn payload_len(s: Seq<Entry>) -> nat {
    (LEAF_PAGE_ELEMENT_SIZE * s.len() + data_len(s, s.len())) as nat
}

/// The element of entry `i` on the leaf page that holds the entries `s`:
/// keys and values lie behind the elements, in the order of the entries.
pub open spec fn leaf_element(s: Seq<Entry>, i: int) -> LeafPageElement {
    LeafPageElement {
        flags: s[i].flags,
        position: (LEAF_PAGE_ELEMENT_SIZE * s.len() + data_len(s, i as nat)) as u32,
        key_size: s[i].key.len() as u32,
        vsize: s[i].value.len() as u32,
    }
}

/// The elements of the first `n` entries of `s`, as they lie in the file.
pub open spec fn leaf_elements(s: Seq<Entry>, n: nat) -> Seq<u8>
    decreases n,
{
    if n == 0 {
        Seq::empty()
    } else {
        leaf_elements(s, (n - 1) as nat) + leaf_element(s, n - 1).bytes()
    }
}

/// The keys and values of the first `n` entries of `s`, as they lie in the
/// file.
pub open spec fn leaf_data(s: Seq<Entry>, n: nat) -> Seq<u8>
    decreases n,
{
    if n == 0 {
        Seq::empty()
    } else {
        leaf_data(s, (n - 1) as nat) + s[n - 1].key + s[n - 1].value
    }
}

/// The entries `s` as the data of a leaf page.
pub open spec fn leaf_payload(s: Seq<Entry>) -> Seq<u8> {
    leaf_elements(s, s.len()) + leaf_data(s, s.len())
}

/// Entry `i` of the leaf page with data `data`.
pub open spec fn entry_at(data: Seq<u8>, i: int) -> Entry {
    let e = LeafPageElement::spec_from_page(data, i);
    Entry { flags: e.flags, key: e.spec_key(data), value: e.spec_value(data) }
}

/// What is wrong with entry `i` of the leaf page with data `data`, if
/// anything: `PageOutOfBounds` when its element, key or value lies outside
/// the data, `DatabaseInvalid` when key or value is longer than the format
/// allows or the key does not come after the key before it.
pub open spec fn entry_check(data: Seq<u8>, i: int) -> Result<(), Error> {
    let e = LeafPageElement::spec_from_page(data, i);
    if (i + 1) * LEAF_PAGE_ELEMENT_SIZE > data.len() || !e.fits(data.len()) {
        Err(Error::PageOutOfBounds)
    } else if e.key_size > MAX_KEY_SIZE || e.vsize > MAX_VALUE_SIZE {
        Err(Error::DatabaseInvalid)
    } else if i > 0 && !key_lt(entry_at(data, i - 1).key, entry_at(data, i).key) {
        Err(Error::DatabaseInvalid)
    } else {
        Ok(())
    }
}

/// What is wrong with the first of the entries `i` to `count` of a leaf page
/// that has something wrong with it, if any has.
pub open spec fn leaf_check(data: Seq<u8>, count: nat, i: nat) -> Result<(), Error>
    decreases count - i,
{
    if i >= count {
        Ok(())
    } else {
        match entry_check(data, i as int) {
            Err(e) => Err(e),
            Ok(_) => leaf_check(data, count, i + 1),
        }
    }
}

/// The `count` entries of the leaf page with data `data`.
pub open spec fn leaf_entries(data: Seq<u8>, count: nat) -> Seq<Entry> {
    Seq::new(count, |i: int| entry_at(data, i))
}

/// The keys and values of more entries take no fewer bytes.
pub proof fn lemma_data_len_monotonic(s: Seq<Entry>, a: nat, b: nat)
    requires
        a <= b,
    ensures
        data_len(s, a) <= data_len(s, b),
    decreases b,
{
    if a < b {
        lemma_data_len_monotonic(s, a, (b - 1) as nat);
    }
}

/// Within the limits of the format, the keys and values of `n` entries take
/// no more than `n` times the largest key and value.
pub proof fn lemma_data_len_bound(s: Seq<Entry>, n: nat)
    requires
        within_limits(s),
        n <= s.len(),
    ensures
        data_len(s, n) <= n * (MAX_KEY_SIZE + MAX_VALUE_SIZE),
    decreases n,
{
    if n > 0 {
        lemma_data_len_bound(s, (n - 1) as nat);
        assert(s[n - 1].key.len() <= MAX_KEY_SIZE);
        assert(n * (MAX_KEY_SIZE + MAX_VALUE_SIZE) == (n - 1) * (MAX_KEY_SIZE + MAX_VALUE_SIZE)
            + (MAX_KEY_SIZE + MAX_VALUE_SIZE)) by (nonlinear_arith);
    }
}

/// The lengths of the two parts of the data of a leaf page.
pub proof fn lemma_leaf_parts_len(s: Seq<Entry>, n: nat)
    ensures
        leaf_elements(s, n).len() == LEAF_PAGE_ELEMENT_SIZE * n,
        leaf_data(s, n).len() == data_len(s, n),
    decreases n,
{
    if n > 0 {
        lemma_leaf_parts_len(s, (n - 1) as nat);
        leaf_element(s, n - 1).lemma_bytes_len();
    }
}

/// Element `i` lies at its place among the elements.
proof fn lemma_leaf_elements_at(s: Seq<Entry>, n: nat, i: int)
    requires
        0 <= i < n,
    ensures
        leaf_elements(s, n).subrange(
            i * LEAF_PAGE_ELEMENT_SIZE,
            (i + 1) * LEAF_PAGE_ELEMENT_SIZE,
        ) == leaf_element(s, i).bytes(),
    decreases n,
{
    lemma_leaf_parts_len(s, (n - 1) as nat);
    leaf_element(s, n - 1).lemma_bytes_len();
    let all = leaf_elements(s, n);
    let head = leaf_elements(s, (n - 1) as nat);
    if i == n - 1 {
        assert(all.subrange(i * LEAF_PAGE_ELEMENT_SIZE, (i + 1) * LEAF_PAGE_ELEMENT_SIZE)
            =~= leaf_element(s, i).bytes());
    } else {
        lemma_leaf_elements_at(s, (n - 1) as nat, i);
        assert(all.subrange(i * LEAF_PAGE_ELEMENT_SIZE, (i + 1) * LEAF_PAGE_ELEMENT_SIZE)
            =~= head.subrange(i * LEAF_PAGE_ELEMENT_SIZE, (i + 1) * LEAF_PAGE_ELEMENT_SIZE));
    }
}

/// Key and value of entry `i` lie at their place among the keys and values.
proof fn lemma_leaf_data_at(s: Seq<Entry>, n: nat, i: int)
    requires
        0 <= i < n,
    ensures
        data_len(s, i as nat) + s[i].key.len() + s[i].value.len() <= data_len(s, n),
        leaf_data(s, n).subrange(
            data_len(s, i as nat) as int,
            data_len(s, i as nat) as int + s[i].key.len(),
        ) == s[i].key,
        leaf_data(s, n).subrange(
            data_len(s, i as nat) as int + s[i].key.len(),
            data_len(s, i as nat) as int + s[i].key.len() + s[i].value.len(),
        ) == s[i].value,
    decreases n,
{
    lemma_leaf_parts_len(s, (n - 1) as nat);
    lemma_leaf_parts_len(s, n);
    let all = leaf_data(s, n);
    let head = leaf_data(s, (n - 1) as nat);
    let at = data_len(s, i as nat) as int;
    let k = s[i].key.len() as int;
    let v = s[i].value.len() as int;
    if i == n - 1 {
        assert(all.subrange(at, at + k) =~= s[i].key);
        assert(all.subrange(at + k, at + k + v) =~= s[i].value);
    } else {
        lemma_leaf_data_at(s, (n - 1) as nat, i);
        assert(all.subrange(at, at + k) =~= head.subrange(at, at + k));
        assert(all.subrange(at + k, at + k + v) =~= head.subrange(at + k, at + k + v));
    }
}

/// What is read from the data of a written leaf page, whatever follows it,
/// is what was written: entry `i` is found as it was.
pub proof fn lemma_leaf_entry_roundtrip(s: Seq<Entry>, rest: Seq<u8>, i: int)
    requires
        0 <= i < s.len(),
        within_limits(s),
        payload_len(s) <= u32::MAX,
    ensures
        LeafPageElement::spec_from_page(leaf_payload(s) + rest, i) == leaf_element(s, i),
        leaf_element(s, i).fits((leaf_payload(s) + rest).len()),
        (i + 1) * LEAF_PAGE_ELEMENT_SIZE <= (leaf_payload(s) + rest).len(),
        entry_at(leaf_payload(s) + rest, i) == s[i],
{
    let d = leaf_payload(s) + rest;
    let n = s.len();
    let e = leaf_element(s, i);
    let elements = leaf_elements(s, n);
    let data = leaf_data(s, n);
    lemma_leaf_parts_len(s, n);
    lemma_leaf_elements_at(s, n, i);
    lemma_leaf_data_at(s, n, i);
    lemma_data_len_monotonic(s, i as nat, n);
    e.lemma_bytes_len();
    let behind = d.skip((i + 1) * LEAF_PAGE_ELEMENT_SIZE);
    assert(d.skip(i * LEAF_PAGE_ELEMENT_SIZE) =~= e.bytes() + behind) by {
        assert(d.subrange(i * LEAF_PAGE_ELEMENT_SIZE, (i + 1) * LEAF_PAGE_ELEMENT_SIZE)
            =~= elements.subrange(
            i * LEAF_PAGE_ELEMENT_SIZE,
            (i + 1) * LEAF_PAGE_ELEMENT_SIZE,
        ));
    }
    e.lemma_of_bytes(behind);
    assert(s[i].key.len() <= MAX_KEY_SIZE && s[i].value.len() <= MAX_VALUE_SIZE);
    let at = LEAF_PAGE_ELEMENT_SIZE * n + data_len(s, i as nat);
    assert(e.position == at);
    let k = s[i].key.len() as int;
    let v = s[i].value.len() as int;
    assert(d.subrange(at, at + k) =~= data.subrange(
        data_len(s, i as nat) as int,
        data_len(s, i as nat) + k,
    ));
    assert(d.subrange(at + k, at + k + v) =~= data.subrange(
        data_len(s, i as nat) + k,
        data_len(s, i as nat) + k + v,
    ));
}

/// A written leaf page is read back as it was: the data that sorted entries
/// within the limits of the format are written as, whatever follows it,
/// passes every check and gives the entries again.
pub proof fn lemma_leaf_roundtrip(s: Seq<Entry>, rest: Seq<u8>)
    requires
        sorted(s),
        within_limits(s),
        payload_len(s) <= u32::MAX,
    ensures
        leaf_check(leaf_payload(s) + rest, s.len(), 0) == Ok::<(), Error>(()),
        leaf_entries(leaf_payload(s) + rest, s.len()) == s,
{
    let d = leaf_payload(s) + rest;
    assert forall|i: int| 0 <= i < s.len() implies entry_at(d, i) == s[i] && entry_check(d, i)
        == Ok::<(), Error>(()) by {
        lemma_leaf_entry_roundtrip(s, rest, i);
        if i > 0 {
            lemma_leaf_entry_roundtrip(s, rest, i - 1);
            assert(key_lt(s[i - 1].key, s[i].key));
        }
        assert(s[i].key.len() <= MAX_KEY_SIZE && s[i].value.len() <= MAX_VALUE_SIZE);
    }
    lemma_leaf_check_passes(d, s.len(), 0);
    assert(leaf_entries(d, s.len()) =~= s);
}

/// Where no entry has anything wrong with it, the page has not.
proof fn lemma_leaf_check_passes(data: Seq<u8>, count: nat, i: nat)
    requires
        forall|j: int| i <= j < count ==> entry_check(data, j) == Ok::<(), Error>(()),
    ensures
        leaf_check(data, count, i) == Ok::<(), Error>(()),
    decreases count - i,
{
    if i < count {
        lemma_leaf_check_passes(data, count, i + 1);
    }
}

impl Node {
    /// The number of bytes that the node takes as the data of a leaf page.
    pub fn size(&self) -> (n: u64)
        requires
            self.wf(),
        ensures
            n == payload_len(self.entries()),
    {
        let ghost s = self.entries();
        let mut total: u64 = (self.inodes.len() as u64) * (LEAF_PAGE_ELEMENT_SIZE as u64);
        let mut i: usize = 0;
        while i < self.inodes.len()
            invariant
                i <= s.len(),
                s == self.entries(),
                s.len() == self.inodes@.len(),
                s.len() <= MAX_NODE_ENTRIES,
                within_limits(s),
                total == LEAF_PAGE_ELEMENT_SIZE * s.len() + data_len(s, i as nat),
            decreases s.len() - i,
        {
            proof {
                lemma_data_len_bound(s, i as nat);
                assert(s[i as int].key.len() <= MAX_KEY_SIZE);
                assert(i * (MAX_KEY_SIZE + MAX_VALUE_SIZE) <= 0xFFFF * (MAX_KEY_SIZE
                    + MAX_VALUE_SIZE)) by (nonlinear_arith)
                    requires
                        i <= 0xFFFF,
                ;
            }
            total = total + self.inodes[i].key.len() as u64 + self.inodes[i].value.len() as u64;
            i += 1;
        }
        total
    }

    /// The node as the data of a leaf page: an element for each entry, then
    /// the keys and values. Fails with `ValueTooLarge` when the data would
    /// take more bytes than an element can point at.
    pub fn to_payload(&self) -> (r: Result<Vec<u8>, Error>)
        requires
            self.wf(),
        ensures
            payload_len(self.entries()) <= u32::MAX ==> r is Ok && r->Ok_0@ == leaf_payload(
                self.entries(),
            ),
            payload_len(self.entries()) > u32::MAX ==> r == Err::<Vec<u8>, Error>(
                Error::ValueTooLarge,
            ),
    {
        let ghost s = self.entries();
        let total = self.size();
        if total > u32::MAX as u64 {
            return Err(Error::ValueTooLarge);
        }
        let count = self.inodes.len();
        let mut out: Vec<u8> = Vec::new();
        let mut at: u64 = (count as u64) * (LEAF_PAGE_ELEMENT_SIZE as u64);
        let mut i: usize = 0;
        while i < count
            invariant
                i <= count,
                count == s.len(),
                s == self.entries(),
                s.len() == self.inodes@.len(),
                within_limits(s),
                payload_len(s) <= u32::MAX,
                at == LEAF_PAGE_ELEMENT_SIZE * s.len() + data_len(s, i as nat),
                out@ == leaf_elements(s, i as nat),
            decreases count - i,
        {
            proof {
                lemma_data_len_monotonic(s, (i + 1) as nat, s.len());
                assert(s[i as int].key.len() <= MAX_KEY_SIZE);
            }
            let inode = &self.inodes[i];
            let element = LeafPageElement {
                flags: inode.flags,
                position: at as u32,
                key_size: inode.key.len() as u32,
                vsize: inode.value.len() as u32,
            };
            proof {
                assert(element == leaf_element(s, i as int));
            }
            let bytes = element.to_bytes();
            append_bytes(&mut out, bytes.as_slice());
            at = at + inode.key.len() as u64 + inode.value.len() as u64;
            i += 1;
        }
        i = 0;
        while i < count
            invariant
                i <= count,
                count == s.len(),
                s == self.entries(),
                s.len() == self.inodes@.len(),
                out@ == leaf_elements(s, s.len()) + leaf_data(s, i as nat),
            decreases count - i,
        {
            let ghost sofar = leaf_data(s, i as nat);
            append_bytes(&mut out, self.inodes[i].key.as_slice());
            append_bytes(&mut out, self.inodes[i].value.as_slice());
            proof {
                assert(out@ =~= leaf_elements(s, s.len()) + (sofar + s[i as int].key + s[i as int].value));
            }
            i += 1;
        }
        Ok(out)
    }

    /// Reads the entries of a leaf page. Fails with what `leaf_check` finds
    /// wrong with the first entry that has something wrong with it:
    /// `PageOutOfBounds` when an element, a key or a value lies outside the
    /// data of the page, `DatabaseInvalid` when a key or a value is longer
    /// than the format allows or the keys do not ascend.
    pub fn from_page(page: &Page) -> (r: Result<Node, Error>)
        ensures
            match r {
                Ok(node) => node.wf() && leaf_check(page.data@, page.header.count as nat, 0)
                    == Ok::<(), Error>(()) && node.entries() == leaf_entries(
                    page.data@,
                    page.header.count as nat,
                ),
                Err(e) => leaf_check(page.data@, page.header.count as nat, 0) == Err::<
                    (),
                    Error,
                >(e),
            },
    {
        let count = page.header.count;
        let data = page.data;
        let mut node = Node { inodes: Vec::new() };
        let mut i: u16 = 0;
        proof {
            assert(node.entries() =~= leaf_entries(data@, 0));
        }
        while i < count
            invariant
                i <= count,
                count == page.header.count,
                data@ == page.data@,
                node.inodes@.len() == i,
                node.entries() == leaf_entries(data@, i as nat),
                sorted(node.entries()),
                within_limits(node.entries()),
                leaf_check(data@, count as nat, 0) == leaf_check(data@, count as nat, i as nat),
            decreases count - i,
        {
            let element = match LeafPageElement::from_page(page, i) {
                Ok(e) => e,
                Err(e) => {
                    return Err(e);
                },
            };
            let start = element.position as u64;
            let middle = start + element.key_size as u64;
            let end = middle + element.vsize as u64;
            if end > data.len() as u64 {
                return Err(Error::PageOutOfBounds);
            }
            if element.key_size > MAX_KEY_SIZE || element.vsize > MAX_VALUE_SIZE {
                return Err(Error::DatabaseInvalid);
            }
            let key_bytes = slice_subrange(data, start as usize, middle as usize);
            let value_bytes = slice_subrange(data, middle as usize, end as usize);
            let ghost before = node.entries();
            let ghost entry = entry_at(data@, i as int);
            if i > 0 {
                match compare_keys(node.inodes[i as usize - 1].key.as_slice(), key_bytes) {
                    KeyOrder::Less => {},
                    _ => {
                        proof {
                            assert(before[i - 1] == entry_at(data@, i - 1));
                        }
                        return Err(Error::DatabaseInvalid);
                    },
                }
            }
            let mut key: Vec<u8> = Vec::new();
            append_bytes(&mut key, key_bytes);
            let mut value: Vec<u8> = Vec::new();
            append_bytes(&mut value, value_bytes);
            proof {
                assert(key@ =~= entry.key);
                assert(value@ =~= entry.value);
                if i > 0 {
                    assert(before[i - 1] == entry_at(data@, i - 1));
                    assert(before[i - 1].key == node.inodes@[i - 1].key@);
                }
                assert(element == LeafPageElement::spec_from_page(data@, i as int));
                assert(entry_check(data@, i as int) == Ok::<(), Error>(()));
                assert forall|j: int| 0 <= j < i implies key_lt(
                    #[trigger] before[j].key,
                    entry.key,
                ) by {
                    assert(before[i - 1] == entry_at(data@, i - 1));
                    if j < i - 1 {
                        assert(key_lt(before[j].key, before[i - 1].key));
                        lemma_key_lt_transitive(before[j].key, before[i - 1].key, entry.key);
                    }
                }
                lemma_insert_entry(before, i as int, entry);
            }
            node.inodes.push(Inode { flags: element.flags, key, value });
            proof {
                assert(node.entries() =~= before.insert(i as int, entry));
                assert(node.entries() =~= leaf_entries(data@, (i + 1) as nat));
            }
            i += 1;
        }
        Ok(node)
    }
}


/// Entries that agree in their first `n` places take the same bytes there.
pub proof fn lemma_data_len_agrees(s: Seq<Entry>, t: Seq<Entry>, n: nat)
    requires
        n <= s.len(),
        n <= t.len(),
        forall|i: int| 0 <= i < n ==> s[i] == t[i],
    ensures
        data_len(s, n) == data_len(t, n),
    decreases n,
{
    if n > 0 {
        lemma_data_len_agrees(s, t, (n - 1) as nat);
    }
}

/// An entry more takes an element and its key and value more.
pub proof fn lemma_payload_len_insert(s: Seq<Entry>, at: int, e: Entry)
    requires
        0 <= at <= s.len(),
    ensures
        payload_len(s.insert(at, e)) == payload_len(s) + LEAF_PAGE_ELEMENT_SIZE + e.key.len()
            + e.value.len(),
{
    lemma_data_len_shift(s, s.insert(at, e), at, 1, s.len());
    assert(s.insert(at, e)[at] == e);
    lemma_data_len_agrees(s, s.insert(at, e), at as nat);
}

/// Where `t` is `s` with `gap` entries put in at place `at`, the entries of
/// `s` behind that place take in `t` the bytes they took in `s`.
proof fn lemma_data_len_shift(s: Seq<Entry>, t: Seq<Entry>, at: int, gap: int, n: nat)
    requires
        0 <= at <= n <= s.len(),
        0 <= gap,
        t.len() == s.len() + gap,
        forall|i: int| at <= i < s.len() ==> s[i] == t[i + gap],
    ensures
        data_len(t, (n + gap) as nat) - data_len(t, (at + gap) as nat) == data_len(s, n)
            - data_len(s, at as nat),
    decreases n,
{
    if n > at {
        lemma_data_len_shift(s, t, at, gap, (n - 1) as nat);
        assert(t[n - 1 + gap] == s[n - 1]);
    }
}

/// Another value for an entry changes the bytes by the difference of the
/// values.
pub proof fn lemma_payload_len_update(s: Seq<Entry>, at: int, e: Entry)
    requires
        0 <= at < s.len(),
        s[at].key == e.key,
    ensures
        payload_len(s.update(at, e)) == payload_len(s) - s[at].value.len() + e.value.len(),
{
    let t = s.update(at, e);
    lemma_data_len_agrees(s, t, at as nat);
    lemma_data_len_shift(s, t, at + 1, 0, s.len());
    assert(data_len(t, (at + 1) as nat) == data_len(t, at as nat) + e.key.len() + e.value.len());
    assert(data_len(s, (at + 1) as nat) == data_len(s, at as nat) + s[at].key.len()
        + s[at].value.len());
}

/// An entry less takes an element and its key and value less.
pub proof fn lemma_payload_len_remove(s: Seq<Entry>, at: int)
    requires
        0 <= at < s.len(),
    ensures
        payload_len(s.remove(at)) == payload_len(s) - LEAF_PAGE_ELEMENT_SIZE - s[at].key.len()
            - s[at].value.len(),
{
    let t = s.remove(at);
    assert(t.insert(at, s[at]) =~= s);
    lemma_payload_len_insert(t, at, s[at]);
}

impl Node {
    /// The number of bytes that the node would take as the data of a leaf
    /// page once `key` had a value of `value_len` bytes.
    pub fn size_with(&self, key: &[u8], value_len: usize) -> (n: u64)
        requires
            self.wf(),
            key@.len() <= MAX_KEY_SIZE,
            value_len <= MAX_VALUE_SIZE,
        ensures
            forall|flags: u32, value: Seq<u8>|
                value.len() == value_len ==> n == #[trigger] payload_len(
                    spec_put(self.entries(), Entry { flags, key: key@, value }),
                ),
    {
        let size = self.size();
        let (found, at) = self.search(key);
        let ghost s = self.entries();
        proof {
            lemma_data_len_bound(s, s.len());
            assert(s.len() * (MAX_KEY_SIZE + MAX_VALUE_SIZE) <= 0xFFFF * (MAX_KEY_SIZE
                + MAX_VALUE_SIZE)) by (nonlinear_arith)
                requires
                    s.len() <= 0xFFFF,
            ;
        }
        if found {
            let old_len = self.inodes[at].value.len();
            proof {
                assert(s[at as int].value.len() == old_len);
                lemma_data_len_monotonic(s, (at + 1) as nat, s.len());
                assert forall|flags: u32, value: Seq<u8>| value.len() == value_len implies size
                    - old_len + value_len == #[trigger] payload_len(
                    spec_put(s, Entry { flags, key: key@, value }),
                ) by {
                    lemma_sorted_place(s, at as int);
                    lemma_payload_len_update(s, at as int, Entry { flags, key: key@, value });
                }
            }
            size - old_len as u64 + value_len as u64
        } else {
            proof {
                assert forall|flags: u32, value: Seq<u8>| value.len() == value_len implies size
                    + LEAF_PAGE_ELEMENT_SIZE + key@.len() + value_len == #[trigger] payload_len(
                    spec_put(s, Entry { flags, key: key@, value }),
                ) by {
                    lemma_place_of_new_key(s, key@, at as int);
                    lemma_payload_len_insert(s, at as int, Entry { flags, key: key@, value });
                }
            }
            size + LEAF_PAGE_ELEMENT_SIZE as u64 + key.len() as u64 + value_len as u64
        }
    }
}

/// The number of entries of `s` whose keys come before `k`.
pub open spec fn place_of(s: Seq<Entry>, k: Seq<u8>) -> int
    decreases s.len(),
{
    if s.len() == 0 {
        0
    } else {
        place_of(s.drop_last(), k) + if key_lt(s.last().key, k) {
            1int
        } else {
            0int
        }
    }
}

/// The entries `s` once entry `e` has been put: it takes the place of the
/// entry with its key, or finds its place in the order of the keys.
pub open spec fn spec_put(s: Seq<Entry>, e: Entry) -> Seq<Entry> {
    if has_key(s, e.key) {
        s.update(index_of_key(s, e.key), e)
    } else {
        s.insert(place_of(s, e.key), e)
    }
}

/// In sorted entries the place of a key is where the keys before it end.
pub proof fn lemma_place_of_new_key(s: Seq<Entry>, k: Seq<u8>, at: int)
    requires
        sorted(s),
        0 <= at <= s.len(),
        forall|i: int| 0 <= i < at ==> key_lt(#[trigger] s[i].key, k),
        forall|i: int| at <= i < s.len() ==> !key_lt(#[trigger] s[i].key, k),
    ensures
        place_of(s, k) == at,
    decreases s.len(),
{
    if s.len() > 0 {
        let head = s.drop_last();
        if at == s.len() {
            lemma_place_of_new_key(head, k, at - 1);
            assert(key_lt(s[s.len() - 1].key, k));
        } else {
            lemma_place_of_new_key(head, k, at);
            assert(!key_lt(s[s.len() - 1].key, k));
        }
    }
}


/// The place of a key lies among the entries or right behind them.
pub proof fn lemma_place_of_bounds(s: Seq<Entry>, k: Seq<u8>)
    ensures
        0 <= place_of(s, k) <= s.len(),
    decreases s.len(),
{
    if s.len() > 0 {
        lemma_place_of_bounds(s.drop_last(), k);
    }
}


/// The keys and values of entries behind entries take their bytes more.
proof fn lemma_data_len_concat(a: Seq<Entry>, b: Seq<Entry>, k: nat)
    requires
        k <= b.len(),
    ensures
        data_len(a + b, a.len() + k) == data_len(a, a.len()) + data_len(b, k),
    decreases k,
{
    if k == 0 {
        lemma_data_len_agrees(a + b, a, a.len());
    } else {
        lemma_data_len_concat(a, b, (k - 1) as nat);
        assert((a + b)[a.len() + k - 1] == b[k - 1]);
    }
}

/// Entries behind entries take as the data of a leaf page the bytes of
/// both.
pub proof fn lemma_payload_len_concat(a: Seq<Entry>, b: Seq<Entry>)
    ensures
        payload_len(a + b) == payload_len(a) + payload_len(b),
{
    lemma_data_len_concat(a, b, b.len());
}

/// Where no key and value together take more than `cap` bytes, the keys and
/// values of `n` entries take no more than `n` times as many.
pub proof fn lemma_data_len_capped(s: Seq<Entry>, n: nat, cap: nat)
    requires
        n <= s.len(),
        forall|i: int| 0 <= i < s.len() ==> (#[trigger] s[i]).key.len() + s[i].value.len() <= cap,
    ensures
        data_len(s, n) <= n * cap,
    decreases n,
{
    if n > 0 {
        lemma_data_len_capped(s, (n - 1) as nat, cap);
        assert(s[n - 1].key.len() + s[n - 1].value.len() <= cap);
        assert(n * cap == (n - 1) * cap + cap) by (nonlinear_arith);
    }
}


/// The number of bytes that the first `n` entries of `s` take as the data
/// of a leaf page of their own.
pub open spec fn prefix_len(s: Seq<Entry>, n: nat) -> nat {
    (LEAF_PAGE_ELEMENT_SIZE * n + data_len(s, n)) as nat
}

/// The number of bytes of a page that are filled when it is split, for a
/// fill target of `percent` percent: that share of a page, with the target
/// held between `MIN_FILL_PERCENTAGE` and `MAX_FILL_PERCENTAGE`.
pub open spec fn spec_fill_threshold(percent: u32) -> nat {
    let held = if percent < MIN_FILL_PERCENTAGE {
        MIN_FILL_PERCENTAGE
    } else if percent > MAX_FILL_PERCENTAGE {
        MAX_FILL_PERCENTAGE
    } else {
        percent
    };
    (OS_PAGE_SIZE * held / 100) as nat
}

/// The number of bytes of a page that are filled when it is split, for a
/// fill target of `percent` percent.
pub fn fill_threshold(percent: u32) -> (r: u64)
    ensures
        r == spec_fill_threshold(percent),
        OS_PAGE_SIZE / 10 <= r <= OS_PAGE_SIZE,
{
    let held: u64 = if percent < MIN_FILL_PERCENTAGE {
        MIN_FILL_PERCENTAGE as u64
    } else if percent > MAX_FILL_PERCENTAGE {
        MAX_FILL_PERCENTAGE as u64
    } else {
        percent as u64
    };
    assert(OS_PAGE_SIZE == 4096);
    assert(4096 * 10 <= 4096 * held <= 4096 * 100);
    (OS_PAGE_SIZE as u64) * held / 100
}

/// The most bytes that an entry may take on a page, its element counted
/// in: the share of the data of a page that leaves room for
/// `MIN_KEYS_PER_PAGE` entries.
pub const MAX_PAGE_ENTRY_SIZE: usize = 2040;

/// Whether an entry with a key of `key_len` bytes and a value of
/// `value_len` bytes is too large to leave room for `MIN_KEYS_PER_PAGE`
/// entries on a page, so that it has to go to overflow pages.
pub fn needs_overflow(key_len: usize, value_len: usize) -> (r: bool)
    ensures
        r == (LEAF_PAGE_ELEMENT_SIZE + key_len + value_len > MAX_PAGE_ENTRY_SIZE),
{
    key_len > MAX_PAGE_ENTRY_SIZE || value_len > MAX_PAGE_ENTRY_SIZE || LEAF_PAGE_ELEMENT_SIZE
        + key_len + value_len > MAX_PAGE_ENTRY_SIZE
}

/// Where entries `s` are split for a page filled to `threshold` bytes,
/// looking from place `i` on: the first part takes entries as long as it
/// stays within the threshold, but both parts get `MIN_KEYS_PER_PAGE`
/// entries at least.
pub open spec fn split_from(s: Seq<Entry>, threshold: nat, i: nat) -> nat
    decreases s.len() - i,
{
    if i + MIN_KEYS_PER_PAGE >= s.len() || prefix_len(s, i + 1) > threshold {
        i
    } else {
        split_from(s, threshold, i + 1)
    }
}

/// Where entries `s` are split for a page filled to `threshold` bytes.
pub open spec fn split_point(s: Seq<Entry>, threshold: nat) -> nat {
    split_from(s, threshold, MIN_KEYS_PER_PAGE as nat)
}

/// The place of a split leaves both parts `MIN_KEYS_PER_PAGE` entries at
/// least.
pub proof fn lemma_split_from_bounds(s: Seq<Entry>, threshold: nat, i: nat)
    requires
        i + MIN_KEYS_PER_PAGE <= s.len(),
    ensures
        i <= split_from(s, threshold, i),
        split_from(s, threshold, i) + MIN_KEYS_PER_PAGE <= s.len(),
    decreases s.len() - i,
{
    if !(i + MIN_KEYS_PER_PAGE >= s.len() || prefix_len(s, i + 1) > threshold) {
        lemma_split_from_bounds(s, threshold, i + 1);
    }
}

impl Node {
    /// Whether the node holds fewer entries than a page must: it has to be
    /// merged with a sibling.
    pub fn underfull(&self) -> (r: bool)
        ensures
            r == (self.entries().len() < MIN_KEYS_PER_PAGE),
    {
        self.inodes.len() < MIN_KEYS_PER_PAGE as usize
    }

    /// Whether the node has to be split for a page filled to `threshold`
    /// bytes: it takes more than that, and has entries enough for two
    /// pages.
    pub fn needs_split(&self, threshold: u64) -> (r: bool)
        requires
            self.wf(),
        ensures
            r == (payload_len(self.entries()) > threshold && self.entries().len() >= 2
                * MIN_KEYS_PER_PAGE),
    {
        self.inodes.len() >= 2 * (MIN_KEYS_PER_PAGE as usize) && self.size() > threshold
    }

    /// Where the node is split for a page filled to `threshold` bytes.
    pub fn split_index(&self, threshold: u64) -> (at: usize)
        requires
            self.wf(),
            self.entries().len() >= 2 * MIN_KEYS_PER_PAGE,
        ensures
            at == split_point(self.entries(), threshold as nat),
            MIN_KEYS_PER_PAGE <= at,
            at + MIN_KEYS_PER_PAGE <= self.entries().len(),
    {
        let ghost s = self.entries();
        let n = self.inodes.len();
        let low = MIN_KEYS_PER_PAGE as usize;
        let mut size: u64 = 0;
        let mut k: usize = 0;
        while k < low
            invariant
                k <= low,
                low == MIN_KEYS_PER_PAGE,
                n == s.len(),
                n >= 2 * low,
                s == self.entries(),
                s.len() == self.inodes@.len(),
                within_limits(s),
                size == prefix_len(s, k as nat),
            decreases low - k,
        {
            proof {
                lemma_data_len_bound(s, k as nat);
                assert(s[k as int].key.len() <= MAX_KEY_SIZE);
                assert(k * (MAX_KEY_SIZE + MAX_VALUE_SIZE) <= 2 * (MAX_KEY_SIZE + MAX_VALUE_SIZE))
                    by (nonlinear_arith)
                    requires
                        k <= 2,
                ;
            }
            size = size + LEAF_PAGE_ELEMENT_SIZE as u64 + self.inodes[k].key.len() as u64
                + self.inodes[k].value.len() as u64;
            k += 1;
        }
        let mut i: usize = low;
        proof {
            lemma_split_from_bounds(s, threshold as nat, low as nat);
        }
        while i + low < n
            invariant
                low == MIN_KEYS_PER_PAGE,
                low <= i,
                i + low <= n,
                n == s.len(),
                n <= MAX_NODE_ENTRIES,
                s == self.entries(),
                s.len() == self.inodes@.len(),
                within_limits(s),
                size == prefix_len(s, i as nat),
                split_point(s, threshold as nat) == split_from(s, threshold as nat, i as nat),
            decreases n - i,
        {
            proof {
                lemma_data_len_bound(s, i as nat);
                assert(s[i as int].key.len() <= MAX_KEY_SIZE);
                assert(i * (MAX_KEY_SIZE + MAX_VALUE_SIZE) <= 0xFFFF * (MAX_KEY_SIZE
                    + MAX_VALUE_SIZE)) by (nonlinear_arith)
                    requires
                        i <= 0xFFFF,
                ;
            }
            let next = size + LEAF_PAGE_ELEMENT_SIZE as u64 + self.inodes[i].key.len() as u64
                + self.inodes[i].value.len() as u64;
            if next > threshold {
                return i;
            }
            size = next;
            i += 1;
        }
        i
    }

    /// Splits the node for a page filled to `threshold` bytes: the entries
    /// in front of the place of the split stay, the others make a node of
    /// their own, whose first key is the key that goes up into the parent.
    pub fn split(&mut self, threshold: u64) -> (right: Node)
        requires
            old(self).wf(),
            old(self).entries().len() >= 2 * MIN_KEYS_PER_PAGE,
        ensures
            final(self).wf(),
            right.wf(),
            final(self).entries() + right.entries() == old(self).entries(),
            final(self).entries().len() == split_point(old(self).entries(), threshold as nat),
            final(self).entries().len() >= MIN_KEYS_PER_PAGE,
            right.entries().len() >= MIN_KEYS_PER_PAGE,
    {
        let ghost s = self.entries();
        let at = self.split_index(threshold);
        let tail = self.inodes.split_off(at);
        let right = Node { inodes: tail };
        proof {
            let left = self.entries();
            let rest = right.entries();
            assert(left =~= s.subrange(0, at as int));
            assert(rest =~= s.subrange(at as int, s.len() as int));
            assert(left + rest =~= s);
            assert forall|i: int, j: int| 0 <= i < j < rest.len() implies key_lt(
                #[trigger] rest[i].key,
                #[trigger] rest[j].key,
            ) by {
                assert(key_lt(s[at + i].key, s[at + j].key));
            }
            assert forall|i: int, j: int| 0 <= i < j < left.len() implies key_lt(
                #[trigger] left[i].key,
                #[trigger] left[j].key,
            ) by {
                assert(key_lt(s[i].key, s[j].key));
            }
            assert forall|i: int| 0 <= i < rest.len() implies (#[trigger] rest[i]).key.len()
                <= MAX_KEY_SIZE && rest[i].value.len() <= MAX_VALUE_SIZE by {
                assert(s[at + i].key.len() <= MAX_KEY_SIZE);
            }
            assert forall|i: int| 0 <= i < left.len() implies (#[trigger] left[i]).key.len()
                <= MAX_KEY_SIZE && left[i].value.len() <= MAX_VALUE_SIZE by {
                assert(s[i].key.len() <= MAX_KEY_SIZE);
            }
        }
        right
    }

    /// Whether the node `other` can be merged into this one: all its keys
    /// come after all keys of this node, and together they are no more than
    /// a node can hold.
    pub open spec fn can_merge(&self, other: &Node) -> bool {
        &&& self.entries().len() + other.entries().len() <= MAX_NODE_ENTRIES
        &&& self.entries().len() > 0 && other.entries().len() > 0 ==> key_lt(
            self.entries().last().key,
            other.entries().first().key,
        )
    }

    /// Merges the sibling `other`, whose keys come after those of this
    /// node, into this node. Fails with `DatabaseInvalid`, and changes
    /// nothing, when the keys of `other` do not all come after those of
    /// this node or the two hold more than a node can.
    pub fn merge(&mut self, other: Node) -> (r: Result<(), Error>)
        requires
            old(self).wf(),
            other.wf(),
        ensures
            final(self).wf(),
            old(self).can_merge(&other) ==> r == Ok::<(), Error>(()) && final(self).entries()
                == old(self).entries() + other.entries(),
            !old(self).can_merge(&other) ==> r == Err::<(), Error>(Error::DatabaseInvalid)
                && final(self).entries() == old(self).entries(),
    {
        let ghost left = self.entries();
        let ghost rest = other.entries();
        let n = self.inodes.len();
        let m = other.inodes.len();
        if m > MAX_NODE_ENTRIES - n {
            return Err(Error::DatabaseInvalid);
        }
        if n > 0 && m > 0 {
            match compare_keys(
                self.inodes[n - 1].key.as_slice(),
                other.inodes[0].key.as_slice(),
            ) {
                KeyOrder::Less => {},
                _ => {
                    return Err(Error::DatabaseInvalid);
                },
            }
        }
        let mut tail = other.inodes;
        self.inodes.append(&mut tail);
        proof {
            let all = self.entries();
            assert(all =~= left + rest);
            assert forall|i: int, j: int| 0 <= i < j < all.len() implies key_lt(
                #[trigger] all[i].key,
                #[trigger] all[j].key,
            ) by {
                if j < n {
                    assert(key_lt(left[i].key, left[j].key));
                } else if i >= n {
                    assert(key_lt(rest[i - n].key, rest[j - n].key));
                } else {
                    if i < n - 1 {
                        assert(key_lt(left[i].key, left[n - 1].key));
                        lemma_key_lt_transitive(left[i].key, left[n - 1].key, rest[0].key);
                    }
                    if j > n {
                        assert(key_lt(rest[0].key, rest[j - n].key));
                        lemma_key_lt_transitive(all[i].key, rest[0].key, rest[j - n].key);
                    }
                }
            }
            assert forall|i: int| 0 <= i < all.len() implies (#[trigger] all[i]).key.len()
                <= MAX_KEY_SIZE && all[i].value.len() <= MAX_VALUE_SIZE by {
                if i < n {
                    assert(left[i].key.len() <= MAX_KEY_SIZE);
                } else {
                    assert(rest[i - n].key.len() <= MAX_KEY_SIZE);
                }
            }
        }
        Ok(())
    }
}


/// Whether entries `s` have to be split for a page filled to `threshold`
/// bytes: they take more than that, and are enough for two pages.
pub open spec fn splits(s: Seq<Entry>, threshold: nat) -> bool {
    payload_len(s) > threshold && s.len() >= 2 * MIN_KEYS_PER_PAGE
}

/// The parts that entries `s` are split into for pages filled to
/// `threshold` bytes: as long as what is left has to be split, the part in
/// front of the place of the split is taken off.
pub open spec fn parts_of(s: Seq<Entry>, threshold: nat) -> Seq<Seq<Entry>>
    decreases s.len(),
{
    if splits(s, threshold) && 0 < split_point(s, threshold) < s.len() {
        seq![s.subrange(0, split_point(s, threshold) as int)] + parts_of(
            s.subrange(split_point(s, threshold) as int, s.len() as int),
            threshold,
        )
    } else {
        seq![s]
    }
}

/// The entries of the parts `parts`, one part after the other.
pub open spec fn flat(parts: Seq<Seq<Entry>>) -> Seq<Entry>
    decreases parts.len(),
{
    if parts.len() == 0 {
        Seq::empty()
    } else {
        flat(parts.drop_last()) + parts.last()
    }
}

/// The entries of the nodes `nodes`.
pub open spec fn nodes_view(nodes: Seq<Node>) -> Seq<Seq<Entry>> {
    Seq::new(nodes.len(), |i: int| nodes[i].entries())
}

/// The entries of a part in front of parts are in front of the entries of
/// the parts.
pub proof fn lemma_flat_front(first: Seq<Entry>, rest: Seq<Seq<Entry>>)
    ensures
        flat(seq![first] + rest) == first + flat(rest),
    decreases rest.len(),
{
    let all = seq![first] + rest;
    if rest.len() == 0 {
        assert(all.drop_last() =~= Seq::<Seq<Entry>>::empty());
        assert(flat(all.drop_last()) =~= Seq::<Entry>::empty());
        assert(flat(all) =~= first + flat(rest));
    } else {
        assert(all.drop_last() =~= seq![first] + rest.drop_last());
        lemma_flat_front(first, rest.drop_last());
        assert(all.last() == rest.last());
        assert(flat(all) =~= first + flat(rest));
    }
}

/// The parts that entries are split into are the entries again, one part
/// after the other; no part is empty unless there are no entries at all;
/// and there is one part, or `MIN_KEYS_PER_PAGE` entries at least for each
/// part.
pub proof fn lemma_parts_of(s: Seq<Entry>, threshold: nat)
    ensures
        flat(parts_of(s, threshold)) == s,
        1 <= parts_of(s, threshold).len(),
        parts_of(s, threshold).len() <= s.len() || parts_of(s, threshold).len() == 1,
        MIN_KEYS_PER_PAGE * parts_of(s, threshold).len() <= s.len() || parts_of(s, threshold).len()
            == 1,
        forall|i: int|
            0 <= i < parts_of(s, threshold).len() ==> (#[trigger] parts_of(s, threshold)[i]).len()
                > 0 || s.len() == 0,
    decreases s.len(),
{
    if splits(s, threshold) && 0 < split_point(s, threshold) < s.len() {
        let at = split_point(s, threshold) as int;
        let first = s.subrange(0, at);
        let rest = s.subrange(at, s.len() as int);
        lemma_parts_of(rest, threshold);
        lemma_split_from_bounds(s, threshold, MIN_KEYS_PER_PAGE as nat);
        lemma_flat_front(first, parts_of(rest, threshold));
        assert(first + rest =~= s);
        let all = parts_of(s, threshold);
        assert forall|i: int| 0 <= i < all.len() implies (#[trigger] all[i]).len() > 0 by {
            if i > 0 {
                assert(all[i] == parts_of(rest, threshold)[i - 1]);
            }
        }
    } else {
        let none = Seq::<Seq<Entry>>::empty();
        lemma_flat_front(s, none);
        assert(seq![s] + none =~= seq![s]);
        assert(flat(none) =~= Seq::<Entry>::empty());
        assert(s + flat(none) =~= s);
    }
}

impl Node {
    /// A node that holds the same entries.
    pub fn duplicate(&self) -> (n: Node)
        ensures
            n.entries() == self.entries(),
            self.wf() ==> n.wf(),
    {
        let mut inodes: Vec<Inode> = Vec::new();
        let mut i: usize = 0;
        while i < self.inodes.len()
            invariant
                i <= self.inodes@.len(),
                inodes@.len() == i,
                forall|k: int| 0 <= k < i ==> (#[trigger] inodes@[k])@ == self.inodes@[k]@,
            decreases self.inodes@.len() - i,
        {
            let mut key: Vec<u8> = Vec::new();
            append_bytes(&mut key, self.inodes[i].key.as_slice());
            let mut value: Vec<u8> = Vec::new();
            append_bytes(&mut value, self.inodes[i].value.as_slice());
            proof {
                assert(key@ =~= self.inodes@[i as int].key@);
                assert(value@ =~= self.inodes@[i as int].value@);
            }
            inodes.push(Inode { flags: self.inodes[i].flags, key, value });
            i += 1;
        }
        let n = Node { inodes };
        proof {
            assert(n.entries() =~= self.entries());
        }
        n
    }
}

/// Splits `node` into the parts that its entries are split into for pages
/// filled to `threshold` bytes.
pub fn split_all(node: Node, threshold: u64) -> (parts: Vec<Node>)
    requires
        node.wf(),
    ensures
        nodes_view(parts@) == parts_of(node.entries(), threshold as nat),
        forall|i: int| 0 <= i < parts@.len() ==> (#[trigger] parts@[i]).wf(),
{
    let ghost s = node.entries();
    let ghost t = threshold as nat;
    let mut parts: Vec<Node> = Vec::new();
    let mut rest = node;
    proof {
        assert(nodes_view(parts@) =~= Seq::<Seq<Entry>>::empty());
        assert(Seq::<Seq<Entry>>::empty() + parts_of(s, t) =~= parts_of(s, t));
    }
    while rest.needs_split(threshold)
        invariant
            rest.wf(),
            t == threshold as nat,
            parts_of(s, t) == nodes_view(parts@) + parts_of(rest.entries(), t),
            forall|i: int| 0 <= i < parts@.len() ==> (#[trigger] parts@[i]).wf(),
        decreases rest.entries().len(),
    {
        let ghost whole = rest.entries();
        let ghost done = nodes_view(parts@);
        let right = rest.split(threshold);
        proof {
            let at = split_point(whole, t) as int;
            assert(rest.entries() =~= whole.subrange(0, at));
            assert(right.entries() =~= whole.subrange(at, whole.len() as int));
            assert(parts_of(whole, t) == seq![rest.entries()] + parts_of(right.entries(), t));
        }
        parts.push(rest);
        proof {
            assert(nodes_view(parts@) =~= done.push(parts@[parts@.len() - 1].entries()));
            assert(done + (seq![whole.subrange(0, split_point(whole, t) as int)] + parts_of(
                right.entries(),
                t,
            )) =~= done.push(whole.subrange(0, split_point(whole, t) as int)) + parts_of(
                right.entries(),
                t,
            ));
        }
        rest = right;
    }
    let ghost done = nodes_view(parts@);
    let ghost last = rest.entries();
    proof {
        assert(parts_of(last, t) == seq![last]);
    }
    parts.push(rest);
    proof {
        assert(nodes_view(parts@) =~= done.push(last));
        assert(done + seq![last] =~= done.push(last));
    }
    parts
}


/// The entries of the first parts are the first entries of all parts, and
/// the part behind them follows them there.
pub proof fn lemma_flat_prefix(parts: Seq<Seq<Entry>>, n: int)
    requires
        0 <= n < parts.len(),
    ensures
        flat(parts.subrange(0, n + 1)) == flat(parts.subrange(0, n)) + parts[n],
        flat(parts.subrange(0, n)).len() + parts[n].len() <= flat(parts).len(),
        flat(parts).subrange(0, flat(parts.subrange(0, n)).len() as int) == flat(
            parts.subrange(0, n),
        ),
        flat(parts).subrange(
            flat(parts.subrange(0, n)).len() as int,
            flat(parts.subrange(0, n)).len() as int + parts[n].len(),
        ) == parts[n],
    decreases parts.len(),
{
    let head = flat(parts.subrange(0, n));
    let wide = parts.subrange(0, n + 1);
    assert(wide.drop_last() =~= parts.subrange(0, n));
    assert(wide.last() == parts[n]);
    if n == parts.len() - 1 {
        assert(wide =~= parts);
        assert(flat(parts).subrange(0, head.len() as int) =~= head);
        assert(flat(parts).subrange(head.len() as int, head.len() as int + parts[n].len()) =~= parts[n]);
    } else {
        let fewer = parts.drop_last();
        lemma_flat_prefix(fewer, n);
        assert(fewer.subrange(0, n) =~= parts.subrange(0, n));
        assert(fewer.subrange(0, n + 1) =~= parts.subrange(0, n + 1));
        assert(fewer[n] == parts[n]);
        assert(flat(parts) == flat(fewer) + parts.last());
        assert(flat(parts).subrange(0, head.len() as int) =~= flat(fewer).subrange(
            0,
            head.len() as int,
        ));
        assert(flat(parts).subrange(head.len() as int, head.len() as int + parts[n].len())
            =~= flat(fewer).subrange(head.len() as int, head.len() as int + parts[n].len()));
    }
}

/// Entries that are part of sorted entries within the limits of the format
/// are sorted and within the limits.
pub proof fn lemma_subrange_sorted(s: Seq<Entry>, from: int, to: int)
    requires
        sorted(s),
        within_limits(s),
        0 <= from <= to <= s.len(),
    ensures
        sorted(s.subrange(from, to)),
        within_limits(s.subrange(from, to)),
{
    let t = s.subrange(from, to);
    assert forall|i: int, j: int| 0 <= i < j < t.len() implies key_lt(
        #[trigger] t[i].key,
        #[trigger] t[j].key,
    ) by {
        assert(key_lt(s[from + i].key, s[from + j].key));
    }
    assert forall|i: int| 0 <= i < t.len() implies (#[trigger] t[i]).key.len() <= MAX_KEY_SIZE
        && t[i].value.len() <= MAX_VALUE_SIZE by {
        assert(s[from + i].key.len() <= MAX_KEY_SIZE);
    }
}


/// The entries of a leaf page that passes every check are sorted and
/// within the limits of the format.
pub proof fn lemma_leaf_check_sorted(data: Seq<u8>, count: nat)
    requires
        leaf_check(data, count, 0) is Ok,
    ensures
        sorted(leaf_entries(data, count)),
        within_limits(leaf_entries(data, count)),
{
    let s = leaf_entries(data, count);
    assert forall|i: int| 0 <= i < count implies entry_check(data, i) is Ok by {
        lemma_leaf_check_entry(data, count, 0, i);
    }
    assert forall|i: int, j: int| 0 <= i < j < s.len() implies key_lt(
        #[trigger] s[i].key,
        #[trigger] s[j].key,
    ) by {
        lemma_adjacent_sorted(data, count, i, j);
    }
    assert forall|i: int| 0 <= i < s.len() implies (#[trigger] s[i]).key.len() <= MAX_KEY_SIZE
        && s[i].value.len() <= MAX_VALUE_SIZE by {
        assert(entry_check(data, i) is Ok);
        let e = LeafPageElement::spec_from_page(data, i);
        assert(s[i].key.len() == e.key_size);
        assert(s[i].value.len() == e.vsize);
    }
}

/// Where a leaf page passes every check from entry `from` on, each entry
/// behind that passes its check.
proof fn lemma_leaf_check_entry(data: Seq<u8>, count: nat, from: nat, i: int)
    requires
        leaf_check(data, count, from) is Ok,
        from <= i < count,
    ensures
        entry_check(data, i) is Ok,
    decreases count - from,
{
    if from < i {
        lemma_leaf_check_entry(data, count, from + 1, i);
    }
}

/// Where every entry of a leaf page passes its check, the keys of any two
/// entries ascend.
proof fn lemma_adjacent_sorted(data: Seq<u8>, count: nat, i: int, j: int)
    requires
        0 <= i < j < count,
        forall|k: int| 0 <= k < count ==> entry_check(data, k) is Ok,
    ensures
        key_lt(entry_at(data, i).key, entry_at(data, j).key),
    decreases j - i,
{
    assert(entry_check(data, j) is Ok);
    if i < j - 1 {
        lemma_adjacent_sorted(data, count, i, j - 1);
        lemma_key_lt_transitive(
            entry_at(data, i).key,
            entry_at(data, j - 1).key,
            entry_at(data, j).key,
        );
    }
}

} // verus!
