//! The freelist: the pages that nothing reaches any more. A page that a
//! transaction frees stays pending under that transaction's id, and becomes
//! free for reuse only when no reader is left that could still see it.

use vstd::prelude::*;
use crate::db::{PageId, TransactionId};
use crate::enc::{
    get_le, le_bytes, le_value, lemma_le_bytes_len, lemma_number_read_back, lemma_pow256_values,
    push_le,
};
use crate::errors::Error;
use crate::page::Page;

verus! {

/// Whether the numbers of `s` strictly ascend.
pub open spec fn ascending(s: Seq<PageId>) -> bool {
    forall|i: int, j: int| 0 <= i < j < s.len() ==> s[i] < s[j]
}

/// Ascending numbers are at least as far from the first as their places
/// are.
pub proof fn lemma_ascending_floor(s: Seq<PageId>, i: int)
    requires
        ascending(s),
        0 <= i < s.len(),
    ensures
        s[i] >= s[0] + i,
    decreases i,
{
    if i > 0 {
        lemma_ascending_floor(s, i - 1);
        assert(s[i - 1] < s[i]);
    }
}

/// There are no more ascending page numbers behind the meta pages than a
/// 64-bit number counts.
pub proof fn lemma_ascending_len(s: Seq<PageId>)
    requires
        ascending(s),
        forall|i: int| 0 <= i < s.len() ==> #[trigger] s[i] >= 2,
    ensures
        s.len() <= u64::MAX,
{
    if s.len() > 0 {
        assert(s[0] >= 2);
        lemma_ascending_floor(s, s.len() - 1);
    }
}

/// Whether the `n` numbers of `s` from place `j` on are consecutive.
pub open spec fn is_run(s: Seq<PageId>, j: int, n: int) -> bool {
    &&& 0 <= j
    &&& j + n <= s.len()
    &&& forall|k: int| 0 <= k < n ==> #[trigger] s[j + k] == s[j] + k
}

/// A page that a transaction has freed.
#[derive(Debug, Copy, Clone, PartialEq, Eq, Structural)]
pub struct Freed {
    /// The transaction that freed the page.
    pub txid: TransactionId,
    /// The page.
    pub id: PageId,
}

/// The pages that are free for reuse, and those that are waiting to become
/// so.
#[derive(Debug)]
pub struct Freelist {
    ids: Vec<PageId>,
    pending: Vec<Freed>,
}

impl Freelist {
    /// The free pages, in ascending order.
    pub closed spec fn free_ids(&self) -> Seq<PageId> {
        self.ids@
    }

    /// The pages that have been freed and are not yet free for reuse, in the
    /// order in which they were freed.
    pub closed spec fn pending_ids(&self) -> Seq<Freed> {
        self.pending@
    }

    /// Whether page `p` is free for reuse.
    pub open spec fn is_free(&self, p: PageId) -> bool {
        self.free_ids().contains(p)
    }

    /// Whether page `p` has been freed by transaction `t` and is not yet
    /// free for reuse.
    pub open spec fn is_pending(&self, t: TransactionId, p: PageId) -> bool {
        self.pending_ids().contains(Freed { txid: t, id: p })
    }

    /// Whether page `p` is waiting to become free, whoever freed it.
    pub open spec fn is_held(&self, p: PageId) -> bool {
        exists|i: int| 0 <= i < self.pending_ids().len() && #[trigger] self.pending_ids()[i].id == p
    }

    /// What holds of every freelist: the free pages ascend, no page is both
    /// free and pending or pending twice, and the meta pages are neither.
    pub open spec fn wf(&self) -> bool {
        &&& ascending(self.free_ids())
        &&& forall|i: int| 0 <= i < self.free_ids().len() ==> #[trigger] self.free_ids()[i] >= 2
        &&& forall|i: int|
            0 <= i < self.pending_ids().len() ==> (#[trigger] self.pending_ids()[i]).id >= 2
        &&& forall|i: int|
            0 <= i < self.pending_ids().len() ==> !self.is_free(
                (#[trigger] self.pending_ids()[i]).id,
            )
        &&& forall|i: int, j: int|
            0 <= i < j < self.pending_ids().len() ==> (#[trigger] self.pending_ids()[i]).id != (
            #[trigger] self.pending_ids()[j]).id
    }

    /// A freelist without pages.
    pub fn new() -> (f: Freelist)
        ensures
            f.wf(),
            f.free_ids() == Seq::<PageId>::empty(),
            f.pending_ids() == Seq::<Freed>::empty(),
    {
        Freelist { ids: Vec::new(), pending: Vec::new() }
    }

    /// The number of pages that are free for reuse.
    pub fn free_count(&self) -> (n: usize)
        ensures
            n == self.free_ids().len(),
    {
        self.ids.len()
    }

    /// The number of pages that are waiting to become free.
    pub fn pending_count(&self) -> (n: usize)
        ensures
            n == self.pending_ids().len(),
    {
        self.pending.len()
    }

    /// Whether page `p` is free for reuse.
    pub fn contains_free(&self, p: PageId) -> (r: bool)
        requires
            self.wf(),
        ensures
            r == self.is_free(p),
    {
        let (found, _) = find_place(&self.ids, p);
        found
    }

    /// Whether page `p` is waiting to become free.
    pub fn contains_pending(&self, p: PageId) -> (r: bool)
        ensures
            r == self.is_held(p),
    {
        let mut i: usize = 0;
        while i < self.pending.len()
            invariant
                i <= self.pending@.len(),
                forall|j: int| 0 <= j < i ==> (#[trigger] self.pending@[j]).id != p,
            decreases self.pending@.len() - i,
        {
            if self.pending[i].id == p {
                assert(self.pending_ids()[i as int].id == p);
                return true;
            }
            i += 1;
        }
        false
    }
}

/// Finds the place of `p` in the ascending numbers `v`: how many of them are
/// smaller, and whether `p` is among them.
pub fn find_place(v: &Vec<PageId>, p: PageId) -> (r: (bool, usize))
    requires
        ascending(v@),
    ensures
        r.1 <= v@.len(),
        forall|i: int| 0 <= i < r.1 ==> v@[i] < p,
        forall|i: int| r.1 <= i < v@.len() ==> v@[i] >= p,
        r.0 == (r.1 < v@.len() && v@[r.1 as int] == p),
        r.0 == v@.contains(p),
{
    let mut lo: usize = 0;
    let mut hi: usize = v.len();
    while lo < hi
        invariant
            lo <= hi <= v@.len(),
            ascending(v@),
            forall|i: int| 0 <= i < lo ==> v@[i] < p,
            forall|i: int| hi <= i < v@.len() ==> v@[i] >= p,
        decreases hi - lo,
    {
        let mid = lo + (hi - lo) / 2;
        if v[mid] < p {
            lo = mid + 1;
        } else {
            hi = mid;
        }
    }
    let found = lo < v.len() && v[lo] == p;
    proof {
        if v@.contains(p) && !found {
            let i = choose|i: int| 0 <= i < v@.len() && v@[i] == p;
            assert(v@[i] == p);
        }
    }
    (found, lo)
}


/// The place of the first run of `n` consecutive numbers in `s`, looking
/// from place `j` on.
pub open spec fn find_run(s: Seq<PageId>, n: int, j: int) -> Option<int>
    decreases s.len() - j,
{
    if j < 0 || j + n > s.len() {
        None
    } else if is_run(s, j, n) {
        Some(j)
    } else {
        find_run(s, n, j + 1)
    }
}

/// Where no run starts before place `to`, the search from `from` goes on
/// from `to`.
pub proof fn lemma_find_run_skips(s: Seq<PageId>, n: int, from: int, to: int)
    requires
        0 <= from <= to,
        n >= 1,
        forall|j: int| from <= j < to ==> !is_run(s, j, n),
    ensures
        find_run(s, n, from) == find_run(s, n, to),
    decreases to - from,
{
    if from < to {
        lemma_find_run_skips(s, n, from + 1, to);
    }
}

/// Consecutive numbers that all occur among ascending numbers form a run
/// there.
pub proof fn lemma_run_of_members(s: Seq<PageId>, p: PageId, n: int, k: int)
    requires
        ascending(s),
        0 <= k < n,
        forall|i: int| 0 <= i < n ==> s.contains(#[trigger] ((p + i) as u64)),
        p + n - 1 <= u64::MAX,
    ensures
        s.index_of(p) + k < s.len(),
        s[s.index_of(p) + k] == p + k,
    decreases k,
{
    let j = s.index_of(p);
    assert(s.contains(((p + 0) as u64)));
    if k > 0 {
        lemma_run_of_members(s, p, n, k - 1);
        let q = (p + k) as u64;
        assert(s.contains(q));
        let m = s.index_of(q);
        if m <= j + k - 1 {
            if m < j + k - 1 {
                assert(s[m] < s[j + k - 1]);
            }
        }
        if s[j + k] != q {
            assert(j + k < m);
            assert(s[j + k - 1] < s[j + k]);
            assert(s[j + k] < s[m]);
        }
    }
}

impl Freelist {
    /// What `allocate` does to a freelist: with `start` the place of the
    /// first run of `n` free pages, it takes the run out of the free pages
    /// and hands out its first page; without such a run, or with `n` zero,
    /// it hands out nothing and changes nothing. The pending pages stay as
    /// they are.
    pub open spec fn allocated(&self, after: &Freelist, n: u64, r: Option<PageId>) -> bool {
        &&& after.pending_ids() == self.pending_ids()
        &&& match (if n == 0 {
            None
        } else {
            find_run(self.free_ids(), n as int, 0)
        }) {
            Some(start) => r == Some(self.free_ids()[start]) && after.free_ids()
                == self.free_ids().subrange(0, start) + self.free_ids().subrange(
                start + n,
                self.free_ids().len() as int,
            ),
            None => r.is_none() && after.free_ids() == self.free_ids(),
        }
    }

    /// What `release` does to a freelist: the pages that transactions
    /// before `oldest` freed become free for reuse, all others stay as they
    /// are.
    pub open spec fn released(&self, after: &Freelist, oldest: TransactionId) -> bool {
        &&& forall|t: TransactionId, p: PageId|
            after.is_pending(t, p) <==> self.is_pending(t, p) && t >= oldest
        &&& forall|p: PageId|
            after.is_free(p) <==> self.is_free(p) || exists|t: TransactionId|
                t < oldest && #[trigger] self.is_pending(t, p)
    }

    /// Whether the pages `id` to `id + overflow` can be freed: none is a meta
    /// page, and none is free or pending already.
    pub open spec fn can_free(&self, id: PageId, overflow: u32) -> bool {
        &&& id >= 2
        &&& id + overflow <= u64::MAX
        &&& forall|k: int|
            0 <= k <= overflow ==> !self.is_free(#[trigger] ((id + k) as u64)) && !self.is_held(
                (id + k) as u64,
            )
    }

    /// Takes the first run of `n` consecutive free pages out of the free
    /// pages and returns its first page, or returns `None` when there is no
    /// such run or `n` is zero. Pending pages are never handed out.
    pub fn allocate(&mut self, n: u64) -> (r: Option<PageId>)
        requires
            old(self).wf(),
        ensures
            final(self).wf(),
            old(self).allocated(final(self), n, r),
            match r {
                Some(p) => n > 0 && p >= 2 && p + n - 1 <= u64::MAX && forall|k: int|
                    0 <= k < n ==> old(self).is_free(#[trigger] ((p + k) as u64))
                        && !old(self).is_held((p + k) as u64) && !final(self).is_free(
                        (p + k) as u64,
                    ),
                None => true,
            },
            forall|q: PageId| final(self).is_free(q) ==> old(self).is_free(q),
    {
        if n == 0 {
            return None;
        }
        let ghost s = self.ids@;
        match locate_run(&self.ids, n) {
            None => None,
            Some(start) => {
                let first = self.ids[start];
                let rest = without_range(&self.ids, start, n as usize);
                let ghost before = *self;
                proof {
                    lemma_remove_run(s, start as int, n as int);
                    assert forall|c: int| 0 <= c < n implies !before.is_held(
                        #[trigger] ((first + c) as u64),
                    ) by {
                        if before.is_held((first + c) as u64) {
                            let a = choose|a: int|
                                0 <= a < before.pending_ids().len()
                                    && #[trigger] before.pending_ids()[a].id == (first + c) as u64;
                            assert(!before.is_free(before.pending_ids()[a].id));
                            assert(s[start + c] == first + c);
                        }
                    }
                    assert(s[start + (n - 1)] == first + (n - 1));
                    assert(s[start + 0] >= 2);
                }
                self.ids = rest;
                proof {
                    assert forall|c: int| 0 <= c < self.free_ids().len() implies (
                    #[trigger] self.free_ids()[c]) >= 2 by {
                        assert(s.contains(self.free_ids()[c]));
                        let x = s.index_of(self.free_ids()[c]);
                        assert(s[x] >= 2);
                    }
                    assert(self.pending_ids() == before.pending_ids());
                    assert forall|i: int| 0 <= i < self.pending_ids().len() implies !self.is_free(
                        (#[trigger] self.pending_ids()[i]).id,
                    ) && self.pending_ids()[i].id >= 2 by {
                        assert(!before.is_free(before.pending_ids()[i].id));
                        assert(before.pending_ids()[i].id >= 2);
                    }
                    assert forall|i: int, j: int|
                        0 <= i < j < self.pending_ids().len() implies (
                    #[trigger] self.pending_ids()[i]).id != (#[trigger] self.pending_ids()[j]).id by {
                        assert(before.pending_ids()[i].id != before.pending_ids()[j].id);
                    }
                }
                Some(first)
            },
        }
    }
}

/// Finds the first run of `n` consecutive numbers among the ascending
/// numbers `v`.
pub fn locate_run(v: &Vec<PageId>, n: u64) -> (r: Option<usize>)
    requires
        ascending(v@),
        n >= 1,
    ensures
        match r {
            Some(start) => find_run(v@, n as int, 0) == Some(start as int) && is_run(
                v@,
                start as int,
                n as int,
            ),
            None => find_run(v@, n as int, 0).is_none(),
        },
{
    let ghost s = v@;
    let len = v.len();
    let mut start: usize = 0;
    let mut i: usize = 0;
    while i < len
        invariant
            start <= i <= len,
            len == s.len(),
            s == v@,
            n >= 1,
            ascending(s),
            i - start < n,
            forall|k: int| 0 <= k < i - start ==> #[trigger] s[start + k] == s[start as int] + k,
            forall|j: int| 0 <= j < start ==> !is_run(s, j, n as int),
        decreases len - i,
    {
        if i > start && v[i] - v[i - 1] != 1 {
            proof {
                assert forall|j: int| start <= j < i implies !is_run(s, j, n as int) by {
                    if is_run(s, j, n as int) {
                        assert(s[j + (i - j)] == s[j] + (i - j));
                        assert(s[j + (i - 1 - j)] == s[j] + (i - 1 - j));
                    }
                }
            }
            start = i;
        } else {
            proof {
                if i > start {
                    assert(s[start + (i - 1 - start)] == s[start as int] + (i - 1 - start));
                }
            }
        }
        if (i - start) as u64 + 1 == n {
            proof {
                assert(is_run(s, start as int, n as int));
                lemma_find_run_skips(s, n as int, 0, start as int);
            }
            return Some(start);
        }
        i += 1;
    }
    proof {
        assert forall|j: int| start <= j implies !is_run(s, j, n as int) by {}
        assert forall|j: int| 0 <= j implies !is_run(s, j, n as int) by {}
        lemma_find_run_none(s, n as int, 0);
    }
    None
}

/// The numbers of `v` without the `n` from place `start` on.
pub fn without_range(v: &Vec<PageId>, start: usize, n: usize) -> (rest: Vec<PageId>)
    requires
        start + n <= v@.len(),
    ensures
        rest@ == v@.subrange(0, start as int) + v@.subrange(start + n, v@.len() as int),
{
    let ghost s = v@;
    let len = v.len();
    let mut rest: Vec<PageId> = Vec::new();
    let mut k: usize = 0;
    while k < start
        invariant
            k <= start <= len,
            len == s.len(),
            s == v@,
            rest@ == s.subrange(0, k as int),
        decreases start - k,
    {
        rest.push(v[k]);
        proof {
            assert(rest@ =~= s.subrange(0, k + 1));
        }
        k += 1;
    }
    k = start + n;
    while k < len
        invariant
            start + n <= k <= len,
            len == s.len(),
            s == v@,
            rest@ == s.subrange(0, start as int) + s.subrange(start + n, k as int),
        decreases len - k,
    {
        rest.push(v[k]);
        proof {
            assert(rest@ =~= s.subrange(0, start as int) + s.subrange(start + n, k + 1));
        }
        k += 1;
    }
    rest
}

/// Taking a run out of ascending numbers leaves ascending numbers, all of
/// which were there before, and none of which is of the run.
pub proof fn lemma_remove_run(s: Seq<PageId>, start: int, n: int)
    requires
        ascending(s),
        n >= 1,
        is_run(s, start, n),
    ensures
        ({
            let kept = s.subrange(0, start) + s.subrange(start + n, s.len() as int);
            &&& ascending(kept)
            &&& forall|q: PageId| kept.contains(q) ==> s.contains(q)
            &&& forall|c: int|
                0 <= c < n ==> s.contains(#[trigger] ((s[start] + c) as u64)) && !kept.contains(
                    (s[start] + c) as u64,
                )
            &&& forall|c: int| 0 <= c < kept.len() ==> s.contains(#[trigger] kept[c])
        }),
{
    let kept = s.subrange(0, start) + s.subrange(start + n, s.len() as int);
    let first = s[start];
    assert forall|a: int, b: int| 0 <= a < b < kept.len() implies kept[a] < kept[b] by {
        let x = if a < start {
            a
        } else {
            a + n
        };
        let y = if b < start {
            b
        } else {
            b + n
        };
        assert(s[x] < s[y]);
    }
    assert forall|c: int| 0 <= c < kept.len() implies s.contains(#[trigger] kept[c]) by {
        let x = if c < start {
            c
        } else {
            c + n
        };
        assert(s[x] == kept[c]);
    }
    assert forall|q: PageId| kept.contains(q) implies s.contains(q) by {
        let a = choose|a: int| 0 <= a < kept.len() && kept[a] == q;
        assert(s.contains(kept[a]));
    }
    assert forall|c: int| 0 <= c < n implies s.contains(#[trigger] ((first + c) as u64))
        && !kept.contains((first + c) as u64) by {
        assert(s[start + c] == first + c);
        if kept.contains((first + c) as u64) {
            let a = choose|a: int| 0 <= a < kept.len() && kept[a] == (first + c) as u64;
            let x = if a < start {
                a
            } else {
                a + n
            };
            assert(s[x] == s[start + c]);
            if x < start + c {
                assert(s[x] < s[start + c]);
            } else {
                assert(s[start + c] < s[x]);
            }
        }
    }
}

/// Where no run starts anywhere, the search finds none.
pub proof fn lemma_find_run_none(s: Seq<PageId>, n: int, from: int)
    requires
        n >= 1,
        0 <= from,
        forall|j: int| from <= j ==> !is_run(s, j, n),
    ensures
        find_run(s, n, from).is_none(),
    decreases s.len() - from,
{
    if from + n <= s.len() {
        lemma_find_run_none(s, n, from + 1);
    }
}


/// Puts `p` at its place among the ascending numbers `v`.
pub fn insert_sorted(v: &mut Vec<PageId>, p: PageId)
    requires
        ascending(old(v)@),
        !old(v)@.contains(p),
    ensures
        ascending(final(v)@),
        final(v)@.len() == old(v)@.len() + 1,
        forall|q: PageId| final(v)@.contains(q) <==> old(v)@.contains(q) || q == p,
{
    let ghost s = v@;
    let (_, at) = find_place(v, p);
    v.insert(at, p);
    proof {
        let t = v@;
        assert(t == s.insert(at as int, p));
        assert forall|i: int, j: int| 0 <= i < j < t.len() implies t[i] < t[j] by {
            let a = if i < at {
                i
            } else {
                i - 1
            };
            let b = if j < at {
                j
            } else {
                j - 1
            };
            if i != at && j != at {
                assert(s[a] < s[b]);
            } else if i == at {
                assert(s[b] >= p);
                assert(s.contains(s[b]));
            } else {
                assert(s[a] < p);
            }
        }
        assert forall|q: PageId| t.contains(q) <==> s.contains(q) || q == p by {
            if t.contains(q) {
                let i = t.index_of(q);
                if i != at {
                    let a = if i < at {
                        i
                    } else {
                        i - 1
                    };
                    assert(s[a] == q);
                }
            }
            if s.contains(q) {
                let a = s.index_of(q);
                let i = if a < at {
                    a
                } else {
                    a + 1
                };
                assert(t[i] == q);
            }
            if q == p {
                assert(t[at as int] == p);
            }
        }
    }
}

impl Freelist {
    /// The pages `id` to `id + overflow` as freed by transaction `txid`.
    pub open spec fn freed_run(txid: TransactionId, id: PageId, overflow: u32) -> Seq<Freed> {
        Seq::new((overflow + 1) as nat, |k: int| Freed { txid, id: (id + k) as u64 })
    }

    /// Frees the pages `id` to `id + overflow` in the name of transaction
    /// `txid`: they become pending. Fails with `DatabaseInvalid`, and
    /// changes nothing, when one of them is a meta page or is free or
    /// pending already.
    pub fn free(&mut self, txid: TransactionId, id: PageId, overflow: u32) -> (r: Result<
        (),
        Error,
    >)
        requires
            old(self).wf(),
        ensures
            final(self).wf(),
            final(self).free_ids() == old(self).free_ids(),
            old(self).can_free(id, overflow) ==> r == Ok::<(), Error>(())
                && final(self).pending_ids() == old(self).pending_ids() + Freelist::freed_run(
                txid,
                id,
                overflow,
            ),
            !old(self).can_free(id, overflow) ==> r == Err::<(), Error>(Error::DatabaseInvalid)
                && final(self).pending_ids() == old(self).pending_ids(),
    {
        if id < 2 || overflow as u64 > u64::MAX - id {
            return Err(Error::DatabaseInvalid);
        }
        let mut k: u64 = 0;
        while k <= overflow as u64
            invariant
                k <= overflow + 1,
                id + overflow <= u64::MAX,
                *self == *old(self),
                self.wf(),
                forall|j: int|
                    0 <= j < k ==> !self.is_free(#[trigger] ((id + j) as u64)) && !self.is_held(
                        (id + j) as u64,
                    ),
            decreases overflow + 1 - k,
        {
            if self.contains_free(id + k) || self.contains_pending(id + k) {
                proof {
                    assert(self.is_free(((id + k) as u64)) || self.is_held((id + k) as u64));
                }
                return Err(Error::DatabaseInvalid);
            }
            k += 1;
        }
        let ghost before = self.pending@;
        let ghost run = Freelist::freed_run(txid, id, overflow);
        k = 0;
        while k <= overflow as u64
            invariant
                k <= overflow + 1,
                id + overflow <= u64::MAX,
                self.ids@ == old(self).ids@,
                run == Freelist::freed_run(txid, id, overflow),
                self.pending@ == before + run.subrange(0, k as int),
            decreases overflow + 1 - k,
        {
            self.pending.push(Freed { txid, id: id + k });
            proof {
                assert(self.pending@ =~= before + run.subrange(0, k + 1));
            }
            k += 1;
        }
        proof {
            assert(run.subrange(0, k as int) =~= run);
            let all = self.pending_ids();
            assert(all == before + run);
            assert forall|i: int| 0 <= i < all.len() implies (#[trigger] all[i]).id >= 2
                && !self.is_free(all[i].id) by {
                if i < before.len() {
                    assert(old(self).pending_ids()[i].id >= 2);
                    assert(!old(self).is_free(old(self).pending_ids()[i].id));
                } else {
                    let j = i - before.len();
                    assert(all[i].id == (id + j) as u64);
                    assert(!old(self).is_free(((id + j) as u64)));
                }
            }
            assert forall|i: int, j: int| 0 <= i < j < all.len() implies (#[trigger] all[i]).id != (
            #[trigger] all[j]).id by {
                if j < before.len() {
                    assert(old(self).pending_ids()[i].id != old(self).pending_ids()[j].id);
                } else if i < before.len() {
                    let c = j - before.len();
                    assert(!old(self).is_held(((id + c) as u64)));
                    assert(old(self).pending_ids()[i].id != (id + c) as u64);
                }
            }
        }
        Ok(())
    }

    /// Makes the pages that transactions before `oldest` freed free for
    /// reuse. Pages freed by `oldest` or a later transaction stay pending.
    pub fn release(&mut self, oldest: TransactionId)
        requires
            old(self).wf(),
        ensures
            final(self).wf(),
            old(self).released(final(self), oldest),
    {
        let ghost was = *self;
        let ghost pend = self.pending@;
        let ghost free = self.ids@;
        let mut keep: Vec<Freed> = Vec::new();
        let n = self.pending.len();
        let mut i: usize = 0;
        while i < n
            invariant
                i <= n,
                n == pend.len(),
                self.pending@ == pend,
                was.wf(),
                was.pending_ids() == pend,
                was.free_ids() == free,
                ascending(self.ids@),
                forall|q: PageId|
                    self.ids@.contains(q) <==> free.contains(q) || exists|j: int|
                        0 <= j < i && (#[trigger] pend[j]).id == q && pend[j].txid < oldest,
                forall|f: Freed|
                    keep@.contains(f) <==> exists|j: int|
                        0 <= j < i && #[trigger] pend[j] == f && f.txid >= oldest,
                forall|a: int, b: int|
                    0 <= a < b < keep@.len() ==> (#[trigger] keep@[a]).id != (
                    #[trigger] keep@[b]).id,
            decreases n - i,
        {
            let f = self.pending[i];
            let ghost ids_before = self.ids@;
            let ghost keep_before = keep@;
            if f.txid < oldest {
                proof {
                    if ids_before.contains(f.id) {
                        if free.contains(f.id) {
                            assert(!was.is_free(was.pending_ids()[i as int].id));
                        } else {
                            let j = choose|j: int|
                                0 <= j < i && (#[trigger] pend[j]).id == f.id && pend[j].txid
                                    < oldest;
                            assert(was.pending_ids()[j].id != was.pending_ids()[i as int].id);
                        }
                    }
                }
                insert_sorted(&mut self.ids, f.id);
                proof {
                    assert forall|q: PageId|
                        self.ids@.contains(q) <==> free.contains(q) || exists|j: int|
                            0 <= j < i + 1 && (#[trigger] pend[j]).id == q && pend[j].txid
                                < oldest by {
                        if q == f.id {
                            assert(pend[i as int].id == q);
                        }
                        if ids_before.contains(q) && !free.contains(q) {
                            let j = choose|j: int|
                                0 <= j < i && (#[trigger] pend[j]).id == q && pend[j].txid
                                    < oldest;
                            assert(pend[j].id == q);
                        }
                    }
                    assert forall|g: Freed|
                        keep@.contains(g) <==> exists|j: int|
                            0 <= j < i + 1 && #[trigger] pend[j] == g && g.txid >= oldest by {
                        if keep@.contains(g) {
                            let j = choose|j: int|
                                0 <= j < i && #[trigger] pend[j] == g && g.txid >= oldest;
                            assert(pend[j] == g);
                        }
                    }
                }
            } else {
                keep.push(f);
                proof {
                    assert(keep@ == keep_before.push(f));
                    assert forall|g: Freed|
                        keep@.contains(g) <==> exists|j: int|
                            0 <= j < i + 1 && #[trigger] pend[j] == g && g.txid >= oldest by {
                        if keep@.contains(g) {
                            let a = keep@.index_of(g);
                            if a < keep_before.len() {
                                assert(keep_before[a] == g);
                                assert(keep_before.contains(g));
                                let j = choose|j: int|
                                    0 <= j < i && #[trigger] pend[j] == g && g.txid >= oldest;
                                assert(pend[j] == g);
                            } else {
                                assert(pend[i as int] == g);
                            }
                        }
                        if exists|j: int|
                            0 <= j < i + 1 && #[trigger] pend[j] == g && g.txid >= oldest {
                            let j = choose|j: int|
                                0 <= j < i + 1 && #[trigger] pend[j] == g && g.txid >= oldest;
                            if j < i {
                                assert(keep_before.contains(g));
                                let a = keep_before.index_of(g);
                                assert(keep@[a] == g);
                            } else {
                                assert(keep@[keep_before.len() as int] == g);
                            }
                        }
                    }
                    assert forall|a: int, b: int| 0 <= a < b < keep@.len() implies (
                    #[trigger] keep@[a]).id != (#[trigger] keep@[b]).id by {
                        if b == keep_before.len() {
                            assert(keep_before.contains(keep_before[a]));
                            let j = choose|j: int|
                                0 <= j < i && #[trigger] pend[j] == keep_before[a]
                                    && keep_before[a].txid >= oldest;
                            assert(was.pending_ids()[j].id != was.pending_ids()[i as int].id);
                        } else {
                            assert(keep_before[a].id != keep_before[b].id);
                        }
                    }
                    assert forall|q: PageId|
                        self.ids@.contains(q) <==> free.contains(q) || exists|j: int|
                            0 <= j < i + 1 && (#[trigger] pend[j]).id == q && pend[j].txid
                                < oldest by {
                        if ids_before.contains(q) && !free.contains(q) {
                            let j = choose|j: int|
                                0 <= j < i && (#[trigger] pend[j]).id == q && pend[j].txid
                                    < oldest;
                            assert(pend[j].id == q);
                        }
                    }
                }
            }
            i += 1;
        }
        self.pending = keep;
        proof {
            lemma_released(was, *self, oldest);
        }
    }
}

/// What the loop of `release` leaves is a well-formed freelist that stands
/// to the one before as `released` says.
proof fn lemma_released(was: Freelist, now: Freelist, oldest: TransactionId)
    requires
        was.wf(),
        ascending(now.free_ids()),
        forall|q: PageId|
            now.free_ids().contains(q) <==> was.free_ids().contains(q) || exists|j: int|
                0 <= j < was.pending_ids().len() && (#[trigger] was.pending_ids()[j]).id == q
                    && was.pending_ids()[j].txid < oldest,
        forall|f: Freed|
            now.pending_ids().contains(f) <==> exists|j: int|
                0 <= j < was.pending_ids().len() && #[trigger] was.pending_ids()[j] == f && f.txid
                    >= oldest,
        forall|a: int, b: int|
            0 <= a < b < now.pending_ids().len() ==> (#[trigger] now.pending_ids()[a]).id != (
            #[trigger] now.pending_ids()[b]).id,
    ensures
        now.wf(),
        was.released(&now, oldest),
{
    let pend = was.pending_ids();
    assert forall|i: int| 0 <= i < now.free_ids().len() implies #[trigger] now.free_ids()[i]
        >= 2 by {
        let q = now.free_ids()[i];
        assert(now.free_ids().contains(q));
        if was.free_ids().contains(q) {
            let a = was.free_ids().index_of(q);
            assert(was.free_ids()[a] >= 2);
        } else {
            let j = choose|j: int|
                0 <= j < pend.len() && (#[trigger] pend[j]).id == q && pend[j].txid < oldest;
            assert(pend[j].id >= 2);
        }
    }
    assert forall|i: int| 0 <= i < now.pending_ids().len() implies (
    #[trigger] now.pending_ids()[i]).id >= 2 && !now.is_free(now.pending_ids()[i].id) by {
        let f = now.pending_ids()[i];
        assert(now.pending_ids().contains(f));
        let j = choose|j: int| 0 <= j < pend.len() && #[trigger] pend[j] == f && f.txid >= oldest;
        assert(pend[j].id >= 2);
        assert(!was.is_free(pend[j].id));
        if now.is_free(f.id) {
            let c = choose|c: int|
                0 <= c < pend.len() && (#[trigger] pend[c]).id == f.id && pend[c].txid < oldest;
            if c < j {
                assert(pend[c].id != pend[j].id);
            } else if j < c {
                assert(pend[j].id != pend[c].id);
            }
        }
    }
    assert forall|t: TransactionId, p: PageId|
        now.is_pending(t, p) <==> was.is_pending(t, p) && t >= oldest by {
        let f = Freed { txid: t, id: p };
        if was.is_pending(t, p) && t >= oldest {
            let j = pend.index_of(f);
            assert(pend[j] == f);
        }
    }
    assert forall|p: PageId|
        now.is_free(p) <==> was.is_free(p) || exists|t: TransactionId|
            t < oldest && #[trigger] was.is_pending(t, p) by {
        if now.is_free(p) && !was.is_free(p) {
            let j = choose|j: int|
                0 <= j < pend.len() && (#[trigger] pend[j]).id == p && pend[j].txid < oldest;
            assert(pend.contains(pend[j]));
            assert(was.is_pending(pend[j].txid, p));
        }
        if exists|t: TransactionId| t < oldest && #[trigger] was.is_pending(t, p) {
            let t = choose|t: TransactionId| t < oldest && #[trigger] was.is_pending(t, p);
            let j = pend.index_of(Freed { txid: t, id: p });
            assert(pend[j].id == p);
        }
    }
}

/// The search for a run finds a run.
pub proof fn lemma_find_run_is_run(s: Seq<PageId>, n: int, from: int)
    requires
        find_run(s, n, from).is_some(),
    ensures
        is_run(s, find_run(s, n, from).unwrap(), n),
        from <= find_run(s, n, from).unwrap(),
    decreases s.len() - from,
{
    if !(from < 0 || from + n > s.len()) && !is_run(s, from, n) {
        lemma_find_run_is_run(s, n, from + 1);
    }
}

/// A page that a transaction has freed stays pending through every release
/// that is asked for on behalf of that transaction or an earlier one: as
/// long as a reader is open whose snapshot is older than the transaction,
/// the page does not become free.
pub proof fn lemma_release_keeps_later_pages(
    before: Freelist,
    after: Freelist,
    oldest: TransactionId,
    t: TransactionId,
    p: PageId,
)
    requires
        before.wf(),
        before.released(&after, oldest),
        before.is_pending(t, p),
        oldest <= t,
    ensures
        after.is_pending(t, p),
        !after.is_free(p),
{
    let f = Freed { txid: t, id: p };
    let i = before.pending_ids().index_of(f);
    assert(!before.is_free(before.pending_ids()[i].id));
    if after.is_free(p) {
        let u = choose|u: TransactionId| u < oldest && #[trigger] before.is_pending(u, p);
        let g = Freed { txid: u, id: p };
        let j = before.pending_ids().index_of(g);
        if i < j {
            assert(before.pending_ids()[i].id != before.pending_ids()[j].id);
        } else if j < i {
            assert(before.pending_ids()[j].id != before.pending_ids()[i].id);
        }
    }
}

/// A pending page is never handed out: whatever `allocate` returns, the
/// pages it hands out do not include a page that is pending, and the page
/// stays pending.
pub proof fn lemma_allocate_spares_pending(
    before: Freelist,
    after: Freelist,
    n: u64,
    r: Option<PageId>,
    t: TransactionId,
    p: PageId,
)
    requires
        before.wf(),
        before.allocated(&after, n, r),
        before.is_pending(t, p),
    ensures
        after.is_pending(t, p),
        r matches Some(q) ==> !(q <= p < q + n),
{
    if let Some(q) = r {
        let s = before.free_ids();
        lemma_find_run_is_run(s, n as int, 0);
        let start = find_run(s, n as int, 0).unwrap();
        if q <= p < q + n {
            assert(s[start + (p - q)] == s[start] + (p - q));
            assert(s.contains(p));
            let f = Freed { txid: t, id: p };
            let i = before.pending_ids().index_of(f);
            assert(!before.is_free(before.pending_ids()[i].id));
        }
    }
}


/// The count in the header of a freelist page that says that the true
/// count stands in front of the page numbers, because it does not fit the
/// header.
pub const FREELIST_COUNT_ESCAPE: u16 = 0xFFFF;

/// The first `n` of the page numbers `s`, as they lie in the file.
pub open spec fn ids_bytes(s: Seq<PageId>, n: nat) -> Seq<u8>
    decreases n,
{
    if n == 0 {
        Seq::empty()
    } else {
        ids_bytes(s, (n - 1) as nat) + le_bytes(s[n - 1] as nat, 8)
    }
}

/// The count that the header of the freelist page with page numbers `s`
/// carries.
pub open spec fn freelist_count(s: Seq<PageId>) -> u16 {
    if s.len() < FREELIST_COUNT_ESCAPE {
        s.len() as u16
    } else {
        FREELIST_COUNT_ESCAPE
    }
}

/// The data of the freelist page with page numbers `s`: the page numbers,
/// and in front of them their count when it does not fit the header.
pub open spec fn freelist_payload(s: Seq<PageId>) -> Seq<u8> {
    if s.len() < FREELIST_COUNT_ESCAPE {
        ids_bytes(s, s.len())
    } else {
        le_bytes(s.len(), 8) + ids_bytes(s, s.len())
    }
}

/// Where the page numbers start in the data of a freelist page whose
/// header carries `count`.
pub open spec fn freelist_start(count: u16) -> int {
    if count < FREELIST_COUNT_ESCAPE {
        0
    } else {
        8
    }
}

/// The number of page numbers on the freelist page with data `data` whose
/// header carries `count`.
pub open spec fn freelist_len(count: u16, data: Seq<u8>) -> nat {
    if count < FREELIST_COUNT_ESCAPE {
        count as nat
    } else {
        le_value(data.subrange(0, 8))
    }
}

/// Page number `i` on the freelist page with data `data` whose header
/// carries `count`.
pub open spec fn id_at(count: u16, data: Seq<u8>, i: int) -> PageId {
    le_value(data.subrange(freelist_start(count) + 8 * i, freelist_start(count) + 8 * i + 8)) as u64
}

/// The page numbers on the freelist page with data `data` whose header
/// carries `count`.
pub open spec fn freelist_ids(count: u16, data: Seq<u8>) -> Seq<PageId> {
    Seq::new(freelist_len(count, data), |i: int| id_at(count, data, i))
}

/// What is wrong with the freelist page with data `data` whose header
/// carries `count`, if anything: `PageOutOfBounds` when the page numbers do
/// not lie inside the data, `DatabaseInvalid` when they do not ascend or
/// name a meta page.
pub open spec fn freelist_check(count: u16, data: Seq<u8>) -> Result<(), Error> {
    let ids = freelist_ids(count, data);
    if data.len() < freelist_start(count) || freelist_start(count) + 8 * freelist_len(count, data)
        > data.len() {
        Err(Error::PageOutOfBounds)
    } else if !(ascending(ids) && forall|i: int| 0 <= i < ids.len() ==> #[trigger] ids[i] >= 2) {
        Err(Error::DatabaseInvalid)
    } else {
        Ok(())
    }
}

/// The page numbers take eight bytes each.
pub proof fn lemma_ids_bytes_len(s: Seq<PageId>, n: nat)
    ensures
        ids_bytes(s, n).len() == 8 * n,
    decreases n,
{
    if n > 0 {
        lemma_ids_bytes_len(s, (n - 1) as nat);
        lemma_le_bytes_len(s[n - 1] as nat, 8);
    }
}

/// Page number `i` lies at its place among the page numbers.
proof fn lemma_ids_bytes_at(s: Seq<PageId>, n: nat, i: int)
    requires
        0 <= i < n,
    ensures
        ids_bytes(s, n).subrange(8 * i, 8 * i + 8) == le_bytes(s[i] as nat, 8),
    decreases n,
{
    lemma_ids_bytes_len(s, (n - 1) as nat);
    lemma_le_bytes_len(s[n - 1] as nat, 8);
    if i == n - 1 {
        assert(ids_bytes(s, n).subrange(8 * i, 8 * i + 8) =~= le_bytes(s[i] as nat, 8));
    } else {
        lemma_ids_bytes_at(s, (n - 1) as nat, i);
        assert(ids_bytes(s, n).subrange(8 * i, 8 * i + 8) =~= ids_bytes(
            s,
            (n - 1) as nat,
        ).subrange(8 * i, 8 * i + 8));
    }
}

/// A written freelist page is read back as it was: the data that ascending
/// page numbers, none of a meta page, are written as, whatever follows it,
/// passes the check and gives the page numbers again.
pub proof fn lemma_freelist_roundtrip(s: Seq<PageId>, rest: Seq<u8>)
    requires
        ascending(s),
        forall|i: int| 0 <= i < s.len() ==> #[trigger] s[i] >= 2,
        s.len() <= u64::MAX,
    ensures
        freelist_check(freelist_count(s), freelist_payload(s) + rest) == Ok::<(), Error>(()),
        freelist_ids(freelist_count(s), freelist_payload(s) + rest) == s,
{
    let count = freelist_count(s);
    let d = freelist_payload(s) + rest;
    let start = freelist_start(count);
    lemma_ids_bytes_len(s, s.len());
    lemma_pow256_values();
    lemma_le_bytes_len(s.len(), 8);
    if count == FREELIST_COUNT_ESCAPE {
        lemma_number_read_back(s.len(), 8, d, 0);
    }
    assert(freelist_len(count, d) == s.len());
    assert forall|i: int| 0 <= i < s.len() implies id_at(count, d, i) == s[i] by {
        lemma_ids_bytes_at(s, s.len(), i);
        lemma_le_bytes_len(s[i] as nat, 8);
        assert(d.subrange(start + 8 * i, start + 8 * i + 8) =~= ids_bytes(s, s.len()).subrange(
            8 * i,
            8 * i + 8,
        ));
        lemma_number_read_back(s[i] as nat, 8, d, start + 8 * i);
    }
    assert(freelist_ids(count, d) =~= s);
}

/// The page numbers `ids` as the header count and the data of a freelist
/// page.
pub fn freelist_to_payload(ids: &Vec<PageId>) -> (r: (u16, Vec<u8>))
    ensures
        r.0 == freelist_count(ids@),
        r.1@ == freelist_payload(ids@),
{
    let n = ids.len();
    let mut out: Vec<u8> = Vec::new();
    let count: u16 = if n < FREELIST_COUNT_ESCAPE as usize {
        n as u16
    } else {
        push_le(&mut out, n as u64, 8);
        FREELIST_COUNT_ESCAPE
    };
    let ghost head = out@;
    let mut i: usize = 0;
    while i < n
        invariant
            i <= n,
            n == ids@.len(),
            out@ == head + ids_bytes(ids@, i as nat),
        decreases n - i,
    {
        let ghost sofar = ids_bytes(ids@, i as nat);
        push_le(&mut out, ids[i], 8);
        proof {
            assert(out@ =~= head + (sofar + le_bytes(ids@[i as int] as nat, 8)));
        }
        i += 1;
    }
    proof {
        assert(Seq::<u8>::empty() + ids_bytes(ids@, n as nat) =~= ids_bytes(ids@, n as nat));
    }
    (count, out)
}

impl Freelist {
    /// Whether page `p` is free or pending.
    pub open spec fn is_listed(&self, p: PageId) -> bool {
        self.is_free(p) || self.is_held(p)
    }

    /// The number of pages that are free or pending.
    pub open spec fn listed_len(&self) -> nat {
        self.free_ids().len() + self.pending_ids().len()
    }

    /// Every page of the freelist, free or pending, in ascending order: what
    /// is written to the file, where no reader outlives the database.
    pub fn all_ids(&self) -> (out: Vec<PageId>)
        requires
            self.wf(),
        ensures
            ascending(out@),
            forall|q: PageId| out@.contains(q) <==> self.is_listed(q),
            forall|i: int| 0 <= i < out@.len() ==> #[trigger] out@[i] >= 2,
            out@.len() == self.listed_len(),
    {
        let mut out: Vec<PageId> = Vec::new();
        let n = self.ids.len();
        let mut i: usize = 0;
        while i < n
            invariant
                i <= n,
                n == self.ids@.len(),
                out@ == self.ids@.subrange(0, i as int),
            decreases n - i,
        {
            out.push(self.ids[i]);
            proof {
                assert(out@ =~= self.ids@.subrange(0, i + 1));
            }
            i += 1;
        }
        proof {
            assert(self.ids@.subrange(0, n as int) =~= self.ids@);
        }
        let m = self.pending.len();
        let mut k: usize = 0;
        while k < m
            invariant
                k <= m,
                m == self.pending@.len(),
                self.wf(),
                out@.len() == self.ids@.len() + k,
                ascending(out@),
                forall|q: PageId|
                    out@.contains(q) <==> self.is_free(q) || exists|j: int|
                        0 <= j < k && (#[trigger] self.pending_ids()[j]).id == q,
            decreases m - k,
        {
            let p = self.pending[k].id;
            let ghost before = out@;
            proof {
                if before.contains(p) {
                    if self.is_free(p) {
                        assert(!self.is_free(self.pending_ids()[k as int].id));
                    } else {
                        let j = choose|j: int|
                            0 <= j < k && (#[trigger] self.pending_ids()[j]).id == p;
                        assert(self.pending_ids()[j].id != self.pending_ids()[k as int].id);
                    }
                }
            }
            insert_sorted(&mut out, p);
            proof {
                assert forall|q: PageId|
                    out@.contains(q) <==> self.is_free(q) || exists|j: int|
                        0 <= j < k + 1 && (#[trigger] self.pending_ids()[j]).id == q by {
                    if q == p {
                        assert(self.pending_ids()[k as int].id == q);
                    }
                    if before.contains(q) && !self.is_free(q) {
                        let j = choose|j: int|
                            0 <= j < k && (#[trigger] self.pending_ids()[j]).id == q;
                        assert(self.pending_ids()[j].id == q);
                    }
                }
            }
            k += 1;
        }
        proof {
            assert forall|i: int| 0 <= i < out@.len() implies #[trigger] out@[i] >= 2 by {
                let q = out@[i];
                assert(out@.contains(q));
                if self.is_free(q) {
                    let a = self.free_ids().index_of(q);
                    assert(self.free_ids()[a] >= 2);
                } else {
                    let j = choose|j: int|
                        0 <= j < m && (#[trigger] self.pending_ids()[j]).id == q;
                    assert(self.pending_ids()[j].id >= 2);
                }
            }
        }
        out
    }

    /// Reads the freelist from the freelist page `page`: every page number
    /// on it is free for reuse. Fails with `PageOutOfBounds` when the page
    /// numbers do not lie inside the data of the page, and with
    /// `DatabaseInvalid` when they do not ascend or name a meta page.
    pub fn from_page(page: &Page) -> (r: Result<Freelist, Error>)
        ensures
            match r {
                Ok(f) => f.wf() && freelist_check(page.header.count, page.data@) == Ok::<
                    (),
                    Error,
                >(()) && f.free_ids() == freelist_ids(page.header.count, page.data@)
                    && f.pending_ids() == Seq::<Freed>::empty(),
                Err(e) => freelist_check(page.header.count, page.data@) == Err::<(), Error>(e),
            },
    {
        let count = page.header.count;
        let data = page.data;
        let start: usize = if count < FREELIST_COUNT_ESCAPE {
            0
        } else {
            8
        };
        if data.len() < start {
            return Err(Error::PageOutOfBounds);
        }
        let n: u64 = if count < FREELIST_COUNT_ESCAPE {
            count as u64
        } else {
            get_le(data, 0, 8)
        };
        if n > ((data.len() - start) / 8) as u64 {
            return Err(Error::PageOutOfBounds);
        }
        let ghost all = freelist_ids(count, data@);
        let len = data.len();
        let mut ids: Vec<PageId> = Vec::new();
        let mut i: usize = 0;
        while i < n as usize
            invariant
                i <= n,
                len == data@.len(),
                count == page.header.count,
                data@ == page.data@,
                n == freelist_len(count, data@),
                start == freelist_start(count),
                start + 8 * n <= data@.len(),
                all == freelist_ids(count, data@),
                ids@ == all.subrange(0, i as int),
                ascending(ids@),
                forall|j: int| 0 <= j < i ==> #[trigger] all[j] >= 2,
            decreases n - i,
        {
            let id = get_le(data, start + 8 * i, 8);
            proof {
                assert(id == all[i as int]);
            }
            if id < 2 || (i > 0 && ids[i - 1] >= id) {
                proof {
                    if id < 2 {
                        assert(!(all[i as int] >= 2));
                    } else {
                        assert(ids@[i - 1] == all[i - 1]);
                        assert(!(all[i - 1] < all[i as int]));
                        assert(!ascending(all));
                    }
                }
                return Err(Error::DatabaseInvalid);
            }
            let ghost before = ids@;
            ids.push(id);
            proof {
                assert(ids@ =~= all.subrange(0, i + 1));
                assert forall|a: int, b: int| 0 <= a < b < ids@.len() implies ids@[a] < ids@[b] by {
                    if b == i {
                        if a < i - 1 {
                            assert(before[a] < before[i - 1]);
                        }
                    } else {
                        assert(before[a] < before[b]);
                    }
                }
            }
            i += 1;
        }
        proof {
            assert(all.subrange(0, n as int) =~= all);
        }
        Ok(Freelist { ids, pending: Vec::new() })
    }
}


/// Where the pages of a write transaction come from: the freelist, and
/// behind it the end of the file, which moves on when the freelist has no
/// run that is long enough.
#[derive(Debug)]
pub struct PageAllocator {
    freelist: Freelist,
    next_page: PageId,
}

impl PageAllocator {
    /// The freelist.
    pub closed spec fn list(&self) -> Freelist {
        self.freelist
    }

    /// Whether `n` pages in a row can be had: there is one page at least
    /// to be had, and either so many free pages follow one another or the
    /// file can get that much longer.
    pub open spec fn has_room(&self, n: u64) -> bool {
        &&& n >= 1
        &&& find_run(self.list().free_ids(), n as int, 0).is_some() || self.spec_next_page() + n
            <= u64::MAX
    }

    /// The first page past those in use.
    pub closed spec fn spec_next_page(&self) -> PageId {
        self.next_page
    }

    /// What holds of every allocator: its freelist is well formed, the meta
    /// pages are in use, and every page of the freelist lies in front of
    /// the end of the file.
    pub open spec fn wf(&self) -> bool {
        &&& self.list().wf()
        &&& self.spec_next_page() >= 2
        &&& forall|p: PageId| self.list().is_listed(p) ==> p < self.spec_next_page()
    }

    /// Whether every page that is pending in this allocator is pending in
    /// `after`.
    pub open spec fn keeps_pending(&self, after: &PageAllocator) -> bool {
        forall|q: PageId| self.list().is_held(q) ==> #[trigger] after.list().is_held(q)
    }

    /// Whether every page that is pending in this allocator is pending in
    /// the freelist `after`.
    pub open spec fn keeps_pending_in(&self, after: Freelist) -> bool {
        forall|q: PageId| self.list().is_held(q) ==> #[trigger] after.is_held(q)
    }

    /// Whether the `n` pages from `p` on are in use in `after` and were
    /// neither in use nor pending in this allocator.
    pub open spec fn hands_out(&self, after: &PageAllocator, p: PageId, n: u64) -> bool {
        forall|q: PageId|
            #![trigger after.in_use(q)]
            p <= q && q < p + n ==> after.in_use(q) && !self.in_use(q) && !self.list().is_held(q)
    }

    /// Whether this allocator and `other` hold the same pages and the same
    /// end of the file.
    pub open spec fn same_as(&self, other: &PageAllocator) -> bool {
        &&& self.list().free_ids() == other.list().free_ids()
        &&& self.list().pending_ids() == other.list().pending_ids()
        &&& self.spec_next_page() == other.spec_next_page()
    }

    /// Whether page `p` is in use: in front of the end of the file, and
    /// neither free nor pending.
    pub open spec fn in_use(&self, p: PageId) -> bool {
        p < self.spec_next_page() && !self.list().is_listed(p)
    }

    /// The allocator over `freelist` for a file whose first `next_page`
    /// pages are in use. Fails with `DatabaseInvalid` when the meta pages
    /// would not be in use, or a page of the freelist lies behind the end
    /// of the file.
    pub fn new(freelist: Freelist, next_page: PageId) -> (r: Result<PageAllocator, Error>)
        requires
            freelist.wf(),
        ensures
            match r {
                Ok(a) => a.wf() && a.list() == freelist && a.spec_next_page() == next_page,
                Err(e) => e == Error::DatabaseInvalid && !(next_page >= 2 && forall|p: PageId|
                    freelist.is_listed(p) ==> p < next_page),
            },
    {
        if next_page < 2 {
            return Err(Error::DatabaseInvalid);
        }
        let n = freelist.ids.len();
        if n > 0 && freelist.ids[n - 1] >= next_page {
            proof {
                let p = freelist.free_ids()[n - 1];
                assert(freelist.is_free(p));
                assert(freelist.is_listed(p) && p >= next_page);
            }
            return Err(Error::DatabaseInvalid);
        }
        let mut i: usize = 0;
        while i < freelist.pending.len()
            invariant
                i <= freelist.pending@.len(),
                forall|j: int| 0 <= j < i ==> (#[trigger] freelist.pending@[j]).id < next_page,
            decreases freelist.pending@.len() - i,
        {
            if freelist.pending[i].id >= next_page {
                proof {
                    let p = freelist.pending_ids()[i as int].id;
                    assert(freelist.is_held(p));
                    assert(freelist.is_listed(p) && p >= next_page);
                }
                return Err(Error::DatabaseInvalid);
            }
            i += 1;
        }
        proof {
            assert forall|p: PageId| freelist.is_listed(p) implies p < next_page by {
                if freelist.is_free(p) {
                    let a = freelist.free_ids().index_of(p);
                    if a < n - 1 {
                        assert(freelist.free_ids()[a] < freelist.free_ids()[n - 1]);
                    }
                } else {
                    let j = choose|j: int|
                        0 <= j < freelist.pending_ids().len()
                            && #[trigger] freelist.pending_ids()[j].id == p;
                    assert(freelist.pending@[j].id < next_page);
                }
            }
        }
        Ok(PageAllocator { freelist, next_page })
    }

    /// The freelist.
    pub fn freelist(&self) -> (f: &Freelist)
        ensures
            *f == self.list(),
    {
        &self.freelist
    }

    /// The freelist, given back.
    pub fn into_freelist(self) -> (f: Freelist)
        ensures
            f == self.list(),
    {
        self.freelist
    }

    /// The first page past those in use.
    pub fn next_page(&self) -> (p: PageId)
        ensures
            p == self.spec_next_page(),
    {
        self.next_page
    }

    /// Hands out `n` consecutive pages: the first run of that length among
    /// the free pages, or, when there is none, the pages at the end of the
    /// file, which then moves on. The pages handed out are in use
    /// afterwards, and none of them was in use or pending before. Fails
    /// with `ValueTooLarge`, and changes nothing, when `n` is zero or the
    /// file cannot get that long.
    pub fn allocate(&mut self, n: u64) -> (r: Result<PageId, Error>)
        requires
            old(self).wf(),
        ensures
            final(self).wf(),
            r is Ok <==> old(self).has_room(n),
            final(self).list().pending_ids() == old(self).list().pending_ids(),
            final(self).spec_next_page() >= old(self).spec_next_page(),
            forall|q: PageId| final(self).list().is_free(q) ==> old(self).list().is_free(q),
            forall|q: PageId| old(self).in_use(q) ==> final(self).in_use(q),
            final(self).list().free_ids().len() <= old(self).list().free_ids().len(),
            r matches Ok(p) ==> n >= 1 && p >= 2 && p + n <= final(self).spec_next_page(),
            r matches Ok(p) ==> old(self).hands_out(final(self), p, n),
            r matches Ok(p) ==> (find_run(old(self).list().free_ids(), n as int, 0) matches Some(
                start,
            ) ==> p == old(self).list().free_ids()[start] && final(self).spec_next_page() == old(
                self,
            ).spec_next_page()),
            r matches Ok(p) ==> (find_run(old(self).list().free_ids(), n as int, 0).is_none()
                ==> p == old(self).spec_next_page() && final(self).spec_next_page() == p + n
                && final(self).list().free_ids() == old(self).list().free_ids()),
            r matches Err(e) ==> e == Error::ValueTooLarge && final(self).same_as(old(self)) && (n
                == 0 || (find_run(old(self).list().free_ids(), n as int, 0).is_none() && old(
                self,
            ).spec_next_page() + n > u64::MAX)),
    {
        if n == 0 {
            return Err(Error::ValueTooLarge);
        }
        let ghost before = *self;
        match self.freelist.allocate(n) {
            Some(p) => {
                proof {
                    lemma_held_alike(before.list(), self.list());
                    lemma_find_run_is_run(before.list().free_ids(), n as int, 0);
                    assert forall|q: PageId| p <= q && q < p + n implies #[trigger] self.in_use(q)
                        && !before.in_use(q) && !before.list().is_held(q) by {
                        let k = q - p;
                        assert(q == (p + k) as u64);
                        assert(before.list().is_free(((p + k) as u64)));
                        assert(before.list().is_listed(q));
                        assert(!self.list().is_free(q));
                        assert(!before.list().is_held(q));
                    }
                    assert forall|q: PageId| self.list().is_listed(q) implies q
                        < self.spec_next_page() by {
                        assert(before.list().is_listed(q));
                    }
                    assert forall|q: PageId| before.in_use(q) implies self.in_use(q) by {
                        if self.list().is_listed(q) {
                            assert(before.list().is_listed(q));
                        }
                    }
                    let last = (p + (n - 1)) as u64;
                    assert(before.list().is_free(last));
                    assert(before.list().is_listed(last));
                    assert(last < before.spec_next_page());
                    assert(p + n <= self.spec_next_page());
                    assert(find_run(before.list().free_ids(), n as int, 0) is Some);
                    assert(self.spec_next_page() == before.spec_next_page());
                }
                Ok(p)
            },
            None => {
                proof {
                    lemma_held_alike(before.list(), self.list());
                    assert forall|q: PageId| self.list().is_listed(q) implies q
                        < before.spec_next_page() by {
                        assert(before.list().is_listed(q));
                    }
                    assert forall|q: PageId| before.in_use(q) implies self.in_use(q) by {
                        if self.list().is_listed(q) {
                            assert(before.list().is_listed(q));
                        }
                    }
                }
                if n > u64::MAX - self.next_page {
                    return Err(Error::ValueTooLarge);
                }
                let p = self.next_page;
                self.next_page = p + n;
                proof {
                    assert(find_run(before.list().free_ids(), n as int, 0) is None);
                    assert(self.list().free_ids() == before.list().free_ids());
                    assert forall|q: PageId| p <= q && q < p + n implies #[trigger] self.in_use(q)
                        && !before.in_use(q) && !before.list().is_held(q) by {
                        if before.list().is_held(q) {
                            assert(before.list().is_listed(q));
                        }
                        if self.list().is_listed(q) {
                            assert(before.list().is_listed(q));
                        }
                    }
                }
                Ok(p)
            },
        }
    }

    /// Frees the pages `id` to `id + overflow` in the name of transaction
    /// `txid`: they become pending. Fails with `DatabaseInvalid`, and
    /// changes nothing, when one of them is not in use or is a meta page.
    pub fn free(&mut self, txid: TransactionId, id: PageId, overflow: u32) -> (r: Result<
        (),
        Error,
    >)
        requires
            old(self).wf(),
        ensures
            final(self).wf(),
            final(self).spec_next_page() == old(self).spec_next_page(),
            final(self).list().free_ids() == old(self).list().free_ids(),
            old(self).can_free(id, overflow) ==> r == Ok::<(), Error>(())
                && final(self).list().pending_ids() == old(self).list().pending_ids()
                + Freelist::freed_run(txid, id, overflow),
            !old(self).can_free(id, overflow) ==> r == Err::<(), Error>(Error::DatabaseInvalid)
                && final(self).same_as(old(self)),
    {
        if id >= self.next_page || overflow as u64 >= self.next_page - id {
            return Err(Error::DatabaseInvalid);
        }
        let ghost before = *self;
        proof {
            if before.can_free(id, overflow) {
                assert forall|k: int| 0 <= k <= overflow implies !before.list().is_free(
                    #[trigger] ((id + k) as u64),
                ) && !before.list().is_held((id + k) as u64) by {
                    assert(before.in_use(((id + k) as u64)));
                }
                assert(before.list().can_free(id, overflow));
            } else if before.list().can_free(id, overflow) {
                assert forall|k: int| 0 <= k <= overflow implies before.in_use(
                    #[trigger] ((id + k) as u64),
                ) by {
                    assert(!before.list().is_free(((id + k) as u64)));
                }
            }
        }
        let r = self.freelist.free(txid, id, overflow);
        proof {
            if before.can_free(id, overflow) {
                let run = Freelist::freed_run(txid, id, overflow);
                assert forall|p: PageId| self.list().is_listed(p) implies p
                    < self.spec_next_page() by {
                    if !before.list().is_listed(p) {
                        let j = choose|j: int|
                            0 <= j < self.list().pending_ids().len()
                                && #[trigger] self.list().pending_ids()[j].id == p;
                        let old_len = before.list().pending_ids().len();
                        if j < old_len {
                            assert(before.list().pending_ids()[j].id == p);
                        } else {
                            assert(self.list().pending_ids()[j] == run[j - old_len]);
                        }
                    }
                }
            } else {
                lemma_held_alike(before.list(), self.list());
                assert forall|p: PageId| self.list().is_listed(p) implies p
                    < self.spec_next_page() by {
                    assert(before.list().is_listed(p));
                }
            }
        }
        r
    }

    /// Whether the pages `id` to `id + overflow` can be freed: they are in
    /// use, and none is a meta page.
    pub open spec fn can_free(&self, id: PageId, overflow: u32) -> bool {
        &&& id >= 2
        &&& id + overflow < self.spec_next_page()
        &&& forall|k: int| 0 <= k <= overflow ==> self.in_use(#[trigger] ((id + k) as u64))
    }

    /// Makes the pages that transactions before `oldest` freed free for
    /// reuse. Pages freed by `oldest` or a later transaction stay pending.
    pub fn release(&mut self, oldest: TransactionId)
        requires
            old(self).wf(),
        ensures
            final(self).wf(),
            final(self).spec_next_page() == old(self).spec_next_page(),
            old(self).list().released(&final(self).list(), oldest),
    {
        let ghost before = *self;
        self.freelist.release(oldest);
        proof {
            assert forall|p: PageId| self.list().is_listed(p) implies p
                < self.spec_next_page() by {
                if self.list().is_free(p) {
                    if !before.list().is_free(p) {
                        let t = choose|t: TransactionId|
                            t < oldest && #[trigger] before.list().is_pending(t, p);
                        let f = Freed { txid: t, id: p };
                        let j = before.list().pending_ids().index_of(f);
                        assert(before.list().pending_ids()[j].id == p);
                        assert(before.list().is_held(p));
                    }
                    assert(before.list().is_listed(p));
                } else {
                    let j = choose|j: int|
                        0 <= j < self.list().pending_ids().len()
                            && #[trigger] self.list().pending_ids()[j].id == p;
                    let f = self.list().pending_ids()[j];
                    assert(self.list().pending_ids().contains(f));
                    assert(self.list().is_pending(f.txid, f.id));
                    assert(before.list().is_pending(f.txid, f.id));
                    let c = before.list().pending_ids().index_of(f);
                    assert(before.list().pending_ids()[c].id == p);
                    assert(before.list().is_held(p));
                    assert(before.list().is_listed(p));
                }
            }
        }
    }
}

/// Freelists with the same pending pages hold the same pages.
pub proof fn lemma_held_alike(a: Freelist, b: Freelist)
    requires
        a.pending_ids() == b.pending_ids(),
    ensures
        forall|p: PageId| a.is_held(p) == b.is_held(p),
        a.free_ids() == b.free_ids() ==> forall|p: PageId| a.is_listed(p) == b.is_listed(p),
{
    assert forall|p: PageId| a.is_held(p) == b.is_held(p) by {
        if a.is_held(p) {
            let i = choose|i: int|
                0 <= i < a.pending_ids().len() && #[trigger] a.pending_ids()[i].id == p;
            assert(b.pending_ids()[i].id == p);
        }
        if b.is_held(p) {
            let i = choose|i: int|
                0 <= i < b.pending_ids().len() && #[trigger] b.pending_ids()[i].id == p;
            assert(a.pending_ids()[i].id == p);
        }
    }
}


impl Freelist {
    /// A freelist that holds the same pages.
    pub fn duplicate(&self) -> (f: Freelist)
        ensures
            f.free_ids() == self.free_ids(),
            f.pending_ids() == self.pending_ids(),
            self.wf() ==> f.wf(),
    {
        let mut ids: Vec<PageId> = Vec::new();
        let mut i: usize = 0;
        while i < self.ids.len()
            invariant
                i <= self.ids@.len(),
                ids@ == self.ids@.subrange(0, i as int),
            decreases self.ids@.len() - i,
        {
            ids.push(self.ids[i]);
            proof {
                assert(ids@ =~= self.ids@.subrange(0, i + 1));
            }
            i += 1;
        }
        let mut pending: Vec<Freed> = Vec::new();
        let mut k: usize = 0;
        while k < self.pending.len()
            invariant
                k <= self.pending@.len(),
                pending@ == self.pending@.subrange(0, k as int),
            decreases self.pending@.len() - k,
        {
            pending.push(self.pending[k]);
            proof {
                assert(pending@ =~= self.pending@.subrange(0, k + 1));
            }
            k += 1;
        }
        proof {
            assert(self.ids@.subrange(0, self.ids@.len() as int) =~= self.ids@);
            assert(self.pending@.subrange(0, self.pending@.len() as int) =~= self.pending@);
        }
        let f = Freelist { ids, pending };
        proof {
            if self.wf() {
                assert forall|i: int| 0 <= i < f.pending_ids().len() implies !f.is_free(
                    (#[trigger] f.pending_ids()[i]).id,
                ) && f.pending_ids()[i].id >= 2 by {
                    assert(!self.is_free(self.pending_ids()[i].id));
                    assert(self.pending_ids()[i].id >= 2);
                }
                assert forall|i: int, j: int| 0 <= i < j < f.pending_ids().len() implies (
                #[trigger] f.pending_ids()[i]).id != (#[trigger] f.pending_ids()[j]).id by {
                    assert(self.pending_ids()[i].id != self.pending_ids()[j].id);
                }
                assert forall|i: int| 0 <= i < f.free_ids().len() implies #[trigger] f.free_ids()[i]
                    >= 2 by {
                    assert(self.free_ids()[i] >= 2);
                }
            }
        }
        f
    }
}

impl PageAllocator {
    /// Hands out the `n` pages at the end of the file, which then moves
    /// on, and leaves the freelist alone. Fails with `ValueTooLarge`, and
    /// changes nothing, when `n` is zero or the file cannot get that long.
    pub fn take_end(&mut self, n: u64) -> (r: Result<PageId, Error>)
        requires
            old(self).wf(),
        ensures
            final(self).wf(),
            final(self).list() == old(self).list(),
            n >= 1 && old(self).spec_next_page() + n <= u64::MAX ==> r == Ok::<PageId, Error>(
                old(self).spec_next_page(),
            ) && final(self).spec_next_page() == old(self).spec_next_page() + n,
            !(n >= 1 && old(self).spec_next_page() + n <= u64::MAX) ==> r == Err::<PageId, Error>(
                Error::ValueTooLarge,
            ) && final(self).spec_next_page() == old(self).spec_next_page(),
    {
        if n == 0 || n > u64::MAX - self.next_page {
            return Err(Error::ValueTooLarge);
        }
        let p = self.next_page;
        self.next_page = p + n;
        Ok(p)
    }
}


/// What freeing pages does to an allocator: the pages freed are pending
/// afterwards and in use no more, and every other page is as it was.
pub proof fn lemma_freed(
    before: PageAllocator,
    after: PageAllocator,
    txid: TransactionId,
    id: PageId,
    overflow: u32,
)
    requires
        id + overflow <= u64::MAX,
        after.list().pending_ids() == before.list().pending_ids() + Freelist::freed_run(
            txid,
            id,
            overflow,
        ),
        after.list().free_ids() == before.list().free_ids(),
        after.spec_next_page() == before.spec_next_page(),
    ensures
        forall|p: PageId|
            #[trigger] after.list().is_held(p) <==> before.list().is_held(p) || id <= p <= id
                + overflow,
        forall|p: PageId|
            #[trigger] after.in_use(p) <==> before.in_use(p) && !(id <= p <= id + overflow),
{
    let old_pending = before.list().pending_ids();
    let new_pending = after.list().pending_ids();
    let run = Freelist::freed_run(txid, id, overflow);
    assert forall|p: PageId|
        #[trigger] after.list().is_held(p) <==> before.list().is_held(p) || id <= p <= id
            + overflow by {
        if after.list().is_held(p) {
            let i = choose|i: int| 0 <= i < new_pending.len() && #[trigger] new_pending[i].id == p;
            if i < old_pending.len() {
                assert(old_pending[i].id == p);
            } else {
                assert(new_pending[i] == run[i - old_pending.len()]);
            }
        }
        if before.list().is_held(p) {
            let i = choose|i: int| 0 <= i < old_pending.len() && #[trigger] old_pending[i].id == p;
            assert(new_pending[i].id == p);
        }
        if id <= p <= id + overflow {
            let k = p - id;
            assert(new_pending[old_pending.len() + k] == run[k]);
            assert(new_pending[old_pending.len() + k].id == p);
        }
    }
}


/// A page is waiting to become free exactly if some transaction has freed
/// it and it is not yet free for reuse.
pub proof fn lemma_held_is_pending(f: Freelist, p: PageId)
    ensures
        f.is_held(p) <==> exists|t: TransactionId| #[trigger] f.is_pending(t, p),
{
    let s = f.pending_ids();
    if f.is_held(p) {
        let i = choose|i: int| 0 <= i < s.len() && #[trigger] s[i].id == p;
        assert(s[i] == Freed { txid: s[i].txid, id: p });
        assert(s.contains(s[i]));
        assert(f.is_pending(s[i].txid, p));
    }
    if exists|t: TransactionId| #[trigger] f.is_pending(t, p) {
        let t = choose|t: TransactionId| #[trigger] f.is_pending(t, p);
        let i = s.index_of(Freed { txid: t, id: p });
        assert(s[i].id == p);
    }
}

/// A release moves pages from pending to free, and no page into the
/// freelist or out of it.
pub proof fn lemma_release_keeps_listed(before: Freelist, after: Freelist, oldest: TransactionId)
    requires
        before.released(&after, oldest),
    ensures
        forall|p: PageId| #[trigger] after.is_listed(p) <==> before.is_listed(p),
{
    assert forall|p: PageId| #[trigger] after.is_listed(p) <==> before.is_listed(p) by {
        lemma_held_is_pending(before, p);
        lemma_held_is_pending(after, p);
        if after.is_held(p) {
            let t = choose|t: TransactionId| #[trigger] after.is_pending(t, p);
            assert(before.is_pending(t, p));
        }
        if before.is_held(p) && !after.is_free(p) {
            let t = choose|t: TransactionId| #[trigger] before.is_pending(t, p);
            if t >= oldest {
                assert(after.is_pending(t, p));
            }
        }
        if after.is_free(p) && !before.is_free(p) {
            let t = choose|t: TransactionId| t < oldest && #[trigger] before.is_pending(t, p);
            assert(before.is_pending(t, p));
        }
    }
}

} // verus!
