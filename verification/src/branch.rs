//! Branch pages: the inner nodes of a tree. A branch page holds keys in
//! ascending order, and with each key the page of the child that holds the
//! keys from that key on.

use vstd::prelude::*;
use vstd::slice::slice_subrange;
use crate::constants::{MAX_KEY_SIZE, MIN_KEYS_PER_PAGE};
use crate::db::PageId;
use crate::enc::append_bytes;
use crate::errors::Error;
use crate::node::{compare_keys, key_lt, KeyOrder, lemma_key_lt_transitive};
use crate::page::{BRANCH_PAGE_ELEMENT_SIZE, BranchPageElement, Page, PAGE_BRANCH};

verus! {

/// Key `i` of the branch page with data `data`.
pub open spec fn branch_key(data: Seq<u8>, i: int) -> Seq<u8> {
    BranchPageElement::spec_from_page(data, i).spec_key(data)
}

/// The page of child `i` of the branch page with data `data`.
pub open spec fn branch_child(data: Seq<u8>, i: int) -> PageId {
    BranchPageElement::spec_from_page(data, i).page_id
}

/// Whether element `i` of the branch page with data `data` and its key lie
/// inside the data.
pub open spec fn branch_element_ok(data: Seq<u8>, i: int) -> bool {
    &&& (i + 1) * BRANCH_PAGE_ELEMENT_SIZE <= data.len()
    &&& BranchPageElement::spec_from_page(data, i).fits(data.len())
}

/// Whether the data `data` is that of a sound branch page with `count`
/// elements: there is a child, every element and key lies inside the data,
/// and the keys strictly ascend.
pub open spec fn branch_ok(data: Seq<u8>, count: nat) -> bool {
    &&& count >= 1
    &&& forall|i: int| 0 <= i < count ==> #[trigger] branch_element_ok(data, i)
    &&& forall|i: int, j: int|
        0 <= i < j < count ==> key_lt(#[trigger] branch_key(data, i), #[trigger] branch_key(data, j))
}

/// The number of the first `n` keys of the branch page with data `data`
/// that do not come after `key`.
pub open spec fn keys_up_to(data: Seq<u8>, n: nat, key: Seq<u8>) -> int
    decreases n,
{
    if n == 0 {
        0
    } else {
        keys_up_to(data, (n - 1) as nat, key) + if key_lt(key, branch_key(data, n - 1)) {
            0int
        } else {
            1int
        }
    }
}

/// The child to go down to for `key` in the branch page with data `data`
/// and `count` elements: the last whose key does not come after `key`, and
/// the first when every key comes after it.
pub open spec fn branch_place(data: Seq<u8>, count: nat, key: Seq<u8>) -> int {
    if keys_up_to(data, count, key) == 0 {
        0
    } else {
        keys_up_to(data, count, key) - 1
    }
}

/// In a sound branch page the keys that do not come after `key` are the
/// first `at`, where `at` parts them from those that do.
pub proof fn lemma_keys_up_to(data: Seq<u8>, count: nat, key: Seq<u8>, at: int)
    requires
        0 <= at <= count,
        forall|i: int| 0 <= i < at ==> !key_lt(key, #[trigger] branch_key(data, i)),
        forall|i: int| at <= i < count ==> key_lt(key, #[trigger] branch_key(data, i)),
    ensures
        keys_up_to(data, count, key) == at,
    decreases count,
{
    if count > 0 {
        if at == count {
            lemma_keys_up_to(data, (count - 1) as nat, key, at - 1);
            assert(!key_lt(key, branch_key(data, count - 1)));
        } else {
            lemma_keys_up_to(data, (count - 1) as nat, key, at);
            assert(key_lt(key, branch_key(data, count - 1)));
        }
    }
}

/// None to all of the keys do not come after a key.
pub proof fn lemma_keys_up_to_bounds(data: Seq<u8>, n: nat, key: Seq<u8>)
    ensures
        0 <= keys_up_to(data, n, key) <= n,
        n > 0 ==> 0 <= branch_place(data, n, key) < n,
    decreases n,
{
    if n > 0 {
        lemma_keys_up_to_bounds(data, (n - 1) as nat, key);
    }
}

/// Reads element `i` of a branch page and the key that it points at, when
/// both lie inside the data of the page.
pub fn branch_entry<'a>(page: &Page<'a>, i: u16) -> (r: Option<(BranchPageElement, &'a [u8])>)
    ensures
        match r {
            Some(found) => branch_element_ok(page.data@, i as int) && found.0
                == BranchPageElement::spec_from_page(page.data@, i as int) && found.1@
                == branch_key(page.data@, i as int),
            None => !branch_element_ok(page.data@, i as int),
        },
{
    let element = match BranchPageElement::from_page(page, i) {
        Ok(e) => e,
        Err(_) => {
            return None;
        },
    };
    let start = element.position as u64;
    let end = start + element.key_size as u64;
    if end > page.data.len() as u64 {
        return None;
    }
    Some((element, slice_subrange(page.data, start as usize, end as usize)))
}

/// Whether `page` is a sound branch page.
pub fn check_branch(page: &Page) -> (ok: bool)
    ensures
        ok == branch_ok(page.data@, page.header.count as nat),
{
    let count = page.header.count;
    if count == 0 {
        return false;
    }
    let first = match branch_entry(page, 0) {
        Some(found) => found,
        None => {
            return false;
        },
    };
    let mut last = first.1;
    let mut i: u16 = 1;
    while i < count
        invariant
            1 <= i <= count,
            count == page.header.count,
            last@ == branch_key(page.data@, i - 1),
            forall|k: int| 0 <= k < i ==> #[trigger] branch_element_ok(page.data@, k),
            forall|a: int, b: int|
                0 <= a < b < i ==> key_lt(
                    #[trigger] branch_key(page.data@, a),
                    #[trigger] branch_key(page.data@, b),
                ),
        decreases count - i,
    {
        let (_, key) = match branch_entry(page, i) {
            Some(found) => found,
            None => {
                return false;
            },
        };
        match compare_keys(last, key) {
            KeyOrder::Less => {},
            _ => {
                proof {
                    assert(!key_lt(
                        branch_key(page.data@, i - 1),
                        branch_key(page.data@, i as int),
                    ));
                }
                return false;
            },
        }
        proof {
            let data = page.data@;
            assert forall|a: int, b: int| 0 <= a < b < i + 1 implies key_lt(
                #[trigger] branch_key(data, a),
                #[trigger] branch_key(data, b),
            ) by {
                if b == i && a < i - 1 {
                    assert(key_lt(branch_key(data, a), branch_key(data, i - 1)));
                    lemma_key_lt_transitive(
                        branch_key(data, a),
                        branch_key(data, i - 1),
                        branch_key(data, i as int),
                    );
                }
            }
        }
        last = key;
        i += 1;
    }
    true
}

/// The page of the child to go down to for `key` in the sound branch page
/// `page`: that of the last key that does not come after `key`, and that
/// of the first key when every key comes after it.
pub fn search_branch(page: &Page, key: &[u8]) -> (child: PageId)
    requires
        branch_ok(page.data@, page.header.count as nat),
    ensures
        child == branch_child(
            page.data@,
            branch_place(page.data@, page.header.count as nat, key@),
        ),
{
    let ghost data = page.data@;
    let count = page.header.count;
    let mut lo: u16 = 0;
    let mut hi: u16 = count;
    while lo < hi
        invariant
            lo <= hi <= count,
            count == page.header.count,
            data == page.data@,
            branch_ok(data, count as nat),
            forall|i: int| 0 <= i < lo ==> !key_lt(key@, #[trigger] branch_key(data, i)),
            forall|i: int| hi <= i < count ==> key_lt(key@, #[trigger] branch_key(data, i)),
        decreases hi - lo,
    {
        let mid = lo + (hi - lo) / 2;
        assert(branch_element_ok(data, mid as int));
        let probe = match branch_entry(page, mid) {
            Some(found) => found.1,
            None => {
                return 0;
            },
        };
        match compare_keys(key, probe) {
            KeyOrder::Less => {
                proof {
                    assert forall|i: int| mid <= i < count implies key_lt(
                        key@,
                        #[trigger] branch_key(data, i),
                    ) by {
                        if i > mid {
                            assert(key_lt(branch_key(data, mid as int), branch_key(data, i)));
                            lemma_key_lt_transitive(
                                key@,
                                branch_key(data, mid as int),
                                branch_key(data, i),
                            );
                        }
                    }
                }
                hi = mid;
            },
            _ => {
                proof {
                    assert forall|i: int| 0 <= i < mid + 1 implies !key_lt(
                        key@,
                        #[trigger] branch_key(data, i),
                    ) by {
                        if i < mid && key_lt(key@, branch_key(data, i)) {
                            assert(key_lt(branch_key(data, i), branch_key(data, mid as int)));
                            lemma_key_lt_transitive(
                                key@,
                                branch_key(data, i),
                                branch_key(data, mid as int),
                            );
                        }
                    }
                }
                lo = mid + 1;
            },
        }
    }
    proof {
        lemma_keys_up_to(data, count as nat, key@, lo as int);
    }
    let at = if lo == 0 {
        0
    } else {
        lo - 1
    };
    assert(branch_element_ok(data, at as int));
    match branch_entry(page, at) {
        Some(found) => found.0.page_id,
        None => 0,
    }
}

/// What `find_child` answers for `key` on the page with flags `flags`,
/// `count` elements and data `data`.
pub open spec fn spec_find_child(flags: u16, count: u16, data: Seq<u8>, key: Seq<u8>) -> Result<
    PageId,
    Error,
> {
    if flags != PAGE_BRANCH || !branch_ok(data, count as nat) {
        Err(Error::DatabaseInvalid)
    } else {
        Ok(branch_child(data, branch_place(data, count as nat, key)))
    }
}

/// The page of the child to go down to for `key` from `page`. Fails with
/// `DatabaseInvalid` when `page` is not a sound branch page.
pub fn find_child(page: &Page, key: &[u8]) -> (r: Result<PageId, Error>)
    ensures
        r == spec_find_child(page.header.flags, page.header.count, page.data@, key@),
{
    if page.header.flags != PAGE_BRANCH || !check_branch(page) {
        return Err(Error::DatabaseInvalid);
    }
    Ok(search_branch(page, key))
}


/// A child of a branch page: the key that its keys start from, and its
/// page.
#[derive(Debug)]
pub struct Child {
    /// The first key of the child.
    pub key: Vec<u8>,
    /// The page of the child.
    pub page: PageId,
}

/// A child of a branch page, as a mathematical value.
pub struct ChildView {
    /// The first key of the child.
    pub key: Seq<u8>,
    /// The page of the child.
    pub page: PageId,
}

impl View for Child {
    type V = ChildView;

    open spec fn view(&self) -> ChildView {
        ChildView { key: self.key@, page: self.page }
    }
}

/// The children `c` as mathematical values.
pub open spec fn children_view(c: Seq<Child>) -> Seq<ChildView> {
    Seq::new(c.len(), |i: int| c[i]@)
}

/// The number of bytes that the keys of the first `n` of the children `c`
/// take.
pub open spec fn keys_len(c: Seq<ChildView>, n: nat) -> nat
    decreases n,
{
    if n == 0 {
        0
    } else {
        keys_len(c, (n - 1) as nat) + c[n - 1].key.len()
    }
}

/// The element of child `i` on the branch page that holds the children
/// `c`: the keys lie behind the elements, in the order of the children.
pub open spec fn branch_element(c: Seq<ChildView>, i: int) -> BranchPageElement {
    BranchPageElement {
        position: (BRANCH_PAGE_ELEMENT_SIZE * c.len() + keys_len(c, i as nat)) as u32,
        key_size: c[i].key.len() as u32,
        page_id: c[i].page,
    }
}

/// The elements of the first `n` of the children `c`, as they lie in the
/// file.
pub open spec fn branch_elements(c: Seq<ChildView>, n: nat) -> Seq<u8>
    decreases n,
{
    if n == 0 {
        Seq::empty()
    } else {
        branch_elements(c, (n - 1) as nat) + branch_element(c, n - 1).bytes()
    }
}

/// The keys of the first `n` of the children `c`, as they lie in the file.
pub open spec fn branch_keys(c: Seq<ChildView>, n: nat) -> Seq<u8>
    decreases n,
{
    if n == 0 {
        Seq::empty()
    } else {
        branch_keys(c, (n - 1) as nat) + c[n - 1].key
    }
}

/// The children `c` as the data of a branch page.
pub open spec fn branch_payload(c: Seq<ChildView>) -> Seq<u8> {
    branch_elements(c, c.len()) + branch_keys(c, c.len())
}

/// Whether the children `c` can be written to a branch page: there is one
/// at least and no more than a page can count, their keys strictly ascend,
/// and no key is longer than a key may be.
pub open spec fn children_ok(c: Seq<ChildView>) -> bool {
    &&& 1 <= c.len() <= 0xFFFF
    &&& forall|i: int| 0 <= i < c.len() ==> (#[trigger] c[i]).key.len() <= MAX_KEY_SIZE
    &&& forall|i: int, j: int|
        0 <= i < j < c.len() ==> key_lt((#[trigger] c[i]).key, (#[trigger] c[j]).key)
}

/// The keys of more children take no fewer bytes, and no more than the
/// longest key for each child.
pub proof fn lemma_keys_len(c: Seq<ChildView>, a: nat, b: nat)
    requires
        a <= b <= c.len(),
        forall|i: int| 0 <= i < c.len() ==> (#[trigger] c[i]).key.len() <= MAX_KEY_SIZE,
    ensures
        keys_len(c, a) <= keys_len(c, b),
        keys_len(c, b) <= b * MAX_KEY_SIZE,
    decreases b,
{
    if b > 0 {
        assert(c[b - 1].key.len() <= MAX_KEY_SIZE);
        assert(b * MAX_KEY_SIZE == (b - 1) * MAX_KEY_SIZE + MAX_KEY_SIZE) by (nonlinear_arith);
        if a < b {
            lemma_keys_len(c, a, (b - 1) as nat);
        } else {
            lemma_keys_len(c, (b - 1) as nat, (b - 1) as nat);
        }
    }
}

/// The lengths of the two parts of the data of a branch page.
pub proof fn lemma_branch_parts_len(c: Seq<ChildView>, n: nat)
    ensures
        branch_elements(c, n).len() == BRANCH_PAGE_ELEMENT_SIZE * n,
        branch_keys(c, n).len() == keys_len(c, n),
    decreases n,
{
    if n > 0 {
        lemma_branch_parts_len(c, (n - 1) as nat);
        branch_element(c, n - 1).lemma_bytes_len();
    }
}

/// Element `i` lies at its place among the elements.
proof fn lemma_branch_elements_at(c: Seq<ChildView>, n: nat, i: int)
    requires
        0 <= i < n,
    ensures
        branch_elements(c, n).subrange(
            i * BRANCH_PAGE_ELEMENT_SIZE,
            (i + 1) * BRANCH_PAGE_ELEMENT_SIZE,
        ) == branch_element(c, i).bytes(),
    decreases n,
{
    lemma_branch_parts_len(c, (n - 1) as nat);
    branch_element(c, n - 1).lemma_bytes_len();
    let all = branch_elements(c, n);
    let head = branch_elements(c, (n - 1) as nat);
    if i == n - 1 {
        assert(all.subrange(i * BRANCH_PAGE_ELEMENT_SIZE, (i + 1) * BRANCH_PAGE_ELEMENT_SIZE)
            =~= branch_element(c, i).bytes());
    } else {
        lemma_branch_elements_at(c, (n - 1) as nat, i);
        assert(all.subrange(i * BRANCH_PAGE_ELEMENT_SIZE, (i + 1) * BRANCH_PAGE_ELEMENT_SIZE)
            =~= head.subrange(i * BRANCH_PAGE_ELEMENT_SIZE, (i + 1) * BRANCH_PAGE_ELEMENT_SIZE));
    }
}

/// The key of child `i` lies at its place among the keys.
proof fn lemma_branch_keys_at(c: Seq<ChildView>, n: nat, i: int)
    requires
        0 <= i < n,
    ensures
        keys_len(c, i as nat) + c[i].key.len() <= keys_len(c, n),
        branch_keys(c, n).subrange(
            keys_len(c, i as nat) as int,
            keys_len(c, i as nat) as int + c[i].key.len(),
        ) == c[i].key,
    decreases n,
{
    lemma_branch_parts_len(c, (n - 1) as nat);
    lemma_branch_parts_len(c, n);
    let all = branch_keys(c, n);
    let head = branch_keys(c, (n - 1) as nat);
    let at = keys_len(c, i as nat) as int;
    let k = c[i].key.len() as int;
    if i == n - 1 {
        assert(all.subrange(at, at + k) =~= c[i].key);
    } else {
        lemma_branch_keys_at(c, (n - 1) as nat, i);
        assert(all.subrange(at, at + k) =~= head.subrange(at, at + k));
    }
}

/// A written branch page is read back as it was: the data that children
/// are written as, whatever follows it, is that of a sound branch page with
/// the keys and the pages of the children.
pub proof fn lemma_branch_roundtrip(c: Seq<ChildView>, rest: Seq<u8>)
    requires
        children_ok(c),
    ensures
        branch_ok(branch_payload(c) + rest, c.len()),
        forall|i: int|
            0 <= i < c.len() ==> #[trigger] branch_key(branch_payload(c) + rest, i) == c[i].key
                && branch_child(branch_payload(c) + rest, i) == c[i].page,
{
    let d = branch_payload(c) + rest;
    let n = c.len();
    lemma_branch_parts_len(c, n);
    lemma_keys_len(c, n, n);
    assert(n * MAX_KEY_SIZE <= 0xFFFF * MAX_KEY_SIZE) by (nonlinear_arith)
        requires
            n <= 0xFFFF,
    ;
    assert forall|i: int| 0 <= i < n implies #[trigger] branch_element_ok(d, i) && branch_key(d, i)
        == c[i].key && branch_child(d, i) == c[i].page by {
        let e = branch_element(c, i);
        lemma_branch_elements_at(c, n, i);
        lemma_branch_keys_at(c, n, i);
        lemma_keys_len(c, i as nat, n);
        e.lemma_bytes_len();
        let behind = d.skip((i + 1) * BRANCH_PAGE_ELEMENT_SIZE);
        assert(d.skip(i * BRANCH_PAGE_ELEMENT_SIZE) =~= e.bytes() + behind) by {
            assert(d.subrange(i * BRANCH_PAGE_ELEMENT_SIZE, (i + 1) * BRANCH_PAGE_ELEMENT_SIZE)
                =~= branch_elements(c, n).subrange(
                i * BRANCH_PAGE_ELEMENT_SIZE,
                (i + 1) * BRANCH_PAGE_ELEMENT_SIZE,
            ));
        }
        e.lemma_of_bytes(behind);
        assert(c[i].key.len() <= MAX_KEY_SIZE);
        let at = BRANCH_PAGE_ELEMENT_SIZE * n + keys_len(c, i as nat);
        assert(e.position == at);
        let k = c[i].key.len() as int;
        assert(d.subrange(at, at + k) =~= branch_keys(c, n).subrange(
            keys_len(c, i as nat) as int,
            keys_len(c, i as nat) as int + k,
        ));
    }
    assert forall|i: int, j: int| 0 <= i < j < n implies key_lt(
        #[trigger] branch_key(d, i),
        #[trigger] branch_key(d, j),
    ) by {
        assert(branch_element_ok(d, i));
        assert(branch_element_ok(d, j));
        assert(branch_key(d, i) == c[i].key);
        assert(branch_key(d, j) == c[j].key);
        assert(key_lt(c[i].key, c[j].key));
    }
    assert forall|i: int| 0 <= i < n implies #[trigger] branch_key(d, i) == c[i].key
        && branch_child(d, i) == c[i].page by {
        assert(branch_element_ok(d, i));
    }
}

/// The children `children` as the data of a branch page: an element for
/// each child, then the keys.
pub fn branch_to_payload(children: &Vec<Child>) -> (out: Vec<u8>)
    requires
        children_ok(children_view(children@)),
    ensures
        out@ == branch_payload(children_view(children@)),
        out@.len() <= 0xFFFF * (BRANCH_PAGE_ELEMENT_SIZE + MAX_KEY_SIZE),
        out@.len() <= children@.len() * (BRANCH_PAGE_ELEMENT_SIZE + MAX_KEY_SIZE),
{
    let ghost c = children_view(children@);
    let count = children.len();
    let mut out: Vec<u8> = Vec::new();
    let mut at: u64 = (count as u64) * (BRANCH_PAGE_ELEMENT_SIZE as u64);
    let mut i: usize = 0;
    proof {
        lemma_keys_len(c, count as nat, count as nat);
        assert(count * MAX_KEY_SIZE <= 0xFFFF * MAX_KEY_SIZE) by (nonlinear_arith)
            requires
                count <= 0xFFFF,
        ;
    }
    while i < count
        invariant
            i <= count,
            count == c.len(),
            c == children_view(children@),
            children_ok(c),
            keys_len(c, count as nat) <= 0xFFFF * MAX_KEY_SIZE,
            at == BRANCH_PAGE_ELEMENT_SIZE * c.len() + keys_len(c, i as nat),
            out@ == branch_elements(c, i as nat),
        decreases count - i,
    {
        proof {
            lemma_keys_len(c, (i + 1) as nat, count as nat);
            assert(c[i as int].key.len() <= MAX_KEY_SIZE);
            assert(c[i as int] == children@[i as int]@);
        }
        let child = &children[i];
        let element = BranchPageElement {
            position: at as u32,
            key_size: child.key.len() as u32,
            page_id: child.page,
        };
        proof {
            assert(element == branch_element(c, i as int));
        }
        let bytes = element.to_bytes();
        append_bytes(&mut out, bytes.as_slice());
        at = at + child.key.len() as u64;
        i += 1;
    }
    i = 0;
    while i < count
        invariant
            i <= count,
            count == c.len(),
            c == children_view(children@),
            out@ == branch_elements(c, c.len()) + branch_keys(c, i as nat),
        decreases count - i,
    {
        let ghost sofar = branch_keys(c, i as nat);
        append_bytes(&mut out, children[i].key.as_slice());
        proof {
            assert(c[i as int] == children@[i as int]@);
            assert(out@ =~= branch_elements(c, c.len()) + (sofar + c[i as int].key));
        }
        i += 1;
    }
    proof {
        lemma_branch_parts_len(c, count as nat);
    }
    out
}

/// The number of bytes that the first `n` of the children `c` take as the
/// data of a branch page of their own.
pub open spec fn branch_prefix_len(c: Seq<ChildView>, n: nat) -> nat {
    (BRANCH_PAGE_ELEMENT_SIZE * n + keys_len(c, n)) as nat
}

/// Where the children `c` are parted for a branch page filled to
/// `threshold` bytes, looking from place `i` on: the page takes children as
/// long as it stays within the threshold, but it and the pages behind it
/// get `MIN_KEYS_PER_PAGE` children at least.
pub open spec fn group_from(c: Seq<ChildView>, threshold: nat, i: nat) -> nat
    decreases c.len() - i,
{
    if i + MIN_KEYS_PER_PAGE >= c.len() || branch_prefix_len(c, i + 1) > threshold {
        i
    } else {
        group_from(c, threshold, i + 1)
    }
}

/// The number of the children `c` that go to the first branch page over
/// them, for pages filled to `threshold` bytes: all of them when they stay
/// within the threshold or are too few for two pages, and else those in
/// front of the place where they are parted.
pub open spec fn group_point(c: Seq<ChildView>, threshold: nat) -> nat {
    if branch_prefix_len(c, c.len()) > threshold && c.len() >= 2 * MIN_KEYS_PER_PAGE {
        group_from(c, threshold, MIN_KEYS_PER_PAGE as nat)
    } else {
        c.len()
    }
}

/// The place where children are parted leaves both sides
/// `MIN_KEYS_PER_PAGE` children at least.
pub proof fn lemma_group_from_bounds(c: Seq<ChildView>, threshold: nat, i: nat)
    requires
        i + MIN_KEYS_PER_PAGE <= c.len(),
    ensures
        i <= group_from(c, threshold, i),
        group_from(c, threshold, i) + MIN_KEYS_PER_PAGE <= c.len(),
    decreases c.len() - i,
{
    if !(i + MIN_KEYS_PER_PAGE >= c.len() || branch_prefix_len(c, i + 1) > threshold) {
        lemma_group_from_bounds(c, threshold, i + 1);
    }
}

/// The number of the children `children` that go to the first branch page
/// over them, for pages filled to `threshold` bytes.
pub fn group_index(children: &Vec<Child>, threshold: u64) -> (at: usize)
    requires
        MIN_KEYS_PER_PAGE <= children@.len() <= 0xFFFF,
        forall|i: int|
            0 <= i < children@.len() ==> (#[trigger] children@[i]).key@.len() <= MAX_KEY_SIZE,
    ensures
        at == group_point(children_view(children@), threshold as nat),
        MIN_KEYS_PER_PAGE <= at <= children@.len(),
        at == children@.len() || at + MIN_KEYS_PER_PAGE <= children@.len(),
{
    let ghost c = children_view(children@);
    let n = children.len();
    let low = MIN_KEYS_PER_PAGE as usize;
    let mut total: u64 = 0;
    let mut k: usize = 0;
    while k < n
        invariant
            k <= n,
            n == c.len(),
            n <= 0xFFFF,
            c == children_view(children@),
            forall|i: int| 0 <= i < c.len() ==> (#[trigger] c[i]).key.len() <= MAX_KEY_SIZE,
            total == branch_prefix_len(c, k as nat),
        decreases n - k,
    {
        proof {
            lemma_keys_len(c, k as nat, k as nat);
            assert(c[k as int] == children@[k as int]@);
            assert(c[k as int].key.len() <= MAX_KEY_SIZE);
            assert(k * MAX_KEY_SIZE <= 0xFFFF * MAX_KEY_SIZE) by (nonlinear_arith)
                requires
                    k <= 0xFFFF,
            ;
        }
        total = total + BRANCH_PAGE_ELEMENT_SIZE as u64 + children[k].key.len() as u64;
        k += 1;
    }
    if total <= threshold || n < 2 * low {
        return n;
    }
    let mut size: u64 = 0;
    k = 0;
    while k < low
        invariant
            k <= low,
            low == MIN_KEYS_PER_PAGE,
            n == c.len(),
            2 * low <= n <= 0xFFFF,
            c == children_view(children@),
            forall|i: int| 0 <= i < c.len() ==> (#[trigger] c[i]).key.len() <= MAX_KEY_SIZE,
            size == branch_prefix_len(c, k as nat),
        decreases low - k,
    {
        proof {
            lemma_keys_len(c, k as nat, k as nat);
            assert(c[k as int] == children@[k as int]@);
            assert(c[k as int].key.len() <= MAX_KEY_SIZE);
            assert(k * MAX_KEY_SIZE <= 2 * MAX_KEY_SIZE) by (nonlinear_arith)
                requires
                    k <= 2,
            ;
        }
        size = size + BRANCH_PAGE_ELEMENT_SIZE as u64 + children[k].key.len() as u64;
        k += 1;
    }
    let mut i: usize = low;
    proof {
        lemma_group_from_bounds(c, threshold as nat, low as nat);
    }
    while i + low < n
        invariant
            low == MIN_KEYS_PER_PAGE,
            low <= i,
            i + low <= n,
            n == c.len(),
            n <= 0xFFFF,
            c == children_view(children@),
            forall|j: int| 0 <= j < c.len() ==> (#[trigger] c[j]).key.len() <= MAX_KEY_SIZE,
            size == branch_prefix_len(c, i as nat),
            group_point(c, threshold as nat) == group_from(c, threshold as nat, i as nat),
        decreases n - i,
    {
        proof {
            lemma_keys_len(c, i as nat, i as nat);
            assert(c[i as int] == children@[i as int]@);
            assert(c[i as int].key.len() <= MAX_KEY_SIZE);
            assert(i * MAX_KEY_SIZE <= 0xFFFF * MAX_KEY_SIZE) by (nonlinear_arith)
                requires
                    i <= 0xFFFF,
            ;
        }
        let next = size + BRANCH_PAGE_ELEMENT_SIZE as u64 + children[i].key.len() as u64;
        if next > threshold {
            return i;
        }
        size = next;
        i += 1;
    }
    i
}


} // verus!
