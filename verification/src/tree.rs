//! The tree of a bucket that does not lie inline: leaves that hold the
//! entries, and over them, where there is more than one leaf, branch pages
//! that lead to them, level over level up to the root. Every node of the
//! tree is a record of its own.

use vstd::prelude::*;
use crate::branch::{
    branch_child, branch_element_ok, branch_entry, branch_key, branch_ok, branch_payload,
    branch_place, branch_to_payload, check_branch, Child, children_ok, children_view, ChildView,
    find_child, group_index, lemma_branch_roundtrip, lemma_keys_up_to, spec_find_child,
};
use crate::constants::{MAX_KEY_SIZE, MAX_VALUE_SIZE, MIN_KEYS_PER_PAGE};
use crate::db::PageId;
use crate::enc::{append_bytes, zeros};
use crate::errors::Error;
use crate::freelist::PageAllocator;
use crate::node::{
    compare_keys, entries_map, Entry, flat, has_key, index_of_key, key_lt, KeyOrder, leaf_check,
    leaf_entries, leaf_payload, lemma_flat_prefix, lemma_key_lt_irreflexive, lemma_key_lt_total,
    lemma_key_lt_transitive, lemma_leaf_check_sorted, lemma_leaf_roundtrip, lemma_parts_of,
    lemma_payload_len_concat, lemma_sorted_place, lemma_subrange_sorted, MAX_NODE_ENTRIES, Node,
    nodes_view, parts_of, payload_len, sorted, split_all, within_limits,
};
use crate::page::{Page, PAGE_BRANCH, PAGE_LEAF, PageHeader, PageKind};
use crate::store::{
    in_bounds, lemma_record_data_frame, lemma_record_found, lemma_record_in_bounds, padded,
    page_bytes, PAGE_DATA_SIZE, PageArray, pages_for, Record, record_check, record_data, Run,
    run_of, runs_cover, same_but_meta,
};
use crate::transaction::{all_lie_in, MAX_RECORD_PAGES, place_record, planning};

verus! {

/// The most branch pages that lie on the way from the root of a tree to a
/// leaf. A tree that is higher is not read.
pub const MAX_TREE_HEIGHT: usize = 16;

/// The entries of the leaf with header `header` and data `data`, or what is
/// wrong with it: `DatabaseInvalid` when it is not marked as a leaf.
pub open spec fn leaf_of(header: PageHeader, data: Seq<u8>) -> Result<Seq<Entry>, Error> {
    if header.flags != PAGE_LEAF {
        Err(Error::DatabaseInvalid)
    } else {
        match leaf_check(data, header.count as nat, 0) {
            Ok(_) => Ok(leaf_entries(data, header.count as nat)),
            Err(e) => Err(e),
        }
    }
}

/// The entries `head` with the entries `tail` behind them, or
/// `DatabaseInvalid` when the keys of `tail` do not all come after those of
/// `head`, or the two are more than a node can hold.
pub open spec fn joined(head: Seq<Entry>, tail: Seq<Entry>) -> Result<Seq<Entry>, Error> {
    if head.len() + tail.len() > MAX_NODE_ENTRIES || (head.len() > 0 && tail.len() > 0 && !key_lt(
        head.last().key,
        tail.first().key,
    )) {
        Err(Error::DatabaseInvalid)
    } else {
        Ok(head + tail)
    }
}

/// The entries of the leaf whose record starts at page `id` of image
/// `data`, or what is wrong with it: `DatabaseInvalid` when `id` is a meta
/// page, and for the rest what reading the record and the leaf finds.
pub open spec fn leaf_in(data: Seq<u8>, id: PageId) -> Result<Seq<Entry>, Error> {
    if id < 2 {
        Err(Error::DatabaseInvalid)
    } else {
        match record_data(data, id as int) {
            Ok(found) => leaf_of(found.0, found.1),
            Err(e) => Err(e),
        }
    }
}

/// The entries of the tree whose root is the record at page `id` of image
/// `data`, with at most `height` branch pages on the way to a leaf: those of
/// the root when it is a leaf, those of its children, one after the other,
/// when it is a branch page. Otherwise what is wrong with the tree:
/// `DatabaseInvalid` when `id` is a meta page, when the root is neither a
/// leaf nor a sound branch page, and when it is a branch page though
/// `height` is 0; for the rest what reading the records finds.
pub open spec fn subtree_in(data: Seq<u8>, id: PageId, height: nat) -> Result<Seq<Entry>, Error>
    decreases height, 0nat,
{
    if id < 2 {
        Err(Error::DatabaseInvalid)
    } else {
        match record_data(data, id as int) {
            Ok(found) => if found.0.flags == PAGE_BRANCH {
                if height == 0 || !branch_ok(found.1, found.0.count as nat) {
                    Err(Error::DatabaseInvalid)
                } else {
                    children_in(data, found.1, found.0.count as nat, (height - 1) as nat)
                }
            } else {
                leaf_of(found.0, found.1)
            },
            Err(e) => Err(e),
        }
    }
}

/// The entries of child `i` of the branch page with data `branch`, in
/// image `data`, where the child is a tree with at most `height` branch
/// pages on the way to a leaf; or what is wrong with the child: what
/// reading its tree finds, and `DatabaseInvalid` when it holds no entry or
/// does not start with the key that the branch page has for it.
pub open spec fn child_in(data: Seq<u8>, branch: Seq<u8>, i: int, height: nat) -> Result<
    Seq<Entry>,
    Error,
>
    decreases height, 1nat,
{
    match subtree_in(data, branch_child(branch, i), height) {
        Ok(tail) => if tail.len() == 0 || tail[0].key != branch_key(branch, i) {
            Err(Error::DatabaseInvalid)
        } else {
            Ok(tail)
        },
        Err(e) => Err(e),
    }
}

/// The entries of the first `n` children of the branch page with data
/// `branch`, in image `data`, or what is wrong with the first child that
/// has something wrong with it.
pub open spec fn children_in(data: Seq<u8>, branch: Seq<u8>, n: nat, height: nat) -> Result<
    Seq<Entry>,
    Error,
>
    decreases height, n + 2,
{
    if n == 0 {
        Ok(Seq::empty())
    } else {
        match children_in(data, branch, (n - 1) as nat, height) {
            Ok(head) => match child_in(data, branch, n - 1, height) {
                Ok(tail) => joined(head, tail),
                Err(e) => Err(e),
            },
            Err(e) => Err(e),
        }
    }
}

/// The entries of the tree whose root is the record at page `root` of image
/// `data`, or what is wrong with the tree, as `subtree_in` says it for a
/// tree of `MAX_TREE_HEIGHT`.
pub open spec fn tree_in(data: Seq<u8>, root: PageId) -> Result<Seq<Entry>, Error> {
    subtree_in(data, root, MAX_TREE_HEIGHT as nat)
}

/// The pages of the records of the tree whose root is the record at page
/// `id` of image `data`, with at most `height` branch pages on the way to a
/// leaf: those of the root, then those of the trees of its children, child
/// by child.
pub open spec fn subtree_runs(data: Seq<u8>, id: PageId, height: nat) -> Seq<Run>
    decreases height, 0nat,
{
    let found = record_data(data, id as int)->Ok_0;
    if found.0.flags == PAGE_BRANCH && height > 0 {
        seq![run_of(data, id)] + children_runs(
            data,
            found.1,
            found.0.count as nat,
            (height - 1) as nat,
        )
    } else {
        seq![run_of(data, id)]
    }
}

/// The pages of the records of the trees of the first `n` children of the
/// branch page with data `branch`, in image `data`.
pub open spec fn children_runs(data: Seq<u8>, branch: Seq<u8>, n: nat, height: nat) -> Seq<Run>
    decreases height, n + 1,
{
    if n == 0 {
        Seq::empty()
    } else {
        children_runs(data, branch, (n - 1) as nat, height) + subtree_runs(
            data,
            branch_child(branch, n - 1),
            height,
        )
    }
}

/// The pages of the records of the tree whose root is the record at page
/// `root` of image `data`.
pub open spec fn tree_runs(data: Seq<u8>, root: PageId) -> Seq<Run> {
    subtree_runs(data, root, MAX_TREE_HEIGHT as nat)
}

/// Where the first children of a branch page cannot be read, more of them
/// cannot either, for the same reason.
pub proof fn lemma_children_fail(data: Seq<u8>, branch: Seq<u8>, n: nat, m: nat, height: nat)
    requires
        n <= m,
        children_in(data, branch, n, height) is Err,
    ensures
        children_in(data, branch, m, height) == children_in(data, branch, n, height),
    decreases m,
{
    if n < m {
        lemma_children_fail(data, branch, n, (m - 1) as nat, height);
    }
}

/// Where the children of a branch page can be read, each of them can.
pub proof fn lemma_children_ok(data: Seq<u8>, branch: Seq<u8>, m: nat, n: int, height: nat)
    requires
        1 <= n <= m,
        children_in(data, branch, m, height) is Ok,
    ensures
        subtree_in(data, branch_child(branch, n - 1), height) is Ok,
        child_in(data, branch, n - 1, height) is Ok,
    decreases m,
{
    if n < m {
        lemma_children_ok(data, branch, (m - 1) as nat, n, height);
    }
}

/// A tree that is read with a bound on its height is read alike with a
/// higher bound.
pub proof fn lemma_subtree_deeper(data: Seq<u8>, id: PageId, height: nat, more: nat)
    requires
        height <= more,
        subtree_in(data, id, height) is Ok,
    ensures
        subtree_in(data, id, more) == subtree_in(data, id, height),
    decreases height, 0nat,
{
    let found = record_data(data, id as int)->Ok_0;
    if found.0.flags == PAGE_BRANCH {
        lemma_children_deeper(
            data,
            found.1,
            found.0.count as nat,
            (height - 1) as nat,
            (more - 1) as nat,
        );
    }
}

/// The children of a branch page that are read with a bound on their
/// height are read alike with a higher bound.
proof fn lemma_children_deeper(data: Seq<u8>, branch: Seq<u8>, n: nat, height: nat, more: nat)
    requires
        height <= more,
        children_in(data, branch, n, height) is Ok,
    ensures
        children_in(data, branch, n, more) == children_in(data, branch, n, height),
    decreases height, n + 1,
{
    if n > 0 {
        lemma_children_ok(data, branch, n, n as int, height);
        lemma_children_deeper(data, branch, (n - 1) as nat, height, more);
        lemma_subtree_deeper(data, branch_child(branch, n - 1), height, more);
        assert(child_in(data, branch, n - 1, more) == child_in(data, branch, n - 1, height));
    }
}

/// Reads the leaf whose record starts at page `id`. Returns its entries
/// and the number of pages behind the first that its record takes. Fails
/// with what `leaf_in` finds wrong.
pub fn load_leaf(pa: &PageArray, id: PageId) -> (r: Result<(Node, u32), Error>)
    ensures
        match r {
            Ok(found) => found.0.wf() && leaf_in(pa@, id) == Ok::<Seq<Entry>, Error>(
                found.0.entries(),
            ) && found.1 == run_of(pa@, id).overflow,
            Err(e) => leaf_in(pa@, id) == Err::<Seq<Entry>, Error>(e),
        },
{
    if id < 2 {
        return Err(Error::DatabaseInvalid);
    }
    let (header, payload) = match pa.read_record(id) {
        Ok(found) => found,
        Err(e) => {
            return Err(e);
        },
    };
    if header.flags != PAGE_LEAF {
        return Err(Error::DatabaseInvalid);
    }
    let page = Page { header, data: payload.as_slice() };
    match Node::from_page(&page) {
        Ok(node) => Ok((node, header.overflow)),
        Err(e) => Err(e),
    }
}

/// Reads the tree whose root is the record at page `id`, with at most
/// `height` branch pages on the way to a leaf, going down into every child
/// of a branch page. Returns its entries, and adds the pages of its records
/// to `runs`. Fails with what `subtree_in` finds wrong.
fn load_subtree(pa: &PageArray, id: PageId, height: usize, runs: &mut Vec<Run>) -> (r: Result<
    Node,
    Error,
>)
    ensures
        match r {
            Ok(node) => node.wf() && subtree_in(pa@, id, height as nat) == Ok::<Seq<Entry>, Error>(
                node.entries(),
            ) && final(runs)@ == old(runs)@ + subtree_runs(pa@, id, height as nat),
            Err(e) => subtree_in(pa@, id, height as nat) == Err::<Seq<Entry>, Error>(e),
        },
    decreases height,
{
    if id < 2 {
        return Err(Error::DatabaseInvalid);
    }
    let (header, payload) = match pa.read_record(id) {
        Ok(found) => found,
        Err(e) => {
            return Err(e);
        },
    };
    let ghost before = runs@;
    runs.push(Run { id, overflow: header.overflow });
    let page = Page { header, data: payload.as_slice() };
    if header.flags != PAGE_BRANCH {
        if header.flags != PAGE_LEAF {
            return Err(Error::DatabaseInvalid);
        }
        return match Node::from_page(&page) {
            Ok(node) => {
                proof {
                    assert(runs@ =~= before + subtree_runs(pa@, id, height as nat));
                }
                Ok(node)
            },
            Err(e) => Err(e),
        };
    }
    if height == 0 || !check_branch(&page) {
        return Err(Error::DatabaseInvalid);
    }
    let ghost branch = payload@;
    let ghost below = (height - 1) as nat;
    let count = header.count;
    let mut node = Node::new();
    let mut i: u16 = 0;
    proof {
        assert(runs@ =~= before.push(run_of(pa@, id)) + children_runs(pa@, branch, 0, below));
    }
    while i < count
        invariant
            i <= count,
            count == header.count,
            branch == payload@,
            page.data@ == branch,
            page.header == header,
            height >= 1,
            below == height - 1,
            forall|k: int| 0 <= k < count ==> #[trigger] branch_element_ok(branch, k),
            subtree_in(pa@, id, height as nat) == children_in(pa@, branch, count as nat, below),
            node.wf(),
            children_in(pa@, branch, i as nat, below) == Ok::<Seq<Entry>, Error>(node.entries()),
            runs@ == before.push(run_of(pa@, id)) + children_runs(pa@, branch, i as nat, below),
        decreases count - i,
    {
        assert(branch_element_ok(branch, i as int));
        let (element, first) = match branch_entry(&page, i) {
            Some(found) => found,
            None => {
                return Err(Error::DatabaseInvalid);
            },
        };
        let ghost listed = runs@;
        let part = match load_subtree(pa, element.page_id, height - 1, runs) {
            Ok(found) => found,
            Err(e) => {
                proof {
                    lemma_children_fail(pa@, branch, (i + 1) as nat, count as nat, below);
                }
                return Err(e);
            },
        };
        let aligned = part.len() > 0 && match compare_keys(part.inode(0).key.as_slice(), first) {
            KeyOrder::Equal => true,
            _ => false,
        };
        if !aligned {
            proof {
                assert(child_in(pa@, branch, i as int, below) is Err);
                lemma_children_fail(pa@, branch, (i + 1) as nat, count as nat, below);
            }
            return Err(Error::DatabaseInvalid);
        }
        let ghost head = node.entries();
        let ghost tail = part.entries();
        match node.merge(part) {
            Ok(_) => {},
            Err(e) => {
                proof {
                    assert(joined(head, tail) is Err);
                    lemma_children_fail(pa@, branch, (i + 1) as nat, count as nat, below);
                }
                return Err(e);
            },
        }
        proof {
            assert(runs@ =~= before.push(run_of(pa@, id)) + children_runs(
                pa@,
                branch,
                (i + 1) as nat,
                below,
            ));
        }
        i += 1;
    }
    proof {
        assert(runs@ =~= before + subtree_runs(pa@, id, height as nat));
    }
    Ok(node)
}

/// Reads the tree whose root is the record at page `root`. Returns its
/// entries and the pages of its records. Fails with what `tree_in` finds
/// wrong.
pub fn load_tree(pa: &PageArray, root: PageId) -> (r: Result<(Node, Vec<Run>), Error>)
    ensures
        match r {
            Ok(found) => found.0.wf() && tree_in(pa@, root) == Ok::<Seq<Entry>, Error>(
                found.0.entries(),
            ) && found.1@ == tree_runs(pa@, root),
            Err(e) => tree_in(pa@, root) == Err::<Seq<Entry>, Error>(e),
        },
{
    let mut runs: Vec<Run> = Vec::new();
    match load_subtree(pa, root, MAX_TREE_HEIGHT, &mut runs) {
        Ok(node) => {
            proof {
                assert(runs@ =~= tree_runs(pa@, root));
            }
            Ok((node, runs))
        },
        Err(e) => Err(e),
    }
}

/// A page is a page of one of the records `a` and `b` when it is a page of
/// one of the records `a` or of one of the records `b`.
proof fn lemma_cover_concat(a: Seq<Run>, b: Seq<Run>, q: int)
    ensures
        runs_cover(a + b, q) == (runs_cover(a, q) || runs_cover(b, q)),
{
    let all = a + b;
    if runs_cover(a, q) {
        let i = choose|i: int| 0 <= i < a.len() && (#[trigger] a[i]).covers(q);
        assert(all[i] == a[i]);
        assert(runs_cover(all, q));
    }
    if runs_cover(b, q) {
        let i = choose|i: int| 0 <= i < b.len() && (#[trigger] b[i]).covers(q);
        assert(all[a.len() + i] == b[i]);
        assert(runs_cover(all, q));
    }
    if runs_cover(all, q) {
        let i = choose|i: int| 0 <= i < all.len() && (#[trigger] all[i]).covers(q);
        if i < a.len() {
            assert(a[i] == all[i]);
        } else {
            assert(b[i - a.len()] == all[i]);
        }
    }
}

/// The pages of the tree of a child are among the pages of the trees of
/// the children.
proof fn lemma_child_runs_covered(
    data: Seq<u8>,
    branch: Seq<u8>,
    m: nat,
    k: int,
    height: nat,
    q: int,
)
    requires
        0 <= k < m,
        runs_cover(subtree_runs(data, branch_child(branch, k), height), q),
    ensures
        runs_cover(children_runs(data, branch, m, height), q),
    decreases m,
{
    lemma_cover_concat(
        children_runs(data, branch, (m - 1) as nat, height),
        subtree_runs(data, branch_child(branch, m - 1), height),
        q,
    );
    if k < m - 1 {
        lemma_child_runs_covered(data, branch, (m - 1) as nat, k, height, q);
    }
}

/// A tree is read alike from an image and from one that is no shorter and
/// holds the same in the pages of its records.
pub proof fn lemma_subtree_kept(a: Seq<u8>, b: Seq<u8>, id: PageId, height: nat)
    requires
        a.len() <= b.len(),
        subtree_in(a, id, height) is Ok,
        forall|q: int|
            runs_cover(subtree_runs(a, id, height), q) ==> #[trigger] page_bytes(a, q)
                == page_bytes(b, q),
    ensures
        subtree_in(b, id, height) == subtree_in(a, id, height),
    decreases height, 0nat,
{
    let runs = subtree_runs(a, id, height);
    let pages = record_check(a, id as int)->Ok_0;
    assert forall|k: int| 0 <= k < pages implies #[trigger] page_bytes(a, id + k) == page_bytes(
        b,
        id + k,
    ) by {
        assert(runs[0] == run_of(a, id));
        assert(runs[0].covers(id + k));
        assert(runs_cover(runs, id + k));
    }
    lemma_record_data_frame(a, b, id as int);
    let found = record_data(a, id as int)->Ok_0;
    if found.0.flags == PAGE_BRANCH {
        let n = found.0.count as nat;
        let below = (height - 1) as nat;
        let rest = children_runs(a, found.1, n, below);
        assert forall|q: int| runs_cover(rest, q) implies #[trigger] page_bytes(a, q)
            == page_bytes(b, q) by {
            lemma_cover_concat(seq![run_of(a, id)], rest, q);
        }
        lemma_children_kept(a, b, found.1, n, n, below);
    }
}

/// The children of a branch page are read alike from an image and from
/// one that is no shorter and holds the same in the pages of the records of
/// their trees.
proof fn lemma_children_kept(a: Seq<u8>, b: Seq<u8>, branch: Seq<u8>, n: nat, m: nat, height: nat)
    requires
        a.len() <= b.len(),
        n <= m,
        children_in(a, branch, m, height) is Ok,
        forall|q: int|
            runs_cover(children_runs(a, branch, m, height), q) ==> #[trigger] page_bytes(a, q)
                == page_bytes(b, q),
    ensures
        children_in(b, branch, n, height) == children_in(a, branch, n, height),
        children_in(a, branch, n, height) is Ok,
    decreases height, n + 1,
{
    if children_in(a, branch, n, height) is Err {
        lemma_children_fail(a, branch, n, m, height);
    }
    if n > 0 {
        lemma_children_kept(a, b, branch, (n - 1) as nat, m, height);
        let child = branch_child(branch, n - 1);
        assert forall|q: int| runs_cover(subtree_runs(a, child, height), q) implies #[trigger] page_bytes(
            a,
            q,
        ) == page_bytes(b, q) by {
            lemma_child_runs_covered(a, branch, m, n - 1, height, q);
        }
        lemma_children_ok(a, branch, m, n as int, height);
        lemma_subtree_kept(a, b, child, height);
        assert(child_in(b, branch, n - 1, height) == child_in(a, branch, n - 1, height));
    }
}

/// A tree is read alike from an image and from one that is no shorter and
/// holds the same in the pages of its records.
pub proof fn lemma_tree_kept(a: Seq<u8>, b: Seq<u8>, root: PageId)
    requires
        a.len() <= b.len(),
        tree_in(a, root) is Ok,
        forall|q: int| runs_cover(tree_runs(a, root), q) ==> #[trigger] page_bytes(a, q)
            == page_bytes(b, q),
    ensures
        tree_in(b, root) == tree_in(a, root),
{
    lemma_subtree_kept(a, b, root, MAX_TREE_HEIGHT as nat);
}

/// The pages of the records of a tree lie inside the image, behind the
/// meta pages.
pub proof fn lemma_subtree_runs_in_bounds(data: Seq<u8>, id: PageId, height: nat, q: int)
    requires
        subtree_in(data, id, height) is Ok,
        runs_cover(subtree_runs(data, id, height), q),
    ensures
        2 <= q,
        in_bounds(data.len(), q),
    decreases height, 0nat,
{
    let found = record_data(data, id as int)->Ok_0;
    let head = seq![run_of(data, id)];
    if found.0.flags == PAGE_BRANCH {
        let n = found.0.count as nat;
        let below = (height - 1) as nat;
        let rest = children_runs(data, found.1, n, below);
        lemma_cover_concat(head, rest, q);
        if runs_cover(rest, q) {
            lemma_children_runs_in_bounds(data, found.1, n, n, below, q);
            return ;
        }
    }
    let i = choose|i: int| 0 <= i < head.len() && (#[trigger] head[i]).covers(q);
    assert(head[i] == run_of(data, id));
    lemma_record_in_bounds(data, id as int, q - id);
}

/// The pages of the records of the trees of the children of a branch page
/// lie inside the image, behind the meta pages.
proof fn lemma_children_runs_in_bounds(
    data: Seq<u8>,
    branch: Seq<u8>,
    n: nat,
    m: nat,
    height: nat,
    q: int,
)
    requires
        n <= m,
        children_in(data, branch, m, height) is Ok,
        runs_cover(children_runs(data, branch, n, height), q),
    ensures
        2 <= q,
        in_bounds(data.len(), q),
    decreases height, n + 1,
{
    if n > 0 {
        let child = branch_child(branch, n - 1);
        lemma_cover_concat(
            children_runs(data, branch, (n - 1) as nat, height),
            subtree_runs(data, child, height),
            q,
        );
        if runs_cover(children_runs(data, branch, (n - 1) as nat, height), q) {
            lemma_children_runs_in_bounds(data, branch, (n - 1) as nat, m, height, q);
        } else {
            lemma_children_ok(data, branch, m, n as int, height);
            lemma_subtree_runs_in_bounds(data, child, height, q);
        }
    }
}

/// The pages of the records of a tree lie inside the image, behind the
/// meta pages.
pub proof fn lemma_tree_runs_in_bounds(data: Seq<u8>, root: PageId, q: int)
    requires
        tree_in(data, root) is Ok,
        runs_cover(tree_runs(data, root), q),
    ensures
        2 <= q,
        in_bounds(data.len(), q),
{
    lemma_subtree_runs_in_bounds(data, root, MAX_TREE_HEIGHT as nat, q);
}

/// A tree is read alike from images that differ in the meta pages only.
pub proof fn lemma_tree_spared(a: Seq<u8>, b: Seq<u8>, root: PageId)
    requires
        same_but_meta(a, b),
        tree_in(a, root) is Ok,
    ensures
        tree_in(b, root) == tree_in(a, root),
{
    assert forall|q: int| runs_cover(tree_runs(a, root), q) implies #[trigger] page_bytes(a, q)
        == page_bytes(b, q) by {
        lemma_tree_runs_in_bounds(a, root, q);
    }
    lemma_tree_kept(a, b, root);
}

/// The most bytes that a child takes on a branch page: its element and its
/// key.
pub const BRANCH_ENTRY_MAX: usize = 271;

/// The bytes of pages that a tree takes for each of its entries at most,
/// beyond those of the entry itself: half of what is lost at the end of a
/// leaf and of what the branch pages over it take, because a leaf of a
/// tree with more than one holds two entries at least.
pub const TREE_ENTRY_ROOM: usize = 4351;

/// A bound on the room that the tree with entries `s` takes at the end of
/// the file, however the entries are split: the pages of its records hold
/// no more bytes of data than the entries take as the data of a leaf,
/// `TREE_ENTRY_ROOM` bytes for each entry, and the data of one page.
pub open spec fn tree_bytes(s: Seq<Entry>) -> nat {
    (payload_len(s) + TREE_ENTRY_ROOM * s.len() + PAGE_DATA_SIZE) as nat
}

/// Whether one of the parts that entries `s` are split into for pages
/// filled to `threshold` bytes holds more than a record can.
pub open spec fn oversized(s: Seq<Entry>, threshold: nat) -> bool {
    exists|k: int|
        0 <= k < parts_of(s, threshold).len() && payload_len(#[trigger] parts_of(s, threshold)[k])
            > u32::MAX
}

/// Whether the records `records` hold the tree with entries `s` at root
/// `id`, with at most `height` branch pages on the way to a leaf: every
/// image in which they lie gives those entries from that root.
pub open spec fn subtree_holds(records: Seq<Record>, id: PageId, height: nat, s: Seq<Entry>) -> bool {
    forall|data: Seq<u8>|
        data.len() <= usize::MAX && #[trigger] all_lie_in(records, data) ==> subtree_in(
            data,
            id,
            height,
        ) == Ok::<Seq<Entry>, Error>(s)
}

/// Whether the records `records` hold the tree with entries `s` at root
/// `root`: every image in which they lie gives those entries from that
/// root.
pub open spec fn tree_holds(records: Seq<Record>, root: PageId, s: Seq<Entry>) -> bool {
    forall|data: Seq<u8>|
        data.len() <= usize::MAX && #[trigger] all_lie_in(records, data) ==> tree_in(data, root)
            == Ok::<Seq<Entry>, Error>(s)
}

/// Whether record `r` is the leaf with entries `s` at page `id`.
pub open spec fn leaf_stored_as(s: Seq<Entry>, id: PageId, r: Record) -> bool {
    &&& r.id == id
    &&& id >= 2
    &&& r.kind == PageKind::Leaf
    &&& r.count == s.len()
    &&& r.payload@ == leaf_payload(s)
    &&& r.writable()
    &&& sorted(s)
    &&& within_limits(s)
    &&& s.len() <= MAX_NODE_ENTRIES
    &&& payload_len(s) <= u32::MAX
}

/// Whether the records `records` from place `base` on are the leaves with
/// entries `parts` at the pages `ids`.
pub open spec fn leaves_stored(
    records: Seq<Record>,
    base: int,
    parts: Seq<Seq<Entry>>,
    ids: Seq<PageId>,
) -> bool {
    &&& 0 <= base
    &&& base + parts.len() <= records.len()
    &&& ids.len() == parts.len()
    &&& forall|i: int|
        0 <= i < parts.len() ==> leaf_stored_as(#[trigger] parts[i], ids[i], records[base + i])
}

/// A leaf whose record lies in an image is read from it as it was written.
pub proof fn lemma_leaf_found(data: Seq<u8>, s: Seq<Entry>, id: PageId, r: Record)
    requires
        data.len() <= usize::MAX,
        leaf_stored_as(s, id, r),
        r.lies_in(data),
    ensures
        leaf_in(data, id) == Ok::<Seq<Entry>, Error>(s),
        forall|height: nat| #[trigger] subtree_in(data, id, height) == Ok::<Seq<Entry>, Error>(s),
{
    lemma_record_found(data, r);
    let rest = zeros((pages_for(r.payload@.len()) * PAGE_DATA_SIZE - r.payload@.len()) as nat);
    assert(padded(r.payload@) == leaf_payload(s) + rest);
    lemma_leaf_roundtrip(s, rest);
}

/// Whether the records `more` are the records `fewer` with records behind
/// them.
pub open spec fn extends(fewer: Seq<Record>, more: Seq<Record>) -> bool {
    &&& fewer.len() <= more.len()
    &&& forall|j: int| 0 <= j < fewer.len() ==> #[trigger] more[j] == fewer[j]
}

/// An image in which records lie has the first of them lie in it.
pub proof fn lemma_fewer_lie_in(fewer: Seq<Record>, more: Seq<Record>, data: Seq<u8>)
    requires
        extends(fewer, more),
        all_lie_in(more, data),
    ensures
        all_lie_in(fewer, data),
{
    assert forall|j: int| 0 <= j < fewer.len() implies (#[trigger] fewer[j]).lies_in(data) by {
        assert(more[j].lies_in(data));
    }
}

/// Records that hold a tree hold it with more records behind them.
pub proof fn lemma_tree_holds_more(
    fewer: Seq<Record>,
    more: Seq<Record>,
    root: PageId,
    s: Seq<Entry>,
)
    requires
        tree_holds(fewer, root, s),
        extends(fewer, more),
    ensures
        tree_holds(more, root, s),
{
    assert forall|data: Seq<u8>|
        data.len() <= usize::MAX && #[trigger] all_lie_in(more, data) implies tree_in(data, root)
        == Ok::<Seq<Entry>, Error>(s) by {
        lemma_fewer_lie_in(fewer, more, data);
    }
}

/// Records that hold a tree of a bounded height hold it with more records
/// behind them.
pub proof fn lemma_subtree_holds_more(
    fewer: Seq<Record>,
    more: Seq<Record>,
    id: PageId,
    height: nat,
    s: Seq<Entry>,
)
    requires
        subtree_holds(fewer, id, height, s),
        extends(fewer, more),
    ensures
        subtree_holds(more, id, height, s),
{
    assert forall|data: Seq<u8>|
        data.len() <= usize::MAX && #[trigger] all_lie_in(more, data) implies subtree_in(
        data,
        id,
        height,
    ) == Ok::<Seq<Entry>, Error>(s) by {
        lemma_fewer_lie_in(fewer, more, data);
    }
}

/// Whether the entries `s` from place `cuts[i]` up to place `cuts[i + 1]`
/// are entries, the first of them with the key of child `i` of the
/// children `c`, and the tree of that child, with at most `height` branch
/// pages on the way to a leaf, gives them in image `data`.
pub open spec fn child_found(
    data: Seq<u8>,
    c: Seq<ChildView>,
    cuts: Seq<int>,
    s: Seq<Entry>,
    height: nat,
    i: int,
) -> bool {
    &&& 0 <= cuts[i] < cuts[i + 1] <= s.len()
    &&& c[i].key == s[cuts[i]].key
    &&& subtree_in(data, c[i].page, height) == Ok::<Seq<Entry>, Error>(
        s.subrange(cuts[i], cuts[i + 1]),
    )
}

/// Whether the entries `s` from place `cuts[i]` up to place `cuts[i + 1]`
/// are entries, the first of them with the key of child `i` of the
/// children `c`, and the records `records` hold them as the tree of that
/// child, with at most `height` branch pages on the way to a leaf.
pub open spec fn child_holds(
    records: Seq<Record>,
    c: Seq<ChildView>,
    cuts: Seq<int>,
    s: Seq<Entry>,
    height: nat,
    i: int,
) -> bool {
    &&& 0 <= cuts[i] < cuts[i + 1] <= s.len()
    &&& c[i].key == s[cuts[i]].key
    &&& c[i].page >= 2
    &&& subtree_holds(records, c[i].page, height, s.subrange(cuts[i], cuts[i + 1]))
}

/// Whether the records `records` hold one level of a tree over the entries
/// `s`: the trees of the children `c`, each with at most `height` branch
/// pages on the way to a leaf, hold the entries between the places `cuts`,
/// child by child.
pub open spec fn level_holds(
    records: Seq<Record>,
    c: Seq<ChildView>,
    cuts: Seq<int>,
    s: Seq<Entry>,
    height: nat,
) -> bool {
    &&& cuts.len() == c.len() + 1
    &&& forall|i: int| 0 <= i < c.len() ==> #[trigger] child_holds(records, c, cuts, s, height, i)
}

/// The places between which the children of a level hold entries ascend.
pub proof fn lemma_cuts_ascend(
    records: Seq<Record>,
    c: Seq<ChildView>,
    cuts: Seq<int>,
    s: Seq<Entry>,
    height: nat,
    a: int,
    b: int,
)
    requires
        level_holds(records, c, cuts, s, height),
        0 <= a < b <= c.len(),
    ensures
        0 <= cuts[a] < cuts[b] <= s.len(),
    decreases b - a,
{
    assert(child_holds(records, c, cuts, s, height, b - 1));
    if a < b - 1 {
        lemma_cuts_ascend(records, c, cuts, s, height, a, b - 1);
    }
}

/// The children of a level over sorted entries can be written to a branch
/// page, and so can those of them that follow one another.
pub proof fn lemma_level_children_ok(
    records: Seq<Record>,
    c: Seq<ChildView>,
    cuts: Seq<int>,
    s: Seq<Entry>,
    height: nat,
    from: int,
    to: int,
)
    requires
        level_holds(records, c, cuts, s, height),
        sorted(s),
        within_limits(s),
        0 <= from < to <= c.len(),
        to - from <= 0xFFFF,
    ensures
        children_ok(c.subrange(from, to)),
{
    let g = c.subrange(from, to);
    assert forall|i: int| 0 <= i < g.len() implies (#[trigger] g[i]).key.len() <= MAX_KEY_SIZE by {
        assert(child_holds(records, c, cuts, s, height, from + i));
        assert(s[cuts[from + i]].key.len() <= MAX_KEY_SIZE);
    }
    assert forall|i: int, j: int| 0 <= i < j < g.len() implies key_lt(
        (#[trigger] g[i]).key,
        (#[trigger] g[j]).key,
    ) by {
        assert(child_holds(records, c, cuts, s, height, from + i));
        assert(child_holds(records, c, cuts, s, height, from + j));
        lemma_cuts_ascend(records, c, cuts, s, height, from + i, from + j);
        assert(key_lt(s[cuts[from + i]].key, s[cuts[from + j]].key));
    }
}

/// The first `n` children of a branch page give the entries that they
/// hold, one child after the other, where the branch page names the
/// children with their keys and the tree of each gives its entries.
proof fn lemma_group_found(
    data: Seq<u8>,
    branch: Seq<u8>,
    c: Seq<ChildView>,
    cuts: Seq<int>,
    s: Seq<Entry>,
    height: nat,
    n: nat,
)
    requires
        1 <= c.len(),
        n <= c.len(),
        cuts.len() == c.len() + 1,
        sorted(s),
        s.len() <= MAX_NODE_ENTRIES,
        forall|i: int| 0 <= i < c.len() ==> #[trigger] child_found(data, c, cuts, s, height, i),
        forall|i: int|
            0 <= i < c.len() ==> #[trigger] branch_child(branch, i) == c[i].page && branch_key(
                branch,
                i,
            ) == c[i].key,
    ensures
        0 <= cuts[0] <= cuts[n as int] <= s.len(),
        children_in(data, branch, n, height) == Ok::<Seq<Entry>, Error>(
            s.subrange(cuts[0], cuts[n as int]),
        ),
    decreases n,
{
    assert(child_found(data, c, cuts, s, height, 0));
    if n == 0 {
        assert(s.subrange(cuts[0], cuts[0]) =~= Seq::<Entry>::empty());
    } else {
        lemma_group_found(data, branch, c, cuts, s, height, (n - 1) as nat);
        assert(child_found(data, c, cuts, s, height, n - 1));
        let head = s.subrange(cuts[0], cuts[n - 1]);
        let tail = s.subrange(cuts[n - 1], cuts[n as int]);
        assert(branch_child(branch, n - 1) == c[n - 1].page);
        assert(tail[0] == s[cuts[n - 1]]);
        assert(child_in(data, branch, n - 1, height) == Ok::<Seq<Entry>, Error>(tail));
        if head.len() > 0 {
            assert(head.last() == s[cuts[n - 1] - 1]);
            assert(key_lt(s[cuts[n - 1] - 1].key, s[cuts[n - 1]].key));
        }
        assert(head + tail =~= s.subrange(cuts[0], cuts[n as int]));
    }
}

/// A branch page whose record lies in an image gives the entries that its
/// children hold, one child after the other, where the tree of each child
/// gives its entries in that image.
proof fn lemma_branch_found(
    data: Seq<u8>,
    r: Record,
    c: Seq<ChildView>,
    cuts: Seq<int>,
    s: Seq<Entry>,
    height: nat,
)
    requires
        data.len() <= usize::MAX,
        r.lies_in(data),
        r.writable(),
        r.id >= 2,
        r.kind == PageKind::Branch,
        r.count == c.len(),
        r.payload@ == branch_payload(c),
        children_ok(c),
        cuts.len() == c.len() + 1,
        sorted(s),
        s.len() <= MAX_NODE_ENTRIES,
        forall|i: int| 0 <= i < c.len() ==> #[trigger] child_found(data, c, cuts, s, height, i),
    ensures
        subtree_in(data, r.id, height + 1) == Ok::<Seq<Entry>, Error>(
            s.subrange(cuts[0], cuts[c.len() as int]),
        ),
{
    lemma_record_found(data, r);
    let rest = zeros((pages_for(r.payload@.len()) * PAGE_DATA_SIZE - r.payload@.len()) as nat);
    let branch = padded(r.payload@);
    assert(branch == branch_payload(c) + rest);
    lemma_branch_roundtrip(c, rest);
    assert forall|i: int| 0 <= i < c.len() implies #[trigger] branch_child(branch, i) == c[i].page
        && branch_key(branch, i) == c[i].key by {
        assert(branch_key(branch, i) == c[i].key);
    }
    lemma_group_found(data, branch, c, cuts, s, height, c.len());
}

/// The records of a level, with a branch page over some of its children
/// that follow one another behind them, hold the entries of those children
/// as the tree of that branch page.
proof fn lemma_group_planned(
    listed: Seq<Record>,
    more: Seq<Record>,
    c: Seq<ChildView>,
    cuts: Seq<int>,
    s: Seq<Entry>,
    height: nat,
    from: int,
    to: int,
)
    requires
        level_holds(listed, c, cuts, s, height),
        sorted(s),
        within_limits(s),
        s.len() <= MAX_NODE_ENTRIES,
        0 <= from < to <= c.len(),
        to - from <= 0xFFFF,
        extends(listed, more),
        listed.len() < more.len(),
        more.last().writable(),
        more.last().id >= 2,
        more.last().kind == PageKind::Branch,
        more.last().count == to - from,
        more.last().payload@ == branch_payload(c.subrange(from, to)),
    ensures
        subtree_holds(more, more.last().id, height + 1, s.subrange(cuts[from], cuts[to])),
{
    let r = more.last();
    let g = c.subrange(from, to);
    let marks = cuts.subrange(from, to + 1);
    lemma_level_children_ok(listed, c, cuts, s, height, from, to);
    assert forall|data: Seq<u8>|
        data.len() <= usize::MAX && #[trigger] all_lie_in(more, data) implies subtree_in(
        data,
        r.id,
        height + 1,
    ) == Ok::<Seq<Entry>, Error>(s.subrange(cuts[from], cuts[to])) by {
        lemma_fewer_lie_in(listed, more, data);
        assert(more[more.len() - 1].lies_in(data));
        assert forall|i: int| 0 <= i < g.len() implies #[trigger] child_found(
            data,
            g,
            marks,
            s,
            height,
            i,
        ) by {
            assert(child_holds(listed, c, cuts, s, height, from + i));
            assert(marks[i] == cuts[from + i]);
            assert(marks[i + 1] == cuts[from + i + 1]);
            assert(g[i] == c[from + i]);
        }
        lemma_branch_found(data, r, g, marks, s, height);
        assert(marks[0] == cuts[from]);
        assert(marks[g.len() as int] == cuts[to]);
    }
}

/// Twice as often doubled as `level`: the least number of leaves under a
/// tree with `level` full levels of branch pages.
pub open spec fn level_weight(level: nat) -> nat
    decreases level,
{
    if level == 0 {
        1
    } else {
        2 * level_weight((level - 1) as nat)
    }
}

/// A weight below 2 to the 15th belongs to a level below 15.
proof fn lemma_level_weight(level: nat)
    ensures
        level >= 15 ==> level_weight(level) >= 0x8000,
        level_weight(level) >= 1,
    decreases level,
{
    if level > 0 {
        lemma_level_weight((level - 1) as nat);
    }
    if level == 15 {
        assert(level_weight(15) == 0x8000) by {
            reveal_with_fuel(level_weight, 16);
        }
    }
}

/// Plans the leaves of a tree: each of the parts `parts` gets fresh pages
/// for its record, which is added to the plan `records`. Returns the
/// children that the branch pages over the leaves have to name.
fn plan_leaves(
    parts: &Vec<Node>,
    pages: &mut PageAllocator,
    records: &mut Vec<Record>,
    Ghost(start): Ghost<PageAllocator>,
) -> (r: Result<Vec<Child>, Error>)
    requires
        planning(start, *old(pages), old(records)@),
        parts@.len() <= 0xFFFF,
        forall|i: int| 0 <= i < parts@.len() ==> (#[trigger] parts@[i]).wf(),
        forall|i: int| 0 <= i < parts@.len() ==> (#[trigger] parts@[i]).entries().len() > 0,
    ensures
        final(pages).wf(),
        r is Err ==> r->Err_0 == Error::ValueTooLarge && ((exists|k: int|
            0 <= k < parts@.len() && payload_len((#[trigger] parts@[k]).entries()) > u32::MAX)
            || old(pages).spec_next_page() + parts@.len() * MAX_RECORD_PAGES > u64::MAX),
        (exists|k: int|
            0 <= k < parts@.len() && payload_len((#[trigger] parts@[k]).entries()) > u32::MAX)
            ==> r is Err,
        r matches Ok(children) ==> {
            &&& planning(start, *final(pages), final(records)@)
            &&& extends(old(records)@, final(records)@)
            &&& final(records)@.len() == old(records)@.len() + parts@.len()
            &&& children@.len() == parts@.len()
            &&& leaves_stored(
                final(records)@,
                old(records)@.len() as int,
                nodes_view(parts@),
                Seq::new(children@.len(), |i: int| children@[i].page),
            )
            &&& forall|i: int|
                0 <= i < children@.len() ==> (#[trigger] children@[i]).key@ == parts@[i].entries()[0].key
            &&& final(pages).spec_next_page() <= old(pages).spec_next_page() + parts@.len()
                * MAX_RECORD_PAGES
            &&& (final(pages).spec_next_page() - old(pages).spec_next_page()) * PAGE_DATA_SIZE
                <= payload_len(flat(nodes_view(parts@))) + PAGE_DATA_SIZE * parts@.len()
        },
{
    let ghost listed = records@;
    let ghost first = *pages;
    let ghost views = nodes_view(parts@);
    let mut children: Vec<Child> = Vec::new();
    proof {
        assert(views.subrange(0, 0) =~= Seq::<Seq<Entry>>::empty());
        assert(payload_len(flat(views.subrange(0, 0))) == 0);
    }
    let mut k: usize = 0;
    while k < parts.len()
        invariant
            k <= parts@.len(),
            parts@.len() <= 0xFFFF,
            views == nodes_view(parts@),
            listed == old(records)@,
            first == *old(pages),
            forall|i: int| 0 <= i < parts@.len() ==> (#[trigger] parts@[i]).wf(),
            forall|i: int| 0 <= i < parts@.len() ==> (#[trigger] parts@[i]).entries().len() > 0,
            planning(start, *pages, records@),
            extends(listed, records@),
            records@.len() == listed.len() + k,
            children@.len() == k,
            forall|i: int|
                0 <= i < k ==> leaf_stored_as(
                    #[trigger] views[i],
                    children@[i].page,
                    records@[listed.len() + i],
                ),
            forall|i: int|
                0 <= i < k ==> (#[trigger] children@[i]).key@ == parts@[i].entries()[0].key,
            forall|i: int| 0 <= i < k ==> payload_len((#[trigger] parts@[i]).entries()) <= u32::MAX,
            pages.spec_next_page() <= first.spec_next_page() + k * MAX_RECORD_PAGES,
            (pages.spec_next_page() - first.spec_next_page()) * PAGE_DATA_SIZE <= payload_len(
                flat(views.subrange(0, k as int)),
            ) + PAGE_DATA_SIZE * k,
        decreases parts@.len() - k,
    {
        let part = &parts[k];
        let ghost entries = part.entries();
        let ghost sofar = records@;
        let ghost kids = children@;
        let ghost at = pages.spec_next_page();
        let payload = match part.to_payload() {
            Ok(p) => p,
            Err(e) => {
                return Err(e);
            },
        };
        proof {
            crate::node::lemma_leaf_parts_len(entries, entries.len());
            assert(k * MAX_RECORD_PAGES <= parts@.len() * MAX_RECORD_PAGES) by (nonlinear_arith)
                requires
                    k <= parts@.len(),
            ;
        }
        let id = match place_record(
            pages,
            records,
            PageKind::Leaf,
            part.len() as u16,
            payload,
            Ghost(start),
        ) {
            Ok(id) => id,
            Err(e) => {
                return Err(e);
            },
        };
        let mut key: Vec<u8> = Vec::new();
        append_bytes(&mut key, part.inode(0).key.as_slice());
        children.push(Child { key, page: id });
        proof {
            assert(key@ =~= entries[0].key);
            assert(views[k as int] == entries);
            assert forall|i: int| 0 <= i < k + 1 implies leaf_stored_as(
                #[trigger] views[i],
                children@[i].page,
                records@[listed.len() + i],
            ) by {
                if i < k {
                    assert(leaf_stored_as(views[i], kids[i].page, sofar[listed.len() + i]));
                    assert(records@[listed.len() + i] == sofar[listed.len() + i]);
                }
            }
            assert((k + 1) * MAX_RECORD_PAGES == k * MAX_RECORD_PAGES + MAX_RECORD_PAGES)
                by (nonlinear_arith);
            lemma_page_budget(at, pages.spec_next_page(), payload_len(entries));
            lemma_flat_prefix(views, k as int);
            lemma_payload_len_concat(flat(views.subrange(0, k as int)), views[k as int]);
        }
        k += 1;
    }
    proof {
        assert(views.subrange(0, parts@.len() as int) =~= views);
    }
    Ok(children)
}

/// A record that starts where the file ended takes no more bytes of pages
/// than its payload and the data of one page.
pub proof fn lemma_page_budget(was: PageId, now: PageId, len: nat)
    requires
        now <= was + pages_for(len),
    ensures
        (now - was) * PAGE_DATA_SIZE <= len + PAGE_DATA_SIZE,
{
    crate::store::lemma_pages_for(len);
    assert((now - was) * PAGE_DATA_SIZE <= pages_for(len) * PAGE_DATA_SIZE) by (nonlinear_arith)
        requires
            now - was <= pages_for(len),
    ;
}

/// Where the entries of part `j` start among the entries of all parts.
pub open spec fn part_start(parts: Seq<Seq<Entry>>, j: int) -> int {
    flat(parts.subrange(0, j)).len() as int
}

/// The leaves of a tree, once their records are planned, are the lowest
/// level of the tree: each holds its part of the entries.
proof fn lemma_leaves_level(
    records: Seq<Record>,
    base: int,
    parts: Seq<Seq<Entry>>,
    c: Seq<ChildView>,
    s: Seq<Entry>,
)
    requires
        flat(parts) == s,
        c.len() == parts.len(),
        leaves_stored(records, base, parts, Seq::new(c.len(), |i: int| c[i].page)),
        forall|i: int| 0 <= i < parts.len() ==> (#[trigger] parts[i]).len() > 0,
        forall|i: int| 0 <= i < c.len() ==> (#[trigger] c[i]).key == parts[i][0].key,
    ensures
        level_holds(
            records,
            c,
            Seq::new(parts.len() + 1, |i: int| part_start(parts, i)),
            s,
            0,
        ),
        part_start(parts, 0) == 0,
        part_start(parts, parts.len() as int) == s.len(),
{
    let cuts = Seq::new(parts.len() + 1, |i: int| part_start(parts, i));
    let ids = Seq::new(c.len(), |i: int| c[i].page);
    assert(parts.subrange(0, 0) =~= Seq::<Seq<Entry>>::empty());
    assert(parts.subrange(0, parts.len() as int) =~= parts);
    assert forall|i: int| 0 <= i < c.len() implies #[trigger] child_holds(
        records,
        c,
        cuts,
        s,
        0,
        i,
    ) by {
        lemma_flat_prefix(parts, i);
        let at = part_start(parts, i);
        assert(cuts[i] == at);
        assert(cuts[i + 1] == at + parts[i].len());
        assert(s.subrange(at, at + parts[i].len()) == parts[i]);
        assert(s.subrange(at, at + parts[i].len())[0] == s[at]);
        assert(c[i].key == parts[i][0].key);
        assert(leaf_stored_as(parts[i], ids[i], records[base + i]));
        assert forall|data: Seq<u8>|
            data.len() <= usize::MAX && #[trigger] all_lie_in(records, data) implies subtree_in(
            data,
            c[i].page,
            0,
        ) == Ok::<Seq<Entry>, Error>(parts[i]) by {
            assert(records[base + i].lies_in(data));
            lemma_leaf_found(data, parts[i], ids[i], records[base + i]);
        }
    }
}

/// Plans one level of branch pages over the children `children`: the
/// children are parted for pages filled to `threshold` bytes, as
/// `group_point` says, and each group becomes a branch page with a record
/// of its own on fresh pages, which is added to the plan `records`. Returns
/// the children that the level above has to name: each branch page with the
/// first key under it. Fails with `ValueTooLarge` when the file cannot get
/// as long as it would have to.
fn plan_level(
    children: Vec<Child>,
    threshold: u64,
    pages: &mut PageAllocator,
    records: &mut Vec<Record>,
    Ghost(start): Ghost<PageAllocator>,
    Ghost(cuts): Ghost<Seq<int>>,
    Ghost(s): Ghost<Seq<Entry>>,
    Ghost(height): Ghost<nat>,
) -> (r: Result<(Vec<Child>, Ghost<Seq<int>>), Error>)
    requires
        planning(start, *old(pages), old(records)@),
        MIN_KEYS_PER_PAGE <= children@.len() <= 0xFFFF,
        sorted(s),
        within_limits(s),
        s.len() <= MAX_NODE_ENTRIES,
        level_holds(old(records)@, children_view(children@), cuts, s, height),
    ensures
        final(pages).wf(),
        r is Err ==> r->Err_0 == Error::ValueTooLarge && old(pages).spec_next_page()
            + children@.len() * MAX_RECORD_PAGES > u64::MAX,
        r matches Ok(found) ==> {
            &&& planning(start, *final(pages), final(records)@)
            &&& extends(old(records)@, final(records)@)
            &&& final(records)@.len() == old(records)@.len() + found.0@.len()
            &&& 1 <= found.0@.len()
            &&& MIN_KEYS_PER_PAGE * found.0@.len() <= children@.len()
            &&& level_holds(final(records)@, children_view(found.0@), found.1@, s, height + 1)
            &&& found.1@[0] == cuts[0]
            &&& found.1@[found.0@.len() as int] == cuts[children@.len() as int]
            &&& final(pages).spec_next_page() <= old(pages).spec_next_page() + found.0@.len()
                * MAX_RECORD_PAGES
            &&& (final(pages).spec_next_page() - old(pages).spec_next_page()) * PAGE_DATA_SIZE
                <= BRANCH_ENTRY_MAX * children@.len() + PAGE_DATA_SIZE * found.0@.len()
        },
{
    let ghost listed = records@;
    let ghost first = *pages;
    let ghost all = children_view(children@);
    let n = children.len();
    let mut rest = children;
    let mut next: Vec<Child> = Vec::new();
    let ghost mut marks: Seq<int> = seq![cuts[0]];
    let mut done: usize = 0;
    proof {
        assert(children_view(rest@) =~= all.subrange(0, n as int));
    }
    while rest.len() > 0
        invariant
            n == all.len(),
            n == children@.len(),
            MIN_KEYS_PER_PAGE <= n <= 0xFFFF,
            done <= n,
            done == n || done + MIN_KEYS_PER_PAGE <= n,
            rest@.len() == n - done,
            children_view(rest@) == all.subrange(done as int, n as int),
            marks.len() == next@.len() + 1,
            marks[0] == cuts[0],
            marks[next@.len() as int] == cuts[done as int],
            MIN_KEYS_PER_PAGE * next@.len() <= done,
            done > 0 ==> next@.len() >= 1,
            level_holds(listed, all, cuts, s, height),
            level_holds(records@, children_view(next@), marks, s, height + 1),
            sorted(s),
            within_limits(s),
            s.len() <= MAX_NODE_ENTRIES,
            planning(start, *pages, records@),
            extends(listed, records@),
            records@.len() == listed.len() + next@.len(),
            first == *old(pages),
            pages.spec_next_page() <= first.spec_next_page() + next@.len() * MAX_RECORD_PAGES,
            (pages.spec_next_page() - first.spec_next_page()) * PAGE_DATA_SIZE <= BRANCH_ENTRY_MAX
                * done + PAGE_DATA_SIZE * next@.len(),
        decreases n - done,
    {
        let ghost whole = rest@;
        let ghost mark = pages.spec_next_page();
        proof {
            lemma_level_children_ok(listed, all, cuts, s, height, done as int, n as int);
            assert forall|i: int| 0 <= i < whole.len() implies (#[trigger] whole[i]).key@.len()
                <= MAX_KEY_SIZE by {
                assert(children_view(whole)[i] == whole[i]@);
                assert(all.subrange(done as int, n as int)[i].key.len() <= MAX_KEY_SIZE);
            }
        }
        let at = group_index(&rest, threshold);
        let tail = rest.split_off(at);
        let ghost to = done + at;
        proof {
            assert(children_view(rest@) =~= all.subrange(done as int, to as int)) by {
                assert forall|i: int| 0 <= i < at implies children_view(rest@)[i] == all[done + i] by {
                    assert(children_view(whole)[i] == whole[i]@);
                }
            }
            assert(children_view(tail@) =~= all.subrange(to as int, n as int)) by {
                assert forall|i: int| 0 <= i < n - to implies children_view(tail@)[i] == all[to
                    + i] by {
                    assert(children_view(whole)[at + i] == whole[at + i]@);
                }
            }
            lemma_level_children_ok(listed, all, cuts, s, height, done as int, to as int);
        }
        let payload = branch_to_payload(&rest);
        let count = rest.len() as u16;
        let ghost size = payload@.len();
        let ghost sofar = records@;
        let ghost before = children_view(next@);
        let ghost was = marks;
        let id = match place_record(pages, records, PageKind::Branch, count, payload, Ghost(start)) {
            Ok(id) => id,
            Err(e) => {
                proof {
                    assert((next@.len() + 1) * MAX_RECORD_PAGES <= n * MAX_RECORD_PAGES)
                        by (nonlinear_arith)
                        requires
                            next@.len() + 1 <= n,
                    ;
                    assert((next@.len() + 1) * MAX_RECORD_PAGES == next@.len() * MAX_RECORD_PAGES
                        + MAX_RECORD_PAGES) by (nonlinear_arith);
                }
                return Err(e);
            },
        };
        let mut key: Vec<u8> = Vec::new();
        append_bytes(&mut key, rest[0].key.as_slice());
        next.push(Child { key, page: id });
        proof {
            marks = marks.push(cuts[to as int]);
            let more = records@;
            let up = children_view(next@);
            let g = (next@.len() - 1) as int;
            assert(more[more.len() - 1].writable() && more[more.len() - 1].id >= 2);
            assert forall|j: int| 0 <= j < listed.len() implies #[trigger] more[j] == listed[j] by {
                assert(sofar[j] == listed[j]);
            }
            assert(extends(sofar, more));
            lemma_group_planned(listed, more, all, cuts, s, height, done as int, to as int);
            lemma_cuts_ascend(listed, all, cuts, s, height, done as int, to as int);
            assert(child_holds(listed, all, cuts, s, height, done as int));
            assert(key@ =~= all[done as int].key) by {
                assert(children_view(rest@)[0] == rest@[0]@);
            }
            assert forall|i: int| 0 <= i < up.len() implies #[trigger] child_holds(
                more,
                up,
                marks,
                s,
                height + 1,
                i,
            ) by {
                if i < g {
                    assert(child_holds(sofar, before, was, s, height + 1, i));
                    assert(up[i] == before[i]);
                    assert(marks[i] == was[i]);
                    assert(marks[i + 1] == was[i + 1]);
                    lemma_subtree_holds_more(
                        sofar,
                        more,
                        before[i].page,
                        height + 1,
                        s.subrange(was[i], was[i + 1]),
                    );
                } else {
                    assert(marks[g] == cuts[done as int]);
                    assert(marks[g + 1] == cuts[to as int]);
                    assert(up[g] == next@[g]@);
                }
            }
            assert((next@.len()) * MAX_RECORD_PAGES == (next@.len() - 1) * MAX_RECORD_PAGES
                + MAX_RECORD_PAGES) by (nonlinear_arith);
            lemma_page_budget(mark, pages.spec_next_page(), size);
            assert(size <= at * 271);
        }
        done = done + at;
        rest = tail;
    }
    Ok((next, Ghost(marks)))
}

/// Plans the branch pages of a tree over its leaves: level over level is
/// planned, as `plan_level` does, until one branch page is over all others.
/// Returns the page of that branch page, the root of the tree. Fails with
/// `ValueTooLarge` when the file cannot get as long as it would have to.
fn plan_branches(
    leaves: Vec<Child>,
    threshold: u64,
    pages: &mut PageAllocator,
    records: &mut Vec<Record>,
    Ghost(start): Ghost<PageAllocator>,
    Ghost(marks): Ghost<Seq<int>>,
    Ghost(s): Ghost<Seq<Entry>>,
) -> (r: Result<PageId, Error>)
    requires
        planning(start, *old(pages), old(records)@),
        MIN_KEYS_PER_PAGE <= leaves@.len(),
        MIN_KEYS_PER_PAGE * leaves@.len() <= 0xFFFF,
        sorted(s),
        within_limits(s),
        s.len() <= MAX_NODE_ENTRIES,
        level_holds(old(records)@, children_view(leaves@), marks, s, 0),
        marks[0] == 0,
        marks[leaves@.len() as int] == s.len(),
    ensures
        final(pages).wf(),
        r is Err ==> r->Err_0 == Error::ValueTooLarge && old(pages).spec_next_page()
            + leaves@.len() * MAX_RECORD_PAGES > u64::MAX,
        r matches Ok(root) ==> {
            &&& root >= 2
            &&& planning(start, *final(pages), final(records)@)
            &&& extends(old(records)@, final(records)@)
            &&& final(records)@.len() < old(records)@.len() + leaves@.len()
            &&& tree_holds(final(records)@, root, s)
            &&& final(pages).spec_next_page() <= old(pages).spec_next_page() + (final(records)@.len() - old(records)@.len()) * MAX_RECORD_PAGES
            &&& (final(pages).spec_next_page() - old(pages).spec_next_page()) * PAGE_DATA_SIZE <= (2
                * BRANCH_ENTRY_MAX + PAGE_DATA_SIZE) * leaves@.len()
        },
{
    let ghost listed = records@;
    let ghost first = *pages;
    let ghost width = leaves@.len();
    let mut children = leaves;
    let ghost mut cuts: Seq<int> = marks;
    let ghost mut height: nat = 0;
    let ghost mut seen: nat = 0;
    proof {
        assert(level_weight(0) == 1);
        assert(children@.len() * 1 == children@.len());
    }
    while children.len() > 1
        invariant
            sorted(s),
            within_limits(s),
            s.len() <= MAX_NODE_ENTRIES,
            MIN_KEYS_PER_PAGE * width <= 0xFFFF,
            1 <= children@.len() <= width,
            children@.len() * level_weight(height) <= width,
            level_holds(records@, children_view(children@), cuts, s, height),
            cuts[0] == 0,
            cuts[children@.len() as int] == s.len(),
            planning(start, *pages, records@),
            extends(listed, records@),
            listed.len() <= records@.len(),
            records@.len() - listed.len() + children@.len() <= width,
            first == *old(pages),
            listed == old(records)@,
            width == leaves@.len(),
            pages.spec_next_page() <= first.spec_next_page() + (records@.len() - listed.len())
                * MAX_RECORD_PAGES,
            seen + 2 * children@.len() <= 2 * width,
            (pages.spec_next_page() - first.spec_next_page()) * PAGE_DATA_SIZE <= BRANCH_ENTRY_MAX
                * seen + PAGE_DATA_SIZE * (records@.len() - listed.len()),
        decreases children@.len(),
    {
        let ghost sofar = records@;
        let ghost n = children@.len();
        let found = match plan_level(
            children,
            threshold,
            pages,
            records,
            Ghost(start),
            Ghost(cuts),
            Ghost(s),
            Ghost(height),
        ) {
            Ok(found) => found,
            Err(e) => {
                proof {
                    let added = sofar.len() - listed.len();
                    assert(added * MAX_RECORD_PAGES + n * MAX_RECORD_PAGES <= width
                        * MAX_RECORD_PAGES) by (nonlinear_arith)
                        requires
                            added + n <= width,
                            0 <= added,
                    ;
                }
                return Err(e);
            },
        };
        children = found.0;
        proof {
            let m = children@.len();
            let added = sofar.len() - listed.len();
            cuts = found.1@;
            assert(m * level_weight(height + 1) <= width) by (nonlinear_arith)
                requires
                    2 * m <= n,
                    n * level_weight(height) <= width,
                    level_weight(height + 1) == 2 * level_weight(height),
            ;
            height = height + 1;
            assert forall|j: int| 0 <= j < listed.len() implies #[trigger] records@[j]
                == listed[j] by {
                assert(sofar[j] == listed[j]);
            }
            assert((added + m) * MAX_RECORD_PAGES == added * MAX_RECORD_PAGES + m
                * MAX_RECORD_PAGES) by (nonlinear_arith);
            seen = seen + n;
        }
    }
    let root = children[0].page;
    proof {
        let all = records@;
        let c = children_view(children@);
        assert(child_holds(all, c, cuts, s, height, 0));
        assert(c[0] == children@[0]@);
        assert(s.subrange(0, s.len() as int) =~= s);
        lemma_level_weight(height);
        assert(height <= MAX_TREE_HEIGHT) by {
            if height >= 15 {
                assert(children@.len() * level_weight(height) >= 0x8000) by (nonlinear_arith)
                    requires
                        children@.len() >= 1,
                        level_weight(height) >= 0x8000,
                ;
            }
        }
        assert forall|data: Seq<u8>|
            data.len() <= usize::MAX && #[trigger] all_lie_in(all, data) implies tree_in(data, root)
            == Ok::<Seq<Entry>, Error>(s) by {
            lemma_subtree_deeper(data, root, height, MAX_TREE_HEIGHT as nat);
        }
        let added = all.len() - listed.len();
        assert(BRANCH_ENTRY_MAX * seen + PAGE_DATA_SIZE * added <= (2 * BRANCH_ENTRY_MAX
            + PAGE_DATA_SIZE) * width) by (nonlinear_arith)
            requires
                seen <= 2 * width,
                added <= width,
                BRANCH_ENTRY_MAX == 271,
                PAGE_DATA_SIZE == 4080,
        ;
    }
    Ok(root)
}

/// Plans a tree that is one leaf with the entries of `part`: the leaf gets
/// a record of its own on fresh pages, which is added to the plan
/// `records`. Returns the page of the leaf. Fails with `ValueTooLarge` when
/// the leaf holds more than a record can, or the file cannot get as long
/// as it would have to.
fn plan_root_leaf(
    part: &Node,
    pages: &mut PageAllocator,
    records: &mut Vec<Record>,
    Ghost(start): Ghost<PageAllocator>,
) -> (r: Result<PageId, Error>)
    requires
        part.wf(),
        planning(start, *old(pages), old(records)@),
    ensures
        final(pages).wf(),
        r is Err ==> r->Err_0 == Error::ValueTooLarge && (payload_len(part.entries()) > u32::MAX
            || old(pages).spec_next_page() + MAX_RECORD_PAGES > u64::MAX),
        payload_len(part.entries()) > u32::MAX ==> r is Err,
        r matches Ok(root) ==> {
            &&& root >= 2
            &&& planning(start, *final(pages), final(records)@)
            &&& extends(old(records)@, final(records)@)
            &&& final(records)@.len() == old(records)@.len() + 1
            &&& tree_holds(final(records)@, root, part.entries())
            &&& final(pages).spec_next_page() <= old(pages).spec_next_page() + MAX_RECORD_PAGES
            &&& (final(pages).spec_next_page() - old(pages).spec_next_page()) * PAGE_DATA_SIZE
                <= payload_len(part.entries()) + PAGE_DATA_SIZE
        },
{
    let ghost s = part.entries();
    let ghost was = old(pages).spec_next_page();
    let payload = match part.to_payload() {
        Ok(p) => p,
        Err(e) => {
            return Err(e);
        },
    };
    proof {
        crate::node::lemma_leaf_parts_len(s, s.len());
    }
    let root = match place_record(
        pages,
        records,
        PageKind::Leaf,
        part.len() as u16,
        payload,
        Ghost(start),
    ) {
        Ok(id) => id,
        Err(e) => {
            return Err(e);
        },
    };
    proof {
        let all = records@;
        assert forall|data: Seq<u8>|
            data.len() <= usize::MAX && #[trigger] all_lie_in(all, data) implies tree_in(data, root)
            == Ok::<Seq<Entry>, Error>(s) by {
            assert(all[all.len() - 1].lies_in(data));
            lemma_leaf_found(data, s, root, all[all.len() - 1]);
        }
        lemma_page_budget(was, pages.spec_next_page(), payload_len(s));
    }
    Ok(root)
}

/// Plans the tree of a bucket with the entries of `node`: the entries are
/// split for pages filled to `threshold` bytes, and each part becomes a
/// leaf with a record of its own. If there is more than one leaf, branch
/// pages over them are planned, each filled to `threshold` bytes too, and
/// over those further branch pages, until one of them is the root. The
/// records are added to the plan `records` on fresh pages. Returns the page
/// of the root. Fails with `ValueTooLarge` when a part holds more than a
/// record can, or the file cannot get as long as it would have to.
pub fn plan_tree(
    node: &Node,
    threshold: u64,
    pages: &mut PageAllocator,
    records: &mut Vec<Record>,
    Ghost(start): Ghost<PageAllocator>,
) -> (r: Result<PageId, Error>)
    requires
        node.wf(),
        planning(start, *old(pages), old(records)@),
    ensures
        final(pages).wf(),
        r is Err ==> r->Err_0 == Error::ValueTooLarge && (oversized(
            node.entries(),
            threshold as nat,
        ) || old(pages).spec_next_page() + 0x1_0000 * MAX_RECORD_PAGES > u64::MAX),
        oversized(node.entries(), threshold as nat) ==> r is Err,
        r matches Ok(root) ==> {
            &&& root >= 2
            &&& planning(start, *final(pages), final(records)@)
            &&& extends(old(records)@, final(records)@)
            &&& final(records)@.len() <= old(records)@.len() + 0x1_0000
            &&& tree_holds(final(records)@, root, node.entries())
            &&& final(pages).spec_next_page() <= old(pages).spec_next_page() + (final(records)@.len() - old(records)@.len()) * MAX_RECORD_PAGES
            &&& (final(pages).spec_next_page() - old(pages).spec_next_page()) * PAGE_DATA_SIZE
                <= tree_bytes(node.entries())
        },
{
    let ghost s = node.entries();
    let ghost t = threshold as nat;
    let ghost listed = records@;
    let ghost first = *pages;
    let copy = node.duplicate();
    let parts = split_all(copy, threshold);
    let ghost views = nodes_view(parts@);
    proof {
        lemma_parts_of(s, t);
        assert forall|i: int| 0 <= i < parts@.len() implies (#[trigger] parts@[i]).entries().len()
            > 0 || parts@.len() == 1 by {
            assert(views[i] == parts@[i].entries());
        }
        assert(parts@.len() * MAX_RECORD_PAGES <= 0xFFFF * MAX_RECORD_PAGES) by (nonlinear_arith)
            requires
                parts@.len() <= 0xFFFF,
        ;
    }
    if parts.len() == 1 {
        let part = &parts[0];
        proof {
            assert(views[0] == part.entries());
            lemma_flat_prefix(views, 0);
            assert(views.subrange(0, 0) =~= Seq::<Seq<Entry>>::empty());
            assert(flat(views) =~= views[0]);
            assert(part.entries() == s);
            assert(parts_of(s, t)[0] == s);
            if oversized(s, t) {
                let k = choose|k: int|
                    0 <= k < parts_of(s, t).len() && payload_len(#[trigger] parts_of(s, t)[k])
                        > u32::MAX;
                assert(k == 0);
            }
            assert(1 * MAX_RECORD_PAGES == MAX_RECORD_PAGES) by (nonlinear_arith);
            assert(TREE_ENTRY_ROOM * s.len() >= 0) by (nonlinear_arith)
                requires
                    TREE_ENTRY_ROOM == 4351,
            ;
        }
        return plan_root_leaf(part, pages, records, Ghost(start));
    }
    let leaves = match plan_leaves(&parts, pages, records, Ghost(start)) {
        Ok(c) => c,
        Err(e) => {
            proof {
                if exists|k: int|
                    0 <= k < parts@.len() && payload_len((#[trigger] parts@[k]).entries())
                        > u32::MAX {
                    let k = choose|k: int|
                        0 <= k < parts@.len() && payload_len((#[trigger] parts@[k]).entries())
                            > u32::MAX;
                    assert(parts_of(s, t)[k] == parts@[k].entries());
                }
            }
            return Err(e);
        },
    };
    let ghost mid = records@;
    let ghost halfway = pages.spec_next_page();
    let ghost cuts: Seq<int> = Seq::new(views.len() + 1, |i: int| part_start(views, i));
    let ghost width = leaves@.len();
    proof {
        if oversized(s, t) {
            let k = choose|k: int|
                0 <= k < parts_of(s, t).len() && payload_len(#[trigger] parts_of(s, t)[k])
                    > u32::MAX;
            assert(views[k] == parts@[k].entries());
            assert(payload_len(parts@[k].entries()) > u32::MAX);
        }
        let c = children_view(leaves@);
        assert(Seq::new(leaves@.len(), |i: int| leaves@[i].page) =~= Seq::new(
            c.len(),
            |i: int| c[i].page,
        ));
        assert forall|i: int| 0 <= i < c.len() implies (#[trigger] c[i]).key == views[i][0].key by {
            assert(views[i] == parts@[i].entries());
            assert(c[i] == leaves@[i]@);
        }
        assert forall|i: int| 0 <= i < views.len() implies (#[trigger] views[i]).len() > 0 by {
            assert(views[i] == parts@[i].entries());
        }
        lemma_leaves_level(mid, listed.len() as int, views, c, s);
        assert(width * MAX_RECORD_PAGES + width * MAX_RECORD_PAGES <= 0x1_0000
            * MAX_RECORD_PAGES) by (nonlinear_arith)
            requires
                2 * width <= 0xFFFF,
                0 <= width,
        ;
    }
    let root = match plan_branches(
        leaves,
        threshold,
        pages,
        records,
        Ghost(start),
        Ghost(cuts),
        Ghost(s),
    ) {
        Ok(root) => root,
        Err(e) => {
            return Err(e);
        },
    };
    proof {
        let all = records@;
        assert forall|j: int| 0 <= j < listed.len() implies #[trigger] all[j] == listed[j] by {
            assert(mid[j] == listed[j]);
        }
        let lower = mid.len() - listed.len();
        let upper = all.len() - mid.len();
        assert((lower + upper) * MAX_RECORD_PAGES == lower * MAX_RECORD_PAGES + upper
            * MAX_RECORD_PAGES) by (nonlinear_arith);
        let low = halfway - first.spec_next_page();
        let high = pages.spec_next_page() - halfway;
        assert((low + high) * PAGE_DATA_SIZE == low * PAGE_DATA_SIZE + high * PAGE_DATA_SIZE)
            by (nonlinear_arith);
        assert(PAGE_DATA_SIZE * width + (2 * BRANCH_ENTRY_MAX + PAGE_DATA_SIZE) * width
            <= TREE_ENTRY_ROOM * s.len()) by (nonlinear_arith)
            requires
                2 * width <= s.len(),
                BRANCH_ENTRY_MAX == 271,
                PAGE_DATA_SIZE == 4080,
                TREE_ENTRY_ROOM == 4351,
        ;
    }
    Ok(root)
}

/// The value that `key` has among the entries `s`, if it has one.
pub open spec fn value_of(s: Seq<Entry>, key: Seq<u8>) -> Option<Seq<u8>> {
    if has_key(s, key) {
        Some(entries_map(s)[key])
    } else {
        None
    }
}

/// What looking `key` up finds in the tree whose root is the record at
/// page `id` of image `data`, with at most `height` branch pages on the way
/// to a leaf: the value that the key has in the root, when the root is a
/// leaf, and what looking it up finds in the child that the root sends the
/// key to, when it is a branch page. Otherwise what is wrong on the way:
/// `DatabaseInvalid` when `id` is a meta page, when the root is neither a
/// leaf nor a sound branch page, and when it is a branch page though
/// `height` is 0; for the rest what reading the records and the leaf finds.
pub open spec fn descend_in(data: Seq<u8>, id: PageId, key: Seq<u8>, height: nat) -> Result<
    Option<Seq<u8>>,
    Error,
>
    decreases height,
{
    if id < 2 {
        Err(Error::DatabaseInvalid)
    } else {
        match record_data(data, id as int) {
            Ok(found) => if found.0.flags == PAGE_BRANCH {
                if height == 0 {
                    Err(Error::DatabaseInvalid)
                } else {
                    match spec_find_child(found.0.flags, found.0.count, found.1, key) {
                        Ok(child) => descend_in(data, child, key, (height - 1) as nat),
                        Err(e) => Err(e),
                    }
                }
            } else {
                match leaf_of(found.0, found.1) {
                    Ok(entries) => Ok(value_of(entries, key)),
                    Err(e) => Err(e),
                }
            },
            Err(e) => Err(e),
        }
    }
}

/// What looking `key` up finds in the tree whose root is the record at
/// page `root` of image `data`, as `descend_in` says it for a tree of
/// `MAX_TREE_HEIGHT`.
pub open spec fn lookup_in(data: Seq<u8>, root: PageId, key: Seq<u8>) -> Result<
    Option<Seq<u8>>,
    Error,
> {
    descend_in(data, root, key, MAX_TREE_HEIGHT as nat)
}

/// A copy of the value that `key` has in `node`, if it has one.
pub fn value_in(node: &Node, key: &[u8]) -> (r: Option<Vec<u8>>)
    requires
        node.wf(),
    ensures
        match r {
            Some(v) => value_of(node.entries(), key@) == Some(v@),
            None => value_of(node.entries(), key@).is_none(),
        },
{
    match node.get(key) {
        Some(value) => {
            let mut copy: Vec<u8> = Vec::new();
            append_bytes(&mut copy, value.as_slice());
            proof {
                assert(copy@ =~= value@);
            }
            Some(copy)
        },
        None => None,
    }
}

/// Looks `key` up in the tree whose root is the record at page `root`,
/// going down from branch page to branch page to the one leaf that can
/// hold the key. Fails with what `lookup_in` finds wrong on the way.
pub fn lookup(pa: &PageArray, root: PageId, key: &[u8]) -> (r: Result<Option<Vec<u8>>, Error>)
    ensures
        match r {
            Ok(Some(v)) => lookup_in(pa@, root, key@) == Ok::<Option<Seq<u8>>, Error>(Some(v@)),
            Ok(None) => lookup_in(pa@, root, key@) == Ok::<Option<Seq<u8>>, Error>(None),
            Err(e) => lookup_in(pa@, root, key@) == Err::<Option<Seq<u8>>, Error>(e),
        },
{
    let mut id = root;
    let mut height: usize = MAX_TREE_HEIGHT;
    loop
        invariant
            descend_in(pa@, id, key@, height as nat) == lookup_in(pa@, root, key@),
        decreases height,
    {
        if id < 2 {
            return Err(Error::DatabaseInvalid);
        }
        let (header, payload) = match pa.read_record(id) {
            Ok(found) => found,
            Err(e) => {
                return Err(e);
            },
        };
        let page = Page { header, data: payload.as_slice() };
        if header.flags != PAGE_BRANCH {
            if header.flags != PAGE_LEAF {
                return Err(Error::DatabaseInvalid);
            }
            return match Node::from_page(&page) {
                Ok(node) => Ok(value_in(&node, key)),
                Err(e) => Err(e),
            };
        }
        if height == 0 {
            return Err(Error::DatabaseInvalid);
        }
        id = match find_child(&page, key) {
            Ok(child) => child,
            Err(e) => {
                return Err(e);
            },
        };
        height = height - 1;
    }
}

/// Every entry of the parts lies in one of the parts.
proof fn lemma_part_of(parts: Seq<Seq<Entry>>, g: int, n: int)
    requires
        0 <= n <= parts.len(),
        0 <= g < part_start(parts, n),
    ensures
        exists|j: int|
            0 <= j < n && #[trigger] part_start(parts, j) <= g < part_start(parts, j)
                + parts[j].len(),
    decreases n,
{
    if n == 0 {
        assert(parts.subrange(0, 0) =~= Seq::<Seq<Entry>>::empty());
    } else {
        lemma_flat_prefix(parts, n - 1);
        if g < part_start(parts, n - 1) {
            lemma_part_of(parts, g, n - 1);
        } else {
            assert(part_start(parts, n - 1) <= g < part_start(parts, n - 1) + parts[n - 1].len());
        }
    }
}

/// The entries of more parts are no fewer.
pub proof fn lemma_flat_grows(parts: Seq<Seq<Entry>>, n: int, m: int)
    requires
        0 <= n <= m <= parts.len(),
    ensures
        flat(parts.subrange(0, n)).len() <= flat(parts.subrange(0, m)).len(),
    decreases m - n,
{
    if n < m {
        lemma_flat_grows(parts, n, m - 1);
        lemma_flat_prefix(parts, m - 1);
    }
}

/// Entry `l` of part `j` is entry `part_start(parts, j) + l` of the
/// entries of all parts.
proof fn lemma_part_entry(parts: Seq<Seq<Entry>>, j: int, l: int)
    requires
        0 <= j < parts.len(),
        0 <= l < parts[j].len(),
    ensures
        part_start(parts, j) + l < flat(parts).len(),
        flat(parts)[part_start(parts, j) + l] == parts[j][l],
{
    lemma_flat_prefix(parts, j);
    let at = part_start(parts, j);
    assert(flat(parts).subrange(at, at + parts[j].len())[l] == parts[j][l]);
}

/// A key has in the part that holds it the value that it has among the
/// entries of all parts, and in the parts that do not hold it none.
proof fn lemma_value_in_part(parts: Seq<Seq<Entry>>, j: int, key: Seq<u8>)
    requires
        0 <= j < parts.len(),
        sorted(flat(parts)),
        within_limits(flat(parts)),
        has_key(parts[j], key) || !has_key(flat(parts), key),
    ensures
        value_of(parts[j], key) == value_of(flat(parts), key),
{
    let all = flat(parts);
    lemma_flat_prefix(parts, j);
    let at = part_start(parts, j);
    lemma_subrange_sorted(all, at, at + parts[j].len());
    assert(all.subrange(at, at + parts[j].len()) == parts[j]);
    if has_key(parts[j], key) {
        let l = index_of_key(parts[j], key);
        lemma_part_entry(parts, j, l);
        lemma_sorted_place(parts[j], l);
        lemma_sorted_place(all, at + l);
    } else {
        assert(!has_key(all, key));
    }
}

/// A branch page whose keys are the first keys of the parts sends a key
/// that one of the parts holds to that part.
proof fn lemma_branch_sends(parts: Seq<Seq<Entry>>, branch: Seq<u8>, key: Seq<u8>, j: int, g: int)
    requires
        0 <= j < parts.len(),
        forall|i: int| 0 <= i < parts.len() ==> (#[trigger] parts[i]).len() > 0,
        forall|i: int| 0 <= i < parts.len() ==> #[trigger] branch_key(branch, i) == parts[i][0].key,
        sorted(flat(parts)),
        part_start(parts, j) <= g < part_start(parts, j) + parts[j].len(),
        g < flat(parts).len(),
        flat(parts)[g].key == key,
    ensures
        branch_place(branch, parts.len(), key) == j,
{
    let k = parts.len() as int;
    let all = flat(parts);
    assert forall|i: int| 0 <= i < j + 1 implies !key_lt(key, #[trigger] branch_key(branch, i)) by {
        lemma_part_entry(parts, i, 0);
        lemma_flat_grows(parts, i, j);
        let at = part_start(parts, i);
        assert(all[at] == parts[i][0]);
        lemma_key_lt_total(all[at].key, key);
        lemma_key_lt_irreflexive(key);
        if at < g {
            assert(key_lt(all[at].key, all[g].key));
        }
    }
    assert forall|i: int| j + 1 <= i < k implies key_lt(key, #[trigger] branch_key(branch, i)) by {
        lemma_part_entry(parts, i, 0);
        lemma_flat_prefix(parts, j);
        lemma_flat_grows(parts, j + 1, i);
        let at = part_start(parts, i);
        assert(all[at] == parts[i][0]);
        assert(flat(parts.subrange(0, j + 1)).len() == part_start(parts, j) + parts[j].len());
        assert(g < at);
        assert(key_lt(all[g].key, all[at].key));
    }
    lemma_keys_up_to(branch, k as nat, key, j + 1);
}

/// The part that a branch page sends a key to holds what the key has among
/// the entries of all parts, where the keys of the branch page are the
/// first keys of the parts.
proof fn lemma_branch_part(parts: Seq<Seq<Entry>>, branch: Seq<u8>, key: Seq<u8>)
    requires
        1 <= parts.len(),
        forall|i: int| 0 <= i < parts.len() ==> (#[trigger] parts[i]).len() > 0,
        forall|i: int| 0 <= i < parts.len() ==> #[trigger] branch_key(branch, i) == parts[i][0].key,
        sorted(flat(parts)),
        within_limits(flat(parts)),
    ensures
        0 <= branch_place(branch, parts.len(), key) < parts.len(),
        value_of(parts[branch_place(branch, parts.len(), key)], key) == value_of(
            flat(parts),
            key,
        ),
{
    let k = parts.len() as int;
    let all = flat(parts);
    crate::branch::lemma_keys_up_to_bounds(branch, k as nat, key);
    let p = branch_place(branch, k as nat, key);
    if has_key(all, key) {
        let g = index_of_key(all, key);
        assert(parts.subrange(0, k) =~= parts);
        lemma_part_of(parts, g, k);
        let j = choose|j: int|
            0 <= j < k && #[trigger] part_start(parts, j) <= g < part_start(parts, j)
                + parts[j].len();
        lemma_branch_sends(parts, branch, key, j, g);
        let l = g - part_start(parts, j);
        lemma_part_entry(parts, j, l);
        assert(parts[j][l].key == key);
        assert(has_key(parts[j], key));
    }
    lemma_value_in_part(parts, p, key);
}

/// Sorted entries behind sorted entries whose keys all come before theirs
/// are sorted.
proof fn lemma_join_sorted(head: Seq<Entry>, tail: Seq<Entry>)
    requires
        sorted(head),
        sorted(tail),
        within_limits(head),
        within_limits(tail),
        joined(head, tail) is Ok,
    ensures
        sorted(head + tail),
        within_limits(head + tail),
{
    let all = head + tail;
    let n = head.len() as int;
    assert forall|i: int, j: int| 0 <= i < j < all.len() implies key_lt(
        #[trigger] all[i].key,
        #[trigger] all[j].key,
    ) by {
        if j < n {
            assert(key_lt(head[i].key, head[j].key));
        } else if i >= n {
            assert(key_lt(tail[i - n].key, tail[j - n].key));
        } else {
            if i < n - 1 {
                assert(key_lt(head[i].key, head[n - 1].key));
                lemma_key_lt_transitive(head[i].key, head[n - 1].key, tail[0].key);
            }
            if j > n {
                assert(key_lt(tail[0].key, tail[j - n].key));
                lemma_key_lt_transitive(all[i].key, tail[0].key, tail[j - n].key);
            }
        }
    }
    assert forall|i: int| 0 <= i < all.len() implies (#[trigger] all[i]).key.len() <= MAX_KEY_SIZE
        && all[i].value.len() <= MAX_VALUE_SIZE by {
        if i < n {
            assert(head[i].key.len() <= MAX_KEY_SIZE);
        } else {
            assert(tail[i - n].key.len() <= MAX_KEY_SIZE);
        }
    }
}

/// The entries of the children of the branch page with data `branch`, in
/// image `data`, child by child.
pub open spec fn parts_in(data: Seq<u8>, branch: Seq<u8>, n: nat, height: nat) -> Seq<Seq<Entry>> {
    Seq::new(n, |i: int| child_in(data, branch, i, height)->Ok_0)
}

/// The entries of a tree that can be read are sorted and within the limits
/// of the format.
pub proof fn lemma_subtree_sorted(data: Seq<u8>, id: PageId, height: nat)
    requires
        subtree_in(data, id, height) is Ok,
    ensures
        sorted(subtree_in(data, id, height)->Ok_0),
        within_limits(subtree_in(data, id, height)->Ok_0),
    decreases height, 0nat,
{
    let found = record_data(data, id as int)->Ok_0;
    if found.0.flags == PAGE_BRANCH {
        let n = found.0.count as nat;
        lemma_children_parts(data, found.1, n, n, (height - 1) as nat);
    } else {
        lemma_leaf_check_sorted(found.1, found.0.count as nat);
    }
}

/// Where the children of a branch page can be read, their entries, child
/// by child and one after the other, are what is read, and are sorted.
proof fn lemma_children_parts(data: Seq<u8>, branch: Seq<u8>, n: nat, m: nat, height: nat)
    requires
        n <= m,
        children_in(data, branch, m, height) is Ok,
    ensures
        children_in(data, branch, n, height) == Ok::<Seq<Entry>, Error>(
            flat(parts_in(data, branch, m, height).subrange(0, n as int)),
        ),
        sorted(flat(parts_in(data, branch, m, height).subrange(0, n as int))),
        within_limits(flat(parts_in(data, branch, m, height).subrange(0, n as int))),
    decreases height, n + 1,
{
    let parts = parts_in(data, branch, m, height);
    if n == 0 {
        assert(parts.subrange(0, 0) =~= Seq::<Seq<Entry>>::empty());
    } else {
        lemma_children_parts(data, branch, (n - 1) as nat, m, height);
        if children_in(data, branch, n, height) is Err {
            lemma_children_fail(data, branch, n, m, height);
        }
        lemma_children_ok(data, branch, m, n as int, height);
        lemma_subtree_sorted(data, branch_child(branch, n - 1), height);
        let head = flat(parts.subrange(0, n - 1));
        let tail = parts[n - 1];
        lemma_flat_prefix(parts, n - 1);
        lemma_join_sorted(head, tail);
    }
}

/// Looking a key up in a tree of a bounded height finds what the key has
/// among the entries of the tree: every branch page on the way sends the
/// key to the one child that can hold it.
pub proof fn lemma_descend_agrees(data: Seq<u8>, id: PageId, key: Seq<u8>, height: nat)
    requires
        subtree_in(data, id, height) is Ok,
    ensures
        descend_in(data, id, key, height) == Ok::<Option<Seq<u8>>, Error>(
            value_of(subtree_in(data, id, height)->Ok_0, key),
        ),
    decreases height,
{
    let found = record_data(data, id as int)->Ok_0;
    if found.0.flags == PAGE_BRANCH {
        let branch = found.1;
        let n = found.0.count as nat;
        let below = (height - 1) as nat;
        let parts = parts_in(data, branch, n, below);
        lemma_children_parts(data, branch, n, n, below);
        assert(parts.subrange(0, n as int) =~= parts);
        assert forall|i: int| 0 <= i < parts.len() implies (#[trigger] parts[i]).len() > 0
            && branch_key(branch, i) == parts[i][0].key by {
            lemma_children_ok(data, branch, n, i + 1, below);
        }
        assert forall|i: int| 0 <= i < parts.len() implies #[trigger] branch_key(branch, i)
            == parts[i][0].key by {
            assert(parts[i].len() > 0);
        }
        lemma_branch_part(parts, branch, key);
        let p = branch_place(branch, n, key);
        lemma_children_ok(data, branch, n, p + 1, below);
        lemma_descend_agrees(data, branch_child(branch, p), key, below);
    }
}

/// Looking a key up in a tree finds what the key has among the entries of
/// the tree: every branch page on the way sends the key to the one child
/// that can hold it.
pub proof fn lemma_lookup_agrees(data: Seq<u8>, root: PageId, key: Seq<u8>)
    requires
        tree_in(data, root) is Ok,
    ensures
        lookup_in(data, root, key) == Ok::<Option<Seq<u8>>, Error>(
            value_of(tree_in(data, root)->Ok_0, key),
        ),
{
    lemma_descend_agrees(data, root, key, MAX_TREE_HEIGHT as nat);
}

} // verus!
