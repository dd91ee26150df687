use oxygendb::branch::{
    branch_entry, branch_to_payload, check_branch, find_child, group_index, search_branch, Child,
};
use oxygendb::constants::OS_PAGE_SIZE;
use oxygendb::db::{Db, Settings};
use oxygendb::errors::Error;
use oxygendb::freelist::{Freelist, PageAllocator};
use oxygendb::node::{fill_threshold, needs_overflow, split_all, Node};
use oxygendb::page::{Page, PageHeader, PageKind, PAGE_BRANCH, PAGE_LEAF};
use oxygendb::store::PageArray;
use oxygendb::tree::{load_leaf, load_tree, lookup, MAX_TREE_HEIGHT};

fn node_of(count: u32, value_len: usize) -> Node {
    let mut node = Node::new();
    for i in 0..count {
        node.put(0, format!("key-{:05}", i).into_bytes(), vec![(i % 200) as u8; value_len]).unwrap();
    }
    node
}

fn branch_page(children: &Vec<Child>) -> (PageHeader, Vec<u8>) {
    let payload = branch_to_payload(children);
    (PageHeader { id: 9, flags: PAGE_BRANCH, count: children.len() as u16, overflow: 0 }, payload)
}

#[test]
fn fill_threshold_follows_the_fill_target() {
    assert_eq!(fill_threshold(50), 2048);
    assert_eq!(fill_threshold(100), 4096);
    assert_eq!(fill_threshold(10), 409);
    assert_eq!(fill_threshold(0), 409);
    assert_eq!(fill_threshold(1000), 4096);
    assert_eq!(fill_threshold(33), 4096 * 33 / 100);
    assert!(!needs_overflow(10, 100));
    assert!(!needs_overflow(24, 2000));
    assert!(needs_overflow(25, 2000));
    assert!(needs_overflow(0, usize::MAX));
}

#[test]
fn split_keeps_order_and_minimum_occupancy() {
    let mut node = node_of(100, 50);
    let whole = node.size();
    assert!(node.needs_split(2048));
    assert!(!node.needs_split(whole));
    let at = node.split_index(2048);
    assert_eq!(at, 2048 / (16 + 9 + 50));
    let right = node.split(2048);
    assert_eq!(node.len(), at);
    assert_eq!(right.len(), 100 - at);
    assert!(node.size() <= 2048);
    assert_eq!(node.size() + right.size(), whole);
    assert_eq!(node.inode(at - 1).key, format!("key-{:05}", at - 1).into_bytes());
    assert_eq!(right.inode(0).key, format!("key-{:05}", at).into_bytes());
    assert!(!node.underfull());

    let mut big = node_of(4, 3000);
    assert_eq!(big.split_index(2048), 2);
    let rest = big.split(2048);
    assert_eq!((big.len(), rest.len()), (2, 2));
    assert!(!big.needs_split(100));
    let mut three = node_of(3, 3000);
    assert!(!three.needs_split(100));
    assert!(three.delete(b"key-00000"));
    assert!(three.delete(b"key-00001"));
    assert!(three.underfull());
}

#[test]
fn split_all_parts_add_up() {
    let node = node_of(1000, 30);
    let copy = node.duplicate();
    let parts = split_all(copy, 2048);
    assert!(parts.len() > 10);
    let mut seen = 0;
    for (i, part) in parts.iter().enumerate() {
        assert!(part.len() >= 2);
        if i + 1 < parts.len() {
            assert!(part.size() <= 2048);
        }
        if i + 2 < parts.len() {
            assert!(part.size() + 16 + 9 + 30 > 2048);
        }
        for k in 0..part.len() {
            assert_eq!(part.inode(k).key, node.inode(seen + k).key);
            assert_eq!(part.inode(k).value, node.inode(seen + k).value);
        }
        seen += part.len();
    }
    assert_eq!(seen, 1000);
    let single = split_all(node_of(3, 5000), 2048);
    assert_eq!(single.len(), 1);
    let empty = split_all(Node::new(), 2048);
    assert_eq!(empty.len(), 1);
    assert_eq!(empty[0].len(), 0);
}

#[test]
fn merge_joins_siblings_in_order() {
    let mut left = Node::new();
    left.put(0, b"a".to_vec(), b"1".to_vec()).unwrap();
    left.put(0, b"b".to_vec(), b"2".to_vec()).unwrap();
    let mut right = Node::new();
    right.put(0, b"c".to_vec(), b"3".to_vec()).unwrap();
    let mut wrong = Node::new();
    wrong.put(0, b"b".to_vec(), b"x".to_vec()).unwrap();
    assert!(matches!(left.merge(wrong), Err(Error::DatabaseInvalid)));
    assert_eq!(left.len(), 2);
    left.merge(right).unwrap();
    assert_eq!(left.len(), 3);
    assert_eq!(left.get(b"c"), Some(&b"3".to_vec()));
    left.merge(Node::new()).unwrap();
    assert_eq!(left.len(), 3);
    let mut empty = Node::new();
    empty.merge(left).unwrap();
    assert_eq!(empty.len(), 3);
    assert_eq!(empty.search(b"b"), (true, 1));
}

#[test]
fn branch_page_sends_keys_to_children() {
    let children = vec![
        Child { key: b"d".to_vec(), page: 10 },
        Child { key: b"k".to_vec(), page: 11 },
        Child { key: b"kk".to_vec(), page: 12 },
        Child { key: b"t".to_vec(), page: 13 },
    ];
    let (header, payload) = branch_page(&children);
    assert_eq!(payload.len(), 4 * 16 + 5);
    assert_eq!(&payload[0..4], &64u32.to_le_bytes());
    assert_eq!(&payload[4..8], &1u32.to_le_bytes());
    assert_eq!(&payload[8..16], &10u64.to_le_bytes());
    assert_eq!(&payload[64..], b"dkkkt");
    let mut padded = payload.clone();
    padded.extend_from_slice(&[0u8; 50]);
    let page = Page { header, data: &padded };
    assert!(check_branch(&page));
    for (key, child) in [
        (&b""[..], 10u64),
        (b"a", 10),
        (b"d", 10),
        (b"dz", 10),
        (b"k", 11),
        (b"ka", 11),
        (b"kk", 12),
        (b"s", 12),
        (b"t", 13),
        (b"zzz", 13),
    ] {
        assert_eq!(search_branch(&page, key), child);
        assert_eq!(find_child(&page, key).unwrap(), child);
    }
}

#[test]
fn unsound_branch_pages_are_refused() {
    let children = vec![Child { key: b"b".to_vec(), page: 10 }, Child { key: b"a".to_vec(), page: 11 }];
    let payload = {
        let sorted = vec![Child { key: b"a".to_vec(), page: 10 }, Child { key: b"b".to_vec(), page: 11 }];
        let mut bytes = branch_to_payload(&sorted);
        let n = bytes.len();
        bytes.swap(n - 1, n - 2);
        bytes
    };
    assert_eq!(children.len(), 2);
    let header = PageHeader { id: 9, flags: PAGE_BRANCH, count: 2, overflow: 0 };
    assert!(!check_branch(&Page { header, data: &payload }));
    assert!(matches!(find_child(&Page { header, data: &payload }, b"a"), Err(Error::DatabaseInvalid)));

    let good = branch_to_payload(&vec![Child { key: b"a".to_vec(), page: 10 }]);
    let one = PageHeader { count: 1, ..header };
    assert!(check_branch(&Page { header: one, data: &good }));
    assert!(!check_branch(&Page { header: PageHeader { count: 0, ..header }, data: &good }));
    assert!(!check_branch(&Page { header, data: &good }));
    assert!(!check_branch(&Page { header: one, data: &good[..16] }));
    let leaf = PageHeader { flags: PAGE_LEAF, ..one };
    assert!(matches!(find_child(&Page { header: leaf, data: &good }, b"a"), Err(Error::DatabaseInvalid)));
}

#[test]
fn large_buckets_become_trees_of_leaves() {
    let mut db = Db::open("x", None, None).unwrap();
    let mut tx = db.begin(true).unwrap();
    tx.open_bucket(b"big", true).unwrap();
    tx.open_bucket(b"small", true).unwrap();
    tx.open_bucket(b"medium", true).unwrap();
    for i in 0..2000u32 {
        tx.put(b"big", format!("key-{:05}", i).into_bytes(), vec![(i % 200) as u8; 40]).unwrap();
    }
    tx.put(b"small", b"k".to_vec(), b"v".to_vec()).unwrap();
    for i in 0..3u32 {
        tx.put(b"medium", vec![i as u8], vec![i as u8; 600]).unwrap();
    }
    db.commit(tx).unwrap();

    for i in (0..2000u32).step_by(7) {
        assert_eq!(
            db.lookup(b"big", format!("key-{:05}", i).as_bytes()).unwrap(),
            Some(vec![(i % 200) as u8; 40])
        );
    }
    assert_eq!(db.lookup(b"big", b"key-02000").unwrap(), None);
    assert_eq!(db.lookup(b"big", b"").unwrap(), None);
    assert_eq!(db.lookup(b"big", b"zzz").unwrap(), None);
    assert_eq!(db.lookup(b"small", b"k").unwrap(), Some(b"v".to_vec()));
    assert_eq!(db.lookup(b"small", b"x").unwrap(), None);
    assert_eq!(db.lookup(b"medium", &[2]).unwrap(), Some(vec![2u8; 600]));
    assert!(matches!(db.lookup(b"none", b"k"), Err(Error::BucketNotFound)));

    let tx = db.begin(false).unwrap();
    let big_root = tx.bucket(b"big").unwrap().root_page_id();
    let medium_root = tx.bucket(b"medium").unwrap().root_page_id();
    assert_eq!(tx.bucket(b"small").unwrap().root_page_id(), 0);
    let pa = PageArray::new(db.as_bytes().to_vec());

    let (header, payload) = pa.read_record(big_root).unwrap();
    assert_eq!(header.kind(), Some(PageKind::Branch));
    assert!(header.count > 20);
    let page = Page { header, data: &payload };
    assert!(check_branch(&page));
    let child = find_child(&page, b"key-01000").unwrap();
    let (leaf, _) = load_leaf(&pa, child).unwrap();
    assert_eq!(leaf.get(b"key-01000"), Some(&vec![(1000 % 200) as u8; 40]));
    assert!(leaf.size() <= 2048);
    assert!(leaf.len() >= 2);
    assert_eq!(lookup(&pa, big_root, b"key-01999").unwrap(), Some(vec![(1999 % 200) as u8; 40]));

    let (whole, runs) = load_tree(&pa, big_root).unwrap();
    assert_eq!(whole.len(), 2000);
    assert_eq!(runs.len(), header.count as usize + 1);
    assert_eq!(runs[0].id, big_root);

    let (header, _) = pa.read_record(medium_root).unwrap();
    assert_eq!(header.kind(), Some(PageKind::Leaf));
    let (medium, runs) = load_tree(&pa, medium_root).unwrap();
    assert_eq!(medium.len(), 3);
    assert_eq!(runs.len(), 1);
    assert!(matches!(load_tree(&pa, 0), Err(Error::DatabaseInvalid)));
    assert!(matches!(load_tree(&pa, 1), Err(Error::DatabaseInvalid)));
    assert!(matches!(lookup(&pa, 1, b"k"), Err(Error::DatabaseInvalid)));
    assert!(matches!(load_leaf(&pa, big_root), Err(Error::DatabaseInvalid)));
}

fn shape_of(pa: &PageArray, id: u64) -> (usize, usize, usize) {
    let (header, payload) = pa.read_record(id).unwrap();
    if header.flags != PAGE_BRANCH {
        return (1, 0, 0);
    }
    let page = Page { header, data: &payload };
    let mut leaves = 0;
    let mut branches = 1;
    let mut height = 0;
    for i in 0..header.count {
        let (element, _) = branch_entry(&page, i).unwrap();
        let (l, b, h) = shape_of(pa, element.page_id);
        leaves += l;
        branches += b;
        height = height.max(h + 1);
    }
    (leaves, branches, height)
}

#[test]
fn fill_target_decides_the_number_of_leaves() {
    let mut counts = Vec::new();
    for percent in [10u32, 50, 100] {
        let settings = Settings { fill_percent: percent, ..Settings::default() };
        let mut db = Db::open("x", None, Some(settings)).unwrap();
        let mut tx = db.begin(true).unwrap();
        tx.open_bucket(b"b", true).unwrap();
        for i in 0..500u32 {
            tx.put(b"b", i.to_be_bytes().to_vec(), vec![1u8; 50]).unwrap();
        }
        db.commit(tx).unwrap();
        let tx = db.begin(false).unwrap();
        let root = tx.bucket(b"b").unwrap().root_page_id();
        let pa = PageArray::new(db.as_bytes().to_vec());
        let (header, _) = pa.read_record(root).unwrap();
        assert_eq!(header.kind(), Some(PageKind::Branch));
        let (leaves, branches, height) = shape_of(&pa, root);
        counts.push((leaves, branches, height));
        assert_eq!(tx.bucket(b"b").unwrap().len(), 500);
    }
    assert_eq!(counts[2], (9, 1, 1));
    assert_eq!(counts[1], (18, 1, 1));
    assert_eq!(counts[0], (100, 6, 2));
}

#[test]
fn many_leaves_get_branch_pages_level_over_level() {
    let settings = Settings { fill_percent: 10, ..Settings::default() };
    let mut db = Db::open("x", None, Some(settings)).unwrap();
    let mut tx = db.begin(true).unwrap();
    tx.open_bucket(b"deep", true).unwrap();
    let key_of = |i: u32| {
        let mut key = vec![b'k'; 196];
        key.extend_from_slice(&i.to_be_bytes());
        key
    };
    for i in 0..3000u32 {
        tx.put(b"deep", key_of(i), vec![(i % 251) as u8; 10]).unwrap();
    }
    db.commit(tx).unwrap();

    let tx = db.begin(false).unwrap();
    let root = tx.bucket(b"deep").unwrap().root_page_id();
    assert_eq!(tx.bucket(b"deep").unwrap().len(), 3000);
    drop(tx);
    let pa = PageArray::new(db.as_bytes().to_vec());
    let (leaves, branches, height) = shape_of(&pa, root);
    assert_eq!(leaves, 1500);
    assert_eq!(height, 10);
    assert_eq!(branches, 750 + 375 + 187 + 93 + 46 + 23 + 11 + 5 + 2 + 1);
    let (header, payload) = pa.read_record(root).unwrap();
    assert_eq!(header.kind(), Some(PageKind::Branch));
    assert_eq!(header.count, 2);
    let page = Page { header, data: &payload };
    let below = find_child(&page, &key_of(2999)).unwrap();
    let (header, _) = pa.read_record(below).unwrap();
    assert_eq!(header.kind(), Some(PageKind::Branch));
    assert!(matches!(load_leaf(&pa, below), Err(Error::DatabaseInvalid)));

    let (whole, runs) = load_tree(&pa, root).unwrap();
    assert_eq!(whole.len(), 3000);
    assert_eq!(runs.len(), leaves + branches);
    assert_eq!(runs[0].id, root);
    for i in (0..3000u32).step_by(13) {
        assert_eq!(lookup(&pa, root, &key_of(i)).unwrap(), Some(vec![(i % 251) as u8; 10]));
        assert_eq!(db.lookup(b"deep", &key_of(i)).unwrap(), Some(vec![(i % 251) as u8; 10]));
    }
    assert_eq!(lookup(&pa, root, &key_of(3000)).unwrap(), None);
    assert_eq!(lookup(&pa, root, b"a").unwrap(), None);

    let mut again = Db::open("x", Some(db.into_bytes()), None).unwrap();
    let mut tx = again.begin(true).unwrap();
    assert_eq!(tx.get(b"deep", &key_of(1234)).unwrap(), Some(&vec![(1234 % 251) as u8; 10]));
    assert!(tx.delete(b"deep", &key_of(1234)).unwrap());
    again.commit(tx).unwrap();
    assert_eq!(again.lookup(b"deep", &key_of(1234)).unwrap(), None);
    assert_eq!(again.lookup(b"deep", &key_of(1235)).unwrap(), Some(vec![(1235 % 251) as u8; 10]));
}

fn chain_of_branches(levels: u64) -> PageArray {
    let mut pa = PageArray::new(vec![0u8; (levels as usize + 3) * OS_PAGE_SIZE]);
    for level in 0..levels {
        let children = vec![Child { key: b"k".to_vec(), page: 3 + level }];
        let payload = branch_to_payload(&children);
        pa.write_record(2 + level, PageKind::Branch, 1, &payload).unwrap();
    }
    let mut leaf = Node::new();
    leaf.put(0, b"k".to_vec(), b"v".to_vec()).unwrap();
    let payload = leaf.to_payload().unwrap();
    pa.write_record(2 + levels, PageKind::Leaf, 1, &payload).unwrap();
    pa
}

#[test]
fn trees_higher_than_the_limit_are_not_read() {
    assert_eq!(MAX_TREE_HEIGHT, 16);
    let pa = chain_of_branches(16);
    let (node, runs) = load_tree(&pa, 2).unwrap();
    assert_eq!(node.len(), 1);
    assert_eq!(runs.len(), 17);
    assert_eq!(lookup(&pa, 2, b"k").unwrap(), Some(b"v".to_vec()));
    assert_eq!(lookup(&pa, 2, b"j").unwrap(), None);

    let pa = chain_of_branches(17);
    assert!(matches!(load_tree(&pa, 2), Err(Error::DatabaseInvalid)));
    assert!(matches!(lookup(&pa, 2, b"k"), Err(Error::DatabaseInvalid)));
    let (node, _) = load_tree(&pa, 3).unwrap();
    assert_eq!(node.len(), 1);
}

#[test]
fn branch_page_that_names_itself_is_reported() {
    let mut pa = PageArray::new(vec![0u8; 4 * OS_PAGE_SIZE]);
    let children = vec![Child { key: b"k".to_vec(), page: 2 }];
    let payload = branch_to_payload(&children);
    pa.write_record(2, PageKind::Branch, 1, &payload).unwrap();
    assert!(matches!(load_tree(&pa, 2), Err(Error::DatabaseInvalid)));
    assert!(matches!(lookup(&pa, 2, b"k"), Err(Error::DatabaseInvalid)));
}

#[test]
fn children_are_parted_for_the_fill_target() {
    let children: Vec<Child> =
        (0..100u32).map(|i| Child { key: i.to_be_bytes().to_vec(), page: 10 + i as u64 }).collect();
    assert_eq!(group_index(&children, 4096), 100);
    assert_eq!(group_index(&children, 2000), 100);
    assert_eq!(group_index(&children, 1999), 98);
    assert_eq!(group_index(&children, 1959), 97);
    assert_eq!(group_index(&children, 409), 20);
    assert_eq!(group_index(&children, 1), 2);
    let few: Vec<Child> =
        (0..3u32).map(|i| Child { key: i.to_be_bytes().to_vec(), page: 10 + i as u64 }).collect();
    assert_eq!(group_index(&few, 1), 3);
    let four: Vec<Child> =
        (0..4u32).map(|i| Child { key: i.to_be_bytes().to_vec(), page: 10 + i as u64 }).collect();
    assert_eq!(group_index(&four, 1), 2);
    assert_eq!(group_index(&four, 79), 2);
    assert_eq!(group_index(&four, 80), 4);
}

#[test]
fn misplaced_leaf_under_a_branch_is_reported() {
    let mut db = Db::open("x", None, None).unwrap();
    let mut tx = db.begin(true).unwrap();
    tx.open_bucket(b"big", true).unwrap();
    for i in 0..300u32 {
        tx.put(b"big", format!("key-{:05}", i).into_bytes(), vec![7u8; 40]).unwrap();
    }
    db.commit(tx).unwrap();
    let tx = db.begin(false).unwrap();
    let root = tx.bucket(b"big").unwrap().root_page_id();
    let mut image = db.as_bytes().to_vec();
    let pa = PageArray::new(image.clone());
    let (header, payload) = pa.read_record(root).unwrap();
    let page = Page { header, data: &payload };
    let second = find_child(&page, b"key-00299").unwrap();
    let first = find_child(&page, b"").unwrap();
    assert_ne!(first, second);
    let key_at = root as usize * OS_PAGE_SIZE + 16 + 16 * header.count as usize + 8;
    assert_eq!(image[key_at], b'0');
    image[key_at] = b'1';
    let broken = PageArray::new(image);
    assert!(matches!(load_tree(&broken, root), Err(Error::DatabaseInvalid)));
    let mut db = Db::open("x", Some(broken.into_bytes()), None).unwrap();
    assert!(matches!(db.begin(false), Err(Error::DatabaseInvalid)));
}

#[test]
fn trees_are_planned_on_fresh_pages() {
    let node = node_of(400, 60);
    let mut pages = PageAllocator::new(Freelist::new(), 2).unwrap();
    assert_eq!(pages.take_end(3).unwrap(), 2);
    assert_eq!(pages.next_page(), 5);
    let parts = split_all(node.duplicate(), fill_threshold(50));
    assert!(parts.len() > 1);
}
