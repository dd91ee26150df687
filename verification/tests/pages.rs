use oxygendb::constants::OS_PAGE_SIZE;
use oxygendb::errors::Error;
use oxygendb::freelist::{freelist_to_payload, Freelist, PageAllocator};
use oxygendb::node::{compare_keys, KeyOrder, Node};
use oxygendb::page::{
    BranchPageElement, LeafPageElement, Page, PageFlags, PageHeader, PageKind, PAGE_BRANCH,
    PAGE_BUCKET_LEAF, PAGE_DELETED, PAGE_FREELIST, PAGE_HEADER_SIZE, PAGE_LEAF, PAGE_META,
    PAGE_OVERFLOW,
};
use oxygendb::store::{page_count_for, PageArray, PageIndex, Record, PAGE_DATA_SIZE};

fn store(pages: usize) -> PageArray {
    let mut image = vec![0u8; pages * OS_PAGE_SIZE];
    for (i, byte) in image.iter_mut().enumerate() {
        *byte = (i / OS_PAGE_SIZE) as u8;
    }
    PageArray::new(image)
}

#[test]
fn page_reads_are_bounds_checked() {
    let pa = store(4);
    assert_eq!(pa.len(), 4 * OS_PAGE_SIZE);
    assert_eq!(pa.page_count(), 4);
    for id in 0..4u64 {
        assert!(pa.check_bounds(id));
        let page = pa.read(id).unwrap();
        assert_eq!(page.len(), OS_PAGE_SIZE);
        assert!(page.iter().all(|b| *b == id as u8));
    }
    for id in [4u64, 5, 1 << 20, u64::MAX / 4096, u64::MAX / 4096 + 1, u64::MAX] {
        assert!(!pa.check_bounds(id));
        assert!(matches!(pa.read(id), Err(Error::PageOutOfBounds)));
        assert!(matches!(pa.get_page_info(id), Err(Error::PageOutOfBounds)));
        assert!(matches!(pa.read_record(id), Err(Error::PageOutOfBounds)));
    }
    let mut ragged = PageArray::new(vec![1u8; 2 * OS_PAGE_SIZE + 100]);
    assert_eq!(ragged.page_count(), 2);
    assert!(matches!(ragged.read(2), Err(Error::PageOutOfBounds)));
    assert!(matches!(ragged.write(2, &[1, 2, 3]), Err(Error::PageOutOfBounds)));
    assert!(PageArray::new(Vec::new()).read(0).is_err());
}

#[test]
fn page_writes_stay_inside_their_page() {
    let mut pa = store(3);
    pa.write(1, &[0xAA; 100]).unwrap();
    let image = pa.as_bytes();
    assert!(image[..OS_PAGE_SIZE].iter().all(|b| *b == 0));
    assert!(image[OS_PAGE_SIZE..OS_PAGE_SIZE + 100].iter().all(|b| *b == 0xAA));
    assert!(image[OS_PAGE_SIZE + 100..2 * OS_PAGE_SIZE].iter().all(|b| *b == 1));
    assert!(image[2 * OS_PAGE_SIZE..].iter().all(|b| *b == 2));
    assert!(matches!(pa.write(1, &vec![0u8; OS_PAGE_SIZE + 1]), Err(Error::PageOutOfBounds)));
    assert!(matches!(pa.write(3, &[1]), Err(Error::PageOutOfBounds)));
    pa.write(2, &vec![0x55u8; OS_PAGE_SIZE]).unwrap();
    assert!(pa.read(2).unwrap().iter().all(|b| *b == 0x55));
}

#[test]
fn growing_keeps_what_was_there() {
    let mut pa = store(2);
    let before = pa.as_bytes().to_vec();
    pa.grow(5).unwrap();
    assert_eq!(pa.len(), 5 * OS_PAGE_SIZE);
    assert_eq!(&pa.as_bytes()[..2 * OS_PAGE_SIZE], &before[..]);
    assert!(pa.as_bytes()[2 * OS_PAGE_SIZE..].iter().all(|b| *b == 0));
    pa.grow(3).unwrap();
    assert_eq!(pa.len(), 5 * OS_PAGE_SIZE);
    assert!(matches!(pa.grow(u64::MAX), Err(Error::PageOutOfBounds)));
    assert_eq!(pa.len(), 5 * OS_PAGE_SIZE);
    assert!(pa.read(0).unwrap().iter().all(|b| *b == 0));
    assert!(pa.read(1).unwrap().iter().all(|b| *b == 1));
}

#[test]
fn page_flags_name_exactly_one_kind() {
    let kinds = [
        (PageKind::Meta, PAGE_META, 1u16),
        (PageKind::Branch, PAGE_BRANCH, 2),
        (PageKind::Leaf, PAGE_LEAF, 4),
        (PageKind::Freelist, PAGE_FREELIST, 8),
        (PageKind::BucketLeaf, PAGE_BUCKET_LEAF, 16),
        (PageKind::Overflow, PAGE_OVERFLOW, 32),
        (PageKind::Deleted, PAGE_DELETED, 64),
    ];
    for (kind, bits, expected) in kinds {
        assert_eq!(bits, expected);
        assert_eq!(PageFlags::of(kind).bits, bits);
        assert_eq!(PageFlags { bits }.kind(), Some(kind));
    }
    for bits in [0u16, 3, 5, 6, 12, 128, 0xFFFF] {
        assert_eq!(PageFlags { bits }.kind(), None);
    }
}

#[test]
fn page_header_round_trip() {
    let header = PageHeader { id: 0x0102030405060708, flags: PAGE_LEAF, count: 513, overflow: 7 };
    let bytes = header.to_bytes();
    assert_eq!(bytes.len(), PAGE_HEADER_SIZE);
    assert_eq!(bytes, vec![8, 7, 6, 5, 4, 3, 2, 1, 4, 0, 1, 2, 7, 0, 0, 0]);
    assert_eq!(PageHeader::read(&bytes).unwrap(), header);
    assert_eq!(header.kind(), Some(PageKind::Leaf));
    assert!(matches!(PageHeader::read(&bytes[..15]), Err(Error::PageOutOfBounds)));
}

#[test]
fn elements_are_read_by_index() {
    let leaf = LeafPageElement { flags: 1, position: 32, key_size: 3, vsize: 5 };
    let branch = BranchPageElement { position: 48, key_size: 2, page_id: 77 };
    let mut data = leaf.to_bytes();
    data.extend_from_slice(&branch.to_bytes());
    let page = Page { header: PageHeader { id: 2, flags: PAGE_LEAF, count: 2, overflow: 0 }, data: &data };
    assert_eq!(LeafPageElement::from_page(&page, 0).unwrap(), leaf);
    assert_eq!(BranchPageElement::from_page(&page, 1).unwrap(), branch);
    assert!(matches!(LeafPageElement::from_page(&page, 2), Err(Error::PageOutOfBounds)));
    assert!(matches!(BranchPageElement::from_page(&page, u16::MAX), Err(Error::PageOutOfBounds)));
}

#[test]
fn records_span_pages_and_read_back() {
    for len in [0usize, 1, PAGE_DATA_SIZE - 1, PAGE_DATA_SIZE, PAGE_DATA_SIZE + 1, 3 * PAGE_DATA_SIZE, 10_000] {
        let payload: Vec<u8> = (0..len).map(|i| (i % 253) as u8).collect();
        let pages = page_count_for(len) as usize;
        assert_eq!(pages, std::cmp::max(1, (len + PAGE_DATA_SIZE - 1) / PAGE_DATA_SIZE));
        let mut pa = store(pages + 3);
        let overflow = pa.write_record(2, PageKind::Leaf, 9, &payload).unwrap();
        assert_eq!(overflow as usize, pages - 1);
        assert!(pa.read(0).unwrap().iter().all(|b| *b == 0));
        assert!(pa.read(1).unwrap().iter().all(|b| *b == 1));
        assert!(pa.read((2 + pages) as u64).unwrap().iter().all(|b| *b == (2 + pages) as u8));

        let (header, data) = pa.read_record(2).unwrap();
        assert_eq!(header, PageHeader { id: 2, flags: PAGE_LEAF, count: 9, overflow });
        assert_eq!(data.len(), pages * PAGE_DATA_SIZE);
        assert_eq!(&data[..len], &payload[..]);
        assert!(data[len..].iter().all(|b| *b == 0));

        let info = pa.get_page_info(2).unwrap();
        assert_eq!(info.page_id(), 2);
        assert_eq!(info.page_flags(), PageFlags { bits: PAGE_LEAF });
        assert_eq!(info.overflow_page(), if pages > 1 { Some(3) } else { None });
        assert_eq!(PageIndex::length(info), 9);
        let index = PageIndex::new(info, &pa).unwrap();
        assert_eq!(index.payload(), data);
        for k in 1..pages {
            let next = pa.get_page_info((2 + k) as u64).unwrap();
            assert_eq!(
                next.header(),
                PageHeader { id: (2 + k) as u64, flags: PAGE_OVERFLOW, count: 0, overflow: (pages - 1 - k) as u32 }
            );
            assert!(matches!(pa.read_record((2 + k) as u64), Err(Error::DatabaseInvalid)));
        }
    }
}

#[test]
fn records_must_fit_and_chains_must_hold() {
    let mut pa = store(4);
    let payload = vec![1u8; 2 * PAGE_DATA_SIZE + 1];
    let before = pa.as_bytes().to_vec();
    assert!(matches!(pa.write_record(2, PageKind::Leaf, 0, &payload), Err(Error::PageOutOfBounds)));
    assert!(matches!(pa.write_record(4, PageKind::Leaf, 0, &[]), Err(Error::PageOutOfBounds)));
    assert_eq!(pa.as_bytes(), &before[..]);
    pa.write_record(1, PageKind::Leaf, 0, &payload).unwrap();

    let mut image = pa.into_bytes();
    image[3 * OS_PAGE_SIZE + 8] = PAGE_LEAF as u8;
    let broken = PageArray::new(image.clone());
    assert!(matches!(broken.read_record(1), Err(Error::DatabaseInvalid)));
    image.truncate(3 * OS_PAGE_SIZE);
    let cut = PageArray::new(image);
    assert!(matches!(cut.read_record(1), Err(Error::PageOutOfBounds)));
    let wrong_id = store(3);
    assert!(matches!(wrong_id.read_record(2), Err(Error::DatabaseInvalid)));
}

#[test]
fn flush_writes_all_records() {
    let mut pa = store(8);
    let records = vec![
        Record { id: 5, kind: PageKind::Leaf, count: 1, payload: vec![5u8; 5000] },
        Record { id: 2, kind: PageKind::BucketLeaf, count: 2, payload: vec![2u8; 10] },
        Record { id: 3, kind: PageKind::Freelist, count: 3, payload: vec![3u8; 4080] },
    ];
    pa.flush(&records);
    for record in &records {
        let (header, data) = pa.read_record(record.id).unwrap();
        assert_eq!(header.count, record.count);
        assert_eq!(header.kind(), Some(record.kind));
        assert_eq!(&data[..record.payload.len()], &record.payload[..]);
    }
    assert!(pa.read(0).unwrap().iter().all(|b| *b == 0));
    assert!(pa.read(1).unwrap().iter().all(|b| *b == 1));
    assert!(pa.read(4).unwrap().iter().all(|b| *b == 4));
    assert!(pa.read(7).unwrap().iter().all(|b| *b == 7));
}

#[test]
fn keys_are_ordered_bytewise() {
    assert_eq!(compare_keys(b"", b""), KeyOrder::Equal);
    assert_eq!(compare_keys(b"", b"a"), KeyOrder::Less);
    assert_eq!(compare_keys(b"a", b""), KeyOrder::Greater);
    assert_eq!(compare_keys(b"abc", b"abd"), KeyOrder::Less);
    assert_eq!(compare_keys(b"abc", b"abc"), KeyOrder::Equal);
    assert_eq!(compare_keys(b"abd", b"abc"), KeyOrder::Greater);
    assert_eq!(compare_keys(b"ab", b"abc"), KeyOrder::Less);
    assert_eq!(compare_keys(b"b", b"abc"), KeyOrder::Greater);
    assert_eq!(compare_keys(&[0x7F], &[0x80]), KeyOrder::Less);
    assert_eq!(compare_keys(&[0xFF], &[0x00, 0xFF]), KeyOrder::Greater);
}

#[test]
fn node_keeps_keys_sorted_and_unique() {
    let mut node = Node::new();
    for key in [5u8, 3, 9, 1, 7, 3, 5] {
        node.put(0, vec![key], vec![key; key as usize]).unwrap();
    }
    assert_eq!(node.len(), 5);
    for (i, key) in [1u8, 3, 5, 7, 9].iter().enumerate() {
        assert_eq!(node.inode(i).key, vec![*key]);
        assert_eq!(node.get(&[*key]), Some(&vec![*key; *key as usize]));
        assert_eq!(node.search(&[*key]), (true, i));
    }
    assert_eq!(node.search(&[0]), (false, 0));
    assert_eq!(node.search(&[4]), (false, 2));
    assert_eq!(node.search(&[10]), (false, 5));
    assert_eq!(node.get(&[4]), None);
    node.put(7, vec![3], b"replaced".to_vec()).unwrap();
    assert_eq!(node.len(), 5);
    assert_eq!(node.get(&[3]), Some(&b"replaced".to_vec()));
    assert_eq!(node.inode(1).flags, 7);
    assert!(node.delete(&[5]));
    assert!(!node.delete(&[5]));
    assert_eq!(node.len(), 4);
    assert_eq!(node.search(&[7]), (true, 2));
    assert_eq!(node.size(), 4 * 16 + (1 + 1) + (1 + 8) + (1 + 7) + (1 + 9));
    assert_eq!(node.size_with(&[3], 10), node.size() + 2);
    assert_eq!(node.size_with(&[4, 4], 10), node.size() + 16 + 2 + 10);
}

#[test]
fn leaf_page_round_trip_and_checks() {
    let mut node = Node::new();
    node.put(1, b"alpha".to_vec(), b"one".to_vec()).unwrap();
    node.put(0, b"beta".to_vec(), Vec::new()).unwrap();
    node.put(0, b"".to_vec(), b"empty key".to_vec()).unwrap();
    let payload = node.to_payload().unwrap();
    assert_eq!(payload.len() as u64, node.size());
    let first = LeafPageElement::from_page(
        &Page { header: PageHeader { id: 0, flags: PAGE_LEAF, count: 3, overflow: 0 }, data: &payload },
        0,
    )
    .unwrap();
    assert_eq!(first, LeafPageElement { flags: 0, position: 48, key_size: 0, vsize: 9 });

    let mut padded = payload.clone();
    padded.extend_from_slice(&[0u8; 100]);
    let header = PageHeader { id: 2, flags: PAGE_LEAF, count: 3, overflow: 0 };
    let read = Node::from_page(&Page { header, data: &padded }).unwrap();
    assert_eq!(read.len(), 3);
    assert_eq!(read.get(b"alpha"), Some(&b"one".to_vec()));
    assert_eq!(read.get(b"beta"), Some(&Vec::new()));
    assert_eq!(read.get(b""), Some(&b"empty key".to_vec()));
    assert_eq!(read.inode(1).flags, 1);

    let four = PageHeader { count: 4, ..header };
    assert!(Node::from_page(&Page { header: four, data: &padded }).is_err());
    assert!(matches!(
        Node::from_page(&Page { header, data: &payload[..40] }),
        Err(Error::PageOutOfBounds)
    ));
    let mut swapped = payload.clone();
    let (a, b) = swapped.split_at_mut(16);
    a.swap_with_slice(&mut b[..16]);
    assert!(matches!(
        Node::from_page(&Page { header, data: &swapped }),
        Err(Error::DatabaseInvalid)
    ));
    let mut far = payload.clone();
    far[4..8].copy_from_slice(&(u32::MAX).to_le_bytes());
    assert!(matches!(Node::from_page(&Page { header, data: &far }), Err(Error::PageOutOfBounds)));
    let mut long_key = payload.clone();
    long_key.extend_from_slice(&[7u8; 300]);
    long_key[16 + 8..16 + 12].copy_from_slice(&256u32.to_le_bytes());
    assert!(matches!(
        Node::from_page(&Page { header, data: &long_key }),
        Err(Error::DatabaseInvalid)
    ));
}

#[test]
fn freelist_hands_out_the_first_fitting_run() {
    let mut list = Freelist::new();
    list.free(1, 3, 0).unwrap();
    list.free(1, 5, 1).unwrap();
    list.free(1, 10, 3).unwrap();
    list.free(1, 20, 0).unwrap();
    assert_eq!(list.free_count(), 0);
    assert_eq!(list.pending_count(), 8);
    assert_eq!(list.allocate(1), None);
    list.release(2);
    assert_eq!(list.free_count(), 8);
    assert_eq!(list.pending_count(), 0);
    assert_eq!(list.all_ids(), vec![3, 5, 6, 10, 11, 12, 13, 20]);
    assert_eq!(list.allocate(0), None);
    assert_eq!(list.allocate(5), None);
    assert_eq!(list.allocate(3), Some(10));
    assert_eq!(list.all_ids(), vec![3, 5, 6, 13, 20]);
    assert_eq!(list.allocate(2), Some(5));
    assert_eq!(list.allocate(2), None);
    assert_eq!(list.allocate(1), Some(3));
    assert_eq!(list.allocate(1), Some(13));
    assert_eq!(list.allocate(1), Some(20));
    assert_eq!(list.allocate(1), None);
    assert_eq!(list.free_count(), 0);
}

#[test]
fn freelist_refuses_meta_pages_and_double_frees() {
    let mut list = Freelist::new();
    assert!(matches!(list.free(1, 0, 0), Err(Error::DatabaseInvalid)));
    assert!(matches!(list.free(1, 1, 5), Err(Error::DatabaseInvalid)));
    assert!(matches!(list.free(1, u64::MAX, 1), Err(Error::DatabaseInvalid)));
    list.free(1, 4, 2).unwrap();
    assert!(matches!(list.free(2, 6, 0), Err(Error::DatabaseInvalid)));
    assert!(matches!(list.free(2, 3, 1), Err(Error::DatabaseInvalid)));
    assert_eq!(list.pending_count(), 3);
    list.release(5);
    assert!(matches!(list.free(7, 5, 0), Err(Error::DatabaseInvalid)));
    assert!(list.contains_free(5));
    assert!(!list.contains_free(7));
    assert!(!list.contains_pending(5));
    list.free(7, 7, 0).unwrap();
    assert!(list.contains_pending(7));
}

#[test]
fn pending_pages_wait_for_the_oldest_reader() {
    let mut list = Freelist::new();
    list.free(3, 10, 0).unwrap();
    list.free(4, 11, 0).unwrap();
    list.free(5, 12, 0).unwrap();
    list.release(3);
    assert_eq!(list.free_count(), 0);
    assert_eq!(list.allocate(1), None);
    list.release(4);
    assert_eq!(list.all_ids(), vec![10, 11, 12]);
    assert_eq!(list.free_count(), 1);
    assert_eq!(list.allocate(1), Some(10));
    assert_eq!(list.allocate(1), None);
    list.release(4);
    assert_eq!(list.allocate(1), None);
    list.release(u64::MAX);
    assert_eq!(list.allocate(2), Some(11));
    assert_eq!(list.pending_count(), 0);
}

#[test]
fn freelist_page_round_trip() {
    let ids: Vec<u64> = vec![2, 3, 9, 100, 1 << 40];
    let (count, payload) = freelist_to_payload(&ids);
    assert_eq!(count, 5);
    assert_eq!(payload.len(), 40);
    assert_eq!(&payload[16..24], &9u64.to_le_bytes());
    let header = PageHeader { id: 4, flags: PAGE_FREELIST, count, overflow: 0 };
    let list = Freelist::from_page(&Page { header, data: &payload }).unwrap();
    assert_eq!(list.all_ids(), ids);
    assert_eq!(list.pending_count(), 0);

    assert!(matches!(
        Freelist::from_page(&Page { header, data: &payload[..39] }),
        Err(Error::PageOutOfBounds)
    ));
    let (_, unsorted) = freelist_to_payload(&vec![3, 2]);
    let two = PageHeader { count: 2, ..header };
    assert!(matches!(
        Freelist::from_page(&Page { header: two, data: &unsorted }),
        Err(Error::DatabaseInvalid)
    ));
    let (_, twice) = freelist_to_payload(&vec![3, 3]);
    assert!(matches!(
        Freelist::from_page(&Page { header: two, data: &twice }),
        Err(Error::DatabaseInvalid)
    ));
    let (_, meta_page) = freelist_to_payload(&vec![1, 3]);
    assert!(matches!(
        Freelist::from_page(&Page { header: two, data: &meta_page }),
        Err(Error::DatabaseInvalid)
    ));

    let many: Vec<u64> = (2..70_002u64).collect();
    let (count, payload) = freelist_to_payload(&many);
    assert_eq!(count, 0xFFFF);
    assert_eq!(payload.len(), 8 + 8 * many.len());
    assert_eq!(&payload[..8], &(many.len() as u64).to_le_bytes());
    let escaped = PageHeader { count, ..header };
    let list = Freelist::from_page(&Page { header: escaped, data: &payload }).unwrap();
    assert_eq!(list.free_count(), many.len());
    assert!(matches!(
        Freelist::from_page(&Page { header: escaped, data: &payload[..4] }),
        Err(Error::PageOutOfBounds)
    ));
}

#[test]
fn allocator_falls_back_to_the_end_of_the_file() {
    let mut list = Freelist::new();
    list.free(1, 4, 1).unwrap();
    list.release(2);
    let mut pages = PageAllocator::new(list, 10).unwrap();
    assert_eq!(pages.next_page(), 10);
    assert_eq!(pages.allocate(2).unwrap(), 4);
    assert_eq!(pages.allocate(2).unwrap(), 10);
    assert_eq!(pages.next_page(), 12);
    assert!(matches!(pages.allocate(0), Err(Error::ValueTooLarge)));
    assert_eq!(pages.take_end(3).unwrap(), 12);
    assert_eq!(pages.next_page(), 15);
    pages.free(9, 4, 1).unwrap();
    assert!(matches!(pages.free(9, 4, 0), Err(Error::DatabaseInvalid)));
    assert!(matches!(pages.free(9, 14, 1), Err(Error::DatabaseInvalid)));
    assert!(matches!(pages.free(9, 1, 0), Err(Error::DatabaseInvalid)));
    assert_eq!(pages.allocate(1).unwrap(), 15);
    pages.release(10);
    assert_eq!(pages.allocate(1).unwrap(), 4);
    assert_eq!(pages.freelist().free_count(), 1);

    let mut late = Freelist::new();
    late.free(1, 20, 0).unwrap();
    assert!(matches!(PageAllocator::new(late, 20), Err(Error::DatabaseInvalid)));
    assert!(matches!(PageAllocator::new(Freelist::new(), 1), Err(Error::DatabaseInvalid)));
    let mut full = PageAllocator::new(Freelist::new(), u64::MAX - 1).unwrap();
    assert!(matches!(full.allocate(2), Err(Error::ValueTooLarge)));
    assert_eq!(full.allocate(1).unwrap(), u64::MAX - 1);
}

#[test]
fn delete_leaves_the_other_entries_as_they_were() {
    let mut node = Node::new();
    node.put(0, b"a".to_vec(), b"1".to_vec()).unwrap();
    node.put(16, b"b".to_vec(), b"2".to_vec()).unwrap();
    node.put(0, b"c".to_vec(), b"3".to_vec()).unwrap();
    node.put(16, b"d".to_vec(), b"4".to_vec()).unwrap();
    assert!(node.delete(b"c"));
    assert!(!node.delete(b"c"));
    assert_eq!(node.len(), 3);
    let left: Vec<(u32, Vec<u8>, Vec<u8>)> =
        (0..3).map(|i| (node.inode(i).flags, node.inode(i).key.clone(), node.inode(i).value.clone())).collect();
    assert_eq!(
        left,
        vec![
            (0, b"a".to_vec(), b"1".to_vec()),
            (16, b"b".to_vec(), b"2".to_vec()),
            (16, b"d".to_vec(), b"4".to_vec()),
        ]
    );
}
