use oxygendb::bucket::MAX_INLINE_BUCKET_SIZE;
use oxygendb::constants::{DEFAULT_READERS, OS_PAGE_SIZE};
use oxygendb::db::{Db, Meta, Settings};
use oxygendb::errors::Error;

fn fresh() -> Db {
    Db::open("test.db", None, None).unwrap()
}

fn reopen(db: Db) -> Db {
    let image = db.into_bytes();
    Db::open("test.db", Some(image), None).unwrap()
}

#[test]
fn end_to_end_write_commit_reopen_read() {
    let mut db = fresh();
    let mut tx = db.begin(true).unwrap();
    assert!(tx.open_bucket(b"root", true).unwrap());
    tx.put(b"root", b"a".to_vec(), b"1".to_vec()).unwrap();
    db.commit(tx).unwrap();

    let mut db = reopen(db);
    let tx = db.begin(false).unwrap();
    assert_eq!(tx.get(b"root", b"a").unwrap(), Some(&b"1".to_vec()));
    assert_eq!(tx.get(b"root", b"b").unwrap(), None);
    assert!(matches!(tx.get(b"none", b"a"), Err(Error::BucketNotFound)));
    db.rollback(tx).unwrap();
}

#[test]
fn open_without_file_needs_auto_create() {
    let settings = Settings { auto_create: false, ..Settings::default() };
    assert!(matches!(Db::open("missing.db", None, Some(settings)), Err(Error::DatabaseNotFound)));
    let db = Db::open("fresh.db", None, None).unwrap();
    assert_eq!(db.as_bytes().len(), 4 * OS_PAGE_SIZE);
    assert_eq!(db.meta(), Meta::default());
    assert_eq!(db.active_slot(), 0);
    assert_eq!(db.path().as_str(), "fresh.db");
}

#[test]
fn create_honours_initial_mmap_size() {
    let settings = Settings { initial_mmap_size: 10 * 4096 + 1, ..Settings::default() };
    assert_eq!(Db::create(&settings).len(), 11 * OS_PAGE_SIZE);
    let small = Settings { initial_mmap_size: 100, ..Settings::default() };
    assert_eq!(Db::create(&small).len(), 4 * OS_PAGE_SIZE);
}

#[test]
fn open_rejects_what_is_not_a_database() {
    assert!(matches!(Db::open("x", Some(Vec::new()), None), Err(Error::DatabaseInvalid)));
    assert!(matches!(
        Db::open("x", Some(vec![0u8; 4 * OS_PAGE_SIZE]), None),
        Err(Error::DatabaseInvalid)
    ));
    let mut image = Db::create(&Settings::default());
    image[0] ^= 0xFF;
    image[OS_PAGE_SIZE + 4] ^= 0xFF;
    assert!(matches!(Db::open("x", Some(image), None), Err(Error::DatabaseInvalid)));
}

#[test]
fn open_selects_the_valid_meta_whatever_its_slot() {
    let mut first_bad = Db::create(&Settings::default());
    first_bad[0] ^= 0xFF;
    let db = Db::open("x", Some(first_bad), None).unwrap();
    assert_eq!(db.active_slot(), 1);

    let mut second_bad = Db::create(&Settings::default());
    second_bad[OS_PAGE_SIZE] ^= 0xFF;
    let db = Db::open("x", Some(second_bad), None).unwrap();
    assert_eq!(db.active_slot(), 0);
}

#[test]
fn open_selects_the_higher_transaction_id() {
    let five = (Meta { transaction_id: 5, ..Meta::default() }).sealed();
    let seven = (Meta { transaction_id: 7, ..Meta::default() }).sealed();

    let mut image = Db::create(&Settings::default());
    five.write(&mut image, 0).unwrap();
    seven.write(&mut image, OS_PAGE_SIZE).unwrap();
    let db = Db::open("x", Some(image), None).unwrap();
    assert_eq!(db.meta().transaction_id, 7);
    assert_eq!(db.active_slot(), 1);

    let mut image = Db::create(&Settings::default());
    seven.write(&mut image, 0).unwrap();
    five.write(&mut image, OS_PAGE_SIZE).unwrap();
    let db = Db::open("x", Some(image), None).unwrap();
    assert_eq!(db.meta().transaction_id, 7);
    assert_eq!(db.active_slot(), 0);
}

#[test]
fn commits_alternate_between_the_meta_slots() {
    let mut db = fresh();
    for round in 1..=5u64 {
        let mut tx = db.begin(true).unwrap();
        assert_eq!(tx.id(), round);
        tx.open_bucket(b"b", true).unwrap();
        tx.put(b"b", round.to_le_bytes().to_vec(), vec![round as u8; 10]).unwrap();
        db.commit(tx).unwrap();
        assert_eq!(db.meta().transaction_id, round);
        assert_eq!(db.active_slot(), (round % 2) as usize);
        assert!(db.meta().validate().is_ok());
        assert_ne!(db.meta().checksum, 0);
    }
    let mut db = reopen(db);
    assert_eq!(db.meta().transaction_id, 5);
    let tx = db.begin(false).unwrap();
    for round in 1..=5u64 {
        assert_eq!(
            tx.get(b"b", &round.to_le_bytes()).unwrap(),
            Some(&vec![round as u8; 10])
        );
    }
}

#[test]
fn crash_before_the_checksum_keeps_the_previous_meta() {
    let mut db = fresh();
    let mut tx = db.begin(true).unwrap();
    tx.open_bucket(b"b", true).unwrap();
    tx.put(b"b", b"k".to_vec(), b"old".to_vec()).unwrap();
    db.commit(tx).unwrap();
    let committed = db.meta();

    let mut tx = db.begin(true).unwrap();
    tx.put(b"b", b"k".to_vec(), b"new".to_vec()).unwrap();
    tx.put(b"b", b"more".to_vec(), vec![7u8; 3000]).unwrap();
    db.stage(tx).unwrap();

    let crashed = db.as_bytes().to_vec();
    let mut after = Db::open("x", Some(crashed), None).unwrap();
    assert_eq!(after.meta(), committed);
    let tx = after.begin(false).unwrap();
    assert_eq!(tx.get(b"b", b"k").unwrap(), Some(&b"old".to_vec()));
    assert_eq!(tx.get(b"b", b"more").unwrap(), None);

    db.seal().unwrap();
    assert_eq!(db.meta().transaction_id, committed.transaction_id + 1);
    let mut sealed = reopen(db);
    let tx = sealed.begin(false).unwrap();
    assert_eq!(tx.get(b"b", b"k").unwrap(), Some(&b"new".to_vec()));
    assert_eq!(tx.get(b"b", b"more").unwrap(), Some(&vec![7u8; 3000]));
}

#[test]
fn abort_gives_up_a_half_written_commit() {
    let mut db = fresh();
    let mut tx = db.begin(true).unwrap();
    tx.open_bucket(b"b", true).unwrap();
    db.stage(tx).unwrap();
    assert!(matches!(db.begin(true), Err(Error::TxInProgress)));
    assert!(db.abort());
    assert!(!db.abort());
    assert!(matches!(db.seal(), Err(Error::TransactionReadOnly)));
    assert_eq!(db.meta(), Meta::default());
    let tx = db.begin(true).unwrap();
    assert!(tx.bucket(b"b").is_none());
}

#[test]
fn bucket_leaves_inline_storage_once_and_keeps_its_pairs() {
    let mut db = fresh();
    let mut tx = db.begin(true).unwrap();
    tx.open_bucket(b"grow", true).unwrap();
    let mut changes = 0;
    let mut last_root = 0;
    for i in 0..200u32 {
        let before = tx.bucket(b"grow").unwrap().root_page_id();
        let size_before = tx.bucket(b"grow").unwrap().inline_size();
        tx.put(b"grow", format!("key{:04}", i).into_bytes(), vec![i as u8; 20]).unwrap();
        let bucket = tx.bucket(b"grow").unwrap();
        let after = bucket.root_page_id();
        if before == 0 {
            assert!(size_before <= MAX_INLINE_BUCKET_SIZE);
            assert_eq!(after != 0, bucket.inline_size() > MAX_INLINE_BUCKET_SIZE);
        } else {
            assert_eq!(after, before);
        }
        if after != before {
            changes += 1;
        }
        last_root = after;
        for j in 0..=i {
            assert_eq!(
                tx.get(b"grow", format!("key{:04}", j).as_bytes()).unwrap(),
                Some(&vec![j as u8; 20])
            );
        }
    }
    assert_eq!(changes, 1);
    assert_ne!(last_root, 0);
    for i in 0..200u32 {
        assert!(tx.delete(b"grow", format!("key{:04}", i).as_bytes()).unwrap());
    }
    assert_ne!(tx.bucket(b"grow").unwrap().root_page_id(), 0);
    assert_eq!(tx.bucket(b"grow").unwrap().len(), 0);
    tx.put(b"grow", b"again".to_vec(), b"1".to_vec()).unwrap();
    db.commit(tx).unwrap();

    let mut db = reopen(db);
    let tx = db.begin(false).unwrap();
    let bucket = tx.bucket(b"grow").unwrap();
    assert!(bucket.root_page_id() >= 2);
    assert!(!bucket.is_inline());
    assert_eq!(bucket.get(b"again"), Some(&b"1".to_vec()));
    assert_eq!(bucket.len(), 1);
}

#[test]
fn inline_and_paged_buckets_survive_a_reopen() {
    let mut db = fresh();
    let mut tx = db.begin(true).unwrap();
    tx.open_bucket(b"small", true).unwrap();
    tx.open_bucket(b"large", true).unwrap();
    tx.open_bucket(b"empty", true).unwrap();
    tx.put(b"small", b"k".to_vec(), b"v".to_vec()).unwrap();
    for i in 0..1000u32 {
        tx.put(b"large", i.to_be_bytes().to_vec(), vec![(i % 251) as u8; 100]).unwrap();
    }
    tx.put(b"large", b"huge".to_vec(), vec![9u8; 50_000]).unwrap();
    assert_eq!(tx.next_sequence(b"small").unwrap(), 1);
    assert_eq!(tx.next_sequence(b"small").unwrap(), 2);
    db.commit(tx).unwrap();

    let mut db = reopen(db);
    let mut tx = db.begin(true).unwrap();
    assert_eq!(tx.bucket_count(), 3);
    assert!(tx.bucket(b"small").unwrap().is_inline());
    assert!(tx.bucket(b"empty").unwrap().is_inline());
    assert!(!tx.bucket(b"large").unwrap().is_inline());
    assert_eq!(tx.bucket(b"small").unwrap().sequence(), 2);
    assert_eq!(tx.bucket(b"large").unwrap().len(), 1001);
    assert_eq!(tx.get(b"small", b"k").unwrap(), Some(&b"v".to_vec()));
    for i in 0..1000u32 {
        assert_eq!(
            tx.get(b"large", &i.to_be_bytes()).unwrap(),
            Some(&vec![(i % 251) as u8; 100])
        );
    }
    assert_eq!(tx.get(b"large", b"huge").unwrap(), Some(&vec![9u8; 50_000]));
    assert_eq!(tx.next_sequence(b"small").unwrap(), 3);
    assert!(tx.delete_bucket(b"empty").unwrap());
    assert!(!tx.delete_bucket(b"empty").unwrap());
    db.commit(tx).unwrap();

    let mut db = reopen(db);
    let tx = db.begin(false).unwrap();
    assert_eq!(tx.bucket_count(), 2);
    assert!(tx.bucket(b"empty").is_none());
    assert_eq!(tx.bucket(b"small").unwrap().sequence(), 3);
}

#[test]
fn cursor_walks_the_keys_in_order() {
    let mut db = fresh();
    let mut tx = db.begin(true).unwrap();
    tx.open_bucket(b"b", true).unwrap();
    for key in ["pear", "apple", "fig", "app", "zebra", ""] {
        tx.put(b"b", key.as_bytes().to_vec(), key.to_uppercase().into_bytes()).unwrap();
    }
    let bucket = tx.bucket(b"b").unwrap();
    let mut cursor = bucket.cursor();
    let mut seen = Vec::new();
    while let Some((key, value)) = cursor.next() {
        assert_eq!(String::from_utf8(value.clone()).unwrap().to_lowercase().as_bytes(), &key[..]);
        seen.push(String::from_utf8(key.clone()).unwrap());
    }
    assert_eq!(seen, vec!["", "app", "apple", "fig", "pear", "zebra"]);
    assert!(cursor.next().is_none());
    assert!(cursor.seek(b"fig"));
    assert_eq!(cursor.next().unwrap().0, &b"fig".to_vec());
    assert!(!cursor.seek(b"g"));
    assert_eq!(cursor.next().unwrap().0, &b"pear".to_vec());
    assert!(!cursor.seek(b"zzz"));
    assert!(cursor.next().is_none());
    cursor.first();
    assert_eq!(cursor.next().unwrap().0, &b"".to_vec());
}

#[test]
fn single_writer_and_bounded_readers() {
    let mut db = fresh();
    let writer = db.begin(true).unwrap();
    assert!(writer.writable());
    assert!(matches!(db.begin(true), Err(Error::TxInProgress)));
    let mut readers = Vec::new();
    for _ in 0..DEFAULT_READERS {
        readers.push(db.begin(false).unwrap());
    }
    assert_eq!(db.reader_count(), DEFAULT_READERS as usize);
    assert!(matches!(db.begin(false), Err(Error::ReaderTableFull)));
    db.rollback(readers.pop().unwrap()).unwrap();
    assert_eq!(db.reader_count(), DEFAULT_READERS as usize - 1);
    let again = db.begin(false).unwrap();
    assert!(!again.writable());
    db.rollback(writer).unwrap();
    let writer = db.begin(true).unwrap();
    db.commit(writer).unwrap();
}

#[test]
fn read_only_transactions_cannot_change_anything() {
    let mut db = fresh();
    let mut tx = db.begin(true).unwrap();
    tx.open_bucket(b"b", true).unwrap();
    tx.put(b"b", b"k".to_vec(), b"v".to_vec()).unwrap();
    db.commit(tx).unwrap();

    let mut tx = db.begin(false).unwrap();
    assert!(matches!(
        tx.put(b"b", b"k".to_vec(), b"w".to_vec()),
        Err(Error::TransactionReadOnly)
    ));
    assert!(matches!(tx.delete(b"b", b"k"), Err(Error::TransactionReadOnly)));
    assert!(matches!(tx.next_sequence(b"b"), Err(Error::TransactionReadOnly)));
    assert!(matches!(tx.delete_bucket(b"b"), Err(Error::TransactionReadOnly)));
    assert!(!tx.open_bucket(b"new", true).unwrap());
    assert!(tx.open_bucket(b"b", true).unwrap());
    assert_eq!(tx.get(b"b", b"k").unwrap(), Some(&b"v".to_vec()));
    assert!(matches!(db.commit(tx), Err(Error::TransactionReadOnly)));
    assert_eq!(db.reader_count(), 0);

    let image = db.into_bytes();
    let settings = Settings { read_only: true, ..Settings::default() };
    let mut db = Db::open("x", Some(image), Some(settings)).unwrap();
    assert!(matches!(db.begin(true), Err(Error::TransactionReadOnly)));
    let tx = db.begin(false).unwrap();
    assert_eq!(tx.get(b"b", b"k").unwrap(), Some(&b"v".to_vec()));
}

#[test]
fn rollback_discards_changes() {
    let mut db = fresh();
    let mut tx = db.begin(true).unwrap();
    tx.open_bucket(b"b", true).unwrap();
    tx.put(b"b", b"k".to_vec(), b"v".to_vec()).unwrap();
    db.commit(tx).unwrap();
    let image = db.as_bytes().to_vec();

    let mut tx = db.begin(true).unwrap();
    tx.put(b"b", b"k".to_vec(), b"changed".to_vec()).unwrap();
    tx.open_bucket(b"other", true).unwrap();
    db.rollback(tx).unwrap();
    assert_eq!(db.as_bytes(), &image[..]);

    let tx = db.begin(true).unwrap();
    assert_eq!(tx.get(b"b", b"k").unwrap(), Some(&b"v".to_vec()));
    assert!(tx.bucket(b"other").is_none());
}

#[test]
fn closed_database_refuses_transactions() {
    let mut db = fresh();
    let tx = db.begin(true).unwrap();
    db.close();
    assert!(matches!(db.begin(false), Err(Error::DatabaseNotOpen)));
    assert!(matches!(db.begin(true), Err(Error::DatabaseNotOpen)));
    assert!(matches!(db.seal(), Err(Error::DatabaseNotOpen)));
    assert!(matches!(db.commit(tx), Err(Error::DatabaseNotOpen)));
}

#[test]
fn stale_writer_cannot_commit() {
    let mut first = fresh();
    let mut second = fresh();
    let tx = first.begin(true).unwrap();
    assert!(matches!(second.commit(tx), Err(Error::TransactionReadOnly)));
    assert_eq!(second.meta(), Meta::default());
}

#[test]
fn limits_on_keys_values_and_names() {
    let mut db = fresh();
    let mut tx = db.begin(true).unwrap();
    tx.open_bucket(b"b", true).unwrap();
    assert!(matches!(
        tx.put(b"b", vec![1u8; 256], b"v".to_vec()),
        Err(Error::ValueTooLarge)
    ));
    tx.put(b"b", vec![1u8; 255], b"v".to_vec()).unwrap();
    assert!(matches!(tx.open_bucket(&[2u8; 256], true), Err(Error::ValueTooLarge)));
    assert!(tx.open_bucket(&[2u8; 255], true).unwrap());
    assert!(matches!(
        tx.put(b"missing", b"k".to_vec(), b"v".to_vec()),
        Err(Error::BucketNotFound)
    ));
    assert!(matches!(tx.delete(b"missing", b"k"), Err(Error::BucketNotFound)));
    assert!(matches!(tx.next_sequence(b"missing"), Err(Error::BucketNotFound)));
    assert!(!tx.delete(b"b", b"absent").unwrap());
}

#[test]
fn freed_pages_are_reused_only_after_readers_are_gone() {
    let mut db = fresh();
    let mut tx = db.begin(true).unwrap();
    tx.open_bucket(b"b", true).unwrap();
    tx.put(b"b", b"k".to_vec(), vec![1u8; 9000]).unwrap();
    db.commit(tx).unwrap();
    let pages_after_first = db.meta().pgid;

    let reader = db.begin(false).unwrap();
    assert_eq!(reader.id(), 1);

    let mut sizes = Vec::new();
    for round in 0..4u8 {
        let mut tx = db.begin(true).unwrap();
        tx.put(b"b", b"k".to_vec(), vec![round; 9000]).unwrap();
        db.commit(tx).unwrap();
        sizes.push(db.meta().pgid);
        assert_eq!(db.free_page_count(), 0);
    }
    assert!(sizes.windows(2).all(|w| w[0] < w[1]));
    assert!(sizes[0] > pages_after_first);
    assert!(db.pending_page_count() > 0);
    assert_eq!(reader.get(b"b", b"k").unwrap(), Some(&vec![1u8; 9000]));

    db.rollback(reader).unwrap();
    let end = db.meta().pgid;
    for round in 0..4u8 {
        let mut tx = db.begin(true).unwrap();
        tx.put(b"b", b"k".to_vec(), vec![round + 10; 9000]).unwrap();
        db.commit(tx).unwrap();
    }
    assert!(db.meta().pgid <= end + 8);
    let mut db = reopen(db);
    let tx = db.begin(false).unwrap();
    assert_eq!(tx.get(b"b", b"k").unwrap(), Some(&vec![13u8; 9000]));
}

#[test]
fn corrupt_directory_is_reported() {
    let mut db = fresh();
    let mut tx = db.begin(true).unwrap();
    tx.open_bucket(b"b", true).unwrap();
    tx.put(b"b", b"k".to_vec(), vec![1u8; 5000]).unwrap();
    db.commit(tx).unwrap();
    let root = db.meta().root as usize;
    let mut image = db.into_bytes();
    image[root * OS_PAGE_SIZE + 8] ^= 0xFF;
    let mut db = Db::open("x", Some(image), None).unwrap();
    assert!(matches!(db.begin(false), Err(Error::DatabaseInvalid)));
    assert_eq!(db.reader_count(), 0);
}

#[test]
fn truncated_file_is_reported() {
    let mut db = fresh();
    let mut tx = db.begin(true).unwrap();
    tx.open_bucket(b"b", true).unwrap();
    tx.put(b"b", b"k".to_vec(), vec![1u8; 50_000]).unwrap();
    db.commit(tx).unwrap();
    let mut image = db.into_bytes();
    image.truncate(3 * OS_PAGE_SIZE);
    match Db::open("x", Some(image), None) {
        Ok(mut db) => assert!(matches!(db.begin(false), Err(Error::PageOutOfBounds))),
        Err(e) => assert!(matches!(e, Error::PageOutOfBounds)),
    }
}

#[test]
fn file_grows_in_steps_of_alloc_size() {
    let settings = Settings { alloc_size: 16 * 4096, ..Settings::default() };
    assert_eq!(settings.growth(0), 0);
    assert_eq!(settings.growth(5), 16);
    assert_eq!(settings.growth(16), 16);
    assert_eq!(settings.growth(17), 32);
    assert_eq!(settings.growth(u64::MAX), u64::MAX);
    assert_eq!(settings.growth(u64::MAX / 4096), u64::MAX / 4096);
    assert_eq!(Settings::default().growth(5), 5);
    assert_eq!((Settings { alloc_size: 4096, ..settings }).growth(5), 5);
    assert_eq!((Settings { alloc_size: 3 * 4096 + 5, ..settings }).growth(5), 6);

    let mut db = Db::open("x", None, Some(settings)).unwrap();
    assert_eq!(db.as_bytes().len(), 4 * OS_PAGE_SIZE);
    let mut tx = db.begin(true).unwrap();
    tx.open_bucket(b"b", true).unwrap();
    tx.put(b"b", b"k".to_vec(), vec![1u8; 20_000]).unwrap();
    db.commit(tx).unwrap();
    assert_eq!(db.as_bytes().len(), 16 * OS_PAGE_SIZE);
    assert!(db.meta().pgid < 16);
    let mut db = reopen(db);
    let tx = db.begin(false).unwrap();
    assert_eq!(tx.get(b"b", b"k").unwrap(), Some(&vec![1u8; 20_000]));
}

#[test]
fn stats_count_the_pages_asked_for() {
    let mut db = fresh();
    let mut tx = db.begin(true).unwrap();
    tx.open_bucket(b"one", true).unwrap();
    tx.open_bucket(b"two", true).unwrap();
    assert_eq!(tx.stats().page_count, 0);
    tx.put(b"one", b"k".to_vec(), b"small".to_vec()).unwrap();
    assert_eq!(tx.stats().page_count, 0);
    tx.put(b"one", b"k".to_vec(), vec![0u8; 5000]).unwrap();
    assert_eq!(tx.stats().page_count, 1);
    tx.put(b"one", b"l".to_vec(), vec![0u8; 5000]).unwrap();
    assert_eq!(tx.stats().page_count, 1);
    tx.put(b"two", b"k".to_vec(), vec![0u8; 1500]).unwrap();
    assert_eq!(tx.stats().page_count, 2);
    assert_eq!(tx.meta(), db.meta());
    assert_eq!(tx.id(), 1);
}

#[test]
fn initial_size_is_a_hint_when_a_file_is_opened() {
    let image = Db::create(&Settings::default());
    assert_eq!(image.len(), 4 * OS_PAGE_SIZE);

    let roomy = Settings { initial_mmap_size: 10 * OS_PAGE_SIZE as u32 - 5, ..Settings::default() };
    assert_eq!(roomy.preallocation(4 * OS_PAGE_SIZE), 10 * OS_PAGE_SIZE);
    assert_eq!(roomy.preallocation(10 * OS_PAGE_SIZE), 10 * OS_PAGE_SIZE);
    assert_eq!(roomy.preallocation(11 * OS_PAGE_SIZE), 11 * OS_PAGE_SIZE);
    let mut db = Db::open("x", Some(image.clone()), Some(roomy)).unwrap();
    assert_eq!(db.as_bytes().len(), 10 * OS_PAGE_SIZE);
    assert_eq!(&db.as_bytes()[..4 * OS_PAGE_SIZE], &image[..]);
    assert!(db.as_bytes()[4 * OS_PAGE_SIZE..].iter().all(|b| *b == 0));
    let mut tx = db.begin(true).unwrap();
    tx.open_bucket(b"b", true).unwrap();
    tx.put(b"b", b"k".to_vec(), b"v".to_vec()).unwrap();
    db.commit(tx).unwrap();
    assert_eq!(db.as_bytes().len(), 10 * OS_PAGE_SIZE);
    assert_eq!(db.lookup(b"b", b"k").unwrap(), Some(b"v".to_vec()));

    let tight = Settings { initial_mmap_size: OS_PAGE_SIZE as u32, ..Settings::default() };
    let db = Db::open("x", Some(db.into_bytes()), Some(tight)).unwrap();
    assert_eq!(db.as_bytes().len(), 10 * OS_PAGE_SIZE);
    assert_eq!(db.lookup(b"b", b"k").unwrap(), Some(b"v".to_vec()));

    let reader =
        Settings { initial_mmap_size: 64 * OS_PAGE_SIZE as u32, read_only: true, ..Settings::default() };
    assert_eq!(reader.preallocation(4 * OS_PAGE_SIZE), 4 * OS_PAGE_SIZE);
    let db = Db::open("x", Some(image), Some(reader)).unwrap();
    assert_eq!(db.as_bytes().len(), 4 * OS_PAGE_SIZE);
}

#[test]
fn freelist_that_a_commit_wrote_is_read_back() {
    let mut db = Db::open("x", None, None).unwrap();
    assert_eq!(db.free_page_count(), 0);
    assert_eq!(db.pending_page_count(), 0);
    for round in 0..3u8 {
        let mut tx = db.begin(true).unwrap();
        tx.open_bucket(b"b", true).unwrap();
        for i in 0..40u8 {
            tx.put(b"b", vec![round, i], vec![i; 60]).unwrap();
        }
        db.commit(tx).unwrap();
    }
    let listed = db.free_page_count() + db.pending_page_count();
    assert!(listed > 0);
    let meta = db.meta();
    assert!(meta.freelist >= 2);

    let again = Db::open("x", Some(db.into_bytes()), None).unwrap();
    assert_eq!(again.meta(), meta);
    assert_eq!(again.pending_page_count(), 0);
    assert_eq!(again.free_page_count(), listed);
    assert_eq!(again.lookup(b"b", &[2, 39]).unwrap(), Some(vec![39u8; 60]));
}

#[test]
fn half_written_commit_leaves_the_file_as_it_opened() {
    let mut db = Db::open("x", None, None).unwrap();
    let mut tx = db.begin(true).unwrap();
    tx.open_bucket(b"b", true).unwrap();
    for i in 0..60u8 {
        tx.put(b"b", vec![i], vec![i; 50]).unwrap();
    }
    db.commit(tx).unwrap();
    let meta = db.meta();
    let listed = db.free_page_count() + db.pending_page_count();

    let mut tx = db.begin(true).unwrap();
    for i in 0..60u8 {
        tx.put(b"b", vec![i], vec![i + 1; 70]).unwrap();
    }
    db.stage(tx).unwrap();
    let crashed = db.as_bytes().to_vec();

    let mut again = Db::open("x", Some(crashed), None).unwrap();
    assert_eq!(again.meta(), meta);
    assert_eq!(again.free_page_count(), listed);
    assert_eq!(again.lookup(b"b", &[7]).unwrap(), Some(vec![7u8; 50]));
    let tx = again.begin(true).unwrap();
    assert_eq!(tx.get(b"b", &[59]).unwrap(), Some(&vec![59u8; 50]));
}
