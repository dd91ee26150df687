use oxygendb::checksum::{hash, hash_more, FNV_OFFSET};
use oxygendb::constants::{MAGIC_KEY, VERSION};
use oxygendb::db::{Meta, Settings, META_SIZE};
use oxygendb::errors::Error;

fn sample() -> Meta {
    (Meta {
        flags: 3,
        transaction_id: 42,
        root: 7,
        freelist: 9,
        pgid: 12,
        ..Meta::default()
    })
    .sealed()
}

#[test]
fn default_meta_is_a_valid_empty_database() {
    let meta = Meta::default();
    assert_eq!(meta.magic, 0xBADC0DE);
    assert_eq!(meta.version, 1);
    assert_eq!(meta.flags, 0);
    assert_eq!(meta.page_size, 4096);
    assert_eq!(meta.checksum, 0);
    assert_eq!(meta.transaction_id, 0);
    assert!(meta.little_endian);
    assert_eq!((meta.root, meta.freelist, meta.pgid), (0, 0, 0));
    assert!(meta.validate().is_ok());
}

#[test]
fn validate_reports_each_fault() {
    let good = sample();
    assert!(good.validate().is_ok());
    assert!(matches!(
        (Meta { magic: MAGIC_KEY + 1, ..good }).validate(),
        Err(Error::DatabaseInvalid)
    ));
    assert!(matches!(
        (Meta { version: VERSION + 1, ..good }).validate(),
        Err(Error::DatabaseVersionMismatch)
    ));
    assert!(matches!(
        (Meta { magic: 0, version: 0, ..good }).validate(),
        Err(Error::DatabaseInvalid)
    ));
    assert!(matches!(
        (Meta { checksum: good.checksum ^ 1, ..good }).validate(),
        Err(Error::ChecksumError)
    ));
    assert!(matches!((Meta { root: 8, ..good }).validate(), Err(Error::ChecksumError)));
    assert!((Meta { root: 8, checksum: 0, ..good }).validate().is_ok());
}

#[test]
fn checksum_is_fnv1a_over_all_other_fields() {
    assert_eq!(hash(b""), 0xcbf2_9ce4_8422_2325);
    assert_eq!(hash(b"a"), 0xaf63_dc4c_8601_ec8c);
    assert_eq!(hash(b"foobar"), 0x8594_4171_f739_67e8);
    assert_eq!(hash_more(hash_more(FNV_OFFSET, b"foo"), b"bar"), hash(b"foobar"));

    let meta = sample();
    let bytes = meta.to_bytes();
    assert_eq!(bytes.len(), META_SIZE);
    let mut body = bytes[..16].to_vec();
    body.extend_from_slice(&bytes[24..]);
    assert_eq!(meta.checksum, hash(&body));
    assert_eq!(meta.compute_checksum(), meta.checksum);
    assert_eq!((Meta { checksum: 0, ..meta }).compute_checksum(), meta.checksum);
}

#[test]
fn record_layout_is_fixed() {
    let meta = Meta {
        magic: 0x0BADC0DE,
        version: 1,
        flags: 0x01020304,
        page_size: 4096,
        checksum: 0x1122334455667788,
        transaction_id: 0x0102030405060708,
        little_endian: true,
        root: 2,
        freelist: 3,
        pgid: 4,
    };
    let bytes = meta.to_bytes();
    assert_eq!(&bytes[0..4], &[0xDE, 0xC0, 0xAD, 0x0B]);
    assert_eq!(&bytes[4..8], &[1, 0, 0, 0]);
    assert_eq!(&bytes[8..12], &[4, 3, 2, 1]);
    assert_eq!(&bytes[12..16], &[0, 0x10, 0, 0]);
    assert_eq!(&bytes[16..24], &[0x88, 0x77, 0x66, 0x55, 0x44, 0x33, 0x22, 0x11]);
    assert_eq!(&bytes[24..32], &[8, 7, 6, 5, 4, 3, 2, 1]);
    assert_eq!(bytes[32], 1);
    assert_eq!(&bytes[33..41], &[2, 0, 0, 0, 0, 0, 0, 0]);
    assert_eq!(&bytes[41..49], &[3, 0, 0, 0, 0, 0, 0, 0]);
    assert_eq!(&bytes[49..57], &[4, 0, 0, 0, 0, 0, 0, 0]);
    assert_eq!(Meta::read(&bytes).unwrap(), meta);
}

#[test]
fn write_and_read_round_trip() {
    let meta = sample();
    let mut page = vec![0xEEu8; 200];
    meta.write(&mut page, 100).unwrap();
    assert!(page[..100].iter().all(|b| *b == 0xEE));
    assert!(page[157..].iter().all(|b| *b == 0xEE));
    assert_eq!(Meta::read(&page[100..]).unwrap(), meta);
    assert_eq!(Meta::load(&page[100..]).unwrap(), meta);
    assert!(matches!(meta.write(&mut page, 144), Err(Error::PageOutOfBounds)));
    assert!(matches!(Meta::read(&page[..56]), Err(Error::PageOutOfBounds)));
    let mut short = vec![0u8; 10];
    assert!(matches!(meta.write(&mut short, 0), Err(Error::PageOutOfBounds)));
    assert_eq!(short, vec![0u8; 10]);
}

#[test]
fn every_single_byte_change_is_detected() {
    let meta = sample();
    assert_ne!(meta.checksum, 0);
    let bytes = meta.to_bytes();
    for at in 0..META_SIZE {
        for flip in [0x01u8, 0x80, 0xFF, 0x5A] {
            let mut changed = bytes.clone();
            changed[at] ^= flip;
            let result = Meta::load(&changed);
            if at < 4 {
                assert!(matches!(result, Err(Error::DatabaseInvalid)));
            } else if at < 8 {
                assert!(matches!(result, Err(Error::DatabaseVersionMismatch)));
            } else if at == 32 && changed[at] > 1 {
                assert!(matches!(result, Err(Error::DatabaseInvalid)));
            } else {
                assert!(matches!(result, Err(Error::ChecksumError)), "byte {}", at);
            }
        }
    }
}

#[test]
fn zero_checksum_switches_the_check_off() {
    let meta = Meta { checksum: 0x100, ..Meta::default() };
    assert!(matches!(meta.validate(), Err(Error::ChecksumError)));
    let mut bytes = meta.to_bytes();
    bytes[17] = 0;
    assert_eq!(Meta::load(&bytes).unwrap(), Meta::default());
}

#[test]
fn torn_record_never_validates() {
    for txid in 0..50u64 {
        let meta = (Meta { transaction_id: txid, ..Meta::default() }).sealed();
        let torn = meta.staged();
        assert_ne!(torn.checksum, 0);
        assert_ne!(torn.checksum, meta.checksum);
        assert!(matches!(torn.validate(), Err(Error::ChecksumError)));
        assert_eq!(Meta { checksum: meta.checksum, ..torn }, meta);
    }
}

#[test]
fn select_prefers_valid_and_newer() {
    let five = (Meta { transaction_id: 5, ..Meta::default() }).sealed();
    let seven = (Meta { transaction_id: 7, ..Meta::default() }).sealed();
    assert_eq!(Meta::select(Ok(five), Ok(seven)).unwrap(), (1, seven));
    assert_eq!(Meta::select(Ok(seven), Ok(five)).unwrap(), (0, seven));
    assert_eq!(Meta::select(Ok(five), Ok(five)).unwrap(), (0, five));
    assert_eq!(Meta::select(Ok(five), Err(Error::ChecksumError)).unwrap(), (0, five));
    assert_eq!(Meta::select(Err(Error::DatabaseInvalid), Ok(five)).unwrap(), (1, five));
    assert!(matches!(
        Meta::select(Err(Error::ChecksumError), Err(Error::DatabaseVersionMismatch)),
        Err(Error::DatabaseInvalid)
    ));
}

#[test]
fn settings_defaults_and_fill_target() {
    let settings = Settings::default();
    assert!(settings.auto_create);
    assert!(!settings.read_only);
    assert_eq!(settings.initial_mmap_size, 0);
    assert_eq!(settings.fill_percent, 50);
    assert_eq!(settings.fill_target(), 50);
    assert_eq!((Settings { fill_percent: 0, ..settings }).fill_target(), 10);
    assert_eq!((Settings { fill_percent: 9, ..settings }).fill_target(), 10);
    assert_eq!((Settings { fill_percent: 10, ..settings }).fill_target(), 10);
    assert_eq!((Settings { fill_percent: 100, ..settings }).fill_target(), 100);
    assert_eq!((Settings { fill_percent: 101, ..settings }).fill_target(), 100);
    assert!(!settings.batching());
    assert!((Settings { max_batch_size: 10, max_batch_delay: 5, ..settings }).batching());
    assert!(!(Settings { max_batch_size: 10, max_batch_delay: 0, ..settings }).batching());
    assert!(!(Settings { max_batch_size: -1, max_batch_delay: 5, ..settings }).batching());
    assert!(settings.sync_on_commit());
    assert!(settings.sync_on_grow());
    assert!(!(Settings { no_sync: true, ..settings }).sync_on_commit());
    assert!(!(Settings { no_sync: true, ..settings }).sync_on_grow());
    assert!(!(Settings { no_grow_sync: true, ..settings }).sync_on_grow());
    assert!((Settings { no_grow_sync: true, ..settings }).sync_on_commit());
}

#[test]
fn error_messages() {
    assert_eq!(Error::DatabaseNotFound.message(), "No valid database found at the given path.");
    assert_eq!(Error::ValueTooLarge.message(), "Value too large to encode.");
    assert!(Error::DatabaseInvalid.message().starts_with("Invalid database"));
    assert!(Error::DatabaseVersionMismatch.message().starts_with("Version mismatch"));
    assert!(Error::ChecksumError.message().starts_with("Checksum error"));
    let io = std::io::Error::new(std::io::ErrorKind::Other, "disk on fire");
    let wrapped = Error::from(io);
    assert!(matches!(wrapped, Error::Io(_)));
    assert_eq!(wrapped.message(), "disk on fire");
    let all = [
        Error::DatabaseNotFound,
        Error::DatabaseInvalid,
        Error::DatabaseVersionMismatch,
        Error::ChecksumError,
        Error::DatabaseNotOpen,
        Error::DatabaseOpen,
        Error::TransactionReadOnly,
        Error::TxInProgress,
        Error::ReaderTableFull,
        Error::ValueTooLarge,
        Error::PageOutOfBounds,
        Error::BucketNotFound,
    ];
    for (i, a) in all.iter().enumerate() {
        assert!(!a.message().is_empty());
        for b in all.iter().skip(i + 1) {
            assert_ne!(a.message(), b.message());
        }
    }
}
