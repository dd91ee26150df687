use oxygendb::errors::Error;
use oxygendb::mmap_array::{JumpTable, HEADER_SIZE};

#[test]
fn jump_table_stores_numbers_by_place() {
    assert_eq!(HEADER_SIZE, 64);
    assert_eq!(JumpTable::calculate_length(0), Some(64));
    assert_eq!(JumpTable::calculate_length(10), Some(144));
    assert_eq!(JumpTable::calculate_length(u64::MAX), None);

    let mut table = JumpTable::new(Vec::new(), 4).unwrap();
    assert_eq!(table.len(), 4);
    assert_eq!(table.as_bytes().len(), 64 + 32);
    assert_eq!(&table.as_bytes()[0..4], &0xBADC0DEu32.to_le_bytes());
    assert_eq!(&table.as_bytes()[32..36], &1u32.to_le_bytes());
    for i in 0..4 {
        assert_eq!(table.get(i).unwrap(), 0);
    }
    table.set(2, 0x1122334455667788).unwrap();
    table.set(0, 7).unwrap();
    assert_eq!(table.get(2).unwrap(), 0x1122334455667788);
    assert_eq!(table.get(0).unwrap(), 7);
    assert_eq!(table.get(1).unwrap(), 0);
    assert_eq!(&table.as_bytes()[64 + 16..64 + 24], &0x1122334455667788u64.to_le_bytes());
    assert!(matches!(table.set(4, 1), Err(Error::PageOutOfBounds)));
    assert!(matches!(table.get(4), Err(Error::PageOutOfBounds)));
    assert!(matches!(table.get(u64::MAX), Err(Error::PageOutOfBounds)));

    table.expand(6).unwrap();
    assert_eq!(table.len(), 6);
    assert_eq!(table.get(2).unwrap(), 0x1122334455667788);
    assert_eq!(table.get(5).unwrap(), 0);
    table.expand(3).unwrap();
    assert_eq!(table.len(), 6);
    assert!(matches!(table.expand(u64::MAX), Err(Error::ValueTooLarge)));

    let image = table.as_bytes().to_vec();
    let again = JumpTable::new(image.clone(), 8).unwrap();
    assert_eq!(again.get(2).unwrap(), 0x1122334455667788);
    assert_eq!(again.get(7).unwrap(), 0);
    assert!(matches!(JumpTable::new(image, 5), Err(Error::PageOutOfBounds)));
    assert!(matches!(JumpTable::new(Vec::new(), u64::MAX), Err(Error::ValueTooLarge)));
}
