use oxygendb::enc::{
    decode_leb_u32, decode_leb_u64, decode_varint_u64, encode, encode_leb_u32, encode_leb_u64,
    encode_varint_u64, encode_with_offset, from_ptr, from_ptr_with_offset,
};
use oxygendb::errors::Error;

const TEST_NUMBERS: [u64; 30] = [
    0,
    1,
    254,
    255,
    256,
    1023,
    1024,
    1025,
    12742,
    12743,
    12744,
    65534,
    65535,
    65536,
    78277,
    78278,
    78279,
    16777214,
    16777215,
    16777217,
    4294967294,
    4294967295,
    4294967296,
    1099511627774,
    1099511627775,
    1099511627776,
    281474976710654,
    281474976710655,
    72057594037927934,
    72057594037927935,
];

type Encoder = fn(&mut Vec<u8>, u64) -> Result<u64, Error>;
type Decoder = fn(&[u8]) -> Result<u64, Error>;

fn encode_decode_range(enc: Encoder, dec: Decoder, full_range: bool, test_subset: bool) {
    if full_range {
        for sut in 0..1000000u64 {
            let mut target = vec![0u8; 8];
            enc(&mut target, sut).unwrap();
            assert_eq!(dec(&target).unwrap(), sut);
        }
    }
    if test_subset {
        for sut in TEST_NUMBERS.iter() {
            let mut target = vec![0u8; 8];
            enc(&mut target, *sut).unwrap();
            assert_eq!(dec(&target).unwrap(), *sut);
        }
    }
}

fn full_test_suite(enc: Encoder, dec: Decoder) {
    encode_decode_range(enc, dec, true, true);
}

#[test]
fn can_encode_and_decode_varint_64() {
    full_test_suite(encode_varint_u64, decode_varint_u64);
}

#[test]
fn can_encode_and_decode_leb_64() {
    full_test_suite(encode_leb_u64, decode_leb_u64);
}

#[test]
fn can_encode_and_decode_int32() {
    for sut in [0u32, 1, 0xBADC0DE, 0x1234_5678, u32::MAX] {
        let mut target = vec![0u8; 4];
        encode(&mut target, sut).unwrap();
        assert_eq!(from_ptr::<u32>(&target).unwrap(), sut);
    }
}

#[test]
fn can_encode_and_decode_leb32() {
    for sut in [0u32, 1, 127, 128, 16383, 16384, 2097151, 2097152, 268435455, 268435456, u32::MAX] {
        let mut target = vec![0u8; 5];
        encode_leb_u32(&mut target, sut).unwrap();
        assert_eq!(decode_leb_u32(&target).unwrap(), sut);
    }
}

#[test]
fn fixed_width_is_little_endian() {
    let mut target = vec![0xEEu8; 12];
    encode_with_offset(&mut target, 2, 0x0102_0304_0506_0708u64).unwrap();
    assert_eq!(target, vec![0xEE, 0xEE, 8, 7, 6, 5, 4, 3, 2, 1, 0xEE, 0xEE]);
    assert_eq!(from_ptr_with_offset::<u64>(&target, 2).unwrap(), 0x0102_0304_0506_0708);
    assert_eq!(from_ptr_with_offset::<u16>(&target, 2).unwrap(), 0x0708);
    assert_eq!(from_ptr_with_offset::<u8>(&target, 9).unwrap(), 1);
    encode(&mut target, 0xABCDu16).unwrap();
    assert_eq!(&target[..3], &[0xCD, 0xAB, 8]);
}

#[test]
fn fixed_width_rejects_out_of_bounds() {
    let mut target = vec![7u8; 4];
    assert!(matches!(encode_with_offset(&mut target, 1, 1u32), Err(Error::PageOutOfBounds)));
    assert!(matches!(encode_with_offset(&mut target, u64::MAX, 1u8), Err(Error::PageOutOfBounds)));
    assert!(matches!(encode(&mut target, 1u64), Err(Error::PageOutOfBounds)));
    assert_eq!(target, vec![7u8; 4]);
    assert!(matches!(from_ptr::<u64>(&target), Err(Error::PageOutOfBounds)));
    assert!(matches!(from_ptr_with_offset::<u16>(&target, 3), Err(Error::PageOutOfBounds)));
    assert!(matches!(from_ptr_with_offset::<u8>(&target, 4), Err(Error::PageOutOfBounds)));
    assert_eq!(from_ptr_with_offset::<u8>(&target, 3).unwrap(), 7);
}

#[test]
fn varint_follows_the_range_table() {
    let cases: [(u64, &[u8]); 16] = [
        (0, &[0]),
        (200, &[200]),
        (201, &[201, 1]),
        (455, &[201, 255]),
        (456, &[202, 0]),
        (4096, &[216, 56]),
        (12743, &[249, 255]),
        (12744, &[250, 1, 0]),
        (78278, &[250, 255, 255]),
        (78279, &[251, 0xC7, 0x31, 0x01]),
        (0xFF_FFFF, &[251, 255, 255, 255]),
        (0x100_0000, &[252, 0, 0, 0, 1]),
        (0xFFFF_FFFF, &[252, 255, 255, 255, 255]),
        (0x1_0000_0000, &[253, 0, 0, 0, 0, 1]),
        (0x1_0000_0000_0000, &[255, 0, 0, 0, 0, 0, 0, 1]),
        (0xFF_FFFF_FFFF_FFFF, &[255, 255, 255, 255, 255, 255, 255, 255]),
    ];
    for (value, bytes) in cases.iter() {
        let mut target = vec![0xAAu8; 9];
        let written = encode_varint_u64(&mut target, *value).unwrap();
        assert_eq!(written as usize, bytes.len());
        assert_eq!(&target[..bytes.len()], *bytes);
        assert!(target[bytes.len()..].iter().all(|b| *b == 0xAA));
        assert_eq!(decode_varint_u64(bytes).unwrap(), *value);
    }
}

#[test]
fn varint_rejects_values_above_the_ceiling() {
    let mut target = vec![3u8; 16];
    assert!(matches!(encode_varint_u64(&mut target, 1 << 56), Err(Error::ValueTooLarge)));
    assert!(matches!(encode_varint_u64(&mut target, u64::MAX), Err(Error::ValueTooLarge)));
    assert_eq!(target, vec![3u8; 16]);
    assert_eq!(encode_varint_u64(&mut target, (1 << 56) - 1).unwrap(), 8);
}

#[test]
fn varint_never_reads_or_writes_past_its_span() {
    let mut short = vec![9u8; 2];
    assert!(matches!(encode_varint_u64(&mut short, 12744), Err(Error::PageOutOfBounds)));
    assert_eq!(short, vec![9u8; 2]);
    let mut empty: Vec<u8> = Vec::new();
    assert!(matches!(encode_varint_u64(&mut empty, 0), Err(Error::PageOutOfBounds)));
    assert!(matches!(decode_varint_u64(&[]), Err(Error::PageOutOfBounds)));
    assert!(matches!(decode_varint_u64(&[201]), Err(Error::PageOutOfBounds)));
    assert!(matches!(decode_varint_u64(&[250, 1]), Err(Error::PageOutOfBounds)));
    assert!(matches!(decode_varint_u64(&[255, 1, 2, 3, 4, 5, 6]), Err(Error::PageOutOfBounds)));
    assert_eq!(decode_varint_u64(&[5, 0xFF, 0xFF]).unwrap(), 5);
    assert_eq!(decode_varint_u64(&[201, 1, 0xFF]).unwrap(), 201);
}

#[test]
fn leb_encoding_is_exact() {
    let cases: [(u64, &[u8]); 7] = [
        (0, &[0]),
        (127, &[127]),
        (128, &[0x80, 1]),
        (300, &[0xAC, 0x02]),
        (16384, &[0x80, 0x80, 1]),
        (1 << 63, &[0x80, 0x80, 0x80, 0x80, 0x80, 0x80, 0x80, 0x80, 0x80, 1]),
        (u64::MAX, &[0xFF, 0xFF, 0xFF, 0xFF, 0xFF, 0xFF, 0xFF, 0xFF, 0xFF, 1]),
    ];
    for (value, bytes) in cases.iter() {
        let mut target = vec![0x55u8; 11];
        let last = encode_leb_u64(&mut target, *value).unwrap();
        assert_eq!(last as usize, bytes.len() - 1);
        assert_eq!(&target[..bytes.len()], *bytes);
        assert!(target[bytes.len()..].iter().all(|b| *b == 0x55));
        assert_eq!(decode_leb_u64(bytes).unwrap(), *value);
    }
}

#[test]
fn leb_reports_truncation_and_long_groups() {
    let mut short = vec![1u8; 1];
    assert!(matches!(encode_leb_u64(&mut short, 128), Err(Error::PageOutOfBounds)));
    assert_eq!(short, vec![1u8]);
    assert!(matches!(decode_leb_u64(&[]), Err(Error::PageOutOfBounds)));
    assert!(matches!(decode_leb_u64(&[0x80, 0x80]), Err(Error::PageOutOfBounds)));
    assert!(matches!(decode_leb_u32(&[0x80, 0x80]), Err(Error::PageOutOfBounds)));
    let eleven = [0x80, 0x80, 0x80, 0x80, 0x80, 0x80, 0x80, 0x80, 0x80, 0x80, 1];
    assert!(matches!(decode_leb_u64(&eleven), Err(Error::ValueTooLarge)));
    assert!(matches!(decode_leb_u32(&eleven), Err(Error::ValueTooLarge)));
    let padded = [0x85, 0x80, 0x80, 0x80, 0x80, 0x80, 0x80, 0x80, 0x80, 0x80, 0x80, 0];
    assert!(matches!(decode_leb_u64(&padded), Err(Error::ValueTooLarge)));
    let unending = [0x80u8; 12];
    assert!(matches!(decode_leb_u64(&unending), Err(Error::PageOutOfBounds)));
}

#[test]
fn leb_keeps_the_low_bits_of_what_a_group_spells() {
    let all_set = [0xFF, 0xFF, 0xFF, 0xFF, 0xFF, 0xFF, 0xFF, 0xFF, 0xFF, 0x7F];
    assert_eq!(decode_leb_u64(&all_set).unwrap(), u64::MAX);
    let even_top = [0xFF, 0xFF, 0xFF, 0xFF, 0xFF, 0xFF, 0xFF, 0xFF, 0xFF, 2];
    assert_eq!(decode_leb_u64(&even_top).unwrap(), u64::MAX >> 1);
    let odd_top = [0x81, 0x80, 0x80, 0x80, 0x80, 0x80, 0x80, 0x80, 0x80, 3];
    assert_eq!(decode_leb_u64(&odd_top).unwrap(), (1 << 63) | 1);
    let zeros = [0x85, 0x80, 0x80, 0x80, 0x80, 0x80, 0x80, 0x80, 0x80, 0];
    assert_eq!(decode_leb_u64(&zeros).unwrap(), 5);

    assert_eq!(decode_leb_u32(&[0xFF, 0xFF, 0xFF, 0xFF, 0x0F]).unwrap(), u32::MAX);
    assert_eq!(decode_leb_u32(&[0x80, 0x80, 0x80, 0x80, 0x10]).unwrap(), 0);
    assert_eq!(decode_leb_u32(&[0x87, 0x80, 0x80, 0x80, 0x10]).unwrap(), 7);
    assert_eq!(decode_leb_u32(&all_set).unwrap(), u32::MAX);
    assert_eq!(decode_leb_u32(&odd_top).unwrap(), 1);
}

#[test]
fn leb_writers_say_where_they_ended() {
    for (value, bytes) in [(0u64, 1u64), (127, 1), (128, 2), (16383, 2), (16384, 3), (u64::MAX, 10)] {
        let mut target = vec![0u8; 10];
        assert_eq!(encode_leb_u64(&mut target, value).unwrap(), bytes - 1);
    }
    for (value, bytes) in [(0u32, 1u64), (127, 1), (128, 2), (1 << 21, 4), (u32::MAX, 5)] {
        let mut target = vec![0u8; 5];
        assert_eq!(encode_leb_u32(&mut target, value).unwrap(), bytes);
    }
}
