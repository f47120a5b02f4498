use simple_geyser::codec::{load_le, store_bytes, store_le, Record};
use simple_geyser::{IDENTITY_SIZE, RECORD_SIZE};

fn counting_identity() -> [u8; IDENTITY_SIZE] {
    let mut identity = [0u8; IDENTITY_SIZE];
    for (i, byte) in identity.iter_mut().enumerate() {
        *byte = i as u8 + 1;
    }
    identity
}

#[test]
fn record_width_is_forty_two_bytes() {
    assert_eq!(IDENTITY_SIZE, 32);
    assert_eq!(RECORD_SIZE, 42);
    assert_eq!(RECORD_SIZE, IDENTITY_SIZE + 8 + 2);
}

#[test]
fn encode_lays_fields_out_little_endian_without_padding() {
    let record = Record {
        identity: counting_identity(),
        wallclock: 0x0102_0304_0506_0708,
        version: 0xABCD,
    };
    let bytes = record.encode();
    assert_eq!(bytes.len(), 42);
    let mut expected: Vec<u8> = (1u8..=32).collect();
    expected.extend_from_slice(&[0x08, 0x07, 0x06, 0x05, 0x04, 0x03, 0x02, 0x01]);
    expected.extend_from_slice(&[0xCD, 0xAB]);
    assert_eq!(bytes, expected);
}

#[test]
fn encode_agrees_with_the_platform_conversions() {
    let record = Record { identity: [0x5A; 32], wallclock: 1_700_000_000_123, version: 50_093 };
    let bytes = record.encode();
    assert_eq!(&bytes[..32], &[0x5A; 32]);
    assert_eq!(&bytes[32..40], &1_700_000_000_123u64.to_le_bytes());
    assert_eq!(&bytes[40..42], &50_093u16.to_le_bytes());
}

#[test]
fn decode_inverts_encode() {
    let records = [
        Record { identity: [0; 32], wallclock: 0, version: 0 },
        Record { identity: [0xFF; 32], wallclock: u64::MAX, version: u16::MAX },
        Record { identity: counting_identity(), wallclock: 1, version: 256 },
        Record { identity: [7; 32], wallclock: 0x8000_0000_0000_0000, version: 0x00FF },
        Record { identity: [9; 32], wallclock: 255, version: 0xFF00 },
    ];
    for record in records {
        let bytes = record.encode();
        assert_eq!(bytes.len(), RECORD_SIZE);
        assert_eq!(Record::decode(&bytes), Some(record));
    }
}

#[test]
fn encode_inverts_decode() {
    let mut bytes = [0u8; 42];
    for (i, byte) in bytes.iter_mut().enumerate() {
        *byte = (i as u8).wrapping_mul(37).wrapping_add(11);
    }
    let record = Record::decode(&bytes).unwrap();
    assert_eq!(record.encode(), bytes.to_vec());
}

#[test]
fn decode_reads_each_field_from_its_place() {
    let mut bytes = vec![0u8; 42];
    bytes[0] = 0xAA;
    bytes[31] = 0xBB;
    bytes[32] = 0x01;
    bytes[39] = 0x02;
    bytes[40] = 0x03;
    bytes[41] = 0x04;
    let record = Record::decode(&bytes).unwrap();
    assert_eq!(record.identity[0], 0xAA);
    assert_eq!(record.identity[31], 0xBB);
    assert_eq!(record.identity[1..31], [0u8; 30]);
    assert_eq!(record.wallclock, 0x0200_0000_0000_0001);
    assert_eq!(record.version, 0x0403);
}

#[test]
fn decode_turns_down_any_other_length() {
    assert_eq!(Record::decode(&[]), None);
    assert_eq!(Record::decode(&[0u8; 41]), None);
    assert_eq!(Record::decode(&[0u8; 43]), None);
    assert_eq!(Record::decode(&[0u8; 84]), None);
    assert!(Record::decode(&[0u8; 42]).is_some());
}

#[test]
fn encode_into_touches_only_its_forty_two_bytes() {
    let record = Record { identity: [3; 32], wallclock: 77, version: 5 };
    let mut buf = vec![0xEEu8; 50];
    record.encode_into(&mut buf, 4);
    assert_eq!(&buf[..4], &[0xEE; 4]);
    assert_eq!(&buf[4..46], record.encode().as_slice());
    assert_eq!(&buf[46..], &[0xEE; 4]);
}

#[test]
fn decode_from_reads_at_the_offset() {
    let record = Record { identity: counting_identity(), wallclock: 123_456_789, version: 4242 };
    let mut buf = vec![0x11u8; 100];
    record.encode_into(&mut buf, 58);
    assert_eq!(Record::decode_from(&buf, 58), record);
    assert_eq!(
        Record::decode_from(&buf, 0),
        Record { identity: [0x11; 32], wallclock: 0x1111_1111_1111_1111, version: 0x1111 }
    );
}

#[test]
fn store_le_writes_least_significant_byte_first() {
    let mut buf = vec![0xFFu8; 12];
    store_le(&mut buf, 2, 8, 0x1122_3344_5566_7788);
    assert_eq!(
        buf,
        vec![0xFF, 0xFF, 0x88, 0x77, 0x66, 0x55, 0x44, 0x33, 0x22, 0x11, 0xFF, 0xFF]
    );
}

#[test]
fn store_le_keeps_only_the_low_bytes_of_the_width() {
    let mut buf = vec![0u8; 4];
    store_le(&mut buf, 1, 2, 0x0012_3456);
    assert_eq!(buf, vec![0x00, 0x56, 0x34, 0x00]);
    store_le(&mut buf, 0, 0, 0xFFFF);
    assert_eq!(buf, vec![0x00, 0x56, 0x34, 0x00]);
}

#[test]
fn load_le_reads_what_store_le_wrote() {
    let mut buf = vec![0u8; 16];
    for value in [0u64, 1, 255, 256, 65_535, 65_536, u64::MAX - 1, u64::MAX] {
        store_le(&mut buf, 5, 8, value);
        assert_eq!(load_le(&buf, 5, 8), value);
    }
    store_le(&mut buf, 0, 2, 0xBEEF);
    assert_eq!(load_le(&buf, 0, 2), 0xBEEF);
    assert_eq!(load_le(&buf, 0, 1), 0xEF);
    assert_eq!(load_le(&buf, 1, 1), 0xBE);
    assert_eq!(load_le(&buf, 0, 0), 0);
}

#[test]
fn load_le_weighs_bytes_by_position() {
    let buf = [0x01u8, 0x02, 0x03, 0x04];
    assert_eq!(load_le(&buf, 0, 4), 0x0403_0201);
    assert_eq!(load_le(&buf, 1, 3), 0x04_0302);
    assert_eq!(load_le(&buf, 2, 2), 0x0403);
}

#[test]
fn store_bytes_copies_in_place() {
    let mut buf = vec![0u8; 6];
    store_bytes(&mut buf, 2, &[9, 8, 7]);
    assert_eq!(buf, vec![0, 0, 9, 8, 7, 0]);
    store_bytes(&mut buf, 6, &[]);
    assert_eq!(buf, vec![0, 0, 9, 8, 7, 0]);
}
