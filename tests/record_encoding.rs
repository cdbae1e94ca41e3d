use wal_local::record::{Error, Record, RecordEncoding, NEWEST_RECORD_ENCODING_VERSION};
use wal_local::segment::scan_from;

fn frame_of(key: &[u8], value: &[u8]) -> Vec<u8> {
    let record = Record::new(key, value).unwrap();
    let mut buf = Vec::new();
    RecordEncoding::newest().encode(&mut buf, &record).unwrap();
    buf
}

#[test]
fn test_record_encoding() {
    let key = b"test_key";
    let value = b"test_value";
    let record = Record::new(key, value).unwrap();

    let encoder = RecordEncoding::newest();
    let mut buf = Vec::new();
    encoder.encode(&mut buf, &record).unwrap();

    let expected_len = record.len();
    assert_eq!(buf.len(), expected_len);
}

#[test]
fn test_record_decoding() {
    let key = b"test_key";
    let value = b"test_value";
    let record = Record::new(key, value).unwrap();

    let encoder = RecordEncoding::newest();
    let mut buf = Vec::new();
    encoder.encode(&mut buf, &record).unwrap();

    let decoded_record = encoder.decode(&buf).unwrap();

    assert_eq!(decoded_record.version, record.version);
    assert_eq!(decoded_record.crc, record.crc);
    assert_eq!(decoded_record.length, record.length);
    assert_eq!(decoded_record.key_length, record.key_length);
    assert_eq!(decoded_record.key, record.key);
    assert_eq!(decoded_record.value_length, record.value_length);
    assert_eq!(decoded_record.value, record.value);
}

#[test]
fn frame_layout_is_exact() {
    let frame = frame_of(b"k", b"v");
    let body = [0u8, 0, 0, 1, b'k', 0, 0, 0, 1, b'v'];
    let crc = crc32fast::hash(&body).to_be_bytes();
    let mut expected = vec![0u8, crc[0], crc[1], crc[2], crc[3], 0, 0, 0, 10];
    expected.extend_from_slice(&body);
    assert_eq!(frame, expected);
    assert_eq!(frame.len(), 19);
}

#[test]
fn crc_covers_lengths_key_and_value() {
    let record = Record::new(b"abc", b"xyz").unwrap();
    let body = [0u8, 0, 0, 3, b'a', b'b', b'c', 0, 0, 0, 3, b'x', b'y', b'z'];
    assert_eq!(record.crc, crc32fast::hash(&body));
    assert_ne!(record.crc, 0);
    assert_eq!(record.length, 14);
    assert_eq!(record.len(), 23);
    assert_eq!(RecordEncoding::newest().estimate_encoded_size(&record), 23);
}

#[test]
fn round_trip_with_empty_key_and_value() {
    for (key, value) in [(&b""[..], &b""[..]), (&b"key"[..], &b""[..]), (&b""[..], &b"value"[..])] {
        let frame = frame_of(key, value);
        let decoded = RecordEncoding::newest().decode(&frame).unwrap();
        assert_eq!(decoded.key, key);
        assert_eq!(decoded.value, value);
        assert_eq!(decoded.version, NEWEST_RECORD_ENCODING_VERSION);
        assert_eq!(decoded.key_length as usize, key.len());
        assert_eq!(decoded.value_length as usize, value.len());
    }
}

#[test]
fn round_trip_ignores_trailing_bytes() {
    let mut frame = frame_of(b"k1", b"v1");
    frame.extend_from_slice(&[1, 2, 3]);
    let decoded = RecordEncoding::newest().decode(&frame).unwrap();
    assert_eq!(decoded.key, b"k1");
    assert_eq!(decoded.value, b"v1");
}

#[test]
fn every_single_bit_flip_in_body_is_detected() {
    let frame = frame_of(b"key", b"value");
    for i in 9..frame.len() {
        for bit in 0..8 {
            let mut flipped = frame.clone();
            flipped[i] ^= 1 << bit;
            match RecordEncoding::newest().decode(&flipped) {
                Err(Error::ChecksumMismatch { .. }) => {}
                _ => panic!("bit {} of byte {} not detected", bit, i),
            }
        }
    }
}

#[test]
fn short_buffer_is_length_mismatch() {
    let r = RecordEncoding::newest().decode(&[0, 1, 2]);
    assert_eq!(r.err(), Some(Error::LengthMismatch { expected: 9, actual: 3 }));
}

#[test]
fn truncated_frame_is_length_mismatch() {
    let frame = frame_of(b"key", b"value");
    let r = RecordEncoding::newest().decode(&frame[..frame.len() - 1]);
    assert_eq!(r.err(), Some(Error::LengthMismatch { expected: 16, actual: 15 }));
}

#[test]
fn other_version_is_refused() {
    let mut frame = frame_of(b"key", b"value");
    frame[0] = 7;
    let r = RecordEncoding::newest().decode(&frame);
    assert_eq!(r.err(), Some(Error::Version { expected: 0, given: 7 }));

    let mut record = Record::new(b"key", b"value").unwrap();
    record.version = 3;
    let mut buf = vec![9u8];
    let r = RecordEncoding::newest().encode(&mut buf, &record);
    assert_eq!(r, Err(Error::Version { expected: 0, given: 3 }));
    assert_eq!(buf, vec![9u8]);
}

#[test]
fn inconsistent_inner_lengths_are_invalid() {
    // A checksummed part whose key length runs past the declared length.
    let body = [0u8, 0, 0, 9, b'a', 0, 0, 0, 0];
    let crc = crc32fast::hash(&body).to_be_bytes();
    let mut frame = vec![0u8, crc[0], crc[1], crc[2], crc[3], 0, 0, 0, 9];
    frame.extend_from_slice(&body);
    let r = RecordEncoding::newest().decode(&frame);
    assert_eq!(r.err(), Some(Error::InvalidRecord { length: 9 }));
}

#[test]
fn scan_stops_at_partial_frame() {
    let first = frame_of(b"k1", b"v1");
    let second = frame_of(b"k2", b"v2");
    for cut in 1..second.len() {
        let mut buf = first.clone();
        buf.extend_from_slice(&second[..cut]);
        let (records, end) = scan_from(&RecordEncoding::newest(), &buf, 0);
        assert_eq!(records.len(), 1);
        assert_eq!(records[0].key, b"k1");
        assert_eq!(end, first.len());
        let (again, end2) = scan_from(&RecordEncoding::newest(), &buf[..end], 0);
        assert_eq!(again.len(), 1);
        assert_eq!(end2, first.len());
    }
}

#[test]
fn scan_restarts_from_an_offset() {
    let mut buf = frame_of(b"a", b"1");
    let off = buf.len();
    buf.extend_from_slice(&frame_of(b"b", b"2"));
    let (records, end) = scan_from(&RecordEncoding::newest(), &buf, off);
    assert_eq!(records.len(), 1);
    assert_eq!(records[0].key, b"b");
    assert_eq!(end, buf.len());
}
