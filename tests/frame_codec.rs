use actionkv::frame::{decode_checked, encode_with_checksum, HEADER_LEN};
use actionkv::{decode, encode, KeyValuePair, KvError};

fn pair(key: &[u8], value: &[u8]) -> KeyValuePair {
    KeyValuePair { key: key.to_vec(), value: value.to_vec() }
}

#[test]
fn round_trip_plain() {
    let f = encode(b"hello", b"world");
    assert_eq!(f.len(), HEADER_LEN + 10);
    assert_eq!(decode(&f, 0), Ok(Some((pair(b"hello", b"world"), f.len()))));
}

#[test]
fn round_trip_empty_key_and_value() {
    for (k, v) in [(&b""[..], &b""[..]), (&b""[..], &b"v"[..]), (&b"k"[..], &b""[..])] {
        let f = encode(k, v);
        assert_eq!(decode(&f, 0), Ok(Some((pair(k, v), f.len()))));
    }
}

#[test]
fn round_trip_binary_bytes() {
    let key: Vec<u8> = (0..=255u8).collect();
    let value = vec![0u8, 0xff, 0x80, 0x7f];
    let f = encode(&key, &value);
    assert_eq!(decode(&f, 0), Ok(Some((pair(&key, &value), f.len()))));
}

#[test]
fn decode_at_offset_among_other_frames() {
    let mut log = encode(b"a", b"1");
    let second = log.len();
    log.extend(encode(b"bb", b"22"));
    assert_eq!(decode(&log, second), Ok(Some((pair(b"bb", b"22"), log.len()))));
    assert_eq!(decode(&log, 0), Ok(Some((pair(b"a", b"1"), second))));
}

#[test]
fn encode_known_checksum() {
    // CRC-32/ISO-HDLC of "123456789" is 0xCBF43926.
    let f = encode(b"1234", b"56789");
    assert_eq!(&f[0..4], &[0x26, 0x39, 0xf4, 0xcb]);
    assert_eq!(&f[4..8], &[4, 0, 0, 0]);
    assert_eq!(&f[8..12], &[5, 0, 0, 0]);
    assert_eq!(&f[12..], b"123456789");
}

#[test]
fn encode_empty_frame_has_zero_checksum() {
    assert_eq!(encode(b"", b""), vec![0u8; 12]);
}

#[test]
fn encode_with_given_checksum() {
    let f = encode_with_checksum(0x0102_0304, b"k", b"vv");
    assert_eq!(f, vec![4, 3, 2, 1, 1, 0, 0, 0, 2, 0, 0, 0, b'k', b'v', b'v']);
}

#[test]
fn decode_clean_end() {
    assert_eq!(decode(&[], 0), Ok(None));
    let f = encode(b"a", b"b");
    assert_eq!(decode(&f, f.len()), Ok(None));
    assert_eq!(decode(&f[..11], 0), Ok(None));
}

#[test]
fn decode_truncated_payload() {
    let f = encode(b"key", b"value");
    for cut in HEADER_LEN..f.len() {
        assert_eq!(decode(&f[..cut], 0), Err(KvError::Truncated { offset: 0 }));
    }
}

#[test]
fn decode_reports_every_flipped_payload_bit() {
    let f = encode(b"key", b"value");
    let expected = u32::from_le_bytes([f[0], f[1], f[2], f[3]]);
    for i in HEADER_LEN..f.len() {
        for bit in 0..8 {
            let mut g = f.clone();
            g[i] ^= 1 << bit;
            match decode(&g, 0) {
                Err(KvError::Corrupt { offset, expected: e, actual }) => {
                    assert_eq!(offset, 0);
                    assert_eq!(e, expected);
                    assert_ne!(actual, expected);
                }
                other => panic!("flip at byte {} bit {} gave {:?}", i, bit, other),
            }
        }
    }
}

#[test]
fn decode_corrupt_checksum_field() {
    let mut f = encode(b"key", b"value");
    f[0] ^= 0x01;
    assert!(matches!(decode(&f, 0), Err(KvError::Corrupt { offset: 0, .. })));
}

#[test]
fn decode_checked_accepts_matching_checksum() {
    let f = encode_with_checksum(0xdead_beef, b"k", b"v");
    assert_eq!(decode_checked(&f, 0, 0xdead_beef), Ok(Some((pair(b"k", b"v"), f.len()))));
}

#[test]
fn decode_checked_rejects_other_checksum() {
    let f = encode_with_checksum(0xdead_beef, b"k", b"v");
    assert_eq!(
        decode_checked(&f, 0, 1),
        Err(KvError::Corrupt { offset: 0, expected: 0xdead_beef, actual: 1 })
    );
}

#[test]
fn decode_checked_truncation_and_end_ignore_checksum() {
    let f = encode_with_checksum(5, b"key", b"value");
    assert_eq!(decode_checked(&f[..f.len() - 1], 0, 5), Err(KvError::Truncated { offset: 0 }));
    assert_eq!(decode_checked(&f[..HEADER_LEN - 1], 0, 5), Ok(None));
}

#[test]
fn decode_of_encode_with_wrong_checksum_is_corrupt() {
    let f = encode_with_checksum(0, b"1234", b"56789");
    assert_eq!(
        decode(&f, 0),
        Err(KvError::Corrupt { offset: 0, expected: 0, actual: 0xcbf4_3926 })
    );
}
