use tinylfu_cache::entry::{decode_uvarint, encode_uvarint, new_entry, size_varint, Value};

#[test]
fn test_uvarint() {}

#[test]
fn test_value() {
    let v = Value { meta: 2, v: "1".to_string().into_bytes(), expires_at: 123456, version: 1 };
    let mut data = vec![0; 100];
    let end = v.encode_value(&mut data, 0) as usize;
    let mut vv = Value { meta: 2, v: vec![], expires_at: 123456, version: 1 };
    vv.decode_value(&data[0..end]);
    assert_eq!(v.v, vv.v);
}

#[test]
fn round_trip_all_fields() {
    let v = Value {
        meta: 7,
        v: b"payload bytes".to_vec(),
        expires_at: 1234567890,
        version: 9,
    };
    let mut buf = vec![0u8; 64];
    let n = v.encode_value(&mut buf, 3) as usize;
    assert_eq!(n, v.encoded_size());
    let mut out = Value::default();
    out.decode_value(&buf[3..3 + n]);
    assert_eq!(out.meta, 7);
    assert_eq!(out.expires_at, 1234567890);
    assert_eq!(out.v, b"payload bytes".to_vec());
}

#[test]
fn varint_sizes_match_encoder() {
    let cases: Vec<u64> = vec![0, 1, 127, 128, 16383, 16384, 1234567890, u64::MAX];
    for x in cases {
        let mut buf = vec![0u8; 16];
        let n = encode_uvarint(&mut buf, 0, x);
        assert_eq!(n, size_varint(x));
        let (y, used) = decode_uvarint(&buf[0..n]);
        assert_eq!(y, x);
        assert_eq!(used, n as isize);
    }
    assert_eq!(size_varint(0), 1);
}

#[test]
fn varint_overflow_is_malformed() {
    // eleven continuation bytes: the run exceeds 64 bits
    let buf = vec![0x80u8; 11];
    let (y, used) = decode_uvarint(&buf);
    assert_eq!((y, used), (0, -11));
    // ten bytes whose last digit is too large
    let mut buf2 = vec![0x80u8; 10];
    buf2[9] = 2;
    let (y2, used2) = decode_uvarint(&buf2);
    assert_eq!((y2, used2), (0, -10));
    // a run cut short by the end of the buffer
    let buf3 = vec![0x80u8; 3];
    let (y3, used3) = decode_uvarint(&buf3);
    assert_eq!((y3, used3), (0, 0));
    // decoding a malformed value yields the discardable sentinel
    let mut v = Value { meta: 9, v: vec![1], expires_at: 5, version: 3 };
    let mut enc = vec![7u8];
    enc.extend_from_slice(&[0x80u8; 11]);
    v.decode_value(&enc);
    assert_eq!(v.meta, 7);
    assert_eq!(v.expires_at, 0);
    assert!(v.v.is_empty());
    assert_eq!(v.version, 3);
}

#[test]
fn entry_builder_copies_bytes() {
    let e = new_entry(b"some key 1", b"some value");
    assert_eq!(e.key, b"some key 1".to_vec());
    assert_eq!(e.value, b"some value".to_vec());
    assert_eq!(e.meta, 0);
    assert_eq!(e.version, 0);
}
