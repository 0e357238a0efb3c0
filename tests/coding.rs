use espikey::coding::{
    decode_fixed32, decode_fixed64, decode_length_prefixed_slice, decode_varint32,
    decode_varint64, encode_fixed32, encode_fixed64, put_fixed32, put_fixed64,
    put_length_prefixed_slice, put_varint32, put_varint64,
};

#[test]
fn test_put_varint32() {
    let mut buf = Vec::new();
    put_varint32(&mut buf, 127);
    assert_eq!(buf, vec![127]);
    buf.clear();

    let mut buf = Vec::new();
    put_varint32(&mut buf, 128);
    assert_eq!(buf, vec![0x80, 0x01]);
}

#[test]
fn test_length_prefixed_slice() {
    let mut buf = Vec::new();
    put_length_prefixed_slice(&mut buf, b"hello");
    assert_eq!(buf, vec![5, b'h', b'e', b'l', b'l', b'o']);

    let (value, offset) = decode_length_prefixed_slice(&buf).unwrap();
    assert_eq!(value, b"hello");
    assert_eq!(offset, 6);
}

#[test]
fn varint64_round_trip_on_edges() {
    for v in [0u64, 1, 127, 128, 300, 16383, 16384, u32::MAX as u64, u64::MAX - 1, u64::MAX] {
        let mut buf = Vec::new();
        let n = put_varint64(&mut buf, v);
        assert_eq!(n, buf.len());
        assert!((1..=10).contains(&n));
        buf.extend_from_slice(&[0xff, 0x01]);
        assert_eq!(decode_varint64(&buf), Some((v, n)));
    }
    let mut buf = Vec::new();
    put_varint64(&mut buf, u64::MAX);
    assert_eq!(buf.len(), 10);
    assert_eq!(buf[9], 0x01);
}

#[test]
fn varint32_round_trip_and_width() {
    for v in [0u32, 5, 127, 128, 1 << 21, u32::MAX] {
        let mut buf = Vec::new();
        let n = put_varint32(&mut buf, v);
        assert!(n <= 5);
        assert_eq!(decode_varint32(&buf), Some((v, n)));
    }
    // a value past 32 bits is refused by the 32-bit reader, taken by the 64-bit one
    let mut buf = Vec::new();
    put_varint64(&mut buf, 1u64 << 32);
    assert_eq!(decode_varint32(&buf), None);
    assert_eq!(decode_varint64(&buf), Some((1u64 << 32, 5)));
}

#[test]
fn varint_decoding_failures() {
    assert_eq!(decode_varint32(&[]), None);
    assert_eq!(decode_varint32(&[0x80, 0x80]), None);
    assert_eq!(decode_varint32(&[0x80, 0x80, 0x80, 0x80, 0x80, 0x01]), None);
    // eleven bytes, or a tenth byte above one, overflow 64 bits
    assert_eq!(decode_varint64(&[0xff; 11]), None);
    let mut over = vec![0xff; 9];
    over.push(0x02);
    assert_eq!(decode_varint64(&over), None);
    // a non-minimal encoding is still read
    assert_eq!(decode_varint32(&[0x80, 0x00]), Some((0, 2)));
}

#[test]
fn length_prefixed_slice_too_short() {
    assert_eq!(decode_length_prefixed_slice(&[3, b'a', b'b']), None);
    assert_eq!(decode_length_prefixed_slice(&[0]), Some((&b""[..], 1)));
}

#[test]
fn fixed_width_integers() {
    let mut buf = Vec::new();
    put_fixed32(&mut buf, 0x0403_0201);
    put_fixed64(&mut buf, 0x0807_0605_0403_0201);
    assert_eq!(buf, vec![1, 2, 3, 4, 1, 2, 3, 4, 5, 6, 7, 8]);
    assert_eq!(decode_fixed32(&buf), 0x0403_0201);
    assert_eq!(decode_fixed64(&buf[4..]), 0x0807_0605_0403_0201);

    let mut buf = vec![9u8; 14];
    encode_fixed32(&mut buf, 1, 0xaabb_ccdd);
    encode_fixed64(&mut buf, 5, 1);
    assert_eq!(buf, vec![9, 0xdd, 0xcc, 0xbb, 0xaa, 1, 0, 0, 0, 0, 0, 0, 0, 9]);
}
