use raknet::codec::{Address, DecodeError, Endian, Reader, Writer};

#[test]
fn integers_in_both_byte_orders() {
    let mut w = Writer::new(Vec::new());
    w.write_u16(0x1234, Endian::Big);
    w.write_u16(0x1234, Endian::Little);
    w.write_u24(0x0a0b0c, Endian::Little);
    w.write_u32(0xdeadbeef, Endian::Big);
    w.write_u64(0x0102030405060708, Endian::Little);
    w.write_i64(-2, Endian::Big);
    let bytes = w.into_inner();
    assert_eq!(
        bytes,
        vec![
            0x12, 0x34, 0x34, 0x12, 0x0c, 0x0b, 0x0a, 0xde, 0xad, 0xbe, 0xef, 8, 7, 6, 5, 4, 3, 2,
            1, 0xff, 0xff, 0xff, 0xff, 0xff, 0xff, 0xff, 0xfe
        ]
    );
    let mut r = Reader::new(&bytes);
    assert_eq!(r.read_u16(Endian::Big), Ok(0x1234));
    assert_eq!(r.read_u16(Endian::Little), Ok(0x1234));
    assert_eq!(r.read_u24(Endian::Little), Ok(0x0a0b0c));
    assert_eq!(r.read_u32(Endian::Big), Ok(0xdeadbeef));
    assert_eq!(r.read_u64(Endian::Little), Ok(0x0102030405060708));
    assert_eq!(r.read_i64(Endian::Big), Ok(-2));
    assert_eq!(r.read_u8(), Err(DecodeError::UnexpectedEnd));
}

#[test]
fn i64_extremes_round_trip() {
    for v in [i64::MIN, -1, 0, 1, i64::MAX] {
        let mut w = Writer::new(Vec::new());
        w.write_i64(v, Endian::Big);
        let bytes = w.into_inner();
        let mut r = Reader::new(&bytes);
        assert_eq!(r.read_i64(Endian::Big), Ok(v));
    }
}

#[test]
fn ipv4_address_is_xored() {
    let a = Address::V4 { ip: [127, 0, 0, 1], port: 19132 };
    let mut w = Writer::new(Vec::new());
    w.write_address(&a);
    let bytes = w.into_inner();
    assert_eq!(bytes, vec![4, 0x80, 0xff, 0xff, 0xfe, 0x4a, 0xbc]);
    let mut r = Reader::new(&bytes);
    assert_eq!(r.read_address(), Ok(a));
}

#[test]
fn ipv6_address_round_trip() {
    let ip = [0x20, 0x01, 0x0d, 0xb8, 0, 0, 0, 0, 0, 0, 0, 0, 0, 0, 0, 1];
    let a = Address::V6 { ip, port: 19133 };
    let mut w = Writer::new(Vec::new());
    w.write_address(&a);
    let bytes = w.into_inner();
    assert_eq!(bytes.len(), 29);
    assert_eq!(bytes[0], 6);
    assert_eq!(&bytes[1..3], &[23, 0]);
    let mut r = Reader::new(&bytes);
    assert_eq!(r.read_address(), Ok(a));
}

#[test]
fn truncated_address_fails() {
    let bytes = vec![4u8, 1, 2];
    let mut r = Reader::new(&bytes);
    assert_eq!(r.read_address(), Err(DecodeError::UnexpectedEnd));
}

#[test]
fn string_round_trip_and_bad_utf8() {
    let mut w = Writer::new(Vec::new());
    w.write_string("MCPE;héllo;");
    let bytes = w.into_inner();
    assert_eq!(&bytes[0..2], &[0, 12]);
    let mut r = Reader::new(&bytes);
    assert_eq!(r.read_string(), Ok(String::from("MCPE;héllo;")));

    let bad = vec![0u8, 2, 0xc3, 0x28];
    let mut r = Reader::new(&bad);
    assert_eq!(r.read_string(), Err(DecodeError::InvalidUtf8));

    let short = vec![0u8, 5, b'a'];
    let mut r = Reader::new(&short);
    assert_eq!(r.read_string(), Err(DecodeError::UnexpectedEnd));
}

#[test]
fn magic_is_recognised() {
    let mut w = Writer::new(Vec::new());
    w.write_magic();
    let bytes = w.into_inner();
    assert_eq!(
        bytes,
        vec![0x00, 0xff, 0xff, 0x00, 0xfe, 0xfe, 0xfe, 0xfe, 0xfd, 0xfd, 0xfd, 0xfd, 0x12, 0x34, 0x56, 0x78]
    );
    let mut r = Reader::new(&bytes);
    assert_eq!(r.read_magic(), Ok(true));
    let other = vec![0u8; 16];
    let mut r = Reader::new(&other);
    assert_eq!(r.read_magic(), Ok(false));
}

#[test]
fn reader_skips_and_reports_position() {
    let bytes = vec![1u8, 2, 3, 4];
    let mut r = Reader::new(&bytes);
    r.next(2);
    assert_eq!(r.pos(), 2);
    assert_eq!(r.read(2), Ok(vec![3, 4]));
    assert_eq!(r.read(1), Err(DecodeError::UnexpectedEnd));
}
