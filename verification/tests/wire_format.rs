use datadog_exporter::error::EncodeError;
use datadog_exporter::wire::{
    write_array_len, write_double, write_i32, write_i64, write_map_len, write_str, write_str_len,
    write_u32, write_u64,
};

#[test]
fn array_prefix_picks_the_shortest_form() {
    let mut buf = Vec::new();
    write_array_len(&mut buf, 0);
    write_array_len(&mut buf, 15);
    write_array_len(&mut buf, 16);
    write_array_len(&mut buf, 0xffff);
    write_array_len(&mut buf, 0x1_0000);
    assert_eq!(
        buf,
        vec![0x90, 0x9f, 0xdc, 0x00, 0x10, 0xdc, 0xff, 0xff, 0xdd, 0x00, 0x01, 0x00, 0x00]
    );
}

#[test]
fn map_prefix_picks_the_shortest_form() {
    let mut buf = Vec::new();
    write_map_len(&mut buf, 0);
    write_map_len(&mut buf, 11);
    write_map_len(&mut buf, 16);
    write_map_len(&mut buf, 0x0102_0304);
    assert_eq!(buf, vec![0x80, 0x8b, 0xde, 0x00, 0x10, 0xdf, 0x01, 0x02, 0x03, 0x04]);
}

#[test]
fn string_prefix_picks_the_shortest_form() {
    let mut buf = Vec::new();
    write_str_len(&mut buf, 0);
    write_str_len(&mut buf, 31);
    write_str_len(&mut buf, 32);
    write_str_len(&mut buf, 255);
    write_str_len(&mut buf, 256);
    write_str_len(&mut buf, 0x1_0000);
    assert_eq!(
        buf,
        vec![
            0xa0, 0xbf, 0xd9, 0x20, 0xd9, 0xff, 0xda, 0x01, 0x00, 0xdb, 0x00, 0x01, 0x00, 0x00
        ]
    );
}

#[test]
fn string_is_prefix_then_utf8_bytes() {
    let mut buf = vec![0x01];
    assert_eq!(write_str(&mut buf, "meta"), Ok(()));
    assert_eq!(buf, vec![0x01, 0xa4, b'm', b'e', b't', b'a']);
    let mut wide = Vec::new();
    assert_eq!(write_str(&mut wide, "é"), Ok(()));
    assert_eq!(wide, vec![0xa2, 0xc3, 0xa9]);
}

#[test]
fn string_of_forty_bytes_uses_one_length_byte() {
    let text = "0123456789012345678901234567890123456789";
    let mut buf = Vec::new();
    assert_eq!(write_str(&mut buf, text), Ok(()));
    assert_eq!(buf.len(), 42);
    assert_eq!(&buf[..2], &[0xd9, 40]);
    assert_eq!(&buf[2..], text.as_bytes());
}

#[test]
fn unsigned_integers_are_full_width_big_endian() {
    let mut buf = Vec::new();
    write_u32(&mut buf, 0x0102_0304);
    write_u64(&mut buf, 0x0102_0304_0506_0708);
    write_u32(&mut buf, 0);
    assert_eq!(
        buf,
        vec![
            0xce, 1, 2, 3, 4, 0xcf, 1, 2, 3, 4, 5, 6, 7, 8, 0xce, 0, 0, 0, 0
        ]
    );
}

#[test]
fn signed_integers_are_twos_complement() {
    let mut buf = Vec::new();
    write_i32(&mut buf, 1);
    write_i32(&mut buf, -1);
    write_i32(&mut buf, i32::MIN);
    assert_eq!(
        buf,
        vec![0xd2, 0, 0, 0, 1, 0xd2, 0xff, 0xff, 0xff, 0xff, 0xd2, 0x80, 0, 0, 0]
    );
    let mut wide = Vec::new();
    write_i64(&mut wide, 1_500_000);
    write_i64(&mut wide, -2);
    write_i64(&mut wide, i64::MIN);
    write_i64(&mut wide, i64::MAX);
    let mut expected = vec![0xd3];
    expected.extend_from_slice(&1_500_000i64.to_be_bytes());
    expected.push(0xd3);
    expected.extend_from_slice(&(-2i64).to_be_bytes());
    expected.push(0xd3);
    expected.extend_from_slice(&i64::MIN.to_be_bytes());
    expected.push(0xd3);
    expected.extend_from_slice(&i64::MAX.to_be_bytes());
    assert_eq!(wide, expected);
    assert_eq!(&wide[..9], &[0xd3, 0, 0, 0, 0, 0, 0x16, 0xe3, 0x60]);
}

#[test]
fn double_is_tag_then_bits() {
    let mut buf = Vec::new();
    write_double(&mut buf, 1.5f64.to_bits());
    assert_eq!(buf, vec![0xcb, 0x3f, 0xf8, 0, 0, 0, 0, 0, 0]);
}

#[test]
fn length_overflow_is_the_only_error() {
    let e = EncodeError::LengthOverflow;
    assert_eq!(e, EncodeError::LengthOverflow);
    assert_eq!(format!("{:?}", e), "LengthOverflow");
}
