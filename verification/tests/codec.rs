use durable_kv::binary::{read_exact, read_string, read_u32, write_string, write_u32};
use durable_kv::error::DbError;

fn is_truncated(e: &DbError) -> bool {
    matches!(e, DbError::CorruptLog { line } if line == "<truncated>")
}

fn is_bad_utf8(e: &DbError) -> bool {
    matches!(e, DbError::CorruptLog { line } if line == "<utf8>")
}

#[test]
fn write_u32_is_big_endian() {
    let mut buf = vec![9u8];
    write_u32(&mut buf, 0x0102_0304);
    assert_eq!(buf, vec![9, 1, 2, 3, 4]);
    write_u32(&mut buf, u32::MAX);
    assert_eq!(&buf[5..], &[255, 255, 255, 255]);
}

#[test]
fn write_string_prefixes_the_byte_length() {
    let mut buf = Vec::new();
    write_string(&mut buf, "abc");
    assert_eq!(buf, vec![0, 0, 0, 3, b'a', b'b', b'c']);
    write_string(&mut buf, "");
    assert_eq!(&buf[7..], &[0, 0, 0, 0]);
}

#[test]
fn write_string_counts_bytes_not_characters() {
    let mut buf = Vec::new();
    write_string(&mut buf, "é€");
    assert_eq!(buf, vec![0, 0, 0, 5, 0xC3, 0xA9, 0xE2, 0x82, 0xAC]);
}

#[test]
fn read_u32_reads_and_advances() {
    let bytes = [7u8, 0, 0, 1, 2, 0xff];
    let mut cursor = 1;
    assert_eq!(read_u32(&bytes, &mut cursor).unwrap(), 0x0000_0102);
    assert_eq!(cursor, 5);
}

#[test]
fn read_u32_reads_the_largest_value() {
    let bytes = [0xffu8, 0xff, 0xff, 0xff];
    let mut cursor = 0;
    assert_eq!(read_u32(&bytes, &mut cursor).unwrap(), u32::MAX);
    assert_eq!(cursor, 4);
}

#[test]
fn read_u32_truncated_leaves_cursor() {
    let bytes = [0u8, 0, 1];
    let mut cursor = 0;
    let e = read_u32(&bytes, &mut cursor).unwrap_err();
    assert!(is_truncated(&e));
    assert_eq!(cursor, 0);

    let bytes = [0u8, 0, 0, 1, 2];
    let mut cursor = 2;
    assert!(is_truncated(&read_u32(&bytes, &mut cursor).unwrap_err()));
    assert_eq!(cursor, 2);
}

#[test]
fn read_u32_cursor_past_the_end() {
    let bytes = [0u8; 8];
    let mut cursor = usize::MAX;
    assert!(is_truncated(&read_u32(&bytes, &mut cursor).unwrap_err()));
    assert_eq!(cursor, usize::MAX);
}

#[test]
fn read_exact_takes_the_next_bytes() {
    let bytes = [1u8, 2, 3, 4, 5];
    let mut cursor = 1;
    assert_eq!(read_exact(&bytes, &mut cursor, 3).unwrap(), &[2, 3, 4]);
    assert_eq!(cursor, 4);
    assert_eq!(read_exact(&bytes, &mut cursor, 0).unwrap(), &[] as &[u8]);
    assert_eq!(cursor, 4);
    assert_eq!(read_exact(&bytes, &mut cursor, 1).unwrap(), &[5]);
    assert_eq!(cursor, 5);
}

#[test]
fn read_exact_truncated_leaves_cursor() {
    let bytes = [1u8, 2, 3];
    let mut cursor = 2;
    assert!(is_truncated(&read_exact(&bytes, &mut cursor, 2).unwrap_err()));
    assert_eq!(cursor, 2);
    assert!(is_truncated(&read_exact(&bytes, &mut cursor, usize::MAX).unwrap_err()));
    assert_eq!(cursor, 2);
}

#[test]
fn read_string_round_trips_what_write_string_wrote() {
    let mut buf = vec![0xAA];
    write_string(&mut buf, "héllo wörld");
    write_string(&mut buf, "line\nbreak");
    buf.push(0xBB);
    let mut cursor = 1;
    assert_eq!(read_string(&buf, &mut cursor).unwrap(), "héllo wörld");
    assert_eq!(read_string(&buf, &mut cursor).unwrap(), "line\nbreak");
    assert_eq!(cursor, buf.len() - 1);
}

#[test]
fn read_string_truncated_length() {
    let bytes = [0u8, 0, 0];
    let mut cursor = 0;
    assert!(is_truncated(&read_string(&bytes, &mut cursor).unwrap_err()));
    assert_eq!(cursor, 0);
}

#[test]
fn read_string_truncated_body_stops_behind_the_length() {
    let bytes = [0u8, 0, 0, 5, b'a', b'b'];
    let mut cursor = 0;
    assert!(is_truncated(&read_string(&bytes, &mut cursor).unwrap_err()));
    assert_eq!(cursor, 4);
}

#[test]
fn read_string_rejects_invalid_utf8() {
    let bytes = [0u8, 0, 0, 2, 0xC3, 0x28, 7];
    let mut cursor = 0;
    assert!(is_bad_utf8(&read_string(&bytes, &mut cursor).unwrap_err()));
    assert_eq!(cursor, 6);

    let overlong = [0u8, 0, 0, 2, 0xC0, 0x80];
    let mut cursor = 0;
    assert!(is_bad_utf8(&read_string(&overlong, &mut cursor).unwrap_err()));

    let surrogate = [0u8, 0, 0, 3, 0xED, 0xA0, 0x80];
    let mut cursor = 0;
    assert!(is_bad_utf8(&read_string(&surrogate, &mut cursor).unwrap_err()));
}
