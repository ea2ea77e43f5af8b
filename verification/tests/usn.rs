//! Records of the change journal, built byte by byte.
use rss::usn::{
    parse_buffer, parse_one, UsnParseError, V2_HEADER_SIZE, V3_HEADER_SIZE, V4_HEADER_SIZE,
};


fn push_u16(buf: &mut Vec<u8>, v: u16) {
    buf.extend_from_slice(&v.to_le_bytes());
}
fn push_u32(buf: &mut Vec<u8>, v: u32) {
    buf.extend_from_slice(&v.to_le_bytes());
}
fn push_u64(buf: &mut Vec<u8>, v: u64) {
    buf.extend_from_slice(&v.to_le_bytes());
}
fn push_i64(buf: &mut Vec<u8>, v: i64) {
    buf.extend_from_slice(&v.to_le_bytes());
}

/// Build a V2 record with the given fields.
fn v2_record(frn: u64, parent: u64, attrs: u32, name: &str) -> Vec<u8> {
    let name_utf16: Vec<u16> = name.encode_utf16().collect();
    let name_bytes = name_utf16.len() * 2;
    let record_len = (V2_HEADER_SIZE + name_bytes) as u32;
    let mut b = Vec::new();
    push_u32(&mut b, record_len);
    push_u16(&mut b, 2); // major
    push_u16(&mut b, 0); // minor
    push_u64(&mut b, frn);
    push_u64(&mut b, parent);
    push_u64(&mut b, 12345); // usn
    push_i64(&mut b, 0x01D8_0000_0000_0000); // timestamp
    push_u32(&mut b, 0x80); // reason
    push_u32(&mut b, 0); // source info
    push_u32(&mut b, 0); // security id
    push_u32(&mut b, attrs);
    push_u16(&mut b, name_bytes as u16);
    push_u16(&mut b, V2_HEADER_SIZE as u16);
    assert_eq!(b.len(), V2_HEADER_SIZE);
    for u in name_utf16 {
        b.extend_from_slice(&u.to_le_bytes());
    }
    b
}

/// Build a V3 record (128-bit FRNs).
fn v3_record(frn: u128, parent: u128, attrs: u32, name: &str) -> Vec<u8> {
    let name_utf16: Vec<u16> = name.encode_utf16().collect();
    let name_bytes = name_utf16.len() * 2;
    let record_len = (V3_HEADER_SIZE + name_bytes) as u32;
    let mut b = Vec::new();
    push_u32(&mut b, record_len);
    push_u16(&mut b, 3);
    push_u16(&mut b, 0);
    b.extend_from_slice(&frn.to_le_bytes());
    b.extend_from_slice(&parent.to_le_bytes());
    push_u64(&mut b, 999);
    push_i64(&mut b, 42);
    push_u32(&mut b, 0);
    push_u32(&mut b, 0);
    push_u32(&mut b, 0);
    push_u32(&mut b, attrs);
    push_u16(&mut b, name_bytes as u16);
    push_u16(&mut b, V3_HEADER_SIZE as u16);
    assert_eq!(b.len(), V3_HEADER_SIZE);
    for u in name_utf16 {
        b.extend_from_slice(&u.to_le_bytes());
    }
    b
}

#[test]
fn parses_v2_record() {
    let buf = v2_record(0x0005_0000_0000_0005, 0x0001_0000_0000_0001, 0x10, "dir");
    let (rec, consumed) = parse_one(&buf).unwrap().unwrap();
    assert_eq!(consumed, buf.len());
    assert_eq!(rec.major_version, 2);
    assert_eq!(rec.frn, 0x0005_0000_0000_0005u128);
    assert_eq!(rec.parent_frn, 0x0001_0000_0000_0001u128);
    assert_eq!(rec.file_attributes, 0x10);
    assert_eq!(rec.name, "dir");
    assert_eq!(&rec.frn_bytes[..8], &0x0005_0000_0000_0005u64.to_le_bytes());
}

#[test]
fn parses_v3_record_with_128bit_frn() {
    let frn = 0xABCD_EF01_2345_6789_0005_0000_0000_0005u128;
    let buf = v3_record(frn, 7u128, 0x20, "f.bin");
    let (rec, _) = parse_one(&buf).unwrap().unwrap();
    assert_eq!(rec.major_version, 3);
    assert_eq!(rec.frn, frn);
    assert_eq!(rec.parent_frn, 7);
    assert_eq!(rec.name, "f.bin");
    assert_eq!(rec.frn_bytes, frn.to_le_bytes());
}

#[test]
fn parses_v4_record_as_nameless() {
    let mut b = Vec::new();
    push_u32(&mut b, V4_HEADER_SIZE as u32);
    push_u16(&mut b, 4);
    push_u16(&mut b, 0);
    b.extend_from_slice(&9u128.to_le_bytes()); // frn
    b.extend_from_slice(&5u128.to_le_bytes()); // parent
    push_u64(&mut b, 1); // usn
    push_u32(&mut b, 0); // reason
    push_u32(&mut b, 0); // source info
    push_u32(&mut b, 0); // remaining extents
    push_u16(&mut b, 0); // number of extents
    push_u16(&mut b, 0); // extent size
    assert_eq!(b.len(), V4_HEADER_SIZE);
    let (rec, consumed) = parse_one(&b).unwrap().unwrap();
    assert_eq!(consumed, V4_HEADER_SIZE);
    assert_eq!(rec.major_version, 4);
    assert_eq!(rec.frn, 9);
    assert!(rec.name.is_empty());
    assert_eq!(rec.file_attributes, 0);
}

#[test]
fn rejects_truncated_record() {
    let mut buf = v2_record(1, 1, 0, "abcdef");
    buf.truncate(buf.len() - 2); // declared length now exceeds the buffer
    assert!(matches!(
        parse_one(&buf),
        Err(UsnParseError::Truncated { .. })
    ));
}

#[test]
fn rejects_unsupported_major_version() {
    let mut buf = v2_record(1, 1, 0, "x");
    buf[4] = 9; // MajorVersion = 9
    assert_eq!(parse_one(&buf), Err(UsnParseError::UnsupportedVersion(9)));
}

#[test]
fn rejects_out_of_bounds_name() {
    let mut buf = v2_record(1, 1, 0, "ok");
    // Point FileNameOffset way past the record.
    let off = 58;
    buf[off] = 0xFF;
    buf[off + 1] = 0x7F;
    assert_eq!(parse_one(&buf), Err(UsnParseError::NameOutOfBounds));
}

#[test]
fn zero_padding_ends_the_buffer() {
    assert_eq!(parse_one(&[0, 0, 0]), Ok(None));
    assert_eq!(parse_one(&[0; 16]), Ok(None));
}

#[test]
fn parse_buffer_reads_header_and_records() {
    let mut buf = Vec::new();
    push_u64(&mut buf, 0xBEEF); // continuation FRN
    let r1 = v2_record(5, 5, 0x10, "root");
    let r2 = v3_record(6, 5, 0x20, "child.txt");
    buf.extend_from_slice(&r1);
    buf.extend_from_slice(&r2);
    let (next, records, skipped) = parse_buffer(&buf).unwrap();
    assert_eq!(next, 0xBEEF);
    assert_eq!(skipped, 0);
    assert_eq!(records.len(), 2);
    assert_eq!(records[0].name, "root");
    assert_eq!(records[1].name, "child.txt");
    assert_eq!(records[1].parent_frn, 5);
}

#[test]
fn parse_buffer_keeps_good_records_before_a_bad_one() {
    let mut buf = Vec::new();
    push_u64(&mut buf, 0);
    buf.extend_from_slice(&v2_record(5, 5, 0x10, "good"));
    buf.extend_from_slice(&[1, 2, 3]); // corrupt tail
    let (_, records, skipped) = parse_buffer(&buf).unwrap();
    assert_eq!(records.len(), 1);
    assert_eq!(skipped, 1);
}

#[test]
fn errors_in_words() {
    assert_eq!(
        UsnParseError::Truncated { record_len: 72, remaining: 70 }.describe(),
        "record length 72 exceeds remaining buffer (70 bytes)"
    );
    assert_eq!(
        UsnParseError::LengthTooSmall(4).describe(),
        "record length too small: 4"
    );
    assert_eq!(
        UsnParseError::UnsupportedVersion(9).describe(),
        "unsupported USN record major version 9"
    );
    assert_eq!(
        UsnParseError::NameOutOfBounds.describe(),
        "file name field out of bounds"
    );
}

#[test]
fn a_record_shorter_than_any_is_refused() {
    let mut buf = v2_record(1, 1, 0, "x");
    buf[0] = 7;
    buf[1] = 0;
    assert_eq!(parse_one(&buf), Err(UsnParseError::LengthTooSmall(7)));
}

#[test]
fn names_that_are_no_unicode_get_replacements() {
    let mut buf = v2_record(1, 1, 0, "ab");
    // A lone high surrogate in place of `a`.
    buf[V2_HEADER_SIZE] = 0x00;
    buf[V2_HEADER_SIZE + 1] = 0xD8;
    let (rec, _) = parse_one(&buf).unwrap().unwrap();
    assert_eq!(rec.name, "\u{FFFD}b");
}

#[test]
fn records_are_taken_one_after_the_other() {
    let mut buf = Vec::new();
    push_u64(&mut buf, 3);
    let names = ["a", "bb", "ccc", "dddd"];
    for name in names {
        buf.extend_from_slice(&v2_record(9, 5, 0x20, name));
    }
    let (_, records, skipped) = parse_buffer(&buf).unwrap();
    let got: Vec<&str> = records.iter().map(|r| r.name.as_str()).collect();
    assert_eq!(got, names);
    assert_eq!(skipped, 0);
}
