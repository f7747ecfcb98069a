use rust_warc::{CaseString, WarcError, WarcRecord};

fn record_bytes(version: &str, headers: &[(&str, &str)], content: &[u8]) -> Vec<u8> {
    let mut v: Vec<u8> = Vec::new();
    v.extend_from_slice(version.as_bytes());
    v.extend_from_slice(b"\r\n");
    for (name, value) in headers {
        v.extend_from_slice(format!("{}: {}\r\n", name, value).as_bytes());
    }
    v.extend_from_slice(b"\r\n");
    v.extend_from_slice(content);
    v.extend_from_slice(b"\r\n\r\n");
    v
}

#[test]
fn parse_consumes_exactly_the_record_length() {
    let data = record_bytes(
        "WARC/1.1",
        &[("WARC-Type", "warcinfo"), ("Content-Length", "4")],
        b"test",
    );
    let (_, used) = WarcRecord::parse(&data, 0).unwrap();
    assert_eq!(used, data.len());
}

#[test]
fn parse_end_to_end_record_values() {
    let data = record_bytes(
        "WARC/1.1",
        &[("WARC-Type", "warcinfo"), ("Content-Length", "4")],
        b"test",
    );
    let (record, _) = WarcRecord::parse(&data, 0).unwrap();
    assert_eq!(record.version, "WARC/1.1");
    assert_eq!(
        record.header.get(&CaseString::from("warc-type")),
        Some(&String::from("warcinfo"))
    );
    assert_eq!(record.content, b"test".to_vec());
}

#[test]
fn header_lookup_is_case_insensitive() {
    let data = record_bytes(
        "WARC/1.1",
        &[("Content-Type", "text/plain"), ("Content-Length", "0")],
        b"",
    );
    let (record, _) = WarcRecord::parse(&data, 0).unwrap();
    let expected = Some(&String::from("text/plain"));
    assert_eq!(record.header.get(&CaseString::from("content-type")), expected);
    assert_eq!(record.header.get(&CaseString::from("Content-Type")), expected);
    assert_eq!(record.header.get(&CaseString::from("CONTENT-TYPE")), expected);
}

#[test]
fn continuation_line_joins_with_newline() {
    let mut data: Vec<u8> = Vec::new();
    data.extend_from_slice(b"WARC/1.1\r\nX: a\r\n b\r\nContent-Length: 0\r\n\r\n\r\n\r\n");
    let (record, _) = WarcRecord::parse(&data, 0).unwrap();
    assert_eq!(record.header.get(&CaseString::from("x")), Some(&String::from("a\nb")));
}

#[test]
fn missing_content_length_is_malformed() {
    let data = record_bytes("WARC/1.1", &[("WARC-Type", "warcinfo")], b"");
    match WarcRecord::parse(&data, 0) {
        Err(WarcError::Malformed(m)) => assert_eq!(m, "Content-Length is missing"),
        other => panic!("unexpected outcome: {:?}", other.map(|_| ())),
    }
}

#[test]
fn non_numeric_content_length_is_malformed() {
    let data = record_bytes("WARC/1.1", &[("Content-Length", "abc")], b"");
    match WarcRecord::parse(&data, 0) {
        Err(WarcError::Malformed(m)) => assert_eq!(m, "Content-Length is not a number"),
        other => panic!("unexpected outcome: {:?}", other.map(|_| ())),
    }
}

#[test]
fn oversized_content_length_is_malformed() {
    let data = record_bytes("WARC/1.1", &[("Content-Length", "99999999999999999999999999")], b"");
    match WarcRecord::parse(&data, 0) {
        Err(WarcError::Malformed(m)) => assert_eq!(m, "Content-Length is not a number"),
        other => panic!("unexpected outcome: {:?}", other.map(|_| ())),
    }
}

#[test]
fn plus_signed_content_length_is_accepted() {
    let data = record_bytes("WARC/1.1", &[("Content-Length", "+4")], b"test");
    let (record, used) = WarcRecord::parse(&data, 0).unwrap();
    assert_eq!(record.content, b"test".to_vec());
    assert_eq!(used, data.len());
}

#[test]
fn wrong_trailer_bytes_are_malformed() {
    let mut data: Vec<u8> = Vec::new();
    data.extend_from_slice(b"WARC/1.1\r\nContent-Length: 2\r\n\r\nhi\n\n\r\r");
    match WarcRecord::parse(&data, 0) {
        Err(WarcError::Malformed(m)) => assert_eq!(m, "No double linefeed after record content"),
        other => panic!("unexpected outcome: {:?}", other.map(|_| ())),
    }
}

#[test]
fn truncated_content_is_io_error() {
    let mut data: Vec<u8> = Vec::new();
    data.extend_from_slice(b"WARC/1.1\r\nContent-Length: 100\r\n\r\nshort");
    assert!(matches!(WarcRecord::parse(&data, 0), Err(WarcError::IO)));
}

#[test]
fn truncated_trailer_is_io_error() {
    let mut data: Vec<u8> = Vec::new();
    data.extend_from_slice(b"WARC/1.1\r\nContent-Length: 2\r\n\r\nhi\r\n");
    assert!(matches!(WarcRecord::parse(&data, 0), Err(WarcError::IO)));
}

#[test]
fn unknown_version_is_malformed() {
    let data = record_bytes("HTTP/1.1", &[("Content-Length", "0")], b"");
    match WarcRecord::parse(&data, 0) {
        Err(WarcError::Malformed(m)) => assert_eq!(m, "Unknown WARC version"),
        other => panic!("unexpected outcome: {:?}", other.map(|_| ())),
    }
}

#[test]
fn empty_input_is_clean_end() {
    let data: Vec<u8> = Vec::new();
    assert!(matches!(WarcRecord::parse(&data, 0), Err(WarcError::EOF)));
}

#[test]
fn continuation_without_pending_field_is_malformed() {
    let mut data: Vec<u8> = Vec::new();
    data.extend_from_slice(b"WARC/1.1\r\n continued\r\n\r\n\r\n\r\n");
    match WarcRecord::parse(&data, 0) {
        Err(WarcError::Malformed(m)) => assert_eq!(m, "Invalid header block"),
        other => panic!("unexpected outcome: {:?}", other.map(|_| ())),
    }
}

#[test]
fn header_line_without_colon_is_malformed() {
    let mut data: Vec<u8> = Vec::new();
    data.extend_from_slice(b"WARC/1.1\r\nno colon here\r\n\r\n\r\n\r\n");
    match WarcRecord::parse(&data, 0) {
        Err(WarcError::Malformed(m)) => assert_eq!(m, "Invalid header field"),
        other => panic!("unexpected outcome: {:?}", other.map(|_| ())),
    }
}

#[test]
fn last_write_for_a_key_wins() {
    let data = record_bytes(
        "WARC/1.1",
        &[("X-Dup", "first"), ("x-dup", "second"), ("Content-Length", "0")],
        b"",
    );
    let (record, _) = WarcRecord::parse(&data, 0).unwrap();
    assert_eq!(record.header.get(&CaseString::from("X-DUP")), Some(&String::from("second")));
}

#[test]
fn case_string_compares_with_plain_text() {
    assert!(CaseString::from("WARC-Type") == String::from("warc-type"));
    assert!(CaseString::from("warc-type") == String::from("WARC-TYPE"));
    assert!(!(CaseString::from("warc-type") == String::from("warc-date")));
}

#[test]
fn case_string_normalizes_to_lowercase() {
    let s1 = CaseString::from("HELLO!");
    let s2 = CaseString::from("hello!");
    assert_eq!(s1, s2);
    assert_eq!(CaseString::from("HELLO!").to_string(), "hello!");
}

#[test]
fn parse_skips_to_given_position() {
    let mut data = record_bytes("WARC/1.1", &[("Content-Length", "2")], b"ab");
    let first_len = data.len();
    data.extend(record_bytes("WARC/1.0", &[("Content-Length", "2")], b"cd"));
    let (second, used) = WarcRecord::parse(&data, first_len).unwrap();
    assert_eq!(second.version, "WARC/1.0");
    assert_eq!(second.content, b"cd".to_vec());
    assert_eq!(first_len + used, data.len());
}
