use rust_warc::{CaseString, WarcError, WarcReader};

fn record_bytes(version: &str, headers: &[(&str, &str)], content: &[u8]) -> Vec<u8> {
    let mut v: Vec<u8> = Vec::new();
    v.extend_from_slice(version.as_bytes());
    v.extend_from_slice(b"\r\n");
    for (name, value) in headers {
        v.extend_from_slice(format!("{}: {}\r\n", name, value).as_bytes());
    }
    v.extend_from_slice(b"\r\n");
    v.extend_from_slice(content);
    v.extend_from_slice(b"\r\n\r\n");
    v
}

fn truncated_record() -> Vec<u8> {
    let mut v: Vec<u8> = Vec::new();
    v.extend_from_slice(b"WARC/1.1\r\nWARC-Type: response\r\nContent-Length: 100\r\n\r\nshort");
    v
}

#[test]
fn it_works() {
    let mut data = record_bytes(
        "WARC/1.1",
        &[("WARC-Type", "warcinfo"), ("Content-Length", "4")],
        b"test",
    );
    data.extend(record_bytes(
        "WARC/1.1",
        &[("WARC-Type", "request"), ("Content-Length", "2")],
        b"hi",
    ));
    data.extend(truncated_record());

    let mut warc = WarcReader::new(data);

    let item = warc.next();
    assert!(item.is_some());
    let item = item.unwrap();
    assert!(item.is_ok());
    let item = item.unwrap();
    assert_eq!(
        item.header.get(&CaseString::from("WARC-Type")),
        Some(&String::from("warcinfo"))
    );

    let item = warc.next();
    assert!(item.is_some());
    let item = item.unwrap();
    assert!(item.is_ok());
    let item = item.unwrap();
    assert_eq!(
        item.header.get(&CaseString::from("WARC-Type")),
        Some(&String::from("request"))
    );

    let item = warc.next();
    assert!(item.is_some());
    let item = item.unwrap();
    assert!(item.is_err()); // incomplete record
}

#[test]
fn accumulator_counts_one_record() {
    let data = record_bytes(
        "WARC/1.1",
        &[("WARC-Type", "warcinfo"), ("Content-Length", "4")],
        b"test",
    );
    let wire_len = data.len();
    let mut warc = WarcReader::new(data);
    assert_eq!(warc.sum(), 0);
    assert!(warc.next().unwrap().is_ok());
    assert_eq!(warc.sum(), wire_len);
    assert!(warc.next().is_none());
    assert_eq!(warc.sum(), wire_len);
}

#[test]
fn accumulator_stops_at_last_valid_record() {
    let mut data = record_bytes("WARC/1.1", &[("Content-Length", "2")], b"ab");
    data.extend(record_bytes("WARC/1.1", &[("Content-Length", "3")], b"cde"));
    let valid_len = data.len();
    data.extend(record_bytes("HTTP/1.1", &[("Content-Length", "1")], b"x"));

    let mut warc = WarcReader::new(data);
    let mut yielded: u32 = 0;
    let mut failures: u32 = 0;
    while let Some(item) = warc.next() {
        match item {
            Ok(_) => yielded += 1,
            Err(_) => failures += 1,
        }
    }
    assert_eq!(yielded, 2);
    assert_eq!(failures, 1);
    assert_eq!(warc.sum(), valid_len);
}

#[test]
fn reader_is_terminated_after_an_error() {
    let mut data = truncated_record();
    // A perfectly valid record follows the corruption, but it is never read.
    data.extend(record_bytes("WARC/1.1", &[("Content-Length", "2")], b"ok"));
    let mut warc = WarcReader::new(data);
    let first = warc.next().unwrap();
    assert!(matches!(first, Err(WarcError::IO)));
    assert!(warc.next().is_none());
    assert!(warc.next().is_none());
    assert_eq!(warc.sum(), 0);
}

#[test]
fn clean_end_of_stream_yields_nothing() {
    let mut warc = WarcReader::new(Vec::new());
    assert!(warc.next().is_none());
    assert!(warc.next().is_none());
}

#[test]
fn second_record_truncated_mid_content() {
    let mut data = record_bytes(
        "WARC/1.1",
        &[("WARC-Type", "warcinfo"), ("Content-Length", "4")],
        b"test",
    );
    let first_len = data.len();
    data.extend(truncated_record());

    let mut warc = WarcReader::new(data);
    let first = warc.next().unwrap().unwrap();
    assert_eq!(first.version, "WARC/1.1");
    assert_eq!(first.content, b"test".to_vec());
    let second = warc.next().unwrap();
    assert!(matches!(second, Err(WarcError::IO)));
    assert!(warc.next().is_none());
    assert_eq!(warc.sum(), first_len);
}

#[test]
fn malformed_record_reports_its_reason() {
    let data = record_bytes("WARC/1.1", &[("WARC-Type", "warcinfo")], b"");
    let mut warc = WarcReader::new(data);
    match warc.next().unwrap() {
        Err(e) => assert_eq!(e.reason(), "Content-Length is missing"),
        Ok(_) => panic!("expected an error"),
    }
}
