use cavey::record::{accept_line, put_line, remove_line};
use cavey::{CaveyError, LogRecord};

fn put(key: &str, value: &str) -> LogRecord {
    LogRecord::Put { key: key.to_owned(), value: value.to_owned() }
}

#[test]
fn put_is_written_as_one_json_object() {
    assert_eq!(
        put("foo", "bar").to_line(),
        Ok(b"{\"put\":{\"key\":\"foo\",\"value\":\"bar\"}}".to_vec())
    );
}

#[test]
fn remove_is_written_as_one_json_object() {
    let record = LogRecord::Remove { key: "foo".to_owned() };
    assert_eq!(record.to_line(), Ok(b"{\"remove\":{\"key\":\"foo\"}}".to_vec()));
}

#[test]
fn strings_are_escaped_as_json() {
    let line = put("a\"b", "line\nfeed\\tab\t").to_line().unwrap();
    assert_eq!(
        String::from_utf8(line).unwrap(),
        "{\"put\":{\"key\":\"a\\\"b\",\"value\":\"line\\nfeed\\\\tab\\t\"}}"
    );
}

#[test]
fn a_line_never_holds_a_line_feed() {
    let line = put("\n\n", "\r\n\u{0}\u{1f}").to_line().unwrap();
    assert!(!line.contains(&b'\n'));
}

#[test]
fn a_line_reads_back_as_its_record() {
    let records = vec![
        put("", ""),
        put("key", "value"),
        put("\u{1F600} unicode \u{e9}", "\"}}\n{\"remove\":{\"key\":\"x\"}}"),
        LogRecord::Remove { key: "gone \\ \" /".to_owned() },
    ];
    for record in records {
        let line = record.to_line().unwrap();
        assert_eq!(LogRecord::from_line(&line), Ok(record));
    }
}

#[test]
fn escapes_written_by_others_are_read() {
    assert_eq!(
        LogRecord::from_line(b"{\"put\":{\"key\":\"\\u0041\",\"value\":\"\\/\"}}"),
        Ok(put("A", "/"))
    );
}

#[test]
fn lines_that_hold_no_record_are_rejected() {
    let lines: Vec<&[u8]> = vec![
        b"",
        b"{}",
        b"null",
        b"{\"put\":{\"key\":\"a\"}}",
        b"{\"put\":{\"key\":\"a\",\"value\":\"b\"}",
        b"{\"put\":{\"key\":\"a\",\"value\":\"b\"}} ",
        b"{\"put\":{\"key\":\"a\",\"value\":\"b\"}}x",
        b" {\"put\":{\"key\":\"a\",\"value\":\"b\"}}",
        b"{\"put\":{\"key\": \"a\",\"value\":\"b\"}}",
        b"{\"put\":{\"value\":\"b\",\"key\":\"a\"}}",
        b"{\"put\":{\"key\":\"a\",\"value\":7}}",
        b"{\"put\":{\"key\":\"a\",\"value\":\"unfinished}}",
        b"{\"remove\":{\"key\":\"a\",\"value\":\"b\"}}",
        b"{\"remove\":{\"key\":a}}",
        b"{\"get\":{\"key\":\"a\"}}",
        b"{\"put\":{\"key\":\"\xff\",\"value\":\"b\"}}",
    ];
    for line in lines {
        assert_eq!(LogRecord::from_line(line), Err(CaveyError::DecodeError));
    }
}

#[test]
fn records_compare_by_what_they_say() {
    assert_eq!(put("a", "b"), put("a", "b"));
    assert_ne!(put("a", "b"), put("a", "c"));
    assert_ne!(put("a", "b"), put("b", "b"));
    assert_ne!(put("a", "b"), LogRecord::Remove { key: "a".to_owned() });
    assert_eq!(LogRecord::Remove { key: "a".to_owned() }, LogRecord::Remove { key: "a".to_owned() });
}

#[test]
fn a_line_is_the_frame_around_its_literals() {
    assert_eq!(put_line(b"\"k\"", b"\"v\""), b"{\"put\":{\"key\":\"k\",\"value\":\"v\"}}".to_vec());
    assert_eq!(put_line(b"", b""), b"{\"put\":{\"key\":,\"value\":}}".to_vec());
    assert_eq!(remove_line(b"\"k\""), b"{\"remove\":{\"key\":\"k\"}}".to_vec());
}

#[test]
fn a_line_is_accepted_only_if_it_reads_back() {
    let record = put("k", "v");
    let line = b"{\"put\":{\"key\":\"k\",\"value\":\"v\"}}".to_vec();
    assert_eq!(accept_line(&record, line.clone()), Ok(line));
    let other = b"{\"put\":{\"key\":\"k\",\"value\":\"w\"}}".to_vec();
    assert_eq!(accept_line(&record, other), Err(CaveyError::EncodeError));
    let tombstone = b"{\"remove\":{\"key\":\"k\"}}".to_vec();
    assert_eq!(accept_line(&record, tombstone), Err(CaveyError::EncodeError));
    let broken = put_line(b"k", b"v");
    assert_eq!(accept_line(&record, broken), Err(CaveyError::EncodeError));
    let fed = b"{\"put\":{\"key\":\"k\",\"value\":\"v\"}}\n".to_vec();
    assert_eq!(accept_line(&record, fed), Err(CaveyError::EncodeError));
}
