use cavey::error::Corruption;
use cavey::segment::{find_line_end, read_record_at, read_value_at};
use cavey::{CaveyError, LogRecord};

const SEGMENT: &[u8] =
    b"{\"put\":{\"key\":\"a\",\"value\":\"1\"}}\n{\"remove\":{\"key\":\"a\"}}\nbroken\n{\"put\":{\"key\":\"b\",\"val";

#[test]
fn line_end_is_the_next_line_feed() {
    assert_eq!(find_line_end(SEGMENT, 0), Some(31));
    assert_eq!(find_line_end(SEGMENT, 5), Some(31));
    assert_eq!(find_line_end(SEGMENT, 31), Some(31));
    assert_eq!(find_line_end(SEGMENT, 32), Some(54));
    assert_eq!(find_line_end(SEGMENT, 62), None);
    assert_eq!(find_line_end(SEGMENT, SEGMENT.len()), None);
    assert_eq!(find_line_end(SEGMENT, SEGMENT.len() + 10), None);
}

#[test]
fn record_is_read_at_its_offset() {
    assert_eq!(
        read_record_at(SEGMENT, 0),
        Ok(LogRecord::Put { key: "a".to_owned(), value: "1".to_owned() })
    );
    assert_eq!(read_record_at(SEGMENT, 32), Ok(LogRecord::Remove { key: "a".to_owned() }));
}

#[test]
fn offset_inside_a_record_is_a_decode_error() {
    assert_eq!(read_record_at(SEGMENT, 1), Err(CaveyError::DecodeError));
    assert_eq!(read_record_at(SEGMENT, 55), Err(CaveyError::DecodeError));
}

#[test]
fn record_cut_short_is_unexpected_eof() {
    let eof = Err(CaveyError::DataCorruption(Corruption::UnexpectedEof));
    assert_eq!(read_record_at(SEGMENT, 62), eof);
    assert_eq!(read_record_at(SEGMENT, SEGMENT.len() as u64), eof);
    assert_eq!(read_record_at(SEGMENT, u64::MAX), eof);
    assert_eq!(read_record_at(b"", 0), eof);
}

#[test]
fn value_is_read_from_a_put_only() {
    assert_eq!(read_value_at(SEGMENT, 0), Ok("1".to_owned()));
    assert_eq!(
        read_value_at(SEGMENT, 32),
        Err(CaveyError::DataCorruption(Corruption::UnexpectedRemove))
    );
    assert_eq!(read_value_at(SEGMENT, 55), Err(CaveyError::DecodeError));
    assert_eq!(
        read_value_at(SEGMENT, 62),
        Err(CaveyError::DataCorruption(Corruption::UnexpectedEof))
    );
}
