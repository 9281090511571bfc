use cavey::bytes::{append_bytes, same_bytes};
use cavey::engine::{found_text, removal};
use cavey::utils::{check_engine, is_marker_name};
use cavey::CaveyError;

#[test]
fn a_directory_without_marker_is_claimed() {
    assert_eq!(check_engine(None, b"sled"), Ok(true));
}

#[test]
fn a_marker_of_the_same_engine_is_accepted() {
    assert_eq!(check_engine(Some(b"sled"), b"sled"), Ok(false));
    assert_eq!(check_engine(Some(b""), b""), Ok(false));
}

#[test]
fn a_marker_of_another_engine_is_a_mismatch() {
    assert_eq!(
        check_engine(Some(b"kvs"), b"sled"),
        Err(CaveyError::EngineMismatch("kvs".to_owned()))
    );
    assert_eq!(
        check_engine(Some(b"sled\n"), b"sled"),
        Err(CaveyError::EngineMismatch("sled\n".to_owned()))
    );
    assert_eq!(
        check_engine(Some(b"kvs"), b"sled").unwrap_err().message(),
        "cavey error: wrong data format: kvs"
    );
}

#[test]
fn a_marker_that_is_no_text_is_shown_with_replacements() {
    assert_eq!(
        check_engine(Some(&[b'k', 0xff, b's']), b"sled"),
        Err(CaveyError::EngineMismatch("k\u{fffd}s".to_owned()))
    );
}

#[test]
fn slices_are_compared_byte_by_byte() {
    assert!(same_bytes(b"", b""));
    assert!(same_bytes(b"abc", b"abc"));
    assert!(!same_bytes(b"abc", b"abd"));
    assert!(!same_bytes(b"abc", b"ab"));
    assert!(!same_bytes(b"", b"a"));
}

#[test]
fn bytes_are_appended_at_the_end() {
    let mut buffer = b"ab".to_vec();
    append_bytes(&mut buffer, b"cd");
    append_bytes(&mut buffer, b"");
    assert_eq!(buffer, b"abcd".to_vec());
}

#[test]
fn bytes_found_are_read_as_utf8() {
    assert_eq!(found_text(None), Ok(None));
    assert_eq!(found_text(Some(Vec::new())), Ok(Some(String::new())));
    assert_eq!(found_text(Some(b"caf\xc3\xa9".to_vec())), Ok(Some("caf\u{e9}".to_owned())));
    assert_eq!(found_text(Some(vec![b'a', 0xff])), Err(CaveyError::DecodeError));
    assert_eq!(found_text(Some(vec![0xed, 0xa0, 0x80])), Err(CaveyError::DecodeError));
}

#[test]
fn removal_needs_a_value() {
    assert_eq!(removal(true), Ok(()));
    assert_eq!(removal(false), Err(CaveyError::KeyNotFound));
}

#[test]
fn the_marker_has_one_name() {
    assert!(is_marker_name(&".engine".to_owned()));
    assert!(!is_marker_name(&"engine".to_owned()));
    assert!(!is_marker_name(&".engine ".to_owned()));
    assert!(!is_marker_name(&"".to_owned()));
    assert!(!is_marker_name(&"00000000".to_owned()));
}
