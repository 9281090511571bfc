use cavey::error::Corruption;
use cavey::CaveyError;

#[test]
fn every_error_describes_itself() {
    let cases = vec![
        (CaveyError::IoError("disk full".to_owned()), "disk full"),
        (CaveyError::DecodeError, "malformed record or message"),
        (CaveyError::EncodeError, "record or message cannot be encoded"),
        (CaveyError::DataCorruption(Corruption::UnexpectedRemove), "unexpected remove"),
        (CaveyError::DataCorruption(Corruption::UnexpectedEof), "unexpected eof"),
        (CaveyError::KeyNotFound, "Key not found"),
        (CaveyError::EngineMismatch("sled".to_owned()), "cavey error: wrong data format: sled"),
        (
            CaveyError::UnexpectedResponse("a \"b\"\n".to_owned()),
            "cavey error: unexpected response \"a \\\"b\\\"\\n\"",
        ),
        (CaveyError::Remote("Key not found".to_owned()), "cavey error: Key not found"),
        (CaveyError::InvalidGeneration("x.log".to_owned()), "invalid segment name: x.log"),
    ];
    for (error, text) in cases {
        assert_eq!(error.message(), text);
    }
}
