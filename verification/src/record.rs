//! Records and the text of one record on a line of a segment.
//!
//! A record is written as one line of JSON: `{"put":{"key":K,"value":V}}` or
//! `{"remove":{"key":K}}`, where `K` and `V` are JSON string literals. The
//! frame around the literals is this module's own; the literals themselves
//! are written and read by `serde_json`.
use vstd::prelude::*;
use vstd::slice::slice_subrange;
use vstd::string::StringSliceAdditionalSpecFns;
use crate::bytes::append_bytes;
use crate::error::CaveyError;

verus! {

/// The byte that ends every record of a segment.
pub const NEWLINE: u8 = 10;

/// The byte that a JSON string literal starts with.
pub const QUOTE: u8 = 34;

/// The text before the key of a `Put`.
pub const PUT_OPEN: &'static str = "{\"put\":{\"key\":";

/// The text between the key and the value of a `Put`.
pub const PUT_MIDDLE: &'static str = ",\"value\":";

/// The text before the key of a `Remove`.
pub const REMOVE_OPEN: &'static str = "{\"remove\":{\"key\":";

/// The text after the last string of a record.
pub const RECORD_CLOSE: &'static str = "}}";

/// The durable unit of a segment.
#[derive(Debug, Clone, Eq)]
pub enum LogRecord {
    /// The key has the value from here on.
    Put { key: String, value: String },
    /// The key has no value from here on.
    Remove { key: String },
}

/// What a record says, with its strings as sequences of characters.
pub enum RecordModel {
    Put { key: Seq<char>, value: Seq<char> },
    Remove { key: Seq<char> },
}

impl View for LogRecord {
    type V = RecordModel;

    open spec fn view(&self) -> RecordModel {
        match self {
            LogRecord::Put { key, value } => RecordModel::Put { key: key@, value: value@ },
            LogRecord::Remove { key } => RecordModel::Remove { key: key@ },
        }
    }
}

impl PartialEq for LogRecord {
    /// Two records are equal when they say the same.
    fn eq(&self, other: &LogRecord) -> (r: bool) {
        match (self, other) {
            (LogRecord::Put { key, value }, LogRecord::Put { key: k, value: v }) => *key == *k
                && *value == *v,
            (LogRecord::Remove { key }, LogRecord::Remove { key: k }) => *key == *k,
            _ => false,
        }
    }
}

impl vstd::std_specs::cmp::PartialEqSpecImpl for LogRecord {
    open spec fn obeys_eq_spec() -> bool {
        true
    }

    open spec fn eq_spec(&self, other: &LogRecord) -> bool {
        self@ == other@
    }
}

impl RecordModel {
    /// The key that the record is about.
    pub open spec fn key(self) -> Seq<char> {
        match self {
            RecordModel::Put { key, .. } => key,
            RecordModel::Remove { key } => key,
        }
    }
}

/// The JSON string literal that `serde_json` writes for a string, if it
/// writes one.
pub uninterp spec fn json_string_text(s: Seq<char>) -> Option<Seq<u8>>;

/// The string that `serde_json` reads from the front of some bytes, with the
/// number of bytes that it took, if it reads one.
pub uninterp spec fn json_string_prefix(bytes: Seq<u8>) -> Option<(Seq<char>, nat)>;

/// `serde_json::Error`: what `serde_json` reports when it fails. The library
/// carries such a value and never looks into it.
#[verifier::external_type_specification]
#[verifier::external_body]
pub struct ExJsonError(serde_json::Error);

/// Calls `serde_json::to_vec` on a string, which writes it as a JSON string
/// literal. The contract only names the outcome: the bytes on success, none
/// on failure.
#[verifier::external_body]
fn write_json_string(s: &str) -> (r: Result<Vec<u8>, serde_json::Error>)
    ensures
        match r {
            Ok(bytes) => json_string_text(s@) == Some(bytes@),
            Err(_) => json_string_text(s@) is None,
        },
{
    serde_json::to_vec(s)
}

/// Takes one string from the front of `bytes` with `serde_json`'s stream
/// deserializer (`Deserializer::from_slice`, `into_iter::<String>`, `next`)
/// and returns it with the stream's `byte_offset` after that. The contract
/// only names the outcome: the string and the offset where one was read, none
/// where the stream gave an error or nothing.
#[verifier::external_body]
fn read_json_string(bytes: &[u8]) -> (r: (Option<Result<String, serde_json::Error>>, usize))
    ensures
        match r.0 {
            Some(Ok(text)) => json_string_prefix(bytes@) == Some((text@, r.1 as nat)),
            _ => json_string_prefix(bytes@) is None,
        },
{
    let mut stream = serde_json::Deserializer::from_slice(bytes).into_iter::<String>();
    let item = stream.next();
    (item, stream.byte_offset())
}

/// The bytes before the key of a `Put`.
pub open spec fn put_open() -> Seq<u8> {
    PUT_OPEN.spec_bytes()
}

/// The bytes between the key and the value of a `Put`.
pub open spec fn put_middle() -> Seq<u8> {
    PUT_MIDDLE.spec_bytes()
}

/// The bytes before the key of a `Remove`.
pub open spec fn remove_open() -> Seq<u8> {
    REMOVE_OPEN.spec_bytes()
}

/// The bytes after the last string of a record.
pub open spec fn record_close() -> Seq<u8> {
    RECORD_CLOSE.spec_bytes()
}

/// `pattern` stands in `line` at position `at`.
pub open spec fn has_at(line: Seq<u8>, at: int, pattern: Seq<u8>) -> bool {
    &&& 0 <= at
    &&& at + pattern.len() <= line.len()
    &&& line.subrange(at, at + pattern.len()) == pattern
}

/// The JSON string literal that starts at position `at` of `line`, as the
/// string it denotes and the position after it.
pub open spec fn string_at(line: Seq<u8>, at: int) -> Option<(Seq<char>, int)> {
    if 0 <= at < line.len() && line[at] == QUOTE {
        match json_string_prefix(line.subrange(at, line.len() as int)) {
            Some((text, used)) => if 0 < used && at + used <= line.len() {
                Some((text, at + used))
            } else {
                None
            },
            None => None,
        }
    } else {
        None
    }
}

/// The record that a line holds, if it holds one. The line is the text
/// without the line feed that ends it.
pub open spec fn parse_record(line: Seq<u8>) -> Option<RecordModel> {
    if has_at(line, 0, put_open()) {
        match string_at(line, put_open().len() as int) {
            Some((key, middle)) => if has_at(line, middle, put_middle()) {
                match string_at(line, middle + put_middle().len()) {
                    Some((value, end)) => if has_at(line, end, record_close()) && end
                        + record_close().len() == line.len() {
                        Some(RecordModel::Put { key, value })
                    } else {
                        None
                    },
                    None => None,
                }
            } else {
                None
            },
            None => None,
        }
    } else if has_at(line, 0, remove_open()) {
        match string_at(line, remove_open().len() as int) {
            Some((key, end)) => if has_at(line, end, record_close()) && end + record_close().len()
                == line.len() {
                Some(RecordModel::Remove { key })
            } else {
                None
            },
            None => None,
        }
    } else {
        None
    }
}

/// The text of a record: the frame around the literals of its strings.
pub open spec fn record_text(record: RecordModel) -> Option<Seq<u8>> {
    match record {
        RecordModel::Put { key, value } => match (json_string_text(key), json_string_text(value)) {
            (Some(k), Some(v)) => Some(put_open() + k + put_middle() + v + record_close()),
            _ => None,
        },
        RecordModel::Remove { key } => match json_string_text(key) {
            Some(k) => Some(remove_open() + k + record_close()),
            None => None,
        },
    }
}

/// A record can be written: it has a text, the text fits on one line, and
/// the text reads back as the record.
pub open spec fn writable(record: RecordModel) -> bool {
    match record_text(record) {
        Some(text) => !text.contains(NEWLINE) && parse_record(text) == Some(record),
        None => false,
    }
}

/// Tells whether `pattern` stands in `line` at `at`.
fn matches_at(line: &[u8], at: usize, pattern: &[u8]) -> (r: bool)
    ensures
        r == has_at(line@, at as int, pattern@),
{
    if pattern.len() > line.len() || at > line.len() - pattern.len() {
        return false;
    }
    let mut i: usize = 0;
    while i < pattern.len()
        invariant
            i <= pattern.len(),
            at + pattern.len() <= line.len(),
            forall|j: int| 0 <= j < i ==> line@[at + j] == pattern@[j],
        decreases pattern.len() - i,
    {
        if line[at + i] != pattern[i] {
            assert(line@.subrange(at as int, at + pattern@.len())[i as int] != pattern@[i as int]);
            return false;
        }
        i += 1;
    }
    assert(line@.subrange(at as int, at + pattern@.len()) =~= pattern@);
    true
}

/// Reads the string literal at `at`.
fn read_string_at(line: &[u8], at: usize) -> (r: Option<(String, usize)>)
    ensures
        match r {
            Some((text, end)) => string_at(line@, at as int) == Some((text@, end as int)),
            None => string_at(line@, at as int) is None,
        },
{
    if at >= line.len() || line[at] != QUOTE {
        return None;
    }
    let rest = slice_subrange(line, at, line.len());
    let (item, used) = read_json_string(rest);
    match item {
        Some(Ok(text)) => {
            if 0 < used && used <= line.len() - at {
                Some((text, at + used))
            } else {
                None
            }
        },
        _ => None,
    }
}

/// Tells whether `record_close` stands at `at` and ends the line.
fn closes_at(line: &[u8], at: usize) -> (r: bool)
    ensures
        r == (has_at(line@, at as int, record_close()) && at + record_close().len()
            == line@.len()),
{
    let close = RECORD_CLOSE.as_bytes();
    matches_at(line, at, close) && line.len() - at == close.len()
}

/// Tells whether `byte` occurs in `bytes`.
fn holds_byte(bytes: &[u8], byte: u8) -> (r: bool)
    ensures
        r == bytes@.contains(byte),
{
    let mut i: usize = 0;
    while i < bytes.len()
        invariant
            i <= bytes.len(),
            forall|j: int| 0 <= j < i ==> bytes@[j] != byte,
        decreases bytes.len() - i,
    {
        if bytes[i] == byte {
            return true;
        }
        i += 1;
    }
    false
}

/// The line of a `Put`, given the literals of its key and of its value: the
/// frame around them.
pub fn put_line(key_text: &[u8], value_text: &[u8]) -> (line: Vec<u8>)
    ensures
        line@ == put_open() + key_text@ + put_middle() + value_text@ + record_close(),
{
    let mut line: Vec<u8> = Vec::new();
    append_bytes(&mut line, PUT_OPEN.as_bytes());
    append_bytes(&mut line, key_text);
    append_bytes(&mut line, PUT_MIDDLE.as_bytes());
    append_bytes(&mut line, value_text);
    append_bytes(&mut line, RECORD_CLOSE.as_bytes());
    assert(line@ =~= put_open() + key_text@ + put_middle() + value_text@ + record_close());
    line
}

/// The line of a `Remove`, given the literal of its key: the frame around
/// it.
pub fn remove_line(key_text: &[u8]) -> (line: Vec<u8>)
    ensures
        line@ == remove_open() + key_text@ + record_close(),
{
    let mut line: Vec<u8> = Vec::new();
    append_bytes(&mut line, REMOVE_OPEN.as_bytes());
    append_bytes(&mut line, key_text);
    append_bytes(&mut line, RECORD_CLOSE.as_bytes());
    assert(line@ =~= remove_open() + key_text@ + record_close());
    line
}

/// Accepts a line as the line of a record: hands it back where it holds no
/// line feed and reads back as the record, and refuses it with
/// `EncodeError` where it does not.
pub fn accept_line(record: &LogRecord, line: Vec<u8>) -> (r: Result<Vec<u8>, CaveyError>)
    ensures
        match r {
            Ok(accepted) => accepted@ == line@ && !line@.contains(NEWLINE) && parse_record(line@)
                == Some(record@),
            Err(e) => e == CaveyError::EncodeError && (line@.contains(NEWLINE) || parse_record(
                line@,
            ) != Some(record@)),
        },
{
    if holds_byte(line.as_slice(), NEWLINE) {
        return Err(CaveyError::EncodeError);
    }
    match LogRecord::from_line(line.as_slice()) {
        Ok(back) => {
            if back == *record {
                Ok(line)
            } else {
                Err(CaveyError::EncodeError)
            }
        },
        Err(_) => Err(CaveyError::EncodeError),
    }
}

impl LogRecord {
    /// Writes the record as a line, without the line feed that ends it.
    ///
    /// The text is read back before it is handed out, so a line that this
    /// function returns always holds the record it was made from.
    pub fn to_line(&self) -> (r: Result<Vec<u8>, CaveyError>)
        ensures
            match r {
                Ok(line) => writable(self@) && record_text(self@) == Some(line@),
                Err(e) => !writable(self@) && e == CaveyError::EncodeError,
            },
    {
        let line = match self {
            LogRecord::Put { key, value } => {
                let key_text = match write_json_string(key.as_str()) {
                    Ok(text) => text,
                    Err(_) => {
                        return Err(CaveyError::EncodeError);
                    },
                };
                let value_text = match write_json_string(value.as_str()) {
                    Ok(text) => text,
                    Err(_) => {
                        return Err(CaveyError::EncodeError);
                    },
                };
                put_line(key_text.as_slice(), value_text.as_slice())
            },
            LogRecord::Remove { key } => {
                let key_text = match write_json_string(key.as_str()) {
                    Ok(text) => text,
                    Err(_) => {
                        return Err(CaveyError::EncodeError);
                    },
                };
                remove_line(key_text.as_slice())
            },
        };
        accept_line(self, line)
    }

    /// Reads the record on a line. The line is the text without the line
    /// feed that ends it.
    pub fn from_line(line: &[u8]) -> (r: Result<LogRecord, CaveyError>)
        ensures
            match r {
                Ok(record) => parse_record(line@) == Some(record@),
                Err(e) => parse_record(line@) is None && e == CaveyError::DecodeError,
            },
    {
        let put_open = PUT_OPEN.as_bytes();
        let put_middle = PUT_MIDDLE.as_bytes();
        let remove_open = REMOVE_OPEN.as_bytes();
        if matches_at(line, 0, put_open) {
            match read_string_at(line, put_open.len()) {
                Some((key, middle)) => {
                    if !matches_at(line, middle, put_middle) {
                        return Err(CaveyError::DecodeError);
                    }
                    assert(middle + put_middle@.len() <= line.len());
                    let value_at = middle + put_middle.len();
                    match read_string_at(line, value_at) {
                        Some((value, end)) => {
                            if closes_at(line, end) {
                                Ok(LogRecord::Put { key, value })
                            } else {
                                Err(CaveyError::DecodeError)
                            }
                        },
                        None => Err(CaveyError::DecodeError),
                    }
                },
                None => Err(CaveyError::DecodeError),
            }
        } else if matches_at(line, 0, remove_open) {
            match read_string_at(line, remove_open.len()) {
                Some((key, end)) => {
                    if closes_at(line, end) {
                        Ok(LogRecord::Remove { key })
                    } else {
                        Err(CaveyError::DecodeError)
                    }
                },
                None => Err(CaveyError::DecodeError),
            }
        } else {
            Err(CaveyError::DecodeError)
        }
    }
}

} // verus!
