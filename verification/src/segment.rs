//! Segments: what a sequence of bytes holds when it is read as records.
//!
//! A segment is a sequence of lines, each ended by a line feed and holding
//! one record. The functions here say which records a segment holds and
//! where, and what map from keys to values they leave when they are replayed
//! in order.
use vstd::prelude::*;
use vstd::slice::slice_subrange;
use crate::error::{CaveyError, Corruption};
use crate::index::{lemma_with_key, lemma_without_key, with_key, without_key};
use crate::record::{parse_record, LogRecord, RecordModel, NEWLINE};

verus! {

/// One record of a segment with the offset of its first byte.
pub struct LogEntry {
    pub offset: int,
    pub record: RecordModel,
}

/// The position of the first line feed at or after `from`, or the length of
/// `log` if there is none.
pub open spec fn next_newline(log: Seq<u8>, from: int) -> int
    decreases log.len() - from,
{
    if from < 0 || from >= log.len() {
        log.len() as int
    } else if log[from] == NEWLINE {
        from
    } else {
        next_newline(log, from + 1)
    }
}

/// The record whose line starts at `offset`: `UnexpectedEof` where the
/// segment ends before the line does, `DecodeError` where the line holds no
/// record.
pub open spec fn record_at(log: Seq<u8>, offset: int) -> Result<RecordModel, CaveyError> {
    let end = next_newline(log, offset);
    if offset < 0 || end >= log.len() {
        Err(CaveyError::DataCorruption(Corruption::UnexpectedEof))
    } else {
        match parse_record(log.subrange(offset, end)) {
            Some(record) => Ok(record),
            None => Err(CaveyError::DecodeError),
        }
    }
}

/// Where the last line of `body` starts: after its last line feed, or at 0.
pub open spec fn last_line_start(body: Seq<u8>) -> int
    decreases body.len(),
{
    if body.len() == 0 {
        0
    } else if body.last() == NEWLINE {
        body.len() as int
    } else {
        last_line_start(body.drop_last())
    }
}

/// The records of a segment in order, each with its offset. A segment that
/// does not end in a line feed, or with a line that holds no record, has
/// none.
pub open spec fn log_entries(log: Seq<u8>) -> Option<Seq<LogEntry>>
    decreases log.len(),
{
    if log.len() == 0 {
        Some(Seq::empty())
    } else if log.last() != NEWLINE {
        None
    } else {
        let body = log.drop_last();
        let start = last_line_start(body);
        if 0 <= start <= body.len() {
            match (
                log_entries(log.subrange(0, start)),
                parse_record(body.subrange(start, body.len() as int)),
            ) {
                (Some(before), Some(record)) => Some(before.push(LogEntry { offset: start, record })),
                _ => None,
            }
        } else {
            None
        }
    }
}

/// The map after one more record.
pub open spec fn apply_record(
    contents: Map<Seq<char>, Seq<char>>,
    record: RecordModel,
) -> Map<Seq<char>, Seq<char>> {
    match record {
        RecordModel::Put { key, value } => contents.insert(key, value),
        RecordModel::Remove { key } => contents.remove(key),
    }
}

/// The map from keys to values that replaying `entries` in order leaves.
pub open spec fn contents_of(entries: Seq<LogEntry>) -> Map<Seq<char>, Seq<char>>
    decreases entries.len(),
{
    if entries.len() == 0 {
        Map::empty()
    } else {
        apply_record(contents_of(entries.drop_last()), entries.last().record)
    }
}

/// The map from each live key to the offset of its most recent record.
pub open spec fn locations_of(entries: Seq<LogEntry>) -> Map<Seq<char>, int>
    decreases entries.len(),
{
    if entries.len() == 0 {
        Map::empty()
    } else {
        let before = locations_of(entries.drop_last());
        match entries.last().record {
            RecordModel::Put { key, .. } => before.insert(key, entries.last().offset),
            RecordModel::Remove { key } => before.remove(key),
        }
    }
}

/// The live keys in the order in which the index walks them after `entries`
/// were replayed.
pub open spec fn walk_of(entries: Seq<LogEntry>) -> Seq<Seq<char>>
    decreases entries.len(),
{
    if entries.len() == 0 {
        Seq::empty()
    } else {
        let before = walk_of(entries.drop_last());
        match entries.last().record {
            RecordModel::Put { key, .. } => with_key(before, key),
            RecordModel::Remove { key } => without_key(before, key),
        }
    }
}

/// The walk holds each live key once, the live keys are the keys that have a
/// location, and there are no more of them than records.
pub proof fn lemma_walk(entries: Seq<LogEntry>)
    ensures
        walk_of(entries).no_duplicates(),
        walk_of(entries).len() <= entries.len(),
        forall|key: Seq<char>|
            walk_of(entries).contains(key) <==> contents_of(entries).contains_key(key),
        forall|key: Seq<char>|
            locations_of(entries).contains_key(key) <==> contents_of(entries).contains_key(key),
    decreases entries.len(),
{
    if entries.len() > 0 {
        let before = entries.drop_last();
        lemma_walk(before);
        match entries.last().record {
            RecordModel::Put { key, .. } => {
                lemma_with_key(walk_of(before), key);
            },
            RecordModel::Remove { key } => {
                lemma_without_key(walk_of(before), key);
            },
        }
        assert forall|key: Seq<char>|
            walk_of(entries).contains(key) <==> contents_of(entries).contains_key(key) by {
            assert(walk_of(before).contains(key) <==> contents_of(before).contains_key(key));
        }
    } else {
        assert forall|key: Seq<char>| !walk_of(entries).contains(key) by {
            if walk_of(entries).contains(key) {
                let i = choose|i: int| 0 <= i < walk_of(entries).len() && walk_of(entries)[i] == key;
            }
        }
    }
}

/// Every live key's location is the offset of a line of the segment that
/// holds a `Put` of that key with its current value.
pub proof fn lemma_locations(log: Seq<u8>)
    requires
        log_entries(log) is Some,
    ensures
        forall|key: Seq<char>| #[trigger]
            locations_of(log_entries(log)->0).contains_key(key) ==> {
                let entries = log_entries(log)->0;
                let offset = locations_of(entries)[key];
                &&& contents_of(entries).contains_key(key)
                &&& 0 <= offset < log.len()
                &&& next_newline(log, offset) < log.len()
                &&& record_at(log, offset) == Ok::<RecordModel, CaveyError>(
                    RecordModel::Put { key, value: contents_of(entries)[key] },
                )
            },
    decreases log.len(),
{
    if log.len() > 0 {
        let entries = log_entries(log)->0;
        let body = log.drop_last();
        let start = last_line_start(body);
        let before_log = log.subrange(0, start);
        let line = body.subrange(start, body.len() as int);
        let before = log_entries(before_log)->0;
        let record = parse_record(line)->0;
        lemma_last_line_start(body);
        lemma_locations(before_log);
        assert(entries.drop_last() =~= before);
        assert(entries.last() == LogEntry { offset: start, record });
        assert(log =~= before_log + (line + seq![NEWLINE]));
        assert forall|key: Seq<char>| #[trigger]
            locations_of(entries).contains_key(key) implies {
            let offset = locations_of(entries)[key];
            &&& contents_of(entries).contains_key(key)
            &&& 0 <= offset < log.len()
            &&& next_newline(log, offset) < log.len()
            &&& record_at(log, offset) == Ok::<RecordModel, CaveyError>(
                RecordModel::Put { key, value: contents_of(entries)[key] },
            )
        } by {
            if record is Put && record.key() == key {
                assert forall|i: int| start <= i < body.len() implies log[i] != NEWLINE by {
                    assert(log[i] == body[i]);
                }
                lemma_next_newline_is(log, start, body.len() as int);
                assert(log.subrange(start, body.len() as int) =~= line);
            } else {
                assert(locations_of(before).contains_key(key));
                lemma_record_at_stable(
                    before_log,
                    line + seq![NEWLINE],
                    locations_of(before)[key],
                );
            }
        }
    }
}

/// `next_newline` stays within the segment, passes over no line feed, and
/// stops on one unless it reaches the end.
pub proof fn lemma_next_newline(log: Seq<u8>, from: int)
    requires
        0 <= from <= log.len(),
    ensures
        from <= next_newline(log, from) <= log.len(),
        forall|i: int| from <= i < next_newline(log, from) ==> log[i] != NEWLINE,
        next_newline(log, from) < log.len() ==> log[next_newline(log, from)] == NEWLINE,
    decreases log.len() - from,
{
    if from < log.len() && log[from] != NEWLINE {
        lemma_next_newline(log, from + 1);
    }
}

/// The first line feed at or after `from` is where `next_newline` stops.
pub proof fn lemma_next_newline_is(log: Seq<u8>, from: int, end: int)
    requires
        0 <= from <= end < log.len(),
        log[end] == NEWLINE,
        forall|i: int| from <= i < end ==> log[i] != NEWLINE,
    ensures
        next_newline(log, from) == end,
    decreases end - from,
{
    if from < end {
        lemma_next_newline_is(log, from + 1, end);
    }
}

/// A line that ends inside a segment is the same line after more bytes are
/// appended to the segment.
pub proof fn lemma_record_at_stable(log: Seq<u8>, more: Seq<u8>, offset: int)
    requires
        0 <= offset,
        next_newline(log, offset) < log.len(),
    ensures
        next_newline(log + more, offset) == next_newline(log, offset),
        record_at(log + more, offset) == record_at(log, offset),
{
    let end = next_newline(log, offset);
    lemma_next_newline(log, offset);
    lemma_next_newline_is(log + more, offset, end);
    assert((log + more).subrange(offset, end) =~= log.subrange(offset, end));
}

/// The last line starts within the body, after every line feed of the body,
/// and holds none.
pub proof fn lemma_last_line_start(body: Seq<u8>)
    ensures
        0 <= last_line_start(body) <= body.len(),
        forall|i: int| last_line_start(body) <= i < body.len() ==> body[i] != NEWLINE,
        last_line_start(body) > 0 ==> body[last_line_start(body) - 1] == NEWLINE,
    decreases body.len(),
{
    if body.len() > 0 && body.last() != NEWLINE {
        let shorter = body.drop_last();
        lemma_last_line_start(shorter);
        assert forall|i: int| last_line_start(body) <= i < body.len() implies body[i]
            != NEWLINE by {
            if i < shorter.len() {
                assert(shorter[i] == body[i]);
            }
        }
        if last_line_start(body) > 0 {
            assert(shorter[last_line_start(body) - 1] == body[last_line_start(body) - 1]);
        }
    }
}

/// A line without a line feed that follows complete lines is the last line.
pub proof fn lemma_last_line_start_is(before: Seq<u8>, line: Seq<u8>)
    requires
        before.len() == 0 || before.last() == NEWLINE,
        !line.contains(NEWLINE),
    ensures
        last_line_start(before + line) == before.len(),
    decreases line.len(),
{
    let body = before + line;
    if line.len() == 0 {
        assert(body =~= before);
    } else {
        assert(line.last() != NEWLINE) by {
            assert(line[line.len() - 1] == line.last());
        }
        assert(body.last() == line.last());
        assert(body.drop_last() =~= before + line.drop_last());
        assert(!line.drop_last().contains(NEWLINE)) by {
            if line.drop_last().contains(NEWLINE) {
                let i = choose|i: int| 0 <= i < line.drop_last().len() && line.drop_last()[i] == NEWLINE;
                assert(line[i] == NEWLINE);
            }
        }
        lemma_last_line_start_is(before, line.drop_last());
    }
}

/// Appending one line to a segment appends its record to the records of the
/// segment; a line that holds no record leaves the segment without records.
pub proof fn lemma_entries_append(log: Seq<u8>, line: Seq<u8>)
    requires
        log_entries(log) is Some,
        !line.contains(NEWLINE),
    ensures
        log_entries(log + line + seq![NEWLINE]) == match parse_record(line) {
            Some(record) => Some(
                log_entries(log)->0.push(LogEntry { offset: log.len() as int, record }),
            ),
            None => None,
        },
{
    let longer = log + line + seq![NEWLINE];
    let body = longer.drop_last();
    assert(body =~= log + line);
    lemma_last_line_start_is(log, line);
    assert(longer.subrange(0, log.len() as int) =~= log);
    assert(body.subrange(log.len() as int, body.len() as int) =~= line);
}

/// The records of a segment include the records of each of its prefixes that
/// ends with a line: if the segment holds records, so does the prefix.
pub proof fn lemma_entries_prefix(log: Seq<u8>, cut: int)
    requires
        log_entries(log) is Some,
        0 <= cut <= log.len(),
        cut == 0 || log[cut - 1] == NEWLINE,
    ensures
        log_entries(log.subrange(0, cut)) is Some,
    decreases log.len(),
{
    if cut == log.len() {
        assert(log.subrange(0, cut) =~= log);
    } else if cut == 0 {
        assert(log.subrange(0, 0).len() == 0);
    } else {
        let body = log.drop_last();
        let start = last_line_start(body);
        lemma_last_line_start(body);
        assert(body[cut - 1] == NEWLINE);
        assert(cut <= start);
        let shorter = log.subrange(0, start);
        lemma_entries_prefix(shorter, cut);
        assert(shorter.subrange(0, cut) =~= log.subrange(0, cut));
    }
}

/// Every record takes at least one byte of its segment.
pub proof fn lemma_entries_len(log: Seq<u8>)
    requires
        log_entries(log) is Some,
    ensures
        log_entries(log)->0.len() <= log.len(),
    decreases log.len(),
{
    if log.len() > 0 {
        let start = last_line_start(log.drop_last());
        lemma_last_line_start(log.drop_last());
        lemma_entries_len(log.subrange(0, start));
    }
}

/// Finds the line feed that ends the line starting at `from`.
pub fn find_line_end(log: &[u8], from: usize) -> (r: Option<usize>)
    ensures
        match r {
            Some(end) => end == next_newline(log@, from as int) && end < log@.len(),
            None => next_newline(log@, from as int) == log@.len(),
        },
{
    let mut i: usize = from;
    while i < log.len()
        invariant
            from <= i,
            next_newline(log@, from as int) == next_newline(log@, i as int),
        decreases log.len() - i,
    {
        if log[i] == NEWLINE {
            return Some(i);
        }
        i += 1;
    }
    None
}

/// Finds the line feed that ends the line starting at `from`, where there
/// is one.
pub(crate) fn line_end(log: &[u8], from: usize) -> (end: usize)
    requires
        next_newline(log@, from as int) < log@.len(),
    ensures
        end == next_newline(log@, from as int),
        from <= end < log@.len(),
{
    proof {
        if from <= log@.len() {
            lemma_next_newline(log@, from as int);
        }
    }
    let mut i: usize = from;
    while log[i] != NEWLINE
        invariant
            from <= i < log@.len(),
            next_newline(log@, from as int) == next_newline(log@, i as int),
            next_newline(log@, from as int) < log@.len(),
        decreases log@.len() - i,
    {
        proof {
            lemma_next_newline(log@, i + 1);
        }
        i += 1;
    }
    i
}

/// Reads the record whose line starts at `offset`.
pub fn read_record_at(log: &[u8], offset: u64) -> (r: Result<LogRecord, CaveyError>)
    ensures
        match r {
            Ok(record) => record_at(log@, offset as int) == Ok::<RecordModel, CaveyError>(record@),
            Err(e) => record_at(log@, offset as int) == Err::<RecordModel, CaveyError>(e),
        },
{
    if offset >= log.len() as u64 {
        return Err(CaveyError::DataCorruption(Corruption::UnexpectedEof));
    }
    let start = offset as usize;
    match find_line_end(log, start) {
        Some(end) => {
            proof {
                lemma_next_newline(log@, start as int);
            }
            LogRecord::from_line(slice_subrange(log, start, end))
        },
        None => Err(CaveyError::DataCorruption(Corruption::UnexpectedEof)),
    }
}

/// The value of the `Put` whose line starts at `offset`: what `record_at`
/// gives, but that a `Remove` there is `UnexpectedRemove`.
pub open spec fn value_at(log: Seq<u8>, offset: int) -> Result<Seq<char>, CaveyError> {
    match record_at(log, offset) {
        Ok(RecordModel::Put { value, .. }) => Ok(value),
        Ok(RecordModel::Remove { .. }) => Err(
            CaveyError::DataCorruption(Corruption::UnexpectedRemove),
        ),
        Err(e) => Err(e),
    }
}

/// Reads the value of the `Put` whose line starts at `offset`.
pub fn read_value_at(log: &[u8], offset: u64) -> (r: Result<String, CaveyError>)
    ensures
        match r {
            Ok(value) => value_at(log@, offset as int) == Ok::<Seq<char>, CaveyError>(value@),
            Err(e) => value_at(log@, offset as int) == Err::<Seq<char>, CaveyError>(e),
        },
{
    match read_record_at(log, offset) {
        Ok(LogRecord::Put { value, .. }) => Ok(value),
        Ok(LogRecord::Remove { .. }) => Err(CaveyError::DataCorruption(Corruption::UnexpectedRemove)),
        Err(e) => Err(e),
    }
}

} // verus!
