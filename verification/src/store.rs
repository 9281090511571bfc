//! The segment store: one active segment, the index into it, recovery by
//! replay, and compaction when stale records pile up.
//!
//! The store holds the bytes of its active segment. Everything else it holds
//! is a function of those bytes: the records are the lines of the segment,
//! the map from keys to values is what replaying the records leaves, and the
//! index points each live key at the line of its most recent `Put`.
use vstd::prelude::*;
use vstd::slice::slice_subrange;
use vstd::string::{StringExecFns, StringSliceAdditionalSpecFns};
use vstd::utf8::{decode_utf8, valid_utf8};
use crate::compaction::{
    compacted, copy_lines, lemma_compacted, lemma_compacted_locations, lemma_copy_step,
};
use crate::engine::{lookup, text_of, CaveyEngine};
use crate::error::CaveyError;
use crate::generation::{generation_of, name_of, parse_generation, segment_name};
use crate::index::{KeyIndex, RecordPointer};
use crate::bytes::append_bytes;
use crate::record::{parse_record, record_text, writable, LogRecord, RecordModel, NEWLINE};
use crate::utils::{check_engine, is_marker, is_marker_name, lossy_text};
use crate::segment::{
    apply_record, contents_of, find_line_end, lemma_entries_append, lemma_entries_len,
    lemma_entries_prefix, lemma_locations, lemma_next_newline, lemma_walk, line_end,
    locations_of, log_entries, next_newline, read_value_at, record_at, walk_of, LogEntry,
};

verus! {

/// Number of records a segment must hold before compaction is considered.
pub const COMPACT_THRESHOLD: usize = 500;

/// Compaction is considered once a segment holds more than this many records
/// per live key.
pub const COMPACT_RATIO: usize = 10;

/// The compaction predicate: there are at least `COMPACT_THRESHOLD` records,
/// and more than `COMPACT_RATIO` of them for each live key.
pub open spec fn compaction_due(entries: int, live: int) -> bool {
    entries >= COMPACT_THRESHOLD as int && entries > COMPACT_RATIO as int * live
}

/// The text of the failure to name the segment after the last generation.
pub const EXHAUSTED: &'static str = "generation numbers exhausted";

/// The text of the failure to name the segment after the last generation.
pub open spec fn exhausted_text() -> Seq<char> {
    EXHAUSTED@
}

/// The compaction predicate holds of a segment: of its records and its
/// live keys.
pub open spec fn due(segment: Seq<u8>) -> bool {
    compaction_due(
        log_entries(segment)->0.len() as int,
        walk_of(log_entries(segment)->0).len() as int,
    )
}

/// What a store is once it has compacted a segment if the predicate holds of
/// it, given the generation it had.
///
/// Where the predicate does not hold, the store has that generation and
/// segment. Where it holds and a generation follows, the store has the next
/// generation and the compacted segment. Where it holds and no generation
/// follows, the store has that generation and segment and reports the
/// failure.
pub open spec fn compacted_if_due(
    generation: u64,
    segment: Seq<u8>,
    store: &CaveyStore,
    r: Result<(), CaveyError>,
) -> bool {
    if !due(segment) {
        &&& r is Ok
        &&& store.generation_spec() == generation
        &&& store.segment() == segment
    } else if generation < u64::MAX {
        &&& r is Ok
        &&& store.generation_spec() == generation + 1
        &&& store.segment() == compacted(segment)
    } else {
        &&& r matches Err(CaveyError::IoError(text)) && text@ == exhausted_text()
        &&& store.generation_spec() == generation
        &&& store.segment() == segment
    }
}

/// What a write leaves, given the generation and the segment before it and
/// the line of its record.
///
/// The predicate is asked of the segment with the line appended. Where it
/// does not hold, the store has that generation and the appended segment.
/// Where it holds and a generation follows, the store has the next
/// generation and the appended segment compacted. Where it holds and no
/// generation follows, the write fails and appends nothing: the store is as
/// it was.
pub open spec fn settled(
    generation: u64,
    segment: Seq<u8>,
    line: Seq<u8>,
    store: &CaveyStore,
    r: Result<(), CaveyError>,
) -> bool {
    let appended = segment + line + seq![NEWLINE];
    if !due(appended) {
        &&& r is Ok
        &&& store.generation_spec() == generation
        &&& store.segment() == appended
    } else if generation < u64::MAX {
        &&& r is Ok
        &&& store.generation_spec() == generation + 1
        &&& store.segment() == compacted(appended)
    } else {
        &&& r matches Err(CaveyError::IoError(text)) && text@ == exhausted_text()
        &&& store.generation_spec() == generation
        &&& store.segment() == segment
    }
}

/// What the data directory lacks after a write.
#[derive(Debug, Clone, Copy, PartialEq, Eq, Structural)]
pub enum Pending {
    /// The active segment's file lacks the bytes of the segment from `from`
    /// on.
    Append { from: usize },
    /// The active segment is a new one: its file has to be written whole,
    /// and the files of other segments removed.
    Replace,
}

/// A file of the data directory: its name and what it holds.
#[derive(Debug, Clone, PartialEq, Eq)]
pub struct SegmentFile {
    pub name: String,
    pub data: Vec<u8>,
}

/// The names of some files.
pub open spec fn names_of(files: Seq<SegmentFile>) -> Seq<Seq<char>> {
    files.map_values(|file: SegmentFile| file.name@)
}

/// Some strings as sequences of characters.
pub open spec fn texts_of(names: Seq<String>) -> Seq<Seq<char>> {
    names.map_values(|name: String| name@)
}

/// What the marker of a data directory holds where this store owns it.
pub const ENGINE: &'static str = "kvs";

/// The bytes of the marker of a data directory that this store owns.
pub open spec fn engine_marker() -> Seq<u8> {
    ENGINE.spec_bytes()
}

/// A data directory may be opened by this store: it has no marker, or its
/// marker is this store's.
pub open spec fn marker_fits(marker: Option<&[u8]>) -> bool {
    match marker {
        None => true,
        Some(found) => found@ == engine_marker(),
    }
}

/// No name is a segment's: every one is the marker's.
pub open spec fn no_segments(names: Seq<Seq<char>>) -> bool {
    forall|i: int| 0 <= i < names.len() ==> is_marker(#[trigger] names[i])
}

/// The name at `i` is the first, the marker's aside, that is no generation
/// number.
pub open spec fn is_first_unnamed(names: Seq<Seq<char>>, i: int) -> bool {
    &&& 0 <= i < names.len()
    &&& !is_marker(names[i])
    &&& generation_of(names[i]) is None
    &&& forall|j: int|
        0 <= j < i && !is_marker(names[j]) ==> generation_of(#[trigger] names[j]) is Some
}

/// The name at `i` is a segment's, and the first of those with the lowest
/// generation; every name but the marker's is a generation number.
pub open spec fn is_lowest(names: Seq<Seq<char>>, i: int) -> bool {
    &&& 0 <= i < names.len()
    &&& !is_marker(names[i])
    &&& forall|j: int|
        0 <= j < names.len() && !is_marker(names[j]) ==> (#[trigger] generation_of(names[j]))
            is Some && generation_of(names[j])->0 >= generation_of(names[i])->0
    &&& forall|j: int|
        0 <= j < i && !is_marker(names[j]) ==> (#[trigger] generation_of(names[j]))->0
            > generation_of(names[i])->0
}

/// A log-structured store of string keys and values.
pub struct CaveyStore {
    generation: u64,
    log: Vec<u8>,
    index: KeyIndex,
    entries: usize,
}

impl View for CaveyStore {
    type V = Map<Seq<char>, Seq<char>>;

    /// The map from keys to values that the store holds.
    open spec fn view(&self) -> Map<Seq<char>, Seq<char>> {
        contents_of(self.records())
    }
}

impl CaveyStore {
    /// The bytes of the active segment.
    pub closed spec fn segment(&self) -> Seq<u8> {
        self.log@
    }

    /// The generation of the active segment.
    pub closed spec fn generation_spec(&self) -> u64 {
        self.generation
    }

    /// The records of the active segment.
    pub open spec fn records(&self) -> Seq<LogEntry> {
        log_entries(self.segment())->0
    }

    /// The live keys in the order in which the index walks them.
    pub open spec fn walk(&self) -> Seq<Seq<char>> {
        walk_of(self.records())
    }

    /// The store is what replaying its segment gives: the segment holds
    /// records, the count of records is their number, and the index holds
    /// the live keys, each with the location of its most recent record.
    pub closed spec fn wf(&self) -> bool {
        &&& self.index.wf()
        &&& log_entries(self.log@) is Some
        &&& self.entries == self.records().len()
        &&& self.index.keys() == self.walk()
        &&& forall|key: Seq<char>| #[trigger]
            self.index@.contains_key(key) ==> self.index@[key] == (RecordPointer {
                generation: self.generation,
                offset: locations_of(self.records())[key] as u64,
            })
    }

    /// Two stores with the same generation and segment.
    pub open spec fn same_as(&self, other: &CaveyStore) -> bool {
        &&& self.generation_spec() == other.generation_spec()
        &&& self.segment() == other.segment()
    }

    /// In a well-formed store the segment holds records, the walk holds each
    /// live key once, and there are no more live keys than records, nor more
    /// records than bytes.
    pub proof fn lemma_counts(&self)
        requires
            self.wf(),
        ensures
            log_entries(self.segment()) is Some,
            self.walk().no_duplicates(),
            self.walk().len() <= self.records().len() <= self.segment().len(),
            forall|key: Seq<char>| self.walk().contains(key) <==> self@.contains_key(key),
    {
        lemma_walk(self.records());
        lemma_entries_len(self.log@);
    }

    /// In a well-formed store the index holds the keys that have a value,
    /// and points each at a line of the segment that holds a `Put` of the key
    /// with its value.
    proof fn lemma_live(&self, key: Seq<char>)
        requires
            self.wf(),
        ensures
            self.index@.contains_key(key) <==> self@.contains_key(key),
            self.index.keys().contains(key) <==> self@.contains_key(key),
            self@.contains_key(key) ==> {
                let offset = self.index@[key].offset as int;
                &&& self.index@[key].generation == self.generation
                &&& offset == locations_of(self.records())[key]
                &&& 0 <= offset < self.log@.len()
                &&& next_newline(self.log@, offset) < self.log@.len()
                &&& record_at(self.log@, offset) == Ok::<RecordModel, CaveyError>(
                    RecordModel::Put { key, value: self@[key] },
                )
            },
    {
        self.index.lemma_keys();
        lemma_walk(self.records());
        lemma_locations(self.log@);
        assert(self.index.keys().contains(key) <==> self.index@.contains_key(key));
        assert(walk_of(self.records()).contains(key) <==> contents_of(self.records()).contains_key(
            key,
        ));
        if self@.contains_key(key) {
            assert(locations_of(self.records()).contains_key(key));
            let offset = locations_of(self.records())[key];
            assert(0 <= offset < self.log@.len());
            assert(self.log@.len() == self.log.len());
            assert(offset as u64 == offset);
        }
    }

    /// A store without records, of generation 0.
    pub fn new() -> (r: CaveyStore)
        ensures
            r.wf(),
            r.generation_spec() == 0,
            r.segment() == Seq::<u8>::empty(),
            r@ == Map::<Seq<char>, Seq<char>>::empty(),
    {
        let r = CaveyStore { generation: 0, log: Vec::new(), index: KeyIndex::new(), entries: 0 };
        assert(log_entries(r.log@) == Some(Seq::<LogEntry>::empty()));
        r
    }

    /// Picks the active segment among the files of a data directory, given
    /// their names: the position and the generation of the first file with
    /// the lowest generation, or none where there are no segments. The
    /// marker's name is passed over.
    ///
    /// Every other name must be a generation number: the first that is not
    /// is reported as `InvalidGeneration`.
    pub fn select(names: &Vec<String>) -> (r: Result<Option<(usize, u64)>, CaveyError>)
        ensures
            match r {
                Ok(None) => no_segments(texts_of(names@)),
                Ok(Some((at, generation))) => is_lowest(texts_of(names@), at as int)
                    && generation_of(names@[at as int]@) == Some(generation),
                Err(CaveyError::InvalidGeneration(name)) => exists|i: int| #[trigger]
                    is_first_unnamed(texts_of(names@), i) && name@ == names@[i]@,
                Err(_) => false,
            },
    {
        let ghost texts = texts_of(names@);
        let mut lowest: Option<(usize, u64)> = None;
        let mut i: usize = 0;
        while i < names.len()
            invariant
                i <= names.len(),
                texts == texts_of(names@),
                forall|j: int|
                    0 <= j < i && !is_marker(texts[j]) ==> generation_of(#[trigger] texts[j])
                        is Some,
                match lowest {
                    None => forall|j: int| 0 <= j < i ==> is_marker(#[trigger] texts[j]),
                    Some((at, generation)) => {
                        &&& at < i
                        &&& !is_marker(texts[at as int])
                        &&& generation_of(texts[at as int]) == Some(generation)
                        &&& forall|j: int|
                            0 <= j < i && !is_marker(texts[j]) ==> (#[trigger] generation_of(
                                texts[j],
                            ))->0 >= generation
                        &&& forall|j: int|
                            0 <= j < at && !is_marker(texts[j]) ==> (#[trigger] generation_of(
                                texts[j],
                            ))->0 > generation
                    },
                },
            decreases names.len() - i,
        {
            assert(texts[i as int] == names@[i as int]@);
            if !is_marker_name(&names[i]) {
                match parse_generation(names[i].as_str()) {
                    None => {
                        assert(is_first_unnamed(texts, i as int));
                        return Err(CaveyError::InvalidGeneration(names[i].clone()));
                    },
                    Some(generation) => {
                        let lower = match lowest {
                            None => true,
                            Some((_, least)) => generation < least,
                        };
                        if lower {
                            lowest = Some((i, generation));
                        }
                    },
                }
            }
            i += 1;
        }
        Ok(lowest)
    }

    /// Opens the store of a data directory, given the files of the directory
    /// and what its marker holds, if it has one.
    ///
    /// A marker that is another engine's is an `EngineMismatch`, whatever
    /// the files are. Else every file's name but the marker's must be a
    /// generation number: the first that is not is reported as
    /// `InvalidGeneration`. The first file with the lowest generation is the
    /// active segment, and the store is recovered from it; a directory
    /// without segments gives an empty store of generation 0. Beside the
    /// store stands the answer whether the marker has to be written: it has
    /// where there was none.
    pub fn open(files: Vec<SegmentFile>, marker: Option<&[u8]>) -> (r: Result<
        (CaveyStore, bool),
        CaveyError,
    >)
        ensures
            match r {
                Ok((store, write_marker)) => {
                    &&& marker_fits(marker)
                    &&& write_marker == (marker is None)
                    &&& store.wf()
                    &&& if no_segments(names_of(files@)) {
                        store.generation_spec() == 0 && store.segment() == Seq::<u8>::empty()
                    } else {
                        exists|i: int|
                            {
                                &&& #[trigger] is_lowest(names_of(files@), i)
                                &&& store.generation_spec() == generation_of(files@[i].name@)->0
                                &&& store.segment() == files@[i].data@
                                &&& log_entries(files@[i].data@) is Some
                            }
                    }
                },
                Err(CaveyError::EngineMismatch(text)) => {
                    &&& marker matches Some(found) && found@ != engine_marker() && text@
                        == lossy_text(found@) && (valid_utf8(found@) ==> text@ == decode_utf8(
                        found@,
                    ))
                },
                Err(CaveyError::InvalidGeneration(name)) => marker_fits(marker) && exists|i: int|
                    #[trigger] is_first_unnamed(names_of(files@), i) && name@ == files@[i].name@,
                Err(e) => e == CaveyError::DecodeError && marker_fits(marker) && exists|i: int|
                    #[trigger] is_lowest(names_of(files@), i) && log_entries(files@[i].data@)
                        is None,
            },
    {
        let write_marker = match check_engine(marker, ENGINE.as_bytes()) {
            Ok(write_marker) => write_marker,
            Err(e) => {
                return Err(e);
            },
        };
        let mut names: Vec<String> = Vec::new();
        let mut i: usize = 0;
        while i < files.len()
            invariant
                i <= files.len(),
                names@.len() == i,
                texts_of(names@) == names_of(files@).subrange(0, i as int),
            decreases files.len() - i,
        {
            let ghost before = names@;
            names.push(files[i].name.clone());
            assert(texts_of(names@) =~= names_of(files@).subrange(0, i + 1)) by {
                assert forall|j: int| 0 <= j <= i implies texts_of(names@)[j] == names_of(
                    files@,
                )[j] by {
                    if j < i {
                        assert(texts_of(before)[j] == names_of(files@).subrange(0, i as int)[j]);
                    }
                }
            }
            i += 1;
        }
        assert(texts_of(names@) =~= names_of(files@));
        match CaveyStore::select(&names) {
            Err(e) => Err(e),
            Ok(None) => Ok((CaveyStore::new(), write_marker)),
            Ok(Some((at, generation))) => {
                assert(!is_marker(names_of(files@)[at as int]));
                let mut files = files;
                let chosen = files.swap_remove(at);
                match CaveyStore::recover(generation, chosen.data) {
                    Ok(store) => Ok((store, write_marker)),
                    Err(e) => Err(e),
                }
            },
        }
    }

    /// Tells whether a file of the data directory is left over: it is
    /// neither the marker nor the active segment's file.
    pub fn is_stale(&self, name: &String) -> (r: bool)
        ensures
            r == (!is_marker(name@) && name@ != name_of(self.generation_spec())),
    {
        !is_marker_name(name) && *name != self.current_file()
    }

    /// Rebuilds a store from the bytes of its segment by replaying the
    /// records in order.
    pub fn recover(generation: u64, data: Vec<u8>) -> (r: Result<CaveyStore, CaveyError>)
        ensures
            match r {
                Ok(store) => {
                    &&& log_entries(data@) is Some
                    &&& store.wf()
                    &&& store.generation_spec() == generation
                    &&& store.segment() == data@
                },
                Err(e) => log_entries(data@) is None && e == CaveyError::DecodeError,
            },
    {
        let mut index = KeyIndex::new();
        let mut entries: usize = 0;
        let mut position: usize = 0;
        assert(data@.subrange(0, 0) =~= Seq::<u8>::empty());
        while position < data.len()
            invariant
                position <= data.len(),
                position == 0 || data@[position - 1] == NEWLINE,
                entries <= position,
                index.wf(),
                log_entries(data@.subrange(0, position as int)) is Some,
                entries == log_entries(data@.subrange(0, position as int))->0.len(),
                index.keys() == walk_of(log_entries(data@.subrange(0, position as int))->0),
                forall|key: Seq<char>| #[trigger]
                    index@.contains_key(key) ==> index@[key] == (RecordPointer {
                        generation,
                        offset: locations_of(
                            log_entries(data@.subrange(0, position as int))->0,
                        )[key] as u64,
                    }),
            decreases data.len() - position,
        {
            let ghost before = data@.subrange(0, position as int);
            let ghost replayed = log_entries(before)->0;
            proof {
                lemma_next_newline(data@, position as int);
            }
            let end = match find_line_end(data.as_slice(), position) {
                Some(end) => end,
                None => {
                    assert(data@.last() != NEWLINE);
                    return Err(CaveyError::DecodeError);
                },
            };
            let line = slice_subrange(data.as_slice(), position, end);
            proof {
                assert(!line@.contains(NEWLINE)) by {
                    if line@.contains(NEWLINE) {
                        let i = choose|i: int| 0 <= i < line@.len() && line@[i] == NEWLINE;
                        assert(data@[position + i] == NEWLINE);
                    }
                }
                lemma_entries_append(before, line@);
                assert(data@.subrange(0, end + 1) =~= before + line@ + seq![NEWLINE]);
            }
            match LogRecord::from_line(line) {
                Err(_) => {
                    proof {
                        if log_entries(data@) is Some {
                            lemma_entries_prefix(data@, end + 1);
                        }
                    }
                    return Err(CaveyError::DecodeError);
                },
                Ok(LogRecord::Put { key, .. }) => {
                    index.insert(key, RecordPointer { generation, offset: position as u64 });
                },
                Ok(LogRecord::Remove { key }) => {
                    index.remove(key.as_str());
                },
            }
            proof {
                let after = log_entries(data@.subrange(0, end + 1))->0;
                assert(after.drop_last() =~= replayed);
            }
            entries += 1;
            position = end + 1;
        }
        assert(data@.subrange(0, position as int) =~= data@);
        Ok(CaveyStore { generation, log: data, index, entries })
    }

    /// The generation of the active segment.
    pub fn generation(&self) -> (r: u64)
        ensures
            r == self.generation_spec(),
    {
        self.generation
    }

    /// The bytes of the active segment.
    pub fn segment_bytes(&self) -> (r: &Vec<u8>)
        ensures
            r@ == self.segment(),
    {
        &self.log
    }

    /// The number of records in the active segment.
    pub fn entries(&self) -> (r: usize)
        requires
            self.wf(),
        ensures
            r == self.records().len(),
    {
        self.entries
    }

    /// The number of live keys.
    pub fn len(&self) -> (r: usize)
        requires
            self.wf(),
        ensures
            r == self.walk().len(),
    {
        self.index.len()
    }

    /// What the data directory lacks, if it held the first `held` bytes of
    /// the segment of `generation` and nothing else: the rest of the
    /// segment where that is still the active one, the whole of the active
    /// segment where it is not.
    pub fn pending(&self, generation: u64, held: usize) -> (r: Pending)
        ensures
            r == if self.generation_spec() == generation && held <= self.segment().len() {
                Pending::Append { from: held }
            } else {
                Pending::Replace
            },
    {
        if self.generation == generation && held <= self.log.len() {
            Pending::Append { from: held }
        } else {
            Pending::Replace
        }
    }

    /// The file name of the active segment.
    pub fn current_file(&self) -> (r: String)
        ensures
            r@ == name_of(self.generation_spec()),
            generation_of(r@) == Some(self.generation_spec()),
    {
        segment_name(self.generation)
    }

    /// Tells whether the compaction predicate holds.
    pub fn should_compact(&self) -> (r: bool)
        requires
            self.wf(),
        ensures
            r == compaction_due(self.records().len() as int, self.walk().len() as int),
    {
        let live = self.index.len();
        self.entries >= COMPACT_THRESHOLD && live <= usize::MAX / COMPACT_RATIO && self.entries
            > COMPACT_RATIO * live
    }

    /// Writes the line of each live key's most recent record to a new
    /// segment of the next generation, points the index into it, and makes
    /// it the active segment. Fails, and changes nothing, where no
    /// generation follows the current one.
    pub fn compact(&mut self) -> (r: Result<(), CaveyError>)
        requires
            old(self).wf(),
        ensures
            final(self).wf(),
            final(self)@ == old(self)@,
            match r {
                Ok(()) => {
                    &&& old(self).generation_spec() < u64::MAX
                    &&& final(self).generation_spec() == old(self).generation_spec() + 1
                    &&& final(self).segment() == compacted(old(self).segment())
                },
                Err(e) => {
                    &&& old(self).generation_spec() == u64::MAX
                    &&& final(self).same_as(old(self))
                    &&& e matches CaveyError::IoError(text) && text@ == exhausted_text()
                },
            },
    {
        if self.generation == u64::MAX {
            return Err(CaveyError::IoError(String::from_str(EXHAUSTED)));
        }
        let next = self.generation + 1;
        let count = self.index.len();
        let ghost locations = locations_of(self.records());
        let ghost walk = self.walk();
        proof {
            self.lemma_counts();
        }
        let mut log: Vec<u8> = Vec::new();
        let mut index = KeyIndex::new();
        let mut i: usize = 0;
        assert(walk.subrange(0, 0) =~= Seq::<Seq<char>>::empty());
        while i < count
            invariant
                *self == *old(self),
                self.wf(),
                locations == locations_of(self.records()),
                walk == self.walk(),
                walk == self.index.keys(),
                walk.no_duplicates(),
                count == walk.len(),
                i <= count,
                index.wf(),
                index.keys() == walk.subrange(0, i as int),
                log@ == copy_lines(self.log@, locations, walk.subrange(0, i as int)),
                forall|j: int|
                    0 <= j < i ==> index@.contains_key(#[trigger] walk[j]) && index@[walk[j]] == (
                    RecordPointer {
                        generation: next,
                        offset: copy_lines(self.log@, locations, walk.subrange(0, j)).len() as u64,
                    }),
            decreases count - i,
        {
            let ghost before = index@;
            self.copy_live(i, next, &mut log, &mut index);
            proof {
                lemma_copy_step(self.log@, locations, walk, i as int);
                assert forall|j: int| 0 <= j < i + 1 implies index@.contains_key(
                    #[trigger] walk[j],
                ) && index@[walk[j]] == (RecordPointer {
                    generation: next,
                    offset: copy_lines(self.log@, locations, walk.subrange(0, j)).len() as u64,
                }) by {
                    if j < i {
                        assert(before.contains_key(walk[j]));
                        assert(walk[j] != walk[i as int]);
                    }
                }
            }
            i += 1;
        }
        proof {
            assert(walk.subrange(0, i as int) =~= walk);
            assert(log@ == compacted(self.log@));
            lemma_compacted(self.log@);
            lemma_compacted_locations(self.log@);
            index.lemma_keys();
            lemma_entries_len(log@);
            assert(log@.len() == log.len());
            let copied = log_entries(log@)->0;
            assert forall|key: Seq<char>| #[trigger] index@.contains_key(key) implies index@[key]
                == (RecordPointer { generation: next, offset: locations_of(copied)[key] as u64 }) by {
                assert(walk.contains(key));
                let j = choose|j: int| 0 <= j < walk.len() && walk[j] == key;
                assert(index@.contains_key(walk[j]));
            }
        }
        self.generation = next;
        self.log = log;
        self.index = index;
        self.entries = count;
        Ok(())
    }

    /// Copies the line of the key at position `i` of the walk to the end of
    /// `log`, and points `index` at the copy.
    fn copy_live(&self, i: usize, next: u64, log: &mut Vec<u8>, index: &mut KeyIndex)
        requires
            self.wf(),
            i < self.walk().len(),
            old(index).wf(),
            old(index).keys() == self.walk().subrange(0, i as int),
            old(log)@ == copy_lines(
                self.segment(),
                locations_of(self.records()),
                self.walk().subrange(0, i as int),
            ),
        ensures
            final(index).wf(),
            final(index).keys() == self.walk().subrange(0, i + 1),
            final(index)@ == old(index)@.insert(
                self.walk()[i as int],
                RecordPointer { generation: next, offset: old(log)@.len() as u64 },
            ),
            final(log)@ == copy_lines(
                self.segment(),
                locations_of(self.records()),
                self.walk().subrange(0, i + 1),
            ),
    {
        let ghost walk = self.walk();
        proof {
            self.lemma_counts();
            assert(walk.contains(walk[i as int]));
            self.lemma_live(walk[i as int]);
            lemma_copy_step(self.log@, locations_of(self.records()), walk, i as int);
        }
        let key = self.index.key_at(i).clone();
        let pointer = self.index.pointer_at(i);
        assert(pointer.offset < self.log.len());
        let start = pointer.offset as usize;
        let end = line_end(self.log.as_slice(), start);
        let offset = log.len();
        append_bytes(log, slice_subrange(self.log.as_slice(), start, end + 1));
        index.insert(key, RecordPointer { generation: next, offset: offset as u64 });
    }

    /// Appends the line of a record to the segment and replays the record
    /// on the index.
    fn append(&mut self, record: LogRecord, line: Vec<u8>)
        requires
            old(self).wf(),
            !line@.contains(NEWLINE),
            parse_record(line@) == Some(record@),
        ensures
            final(self).wf(),
            final(self).generation_spec() == old(self).generation_spec(),
            final(self).segment() == old(self).segment() + line@ + seq![NEWLINE],
            final(self).records() == old(self).records().push(
                LogEntry { offset: old(self).segment().len() as int, record: record@ },
            ),
            final(self)@ == apply_record(old(self)@, record@),
    {
        proof {
            lemma_entries_append(self.log@, line@);
            lemma_entries_len(self.log@);
        }
        let ghost before = self.records();
        let offset = self.log.len();
        append_bytes(&mut self.log, line.as_slice());
        self.log.push(NEWLINE);
        assert(self.log@ =~= old(self).log@ + line@ + seq![NEWLINE]);
        match record {
            LogRecord::Put { key, .. } => {
                self.index.insert(
                    key,
                    RecordPointer { generation: self.generation, offset: offset as u64 },
                );
            },
            LogRecord::Remove { key } => {
                self.index.remove(key.as_str());
            },
        }
        assert(self.log@.len() == self.log.len());
        self.entries = self.entries + 1;
        proof {
            assert(self.records().drop_last() =~= before);
        }
    }

    /// Tells whether a write of `record` has to fail before it appends: no
    /// generation follows the current one, and the compaction predicate
    /// would hold once the record stood in the segment.
    fn blocked(&self, record: &LogRecord) -> (r: bool)
        requires
            self.wf(),
        ensures
            r == (self.generation_spec() == u64::MAX && compaction_due(
                (self.records().len() + 1) as int,
                walk_of(
                    self.records().push(
                        LogEntry { offset: self.segment().len() as int, record: record@ },
                    ),
                ).len() as int,
            )),
    {
        if self.generation != u64::MAX {
            return false;
        }
        let ghost entry = LogEntry { offset: self.log@.len() as int, record: record@ };
        let ghost walk = self.walk();
        proof {
            self.lemma_counts();
            self.lemma_live(record@.key());
            assert(self.records().push(entry).drop_last() =~= self.records());
        }
        let count = self.index.len();
        let live = match record {
            LogRecord::Put { key, .. } => {
                if self.index.get(key.as_str()).is_some() {
                    count
                } else if count < usize::MAX {
                    count + 1
                } else {
                    return false;
                }
            },
            LogRecord::Remove { key } => {
                if self.index.get(key.as_str()).is_some() {
                    count - 1
                } else {
                    count
                }
            },
        };
        assert(live == walk_of(self.records().push(entry)).len());
        self.entries >= COMPACT_THRESHOLD - 1 && live <= usize::MAX / COMPACT_RATIO && self.entries
            >= COMPACT_RATIO * live
    }

    /// Compacts the segment if the compaction predicate holds.
    fn settle(&mut self) -> (r: Result<(), CaveyError>)
        requires
            old(self).wf(),
        ensures
            final(self).wf(),
            final(self)@ == old(self)@,
            compacted_if_due(old(self).generation_spec(), old(self).segment(), final(self), r),
    {
        if self.should_compact() {
            self.compact()
        } else {
            Ok(())
        }
    }
}

impl CaveyEngine for CaveyStore {
    open spec fn valid(&self) -> bool {
        self.wf()
    }

    open spec fn contents(&self) -> Map<Seq<char>, Seq<char>> {
        self@
    }

    /// A `get` leaves the store as it is and answers with the value that the
    /// store holds for the key; it does not fail.
    open spec fn gets(
        &self,
        key: Seq<char>,
        after: &CaveyStore,
        r: Result<Option<String>, CaveyError>,
    ) -> bool {
        &&& after.same_as(self)
        &&& r matches Ok(found) && text_of(found) == lookup(self@, key)
    }

    /// A `put` of a record that cannot be written fails with `EncodeError`
    /// and leaves the store as it is. Else the write is settled: where it
    /// goes well, the store holds the value for the key; where it fails, the
    /// store holds what it held.
    open spec fn puts(
        &self,
        key: Seq<char>,
        value: Seq<char>,
        after: &CaveyStore,
        r: Result<(), CaveyError>,
    ) -> bool {
        match record_text(RecordModel::Put { key, value }) {
            Some(line) if writable(RecordModel::Put { key, value }) => {
                &&& settled(self.generation_spec(), self.segment(), line, after, r)
                &&& after@ == if r is Ok {
                    self@.insert(key, value)
                } else {
                    self@
                }
            },
            _ => r == Err::<(), CaveyError>(CaveyError::EncodeError) && after.same_as(self)
                && after@ == self@,
        }
    }

    /// A `remove` of a record that cannot be written fails with
    /// `EncodeError` and leaves the store as it is. Else the record is
    /// appended. Where the key has no value, that is all, and the answer is
    /// `KeyNotFound`; where it has one, the write is settled: where it goes
    /// well, the store holds no value for the key any more; where it fails,
    /// the store holds what it held.
    open spec fn removes(&self, key: Seq<char>, after: &CaveyStore, r: Result<(), CaveyError>) -> bool {
        match record_text(RecordModel::Remove { key }) {
            Some(line) if writable(RecordModel::Remove { key }) => {
                if self@.contains_key(key) {
                    &&& settled(self.generation_spec(), self.segment(), line, after, r)
                    &&& after@ == if r is Ok {
                        self@.remove(key)
                    } else {
                        self@
                    }
                } else {
                    &&& r == Err::<(), CaveyError>(CaveyError::KeyNotFound)
                    &&& after@ == self@
                    &&& after.generation_spec() == self.generation_spec()
                    &&& after.segment() == self.segment() + line + seq![NEWLINE]
                }
            },
            _ => r == Err::<(), CaveyError>(CaveyError::EncodeError) && after.same_as(self)
                && after@ == self@,
        }
    }

    /// Sets the value of a key: appends a `Put` to the segment, points the
    /// index at it, and compacts the segment if the compaction predicate
    /// holds then.
    fn put(&mut self, key: String, value: String) -> (r: Result<(), CaveyError>)
        ensures
            old(self).puts(key@, value@, final(self), r),
    {
        let record = LogRecord::Put { key, value };
        let line = match record.to_line() {
            Ok(line) => line,
            Err(e) => {
                return Err(e);
            },
        };
        proof {
            lemma_entries_append(self.log@, line@);
        }
        if self.blocked(&record) {
            return Err(CaveyError::IoError(String::from_str(EXHAUSTED)));
        }
        self.append(record, line);
        self.settle()
    }

    /// Removes a key: appends a `Remove` to the segment, whether or not the
    /// key has a value. Where it has none, that is all, and the answer is
    /// `KeyNotFound`; where it has one, the key leaves the index, and the
    /// segment is compacted if the compaction predicate holds then.
    fn remove(&mut self, key: String) -> (r: Result<(), CaveyError>)
        ensures
            old(self).removes(key@, final(self), r),
    {
        proof {
            self.lemma_live(key@);
        }
        let found = self.index.get(key.as_str()).is_some();
        let record = LogRecord::Remove { key };
        let line = match record.to_line() {
            Ok(line) => line,
            Err(e) => {
                return Err(e);
            },
        };
        proof {
            lemma_entries_append(self.log@, line@);
        }
        if found && self.blocked(&record) {
            return Err(CaveyError::IoError(String::from_str(EXHAUSTED)));
        }
        self.append(record, line);
        if !found {
            assert(self@ =~= old(self)@);
            return Err(CaveyError::KeyNotFound);
        }
        self.settle()
    }

    /// Looks up the value of a key.
    fn get(&mut self, key: String) -> (r: Result<Option<String>, CaveyError>)
        ensures
            old(self).gets(key@, final(self), r),
    {
        proof {
            self.lemma_live(key@);
        }
        match self.index.get(key.as_str()) {
            None => Ok(None),
            Some(pointer) => match read_value_at(self.log.as_slice(), pointer.offset) {
                Ok(value) => Ok(Some(value)),
                Err(e) => Err(e),
            },
        }
    }
}

} // verus!
