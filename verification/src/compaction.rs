//! Compaction: the segment that holds one `Put` for each live key and
//! nothing else.
use vstd::prelude::*;
use crate::error::CaveyError;
use crate::record::{RecordModel, NEWLINE};
use crate::segment::{
    contents_of, lemma_entries_append, lemma_locations, lemma_next_newline, lemma_walk,
    locations_of, log_entries, next_newline, record_at, walk_of, LogEntry,
};

verus! {

/// The line that starts at `offset`, with the line feed that ends it.
pub open spec fn line_with_feed(log: Seq<u8>, offset: int) -> Seq<u8> {
    log.subrange(offset, next_newline(log, offset) + 1)
}

/// The lines of `log` at the locations of the keys of `walk`, in that order.
pub open spec fn copy_lines(
    log: Seq<u8>,
    locations: Map<Seq<char>, int>,
    walk: Seq<Seq<char>>,
) -> Seq<u8>
    decreases walk.len(),
{
    if walk.len() == 0 {
        Seq::empty()
    } else {
        copy_lines(log, locations, walk.drop_last()) + line_with_feed(log, locations[walk.last()])
    }
}

/// The segment that compaction makes of `log`: for each live key, in the
/// order of the walk, the line of its most recent record.
pub open spec fn compacted(log: Seq<u8>) -> Seq<u8> {
    match log_entries(log) {
        Some(entries) => copy_lines(log, locations_of(entries), walk_of(entries)),
        None => log,
    }
}

/// The records that `copy_lines` writes: for each key of the walk a `Put` of
/// its value in `contents`, at the offset where its line starts in the copy.
pub open spec fn copied_entries(
    log: Seq<u8>,
    locations: Map<Seq<char>, int>,
    contents: Map<Seq<char>, Seq<char>>,
    walk: Seq<Seq<char>>,
) -> Seq<LogEntry>
    decreases walk.len(),
{
    if walk.len() == 0 {
        Seq::empty()
    } else {
        copied_entries(log, locations, contents, walk.drop_last()).push(
            LogEntry {
                offset: copy_lines(log, locations, walk.drop_last()).len() as int,
                record: RecordModel::Put { key: walk.last(), value: contents[walk.last()] },
            },
        )
    }
}

/// Copying the lines of live keys gives a segment whose records are
/// `copied_entries`.
pub proof fn lemma_copy_lines(log: Seq<u8>, walk: Seq<Seq<char>>)
    requires
        log_entries(log) is Some,
        forall|i: int|
            0 <= i < walk.len() ==> locations_of(log_entries(log)->0).contains_key(#[trigger] walk[i]),
    ensures
        log_entries(copy_lines(log, locations_of(log_entries(log)->0), walk)) == Some(
            copied_entries(
                log,
                locations_of(log_entries(log)->0),
                contents_of(log_entries(log)->0),
                walk,
            ),
        ),
    decreases walk.len(),
{
    let entries = log_entries(log)->0;
    let locations = locations_of(entries);
    if walk.len() > 0 {
        let shorter = walk.drop_last();
        let key = walk.last();
        assert forall|i: int| 0 <= i < shorter.len() implies locations.contains_key(
            #[trigger] shorter[i],
        ) by {
            assert(shorter[i] == walk[i]);
        }
        lemma_copy_lines(log, shorter);
        let shorter_copy = copy_lines(log, locations, shorter);
        assert(locations.contains_key(walk[walk.len() - 1]));
        lemma_locations(log);
        let offset = locations[key];
        let line = log.subrange(offset, next_newline(log, offset));
        lemma_next_newline(log, offset);
        assert(!line.contains(NEWLINE)) by {
            if line.contains(NEWLINE) {
                let i = choose|i: int| 0 <= i < line.len() && line[i] == NEWLINE;
                assert(log[offset + i] == NEWLINE);
            }
        }
        assert(record_at(log, offset) == Ok::<RecordModel, CaveyError>(
            RecordModel::Put { key, value: contents_of(entries)[key] },
        ));
        lemma_entries_append(shorter_copy, line);
        assert(line_with_feed(log, offset) =~= line + seq![NEWLINE]);
        assert(copy_lines(log, locations, walk) =~= shorter_copy + line + seq![NEWLINE]);
    }
}

/// The records that `copy_lines` writes for a walk without duplicates replay
/// to that walk, and to the map that gives each key of the walk its value in
/// `contents` and its offset in the copy.
pub proof fn lemma_copied_entries(
    log: Seq<u8>,
    locations: Map<Seq<char>, int>,
    contents: Map<Seq<char>, Seq<char>>,
    walk: Seq<Seq<char>>,
)
    requires
        walk.no_duplicates(),
    ensures
        copied_entries(log, locations, contents, walk).len() == walk.len(),
        walk_of(copied_entries(log, locations, contents, walk)) == walk,
        forall|key: Seq<char>|
            contents_of(copied_entries(log, locations, contents, walk)).contains_key(key)
                <==> walk.contains(key),
        forall|key: Seq<char>|
            walk.contains(key) ==> contents_of(copied_entries(log, locations, contents, walk))[key]
                == contents[key],
        forall|i: int|
            0 <= i < walk.len() ==> locations_of(
                copied_entries(log, locations, contents, walk),
            )[#[trigger] walk[i]] == copy_lines(log, locations, walk.subrange(0, i)).len(),
        forall|i: int|
            0 <= i < walk.len() ==> (#[trigger] copied_entries(
                log,
                locations,
                contents,
                walk,
            )[i]).record == (RecordModel::Put { key: walk[i], value: contents[walk[i]] }),
    decreases walk.len(),
{
    let copied = copied_entries(log, locations, contents, walk);
    if walk.len() == 0 {
        assert(walk_of(copied) =~= walk);
        assert forall|key: Seq<char>| !walk.contains(key) by {
            if walk.contains(key) {
                let i = choose|i: int| 0 <= i < walk.len() && walk[i] == key;
            }
        }
    } else {
        let shorter = walk.drop_last();
        let key = walk.last();
        let last = walk.len() - 1;
        lemma_copied_entries(log, locations, contents, shorter);
        let before = copied_entries(log, locations, contents, shorter);
        assert(copied.drop_last() =~= before);
        assert(!shorter.contains(key)) by {
            if shorter.contains(key) {
                let i = choose|i: int| 0 <= i < shorter.len() && shorter[i] == key;
                assert(walk[i] == key && walk[last] == key);
            }
        }
        assert(walk_of(copied) =~= walk);
        assert(walk.subrange(0, last) =~= shorter);
        assert forall|k: Seq<char>| walk.contains(k) <==> (k == key || shorter.contains(k)) by {
            if shorter.contains(k) {
                let i = choose|i: int| 0 <= i < shorter.len() && shorter[i] == k;
                assert(walk[i] == k);
            }
            if walk.contains(k) && k != key {
                let i = choose|i: int| 0 <= i < walk.len() && walk[i] == k;
                assert(shorter[i] == k);
            }
            if k == key {
                assert(walk[last] == k);
            }
        }
        assert forall|i: int| 0 <= i < walk.len() implies locations_of(copied)[#[trigger] walk[i]]
            == copy_lines(log, locations, walk.subrange(0, i)).len() by {
            if i < last {
                assert(shorter[i] == walk[i]);
                assert(shorter.contains(shorter[i]));
                assert(walk.subrange(0, i) =~= shorter.subrange(0, i));
            }
        }
        assert forall|i: int| 0 <= i < walk.len() implies (#[trigger] copied[i]).record == (
        RecordModel::Put { key: walk[i], value: contents[walk[i]] }) by {
            if i < last {
                assert(copied[i] == before[i]);
                assert(shorter[i] == walk[i]);
            }
        }
    }
}

/// Compaction keeps what the store holds: the compacted segment replays to
/// the same map from keys to values, with the same walk, and holds exactly
/// one record for each live key, a `Put` of the key's value.
pub proof fn lemma_compacted(log: Seq<u8>)
    requires
        log_entries(log) is Some,
    ensures
        log_entries(compacted(log)) is Some,
        contents_of(log_entries(compacted(log))->0) == contents_of(log_entries(log)->0),
        walk_of(log_entries(compacted(log))->0) == walk_of(log_entries(log)->0),
        log_entries(compacted(log))->0.len() == walk_of(log_entries(log)->0).len(),
        forall|i: int|
            0 <= i < log_entries(compacted(log))->0.len() ==> {
                let record = (#[trigger] log_entries(compacted(log))->0[i]).record;
                &&& record is Put
                &&& contents_of(log_entries(log)->0).contains_key(record.key())
                &&& record == (RecordModel::Put {
                    key: record.key(),
                    value: contents_of(log_entries(log)->0)[record.key()],
                })
            },
{
    let entries = log_entries(log)->0;
    let walk = walk_of(entries);
    let contents = contents_of(entries);
    lemma_walk(entries);
    assert forall|i: int| 0 <= i < walk.len() implies locations_of(entries).contains_key(
        #[trigger] walk[i],
    ) by {
        assert(walk.contains(walk[i]));
    }
    lemma_copy_lines(log, walk);
    lemma_copied_entries(log, locations_of(entries), contents, walk);
    let copied = log_entries(compacted(log))->0;
    assert forall|key: Seq<char>| contents_of(copied).contains_key(key) <==> contents.contains_key(
        key,
    ) by {
        assert(walk.contains(key) <==> contents.contains_key(key));
    }
    assert(contents_of(copied) =~= contents);
    assert forall|i: int| 0 <= i < copied.len() implies {
        let record = (#[trigger] copied[i]).record;
        &&& record is Put
        &&& contents.contains_key(record.key())
        &&& record == (RecordModel::Put { key: record.key(), value: contents[record.key()] })
    } by {
        assert(walk.contains(walk[i]));
    }
}

/// In the compacted segment the record of the key at position `i` of the
/// walk starts where the lines of the keys before it end.
pub proof fn lemma_compacted_locations(log: Seq<u8>)
    requires
        log_entries(log) is Some,
    ensures
        forall|i: int|
            0 <= i < walk_of(log_entries(log)->0).len() ==> {
                &&& locations_of(log_entries(compacted(log))->0).contains_key(
                    #[trigger] walk_of(log_entries(log)->0)[i],
                )
                &&& locations_of(log_entries(compacted(log))->0)[walk_of(log_entries(log)->0)[i]]
                    == copy_lines(
                    log,
                    locations_of(log_entries(log)->0),
                    walk_of(log_entries(log)->0).subrange(0, i),
                ).len()
            },
{
    let entries = log_entries(log)->0;
    let walk = walk_of(entries);
    lemma_walk(entries);
    assert forall|i: int| 0 <= i < walk.len() implies locations_of(entries).contains_key(
        #[trigger] walk[i],
    ) by {
        assert(walk.contains(walk[i]));
    }
    lemma_copy_lines(log, walk);
    lemma_copied_entries(log, locations_of(entries), contents_of(entries), walk);
    lemma_compacted(log);
    let copied = log_entries(compacted(log))->0;
    lemma_walk(copied);
    assert forall|i: int| 0 <= i < walk.len() implies locations_of(copied).contains_key(
        #[trigger] walk[i],
    ) by {
        assert(walk.contains(walk[i]));
        assert(walk_of(copied).contains(walk[i]));
    }
}

/// Copying one more line: the first `i + 1` keys of a walk without
/// duplicates are the first `i` with the next one pointed somewhere, and
/// their lines are the lines of the first `i` and the line of the next.
pub proof fn lemma_copy_step(
    log: Seq<u8>,
    locations: Map<Seq<char>, int>,
    walk: Seq<Seq<char>>,
    i: int,
)
    requires
        walk.no_duplicates(),
        0 <= i < walk.len(),
    ensures
        !walk.subrange(0, i).contains(walk[i]),
        walk.subrange(0, i).push(walk[i]) == walk.subrange(0, i + 1),
        copy_lines(log, locations, walk.subrange(0, i + 1)) == copy_lines(
            log,
            locations,
            walk.subrange(0, i),
        ) + line_with_feed(log, locations[walk[i]]),
{
    let shorter = walk.subrange(0, i);
    let longer = walk.subrange(0, i + 1);
    assert(longer.drop_last() =~= shorter);
    assert(longer.last() == walk[i]);
    assert(shorter.push(walk[i]) =~= longer);
    if shorter.contains(walk[i]) {
        let j = choose|j: int| 0 <= j < shorter.len() && shorter[j] == walk[i];
        assert(walk[j] == walk[i]);
    }
}

} // verus!
