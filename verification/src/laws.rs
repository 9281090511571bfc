//! What holds of every store: statements over the map that a store holds
//! and over the segment it is made of.
use vstd::prelude::*;
use crate::compaction::{compacted, lemma_compacted};
use crate::engine::lookup;
use crate::record::RecordModel;
use crate::error::CaveyError;
use crate::segment::{
    apply_record, contents_of, lemma_locations, lemma_walk, locations_of, log_entries, record_at,
    walk_of, LogEntry,
};
use crate::store::CaveyStore;

verus! {

/// The map after some more records, in order.
pub open spec fn apply_all(
    contents: Map<Seq<char>, Seq<char>>,
    records: Seq<RecordModel>,
) -> Map<Seq<char>, Seq<char>>
    decreases records.len(),
{
    if records.len() == 0 {
        contents
    } else {
        apply_record(apply_all(contents, records.drop_last()), records.last())
    }
}

/// The most recent of `entries` that is about `key`, if there is one.
pub open spec fn latest_record(entries: Seq<LogEntry>, key: Seq<char>) -> Option<LogEntry>
    decreases entries.len(),
{
    if entries.len() == 0 {
        None
    } else if entries.last().record.key() == key {
        Some(entries.last())
    } else {
        latest_record(entries.drop_last(), key)
    }
}

/// Round trip: a key that was put has the value it was put with, and keeps
/// it through every later write that is about another key.
pub proof fn law_round_trip(
    contents: Map<Seq<char>, Seq<char>>,
    key: Seq<char>,
    value: Seq<char>,
    later: Seq<RecordModel>,
)
    requires
        forall|i: int| 0 <= i < later.len() ==> (#[trigger] later[i]).key() != key,
    ensures
        lookup(apply_all(contents.insert(key, value), later), key) == Some(value),
    decreases later.len(),
{
    if later.len() > 0 {
        law_round_trip(contents, key, value, later.drop_last());
        assert(later[later.len() - 1].key() != key);
    }
}

/// Overwrite: of two puts of one key the second decides the value.
pub proof fn law_overwrite(
    contents: Map<Seq<char>, Seq<char>>,
    key: Seq<char>,
    first: Seq<char>,
    second: Seq<char>,
)
    ensures
        lookup(contents.insert(key, first).insert(key, second), key) == Some(second),
{
}

/// Tombstone: a key that was put and then removed has no value, which is
/// when removing it again fails with `KeyNotFound`.
pub proof fn law_tombstone(contents: Map<Seq<char>, Seq<char>>, key: Seq<char>, value: Seq<char>)
    ensures
        lookup(contents.insert(key, value).remove(key), key) is None,
        !contents.insert(key, value).remove(key).contains_key(key),
{
}

/// Recovery is idempotent: the segment of a well-formed store holds
/// records, so recovery from it succeeds, and a store recovered from it
/// holds the same map, walks the same keys and has the same records.
pub proof fn law_recovery(store: &CaveyStore, recovered: &CaveyStore)
    requires
        store.wf(),
        recovered.wf(),
        recovered.same_as(store),
    ensures
        log_entries(store.segment()) is Some,
        recovered@ == store@,
        recovered.walk() == store.walk(),
        recovered.records() == store.records(),
{
    store.lemma_counts();
}

/// Compaction preserves what the store holds: the compacted segment replays
/// to the same map, and afterwards there are as many records as live keys.
pub proof fn law_compaction_preserves(segment: Seq<u8>)
    requires
        log_entries(segment) is Some,
    ensures
        log_entries(compacted(segment)) is Some,
        contents_of(log_entries(compacted(segment))->0) == contents_of(log_entries(segment)->0),
        walk_of(log_entries(compacted(segment))->0) == walk_of(log_entries(segment)->0),
        log_entries(compacted(segment))->0.len() == walk_of(log_entries(segment)->0).len(),
{
    lemma_compacted(segment);
}

/// Compaction reclaims space: every record of the compacted segment is a
/// `Put` of a live key with its value, so no record is a tombstone and no
/// record is about a key that was removed.
pub proof fn law_compaction_reclaims(segment: Seq<u8>, i: int)
    requires
        log_entries(segment) is Some,
        0 <= i < log_entries(compacted(segment))->0.len(),
    ensures
        ({
            let contents = contents_of(log_entries(segment)->0);
            let record = log_entries(compacted(segment))->0[i].record;
            &&& contents.contains_key(record.key())
            &&& record == (RecordModel::Put { key: record.key(), value: contents[record.key()] })
        }),
{
    lemma_compacted(segment);
}

/// There are never more live keys than records, nor more records than
/// bytes in the segment.
pub proof fn law_entries_bound(store: &CaveyStore)
    requires
        store.wf(),
    ensures
        store.walk().len() <= store.records().len() <= store.segment().len(),
        store.walk().no_duplicates(),
        forall|key: Seq<char>| store.walk().contains(key) <==> store@.contains_key(key),
{
    store.lemma_counts();
}

/// A key is live exactly when the most recent record about it is a `Put`;
/// its value is then that record's, and its location that record's offset,
/// where the segment holds the record.
pub proof fn law_live_keys(segment: Seq<u8>, key: Seq<char>)
    requires
        log_entries(segment) is Some,
    ensures
        ({
            let entries = log_entries(segment)->0;
            let latest = latest_record(entries, key);
            &&& contents_of(entries).contains_key(key) <==> latest is Some && latest->0.record is Put
            &&& contents_of(entries).contains_key(key) ==> {
                &&& latest->0.record == (RecordModel::Put { key, value: contents_of(entries)[key] })
                &&& locations_of(entries)[key] == latest->0.offset
                &&& record_at(segment, latest->0.offset) == Ok::<RecordModel, CaveyError>(
                    latest->0.record,
                )
            }
        }),
{
    let entries = log_entries(segment)->0;
    lemma_latest(entries, key);
    lemma_walk(entries);
    lemma_locations(segment);
    if contents_of(entries).contains_key(key) {
        assert(locations_of(entries).contains_key(key));
    }
}

/// What the most recent record about a key says of the key after replay.
proof fn lemma_latest(entries: Seq<LogEntry>, key: Seq<char>)
    ensures
        contents_of(entries).contains_key(key) <==> latest_record(entries, key) is Some
            && latest_record(entries, key)->0.record is Put,
        contents_of(entries).contains_key(key) ==> {
            &&& latest_record(entries, key)->0.record == (RecordModel::Put {
                key,
                value: contents_of(entries)[key],
            })
            &&& locations_of(entries).contains_key(key)
            &&& locations_of(entries)[key] == latest_record(entries, key)->0.offset
        },
    decreases entries.len(),
{
    if entries.len() > 0 {
        lemma_latest(entries.drop_last(), key);
    }
}

} // verus!
