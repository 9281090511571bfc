use cavey::store::{Pending, SegmentFile};
use cavey::{CaveyEngine, CaveyError, CaveyStore};

// Should get previously stored value
#[test]
fn get_stored_value() {
    let mut store = CaveyStore::new();

    store.put("key1".to_owned(), "value1".to_owned()).unwrap();
    store.put("key2".to_owned(), "value2".to_owned()).unwrap();

    assert_eq!(store.get("key1".to_owned()).unwrap(), Some("value1".to_owned()));
    assert_eq!(store.get("key2".to_owned()).unwrap(), Some("value2".to_owned()));
}

// Should overwrite existent value
#[test]
fn overwrite_value() {
    let mut store = CaveyStore::new();

    store.put("key1".to_owned(), "value1".to_owned()).unwrap();
    assert_eq!(store.get("key1".to_owned()).unwrap(), Some("value1".to_owned()));

    store.put("key1".to_owned(), "value2".to_owned()).unwrap();
    assert_eq!(store.get("key1".to_owned()).unwrap(), Some("value2".to_owned()));
}

// Should get `None` when getting a non-existent key
#[test]
fn get_non_existent_value() {
    let mut store = CaveyStore::new();

    store.put("key1".to_owned(), "value1".to_owned()).unwrap();
    assert_eq!(store.get("key2".to_owned()).unwrap(), None);
}

#[test]
fn remove_key() {
    let mut store = CaveyStore::new();

    store.put("key1".to_owned(), "value1".to_owned()).unwrap();
    store.remove("key1".to_owned()).unwrap();
    assert_eq!(store.get("key1".to_owned()).unwrap(), None);
}

#[test]
fn second_remove_is_key_not_found() {
    let mut store = CaveyStore::new();
    store.put("k".to_owned(), "v".to_owned()).unwrap();
    assert_eq!(store.remove("k".to_owned()), Ok(()));
    assert_eq!(store.remove("k".to_owned()), Err(CaveyError::KeyNotFound));
    assert_eq!(store.get("k".to_owned()), Ok(None));
    assert_eq!(store.entries(), 3);
    assert_eq!(store.len(), 0);
}

#[test]
fn segment_holds_json_lines() {
    let mut store = CaveyStore::new();
    store.put("foo".to_owned(), "bar".to_owned()).unwrap();
    store.remove("foo".to_owned()).unwrap();
    let text = String::from_utf8(store.segment_bytes().clone()).unwrap();
    assert_eq!(text, "{\"put\":{\"key\":\"foo\",\"value\":\"bar\"}}\n{\"remove\":{\"key\":\"foo\"}}\n");
    assert_eq!(store.entries(), 2);
    assert_eq!(store.len(), 0);
}

#[test]
fn reopening_gives_the_same_answers() {
    let mut store = CaveyStore::new();
    store.put("a".to_owned(), "1".to_owned()).unwrap();
    store.put("b".to_owned(), "line\nbreak \"quoted\" \\ \u{1F600}".to_owned()).unwrap();
    store.put("a".to_owned(), "2".to_owned()).unwrap();
    store.remove("b".to_owned()).unwrap();
    store.put("c".to_owned(), "".to_owned()).unwrap();
    let file = SegmentFile { name: store.current_file(), data: store.segment_bytes().clone() };
    let mut again = CaveyStore::open(vec![file], None).unwrap().0;
    for key in ["a", "b", "c", "d"] {
        assert_eq!(again.get(key.to_owned()), store.get(key.to_owned()));
    }
    assert_eq!(again.get("a".to_owned()).unwrap(), Some("2".to_owned()));
    assert_eq!(again.get("b".to_owned()).unwrap(), None);
    assert_eq!(again.get("c".to_owned()).unwrap(), Some("".to_owned()));
    assert_eq!(again.entries(), 5);
    assert_eq!(again.len(), 2);
    assert_eq!(again.generation(), store.generation());
}

fn text(store: &CaveyStore) -> String {
    String::from_utf8(store.segment_bytes().clone()).unwrap()
}

#[test]
fn put_then_get_until_overwritten_or_removed() {
    let mut store = CaveyStore::new();
    store.put("k".to_owned(), "v".to_owned()).unwrap();
    store.put("other".to_owned(), "x".to_owned()).unwrap();
    store.remove("other".to_owned()).unwrap();
    store.put("more".to_owned(), "y".to_owned()).unwrap();
    assert_eq!(store.get("k".to_owned()), Ok(Some("v".to_owned())));
    store.put("k".to_owned(), "w".to_owned()).unwrap();
    assert_eq!(store.get("k".to_owned()), Ok(Some("w".to_owned())));
    store.remove("k".to_owned()).unwrap();
    assert_eq!(store.get("k".to_owned()), Ok(None));
}

#[test]
fn remove_of_a_key_never_put_records_a_tombstone() {
    let mut store = CaveyStore::new();
    assert_eq!(store.remove("ghost".to_owned()), Err(CaveyError::KeyNotFound));
    assert_eq!(text(&store), "{\"remove\":{\"key\":\"ghost\"}}\n");
    assert_eq!(store.entries(), 1);
    assert_eq!(store.len(), 0);
    assert_eq!(store.get("ghost".to_owned()), Ok(None));
    let file = SegmentFile { name: store.current_file(), data: store.segment_bytes().clone() };
    let again = CaveyStore::open(vec![file], None).unwrap().0;
    assert_eq!(again.entries(), 1);
    assert_eq!(again.len(), 0);
}

#[test]
fn should_compact_follows_the_predicate() {
    let mut store = CaveyStore::new();
    for i in 0..499 {
        store.put("k".to_owned(), format!("{}", i)).unwrap();
        assert!(!store.should_compact());
    }
    assert_eq!(store.entries(), 499);
    assert_eq!(store.len(), 1);
    assert_eq!(store.generation(), 0);
    assert_eq!(store.current_file(), "00000000");
}

#[test]
fn compaction_keeps_the_map_and_drops_stale_records() {
    let mut store = CaveyStore::new();
    for i in 0..500 {
        store.put("k".to_owned(), format!("v{}", i)).unwrap();
    }
    assert_eq!(store.generation(), 1);
    assert_eq!(store.current_file(), "00000001");
    assert_eq!(store.entries(), 1);
    assert_eq!(store.len(), 1);
    assert_eq!(text(&store), "{\"put\":{\"key\":\"k\",\"value\":\"v499\"}}\n");
    assert_eq!(store.get("k".to_owned()), Ok(Some("v499".to_owned())));
    store.put("k".to_owned(), "next".to_owned()).unwrap();
    assert_eq!(store.entries(), 2);
    assert_eq!(store.get("k".to_owned()), Ok(Some("next".to_owned())));
}

#[test]
fn compaction_is_not_due_while_live_keys_are_many() {
    let mut store = CaveyStore::new();
    for i in 0..600 {
        store.put(format!("key{}", i), format!("value{}", i)).unwrap();
    }
    assert_eq!(store.generation(), 0);
    assert_eq!(store.entries(), 600);
    assert_eq!(store.len(), 600);
    assert!(!store.should_compact());
}

#[test]
fn compaction_after_removes_holds_no_removed_key() {
    let mut store = CaveyStore::new();
    for i in 0..450 {
        store.put(format!("key{}", i), format!("value{}", i)).unwrap();
    }
    for i in 0..368 {
        store.remove(format!("key{}", i)).unwrap();
        assert_eq!(store.generation(), 0);
    }
    assert_eq!(store.entries(), 818);
    assert_eq!(store.len(), 82);
    store.remove("key368".to_owned()).unwrap();
    assert_eq!(store.generation(), 1);
    assert_eq!(store.entries(), 81);
    assert_eq!(store.len(), 81);
    let segment = text(&store);
    assert_eq!(segment.lines().count(), 81);
    assert!(!segment.contains("remove"));
    for i in 0..369 {
        assert!(!segment.contains(&format!("\"key{}\"", i)));
        assert_eq!(store.get(format!("key{}", i)), Ok(None));
    }
    for i in 369..450 {
        assert!(segment.contains(&format!("{{\"put\":{{\"key\":\"key{}\",\"value\":\"value{}\"}}}}\n", i, i)));
        assert_eq!(store.get(format!("key{}", i)), Ok(Some(format!("value{}", i))));
    }
}

#[test]
fn compact_on_demand_keeps_every_answer() {
    let mut store = CaveyStore::new();
    store.put("a".to_owned(), "1".to_owned()).unwrap();
    store.put("b".to_owned(), "2".to_owned()).unwrap();
    store.put("a".to_owned(), "3".to_owned()).unwrap();
    store.put("c".to_owned(), "4".to_owned()).unwrap();
    store.remove("b".to_owned()).unwrap();
    assert_eq!(store.entries(), 5);
    assert_eq!(store.compact(), Ok(()));
    assert_eq!(store.generation(), 1);
    assert_eq!(store.entries(), 2);
    assert_eq!(store.len(), 2);
    assert_eq!(
        text(&store),
        "{\"put\":{\"key\":\"a\",\"value\":\"3\"}}\n{\"put\":{\"key\":\"c\",\"value\":\"4\"}}\n"
    );
    assert_eq!(store.get("a".to_owned()), Ok(Some("3".to_owned())));
    assert_eq!(store.get("b".to_owned()), Ok(None));
    assert_eq!(store.get("c".to_owned()), Ok(Some("4".to_owned())));
}

#[test]
fn compaction_fails_where_no_generation_follows() {
    let last = SegmentFile { name: "ffffffffffffffff".to_owned(), data: Vec::new() };
    let mut store = CaveyStore::open(vec![last], None).unwrap().0;
    assert_eq!(store.generation(), u64::MAX);
    assert_eq!(
        store.compact(),
        Err(CaveyError::IoError("generation numbers exhausted".to_owned()))
    );
}

#[test]
fn a_put_that_cannot_compact_changes_nothing() {
    let last = SegmentFile { name: "ffffffffffffffff".to_owned(), data: Vec::new() };
    let mut store = CaveyStore::open(vec![last], None).unwrap().0;
    for i in 0..499 {
        store.put("k".to_owned(), format!("{}", i)).unwrap();
    }
    let before = store.segment_bytes().clone();
    assert_eq!(
        store.put("k".to_owned(), "last".to_owned()),
        Err(CaveyError::IoError("generation numbers exhausted".to_owned()))
    );
    assert_eq!(
        store.put("other".to_owned(), "last".to_owned()),
        Err(CaveyError::IoError("generation numbers exhausted".to_owned()))
    );
    assert_eq!(store.segment_bytes(), &before);
    assert_eq!(store.entries(), 499);
    assert_eq!(store.len(), 1);
    assert_eq!(store.generation(), u64::MAX);
    assert_eq!(store.get("k".to_owned()), Ok(Some("498".to_owned())));
    assert_eq!(store.get("other".to_owned()), Ok(None));
}

#[test]
fn a_remove_that_cannot_compact_changes_nothing() {
    let last = SegmentFile { name: "ffffffffffffffff".to_owned(), data: Vec::new() };
    let mut store = CaveyStore::open(vec![last], None).unwrap().0;
    for i in 0..450 {
        store.put(format!("key{}", i), format!("value{}", i)).unwrap();
    }
    for i in 0..368 {
        store.remove(format!("key{}", i)).unwrap();
    }
    let before = store.segment_bytes().clone();
    assert_eq!(
        store.remove("key368".to_owned()),
        Err(CaveyError::IoError("generation numbers exhausted".to_owned()))
    );
    assert_eq!(store.segment_bytes(), &before);
    assert_eq!(store.entries(), 818);
    assert_eq!(store.len(), 82);
    assert_eq!(store.get("key368".to_owned()), Ok(Some("value368".to_owned())));
    assert_eq!(store.remove("key0".to_owned()), Err(CaveyError::KeyNotFound));
    assert_eq!(store.entries(), 819);
}

#[test]
fn open_without_files_gives_an_empty_store() {
    let mut store = CaveyStore::open(Vec::new(), None).unwrap().0;
    assert_eq!(store.generation(), 0);
    assert_eq!(store.entries(), 0);
    assert_eq!(store.len(), 0);
    assert!(store.segment_bytes().is_empty());
    assert_eq!(store.get("anything".to_owned()), Ok(None));
}

#[test]
fn open_takes_the_numerically_lowest_generation() {
    let files = vec![
        SegmentFile {
            name: "10".to_owned(),
            data: b"{\"put\":{\"key\":\"from\",\"value\":\"sixteen\"}}\n".to_vec(),
        },
        SegmentFile {
            name: "9".to_owned(),
            data: b"{\"put\":{\"key\":\"from\",\"value\":\"nine\"}}\n".to_vec(),
        },
        SegmentFile {
            name: "0000000a".to_owned(),
            data: b"{\"put\":{\"key\":\"from\",\"value\":\"ten\"}}\n".to_vec(),
        },
    ];
    let mut store = CaveyStore::open(files, None).unwrap().0;
    assert_eq!(store.generation(), 9);
    assert_eq!(store.get("from".to_owned()), Ok(Some("nine".to_owned())));
}

#[test]
fn open_takes_the_first_of_equal_generations() {
    let files = vec![
        SegmentFile { name: "01".to_owned(), data: b"{\"put\":{\"key\":\"a\",\"value\":\"1\"}}\n".to_vec() },
        SegmentFile { name: "1".to_owned(), data: b"{\"put\":{\"key\":\"a\",\"value\":\"2\"}}\n".to_vec() },
    ];
    let mut store = CaveyStore::open(files, None).unwrap().0;
    assert_eq!(store.generation(), 1);
    assert_eq!(store.get("a".to_owned()), Ok(Some("1".to_owned())));
}

#[test]
fn open_reports_the_first_name_that_is_no_generation() {
    let files = vec![
        SegmentFile { name: "00000001".to_owned(), data: Vec::new() },
        SegmentFile { name: ".engine".to_owned(), data: b"kvs".to_vec() },
        SegmentFile { name: "notes.txt".to_owned(), data: Vec::new() },
        SegmentFile { name: ".hidden".to_owned(), data: Vec::new() },
    ];
    assert_eq!(
        CaveyStore::open(files, Some(b"kvs")).err(),
        Some(CaveyError::InvalidGeneration("notes.txt".to_owned()))
    );
}

#[test]
fn open_refuses_the_directory_of_another_engine() {
    let segment = SegmentFile {
        name: "00000000".to_owned(),
        data: b"{\"put\":{\"key\":\"a\",\"value\":\"1\"}}\n".to_vec(),
    };
    let marker = SegmentFile { name: ".engine".to_owned(), data: b"sled".to_vec() };
    assert_eq!(
        CaveyStore::open(vec![marker.clone()], Some(b"sled")).err(),
        Some(CaveyError::EngineMismatch("sled".to_owned()))
    );
    assert_eq!(
        CaveyStore::open(vec![segment.clone(), marker], Some(b"sled")).err(),
        Some(CaveyError::EngineMismatch("sled".to_owned()))
    );
    assert_eq!(
        CaveyStore::open(Vec::new(), Some(b"")).err(),
        Some(CaveyError::EngineMismatch("".to_owned()))
    );
    assert_eq!(
        CaveyStore::open(Vec::new(), Some(b"kvs\n")).err(),
        Some(CaveyError::EngineMismatch("kvs\n".to_owned()))
    );
    let junk = SegmentFile { name: "junk".to_owned(), data: Vec::new() };
    assert_eq!(
        CaveyStore::open(vec![junk, segment], Some(&[0xff])).err(),
        Some(CaveyError::EngineMismatch("\u{fffd}".to_owned()))
    );
}

#[test]
fn open_accepts_its_own_marker_and_asks_for_a_missing_one() {
    let files = || {
        vec![
            SegmentFile { name: ".engine".to_owned(), data: b"kvs".to_vec() },
            SegmentFile {
                name: "00000002".to_owned(),
                data: b"{\"put\":{\"key\":\"a\",\"value\":\"1\"}}\n".to_vec(),
            },
        ]
    };
    let (mut store, write_marker) = CaveyStore::open(files(), Some(b"kvs")).unwrap();
    assert!(!write_marker);
    assert_eq!(store.generation(), 2);
    assert_eq!(store.get("a".to_owned()), Ok(Some("1".to_owned())));
    let (mut store, write_marker) = CaveyStore::open(files().split_off(1), None).unwrap();
    assert!(write_marker);
    assert_eq!(store.generation(), 2);
    assert_eq!(store.get("a".to_owned()), Ok(Some("1".to_owned())));
    let (store, write_marker) = CaveyStore::open(files().drain(..1).collect(), Some(b"kvs")).unwrap();
    assert!(!write_marker);
    assert_eq!(store.generation(), 0);
    assert!(store.segment_bytes().is_empty());
    let (store, write_marker) = CaveyStore::open(Vec::new(), None).unwrap();
    assert!(write_marker);
    assert_eq!(store.generation(), 0);
}

#[test]
fn files_but_the_marker_and_the_active_segment_are_stale() {
    let mut store = CaveyStore::new();
    assert!(!store.is_stale(&".engine".to_owned()));
    assert!(!store.is_stale(&"00000000".to_owned()));
    assert!(store.is_stale(&"00000001".to_owned()));
    assert!(store.is_stale(&"0".to_owned()));
    assert!(store.is_stale(&"engine".to_owned()));
    store.put("k".to_owned(), "v".to_owned()).unwrap();
    store.compact().unwrap();
    assert!(store.is_stale(&"00000000".to_owned()));
    assert!(!store.is_stale(&"00000001".to_owned()));
    assert!(!store.is_stale(&".engine".to_owned()));
}

#[test]
fn open_reports_a_record_that_cannot_be_parsed() {
    let broken = SegmentFile {
        name: "00000000".to_owned(),
        data: b"{\"put\":{\"key\":\"a\",\"value\":\"1\"}}\nnot a record\n".to_vec(),
    };
    assert_eq!(CaveyStore::open(vec![broken], None).err(), Some(CaveyError::DecodeError));
    let torn = SegmentFile {
        name: "00000000".to_owned(),
        data: b"{\"put\":{\"key\":\"a\",\"value\":\"1\"}}\n{\"put\":{\"key\":\"b\",\"val".to_vec(),
    };
    assert_eq!(CaveyStore::open(vec![torn], None).err(), Some(CaveyError::DecodeError));
    let unfinished = SegmentFile {
        name: "00000000".to_owned(),
        data: b"{\"put\":{\"key\":\"a\",\"value\":\"1\"}}".to_vec(),
    };
    assert_eq!(CaveyStore::open(vec![unfinished], None).err(), Some(CaveyError::DecodeError));
}

#[test]
fn recovery_counts_records_not_keys() {
    let data = b"{\"put\":{\"key\":\"a\",\"value\":\"1\"}}\n{\"put\":{\"key\":\"a\",\"value\":\"22\"}}\n{\"remove\":{\"key\":\"a\"}}\n{\"put\":{\"key\":\"b\",\"value\":\"3\"}}\n".to_vec();
    let mut store = CaveyStore::recover(7, data).unwrap();
    assert_eq!(store.generation(), 7);
    assert_eq!(store.entries(), 4);
    assert_eq!(store.len(), 1);
    assert_eq!(store.get("a".to_owned()), Ok(None));
    assert_eq!(store.get("b".to_owned()), Ok(Some("3".to_owned())));
}

#[test]
fn recovery_points_at_the_start_of_the_latest_record() {
    let data = b"{\"put\":{\"key\":\"a\",\"value\":\"first\"}}\n{\"put\":{\"key\":\"b\",\"value\":\"x\"}}\n{\"put\":{\"key\":\"a\",\"value\":\"second\"}}\n".to_vec();
    let mut store = CaveyStore::recover(0, data).unwrap();
    assert_eq!(store.get("a".to_owned()), Ok(Some("second".to_owned())));
    assert_eq!(store.get("b".to_owned()), Ok(Some("x".to_owned())));
    store.put("b".to_owned(), "y".to_owned()).unwrap();
    assert_eq!(store.get("b".to_owned()), Ok(Some("y".to_owned())));
    assert_eq!(store.get("a".to_owned()), Ok(Some("second".to_owned())));
}

#[test]
fn entries_are_never_fewer_than_live_keys() {
    let mut store = CaveyStore::new();
    for round in 0..40 {
        store.put(format!("k{}", round % 7), format!("{}", round)).unwrap();
        if round % 3 == 0 {
            let _ = store.remove(format!("k{}", round % 5));
        }
        assert!(store.entries() >= store.len());
    }
}

#[test]
fn pending_is_the_tail_or_the_whole_segment() {
    let mut store = CaveyStore::new();
    assert_eq!(store.pending(0, 0), Pending::Append { from: 0 });
    store.put("k".to_owned(), "v".to_owned()).unwrap();
    let held = store.segment_bytes().len();
    store.put("k".to_owned(), "w".to_owned()).unwrap();
    assert_eq!(store.pending(0, held), Pending::Append { from: held });
    assert_eq!(store.pending(0, 2 * held + 1), Pending::Replace);
    assert_eq!(store.pending(1, held), Pending::Replace);
    store.compact().unwrap();
    assert_eq!(store.pending(0, held), Pending::Replace);
    assert_eq!(store.pending(1, 0), Pending::Append { from: 0 });
}

#[test]
fn select_gives_the_place_of_the_active_segment() {
    let names = |list: &[&str]| list.iter().map(|name| name.to_string()).collect::<Vec<_>>();
    assert_eq!(CaveyStore::select(&names(&[])), Ok(None));
    assert_eq!(CaveyStore::select(&names(&[".engine"])), Ok(None));
    assert_eq!(CaveyStore::select(&names(&["00000003"])), Ok(Some((0, 3))));
    assert_eq!(CaveyStore::select(&names(&[".engine", "00000003"])), Ok(Some((1, 3))));
    assert_eq!(CaveyStore::select(&names(&["10", "9", ".engine", "0000000a", "09"])), Ok(Some((1, 9))));
    assert_eq!(
        CaveyStore::select(&names(&["00000001", ".engine", "x", "y"])),
        Err(CaveyError::InvalidGeneration("x".to_owned()))
    );
    assert_eq!(
        CaveyStore::select(&names(&[".Engine"])),
        Err(CaveyError::InvalidGeneration(".Engine".to_owned()))
    );
}

#[test]
fn a_new_store_is_empty() {
    let mut store = CaveyStore::new();
    assert_eq!(store.generation(), 0);
    assert_eq!(store.entries(), 0);
    assert_eq!(store.len(), 0);
    assert_eq!(store.current_file(), "00000000");
    assert!(store.segment_bytes().is_empty());
    assert_eq!(store.get("k".to_owned()), Ok(None));
}
