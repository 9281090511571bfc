use cavey::index::{KeyIndex, RecordPointer};

fn at(offset: u64) -> RecordPointer {
    RecordPointer { generation: 3, offset }
}

fn walk(index: &KeyIndex) -> Vec<(String, u64)> {
    (0..index.len()).map(|i| (index.key_at(i).clone(), index.pointer_at(i).offset)).collect()
}

#[test]
fn new_index_is_empty() {
    let index = KeyIndex::new();
    assert_eq!(index.len(), 0);
    assert_eq!(index.get("a"), None);
}

#[test]
fn insert_points_a_key_and_keeps_its_place() {
    let mut index = KeyIndex::new();
    index.insert("a".to_owned(), at(0));
    index.insert("b".to_owned(), at(10));
    index.insert("a".to_owned(), at(20));
    assert_eq!(index.len(), 2);
    assert_eq!(index.get("a"), Some(at(20)));
    assert_eq!(index.get("b"), Some(at(10)));
    assert_eq!(walk(&index), vec![("a".to_owned(), 20), ("b".to_owned(), 10)]);
}

#[test]
fn remove_moves_the_last_key_into_the_gap() {
    let mut index = KeyIndex::new();
    for (i, key) in ["a", "b", "c", "d"].iter().enumerate() {
        index.insert(key.to_string(), at(i as u64));
    }
    assert_eq!(index.remove("b"), Some(at(1)));
    assert_eq!(index.remove("b"), None);
    assert_eq!(index.get("b"), None);
    assert_eq!(
        walk(&index),
        vec![("a".to_owned(), 0), ("d".to_owned(), 3), ("c".to_owned(), 2)]
    );
    assert_eq!(index.remove("c"), Some(at(2)));
    assert_eq!(walk(&index), vec![("a".to_owned(), 0), ("d".to_owned(), 3)]);
    assert_eq!(index.get("d"), Some(at(3)));
    assert_eq!(index.remove("a"), Some(at(0)));
    assert_eq!(index.remove("d"), Some(at(3)));
    assert_eq!(index.len(), 0);
}
