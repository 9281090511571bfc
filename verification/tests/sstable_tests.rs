use cavey::error::Corruption;
use cavey::sstable::{Entry, SSTable, SSTableCursor};
use cavey::CaveyError;

fn entry(key: &str, value: &str) -> Entry {
    (key.as_bytes().to_vec(), value.as_bytes().to_vec())
}

fn sample() -> Vec<Entry> {
    vec![entry("a", "one"), entry("bb", ""), entry("ccc", "three")]
}

fn sample_image() -> Vec<u8> {
    let mut image = Vec::new();
    image.extend_from_slice(b"sst\0");
    image.extend_from_slice(&[58, 0, 0, 0, 0, 0, 0, 0]);
    image.extend_from_slice(&[3, 0, 0, 0, 0, 0, 0, 0]);
    image.extend_from_slice(&[1, 0, 0, 0, 3, 0, 0, 0]);
    image.extend_from_slice(b"aone");
    image.extend_from_slice(&[2, 0, 0, 0, 0, 0, 0, 0]);
    image.extend_from_slice(b"bb");
    image.extend_from_slice(&[3, 0, 0, 0, 5, 0, 0, 0]);
    image.extend_from_slice(b"cccthree");
    image.extend_from_slice(&[20, 0, 0, 0, 0, 0, 0, 0]);
    image.extend_from_slice(&[32, 0, 0, 0, 0, 0, 0, 0]);
    image.extend_from_slice(&[42, 0, 0, 0, 0, 0, 0, 0]);
    image
}

#[test]
fn a_table_is_header_entries_and_footer() {
    let table = SSTable::from_sorted_iter(&sample()).ok().unwrap();
    assert_eq!(table.offsets(), &vec![20, 32, 42]);
    assert_eq!(table.image(), &sample_image());
}

#[test]
fn a_table_of_no_entries_is_refused() {
    assert_eq!(
        SSTable::from_sorted_iter(&Vec::new()).err(),
        Some(CaveyError::IoError("empty iterator".to_owned()))
    );
}

#[test]
fn a_table_reads_back_from_its_bytes() {
    let table = SSTable::from_file(sample_image()).ok().unwrap();
    assert_eq!(table.offsets(), &vec![20, 32, 42]);
    assert_eq!(table.image(), &sample_image());
    let built = SSTable::from_sorted_iter(&sample()).ok().unwrap();
    let read = SSTable::from_file(built.image().clone()).ok().unwrap();
    assert_eq!(read.offsets(), built.offsets());
}

#[test]
fn bytes_cut_short_are_no_table() {
    let eof = Some(CaveyError::DataCorruption(Corruption::UnexpectedEof));
    let image = sample_image();
    assert_eq!(SSTable::from_file(Vec::new()).err(), eof);
    assert_eq!(SSTable::from_file(image[..19].to_vec()).err(), eof);
    assert_eq!(SSTable::from_file(image[..58].to_vec()).err(), eof);
    assert_eq!(SSTable::from_file(image[..image.len() - 1].to_vec()).err(), eof);
    let mut far = image.clone();
    far[4..12].copy_from_slice(&[0xff; 8]);
    assert_eq!(SSTable::from_file(far).err(), eof);
    let mut many = image.clone();
    many[12..20].copy_from_slice(&[0xff; 8]);
    assert_eq!(SSTable::from_file(many).err(), eof);
}

#[test]
fn a_header_that_counts_no_entries_needs_no_footer() {
    let mut image = b"sst\0".to_vec();
    image.extend_from_slice(&[0xff; 8]);
    image.extend_from_slice(&[0; 8]);
    let table = SSTable::from_file(image).ok().unwrap();
    assert!(table.offsets().is_empty());
}

#[test]
fn entries_are_read_from_any_offset() {
    let table = SSTable::from_sorted_iter(&sample()).ok().unwrap();
    let mut cursor = table.at(32);
    assert_eq!(cursor.read_next(), Ok(Some(entry("bb", ""))));
    assert_eq!(cursor.position(), 42);
    assert_eq!(cursor.read_next(), Ok(Some(entry("ccc", "three"))));
    assert_eq!(cursor.position(), 58);
    let mut first = table.at(table.offsets()[0]);
    assert_eq!(first.next(), Some(entry("a", "one")));
    assert_eq!(first.next(), Some(entry("bb", "")));
    assert_eq!(first.next(), Some(entry("ccc", "three")));
}

#[test]
fn reading_stops_where_the_bytes_end() {
    let image = sample_image();
    let mut cursor = SSTableCursor::new(&image, image.len() as u64);
    assert_eq!(cursor.read_next(), Ok(None));
    assert_eq!(cursor.next(), None);
    let mut cursor = SSTableCursor::new(&image, image.len() as u64 - 3);
    assert_eq!(cursor.read_next(), Ok(None));
    let mut cursor = SSTableCursor::new(&image, u64::MAX);
    assert_eq!(cursor.read_next(), Ok(None));
    assert_eq!(cursor.position(), u64::MAX);
}

#[test]
fn an_entry_cut_short_is_unexpected_eof() {
    let eof = Err(CaveyError::DataCorruption(Corruption::UnexpectedEof));
    let image = sample_image();
    let mut cursor = SSTableCursor::new(&image[..27], 20);
    assert_eq!(cursor.read_next(), eof);
    assert_eq!(cursor.position(), 20);
    assert_eq!(cursor.next(), None);
    let mut cursor = SSTableCursor::new(&image[..31], 20);
    assert_eq!(cursor.read_next(), eof);
    let mut cursor = SSTableCursor::new(&image[..32], 20);
    assert_eq!(cursor.read_next(), Ok(Some(entry("a", "one"))));
    let table = SSTable::from_sorted_iter(&sample()).ok().unwrap();
    let mut footer = table.at(58);
    assert_eq!(footer.read_next(), eof);
    assert_eq!(footer.next(), None);
}
