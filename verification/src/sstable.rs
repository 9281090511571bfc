//! Sorted string tables: a file of entries that can be read from any
//! entry's offset.
//!
//! A table is a header of 20 bytes, the entries, and a footer. The header is
//! the bytes `sst\0`, the offset of the footer and the number of entries;
//! an entry is the lengths of its key and of its value, four bytes each, and
//! then the key and the value; the footer is the offset of each entry. The
//! offsets and the number of entries take eight bytes each, and all numbers
//! are little-endian, written and read by `byteorder`.
use vstd::prelude::*;
use vstd::bytes::{
    lemma_auto_spec_u32_to_from_le_bytes, lemma_auto_spec_u64_to_from_le_bytes,
    spec_u32_from_le_bytes, spec_u32_to_le_bytes, spec_u64_from_le_bytes, spec_u64_to_le_bytes,
};
use vstd::slice::slice_subrange;
use vstd::string::StringExecFns;
use byteorder::{ByteOrder, LittleEndian};
use crate::error::{CaveyError, Corruption};
use crate::bytes::append_bytes;

verus! {

/// The number of bytes before the first entry.
pub const HEADER_LEN: u64 = 20;

/// A key and its value.
pub type Entry = (Vec<u8>, Vec<u8>);

/// The bytes that a table starts with.
pub open spec fn magic() -> Seq<u8> {
    seq![115u8, 115u8, 116u8, 0u8]
}

/// The text of the failure to make a table of no entries.
pub const EMPTY: &'static str = "empty iterator";

/// The text of the failure to make a table of no entries.
pub open spec fn empty_text() -> Seq<char> {
    EMPTY@
}

/// Some entries as pairs of sequences of bytes.
pub open spec fn entries_model(entries: Seq<Entry>) -> Seq<(Seq<u8>, Seq<u8>)> {
    entries.map_values(|entry: Entry| (entry.0@, entry.1@))
}

/// The bytes of an entry.
pub open spec fn entry_wire(entry: (Seq<u8>, Seq<u8>)) -> Seq<u8> {
    spec_u32_to_le_bytes(entry.0.len() as u32) + spec_u32_to_le_bytes(entry.1.len() as u32)
        + entry.0 + entry.1
}

/// The bytes of some entries, one after the other.
pub open spec fn entries_wire(entries: Seq<(Seq<u8>, Seq<u8>)>) -> Seq<u8>
    decreases entries.len(),
{
    if entries.len() == 0 {
        Seq::empty()
    } else {
        entries_wire(entries.drop_last()) + entry_wire(entries.last())
    }
}

/// The offset in the table of each of some entries.
pub open spec fn entry_offsets(entries: Seq<(Seq<u8>, Seq<u8>)>) -> Seq<u64> {
    Seq::new(
        entries.len(),
        |i: int| (HEADER_LEN + entries_wire(entries.subrange(0, i)).len()) as u64,
    )
}

/// The bytes of some offsets, one after the other.
pub open spec fn offsets_wire(offsets: Seq<u64>) -> Seq<u8>
    decreases offsets.len(),
{
    if offsets.len() == 0 {
        Seq::empty()
    } else {
        offsets_wire(offsets.drop_last()) + spec_u64_to_le_bytes(offsets.last())
    }
}

/// The lengths of every key and value fit in four bytes, and every offset
/// of the table in eight.
pub open spec fn fits(entries: Seq<(Seq<u8>, Seq<u8>)>) -> bool {
    &&& forall|i: int|
        0 <= i < entries.len() ==> (#[trigger] entries[i]).0.len() <= u32::MAX && entries[i].1.len()
            <= u32::MAX
    &&& HEADER_LEN + entries_wire(entries).len() <= u64::MAX
}

/// The bytes of the table of some entries.
pub open spec fn table_image(entries: Seq<(Seq<u8>, Seq<u8>)>) -> Seq<u8> {
    magic() + spec_u64_to_le_bytes((HEADER_LEN + entries_wire(entries).len()) as u64)
        + spec_u64_to_le_bytes(entries.len() as u64) + entries_wire(entries) + offsets_wire(
        entry_offsets(entries),
    )
}

/// The offset of the footer that the header of some bytes gives.
pub open spec fn footer_at(image: Seq<u8>) -> u64 {
    spec_u64_from_le_bytes(image.subrange(4, 12))
}

/// The number of entries that the header of some bytes gives.
pub open spec fn entry_count(image: Seq<u8>) -> u64 {
    spec_u64_from_le_bytes(image.subrange(12, 20))
}

/// Some bytes hold a header, and a footer at the offset and of the length
/// that the header gives.
pub open spec fn readable(image: Seq<u8>) -> bool {
    &&& image.len() >= HEADER_LEN
    &&& entry_count(image) == 0 || footer_at(image) + 8 * entry_count(image) <= image.len()
}

/// The offsets that the footer of some bytes holds.
pub open spec fn stored_offsets(image: Seq<u8>) -> Seq<u64> {
    Seq::new(
        entry_count(image) as nat,
        |i: int|
            spec_u64_from_le_bytes(
                image.subrange(footer_at(image) + 8 * i, footer_at(image) + 8 * i + 8),
            ),
    )
}

/// The entry that starts at `position`, with the position after it: none
/// where fewer than four bytes are left, `UnexpectedEof` where the bytes end
/// before the entry does.
pub open spec fn entry_at(image: Seq<u8>, position: int) -> Result<
    Option<((Seq<u8>, Seq<u8>), int)>,
    CaveyError,
> {
    if position < 0 || position + 4 > image.len() {
        Ok(None)
    } else if position + 8 > image.len() {
        Err(CaveyError::DataCorruption(Corruption::UnexpectedEof))
    } else {
        let key_at = position + 8;
        let value_at = key_at + spec_u32_from_le_bytes(image.subrange(position, position + 4));
        let end = value_at + spec_u32_from_le_bytes(image.subrange(position + 4, position + 8));
        if end > image.len() {
            Err(CaveyError::DataCorruption(Corruption::UnexpectedEof))
        } else {
            Ok(Some(((image.subrange(key_at, value_at), image.subrange(value_at, end)), end)))
        }
    }
}

/// Calls `LittleEndian::write_u32` of `byteorder` on four bytes, which
/// become the number's bytes, least significant first.
#[verifier::external_body]
fn u32_bytes(value: u32) -> (bytes: [u8; 4])
    ensures
        bytes@ == spec_u32_to_le_bytes(value),
{
    let mut bytes = [0u8; 4];
    LittleEndian::write_u32(&mut bytes, value);
    bytes
}

/// Calls `LittleEndian::write_u64` of `byteorder` on eight bytes, which
/// become the number's bytes, least significant first.
#[verifier::external_body]
fn u64_bytes(value: u64) -> (bytes: [u8; 8])
    ensures
        bytes@ == spec_u64_to_le_bytes(value),
{
    let mut bytes = [0u8; 8];
    LittleEndian::write_u64(&mut bytes, value);
    bytes
}

/// Calls `LittleEndian::read_u32` of `byteorder`, which gives the number
/// whose bytes, least significant first, are the first four of `bytes`.
#[verifier::external_body]
fn u32_of(bytes: &[u8]) -> (value: u32)
    requires
        bytes@.len() >= 4,
    ensures
        value == spec_u32_from_le_bytes(bytes@.subrange(0, 4)),
{
    LittleEndian::read_u32(bytes)
}

/// Calls `LittleEndian::read_u64` of `byteorder`, which gives the number
/// whose bytes, least significant first, are the first eight of `bytes`.
#[verifier::external_body]
fn u64_of(bytes: &[u8]) -> (value: u64)
    requires
        bytes@.len() >= 8,
    ensures
        value == spec_u64_from_le_bytes(bytes@.subrange(0, 8)),
{
    LittleEndian::read_u64(bytes)
}

/// A table: the bytes of its file and the offset of each of its entries.
pub struct SSTable {
    image: Vec<u8>,
    offsets: Vec<u64>,
}

impl SSTable {
    /// The bytes of the table's file.
    pub closed spec fn image_spec(&self) -> Seq<u8> {
        self.image@
    }

    /// The offset of each entry.
    pub closed spec fn offsets_spec(&self) -> Seq<u64> {
        self.offsets@
    }

    /// The bytes of the table's file.
    pub fn image(&self) -> (r: &Vec<u8>)
        ensures
            r@ == self.image_spec(),
    {
        &self.image
    }

    /// The offset of each entry.
    pub fn offsets(&self) -> (r: &Vec<u64>)
        ensures
            r@ == self.offsets_spec(),
    {
        &self.offsets
    }

    /// Makes the table of some entries, in the order given. The entries are
    /// meant to be sorted by key.
    ///
    /// Fails with `IoError` where there are no entries, and with
    /// `EncodeError` where a length or an offset does not fit.
    pub fn from_sorted_iter(entries: &Vec<Entry>) -> (r: Result<SSTable, CaveyError>)
        ensures
            match r {
                Ok(table) => {
                    &&& entries@.len() > 0
                    &&& fits(entries_model(entries@))
                    &&& table.image_spec() == table_image(entries_model(entries@))
                    &&& table.offsets_spec() == entry_offsets(entries_model(entries@))
                },
                Err(CaveyError::IoError(text)) => entries@.len() == 0 && text@ == empty_text(),
                Err(e) => e == CaveyError::EncodeError && entries@.len() > 0 && !fits(
                    entries_model(entries@),
                ),
            },
    {
        if entries.len() == 0 {
            return Err(CaveyError::IoError(String::from_str(EMPTY)));
        }
        let ghost model = entries_model(entries@);
        let mut body: Vec<u8> = Vec::new();
        let mut offsets: Vec<u64> = Vec::new();
        let mut footer: Vec<u8> = Vec::new();
        let mut i: usize = 0;
        assert(model.subrange(0, 0) =~= Seq::<(Seq<u8>, Seq<u8>)>::empty());
        while i < entries.len()
            invariant
                i <= entries.len(),
                model == entries_model(entries@),
                body@ == entries_wire(model.subrange(0, i as int)),
                offsets@ == entry_offsets(model.subrange(0, i as int)),
                footer@ == offsets_wire(offsets@),
                HEADER_LEN + body@.len() <= u64::MAX,
                forall|j: int|
                    0 <= j < i ==> (#[trigger] model[j]).0.len() <= u32::MAX && model[j].1.len()
                        <= u32::MAX,
            decreases entries.len() - i,
        {
            let key = &entries[i].0;
            let value = &entries[i].1;
            assert(model[i as int] == (key@, value@));
            let ghost before = model.subrange(0, i as int);
            let ghost after = model.subrange(0, i + 1);
            proof {
                assert(after.drop_last() =~= before);
                assert(after.last() == model[i as int]);
                lemma_auto_spec_u32_to_from_le_bytes();
                lemma_entries_wire_grows(model, i + 1);
            }
            if key.len() > u32::MAX as usize || value.len() > u32::MAX as usize {
                return Err(CaveyError::EncodeError);
            }
            let offset = HEADER_LEN + body.len() as u64;
            let key_len = u32_bytes(key.len() as u32);
            let value_len = u32_bytes(value.len() as u32);
            let ghost grown = body@ + entry_wire(model[i as int]);
            let key_size = key.len() as u64;
            let value_size = value.len() as u64;
            if offset > u64::MAX - 8 - key_size - value_size {
                return Err(CaveyError::EncodeError);
            }
            let ghost previous = offsets@;
            offsets.push(offset);
            append_bytes(&mut footer, u64_bytes(offset).as_slice());
            append_bytes(&mut body, key_len.as_slice());
            append_bytes(&mut body, value_len.as_slice());
            append_bytes(&mut body, key.as_slice());
            append_bytes(&mut body, value.as_slice());
            proof {
                assert(body@ =~= grown);
                assert(offsets@ =~= entry_offsets(after)) by {
                    assert forall|j: int| 0 <= j < after.len() implies offsets@[j] == entry_offsets(
                        after,
                    )[j] by {
                        assert(after.subrange(0, j) =~= model.subrange(0, j));
                        if j < i {
                            assert(before.subrange(0, j) =~= model.subrange(0, j));
                        }
                    }
                }
                assert(offsets@.drop_last() =~= previous);
            }
            i += 1;
        }
        assert(model.subrange(0, i as int) =~= model);
        let footer_at = HEADER_LEN + body.len() as u64;
        let mut image: Vec<u8> = Vec::new();
        let start: [u8; 4] = [115, 115, 116, 0];
        assert(start@ =~= magic());
        append_bytes(&mut image, start.as_slice());
        append_bytes(&mut image, u64_bytes(footer_at).as_slice());
        append_bytes(&mut image, u64_bytes(entries.len() as u64).as_slice());
        append_bytes(&mut image, body.as_slice());
        append_bytes(&mut image, footer.as_slice());
        Ok(SSTable { image, offsets })
    }
}

impl SSTable {
    /// Reads a table from the bytes of its file: the header, and the
    /// offsets in the footer. Fails where the bytes end before the header or
    /// the footer does.
    pub fn from_file(image: Vec<u8>) -> (r: Result<SSTable, CaveyError>)
        ensures
            match r {
                Ok(table) => {
                    &&& readable(image@)
                    &&& table.image_spec() == image@
                    &&& table.offsets_spec() == stored_offsets(image@)
                },
                Err(e) => !readable(image@) && e == CaveyError::DataCorruption(
                    Corruption::UnexpectedEof,
                ),
            },
    {
        let len = image.len();
        if len < 20 {
            return Err(CaveyError::DataCorruption(Corruption::UnexpectedEof));
        }
        let footer = u64_of(slice_subrange(image.as_slice(), 4, 12));
        let count = u64_of(slice_subrange(image.as_slice(), 12, 20));
        assert(image@.subrange(4, 12).subrange(0, 8) =~= image@.subrange(4, 12));
        assert(image@.subrange(12, 20).subrange(0, 8) =~= image@.subrange(12, 20));
        let mut offsets: Vec<u64> = Vec::new();
        if count > 0 {
            if footer > len as u64 || count > (len as u64 - footer) / 8 {
                return Err(CaveyError::DataCorruption(Corruption::UnexpectedEof));
            }
            let mut i: u64 = 0;
            while i < count
                invariant
                    i <= count,
                    len == image@.len(),
                    footer == footer_at(image@),
                    count == entry_count(image@),
                    footer + 8 * count <= len,
                    offsets@.len() == i,
                    forall|j: int|
                        0 <= j < i ==> offsets@[j] == spec_u64_from_le_bytes(
                            image@.subrange(footer + 8 * j, footer + 8 * j + 8),
                        ),
                decreases count - i,
            {
                let at = (footer + 8 * i) as usize;
                let field = slice_subrange(image.as_slice(), at, at + 8);
                assert(field@.subrange(0, 8) =~= field@);
                offsets.push(u64_of(field));
                i += 1;
            }
        }
        assert(offsets@ =~= stored_offsets(image@));
        Ok(SSTable { image, offsets })
    }

    /// A cursor that reads the table from `offset` on.
    pub fn at(&self, offset: u64) -> (r: SSTableCursor<'_>)
        ensures
            r.image_spec() == self.image_spec(),
            r.position_spec() == offset,
    {
        SSTableCursor::new(self.image.as_slice(), offset)
    }
}

/// A place in a table from which entries are read one after the other.
pub struct SSTableCursor<'a> {
    image: &'a [u8],
    position: u64,
}

impl<'a> SSTableCursor<'a> {
    /// The bytes that the cursor reads.
    pub closed spec fn image_spec(&self) -> Seq<u8> {
        self.image@
    }

    /// The offset of the next byte to read.
    pub closed spec fn position_spec(&self) -> u64 {
        self.position
    }

    /// A cursor over `image` at `position`.
    pub fn new(image: &'a [u8], position: u64) -> (r: SSTableCursor<'a>)
        ensures
            r.image_spec() == image@,
            r.position_spec() == position,
    {
        SSTableCursor { image, position }
    }

    /// The offset of the next byte to read.
    pub fn position(&self) -> (r: u64)
        ensures
            r == self.position_spec(),
    {
        self.position
    }

    /// Reads the entry at the cursor and moves the cursor past it. Where
    /// there is none, or the bytes end before the entry does, the cursor
    /// stays.
    pub fn read_next(&mut self) -> (r: Result<Option<Entry>, CaveyError>)
        ensures
            final(self).image_spec() == old(self).image_spec(),
            match entry_at(old(self).image_spec(), old(self).position_spec() as int) {
                Ok(Some((entry, end))) => r matches Ok(Some(read)) && (read.0@, read.1@) == entry
                    && final(self).position_spec() == end,
                Ok(None) => r matches Ok(None) && final(self).position_spec() == old(
                    self,
                ).position_spec(),
                Err(e) => r == Err::<Option<Entry>, CaveyError>(e) && final(self).position_spec()
                    == old(self).position_spec(),
            },
    {
        let len = self.image.len();
        if self.position > len as u64 || len as u64 - self.position < 4 {
            return Ok(None);
        }
        let at = self.position as usize;
        if len - at < 8 {
            return Err(CaveyError::DataCorruption(Corruption::UnexpectedEof));
        }
        let key_len = u32_of(slice_subrange(self.image, at, at + 4));
        let value_len = u32_of(slice_subrange(self.image, at + 4, at + 8));
        assert(self.image@.subrange(at as int, at + 4).subrange(0, 4) =~= self.image@.subrange(
            at as int,
            at + 4,
        ));
        assert(self.image@.subrange(at + 4, at + 8).subrange(0, 4) =~= self.image@.subrange(
            at + 4,
            at + 8,
        ));
        let left = (len - at - 8) as u64;
        if key_len as u64 > left || value_len as u64 > left - key_len as u64 {
            return Err(CaveyError::DataCorruption(Corruption::UnexpectedEof));
        }
        let key_at = at + 8;
        let value_at = key_at + key_len as usize;
        let end = value_at + value_len as usize;
        let key = vstd::slice::slice_to_vec(slice_subrange(self.image, key_at, value_at));
        let value = vstd::slice::slice_to_vec(slice_subrange(self.image, value_at, end));
        self.position = end as u64;
        Ok(Some((key, value)))
    }

    /// Reads the entry at the cursor, if a whole entry stands there, and
    /// moves the cursor past it.
    pub fn next(&mut self) -> (r: Option<Entry>)
        ensures
            final(self).image_spec() == old(self).image_spec(),
            match entry_at(old(self).image_spec(), old(self).position_spec() as int) {
                Ok(Some((entry, end))) => r matches Some(read) && (read.0@, read.1@) == entry
                    && final(self).position_spec() == end,
                _ => r is None && final(self).position_spec() == old(self).position_spec(),
            },
    {
        match self.read_next() {
            Ok(entry) => entry,
            Err(_) => None,
        }
    }
}

/// The bytes of the first `cut` entries stand at the front of the bytes of
/// all of them, so there are no more of them.
pub proof fn lemma_entries_wire_grows(entries: Seq<(Seq<u8>, Seq<u8>)>, cut: int)
    requires
        0 <= cut <= entries.len(),
    ensures
        entries_wire(entries.subrange(0, cut)).is_prefix_of(entries_wire(entries)),
    decreases entries.len(),
{
    if cut == entries.len() {
        assert(entries.subrange(0, cut) =~= entries);
    } else {
        lemma_entries_wire_grows(entries.drop_last(), cut);
        assert(entries.drop_last().subrange(0, cut) =~= entries.subrange(0, cut));
    }
}

/// The bytes of some offsets are eight for each, and those of the offset at
/// `i` stand at `8 * i`.
pub proof fn lemma_offsets_wire(offsets: Seq<u64>, i: int)
    requires
        0 <= i < offsets.len(),
    ensures
        offsets_wire(offsets).len() == 8 * offsets.len(),
        offsets_wire(offsets).subrange(8 * i, 8 * i + 8) == spec_u64_to_le_bytes(offsets[i]),
    decreases offsets.len(),
{
    lemma_auto_spec_u64_to_from_le_bytes();
    lemma_offsets_wire_len(offsets.drop_last());
    let before = offsets_wire(offsets.drop_last());
    let last = spec_u64_to_le_bytes(offsets.last());
    if i == offsets.len() - 1 {
        assert((before + last).subrange(8 * i, 8 * i + 8) =~= last);
    } else {
        lemma_offsets_wire(offsets.drop_last(), i);
        assert((before + last).subrange(8 * i, 8 * i + 8) =~= before.subrange(8 * i, 8 * i + 8));
    }
}

/// The bytes of some offsets are eight for each.
pub proof fn lemma_offsets_wire_len(offsets: Seq<u64>)
    ensures
        offsets_wire(offsets).len() == 8 * offsets.len(),
    decreases offsets.len(),
{
    lemma_auto_spec_u64_to_from_le_bytes();
    if offsets.len() > 0 {
        lemma_offsets_wire_len(offsets.drop_last());
    }
}

/// The bytes of an entry are eight more than its key and value.
pub proof fn lemma_entry_wire_len(entry: (Seq<u8>, Seq<u8>))
    ensures
        entry_wire(entry).len() == 8 + entry.0.len() + entry.1.len(),
{
    lemma_auto_spec_u32_to_from_le_bytes();
}

/// The bytes of the entry at `i` stand in the bytes of the entries where
/// the bytes of the entries before it end.
pub proof fn lemma_entry_in_wire(entries: Seq<(Seq<u8>, Seq<u8>)>, i: int)
    requires
        0 <= i < entries.len(),
    ensures
        ({
            let start = entries_wire(entries.subrange(0, i)).len() as int;
            let end = entries_wire(entries.subrange(0, i + 1)).len() as int;
            &&& end == start + entry_wire(entries[i]).len()
            &&& end <= entries_wire(entries).len()
            &&& entries_wire(entries).subrange(start, end) == entry_wire(entries[i])
        }),
{
    let shorter = entries.subrange(0, i);
    let longer = entries.subrange(0, i + 1);
    assert(longer.drop_last() =~= shorter);
    assert(longer.last() == entries[i]);
    lemma_entries_wire_grows(entries, i + 1);
    let start = entries_wire(shorter).len() as int;
    let end = entries_wire(longer).len() as int;
    assert(entries_wire(entries).subrange(start, end) =~= entry_wire(entries[i])) by {
        assert forall|j: int| 0 <= j < end - start implies entries_wire(entries)[start + j]
            == entry_wire(entries[i])[j] by {
            assert(entries_wire(entries).subrange(0, end)[start + j] == entries_wire(longer)[start
                + j]);
        }
    }
}

/// There are at most as many entries as an eighth of their bytes.
pub proof fn lemma_entries_count(entries: Seq<(Seq<u8>, Seq<u8>)>)
    ensures
        8 * entries.len() <= entries_wire(entries).len(),
    decreases entries.len(),
{
    if entries.len() > 0 {
        lemma_entries_count(entries.drop_last());
        lemma_entry_wire_len(entries.last());
    }
}

/// The parts of a table's bytes: where the header's numbers, the entries
/// and the footer stand.
pub proof fn lemma_table_parts(entries: Seq<(Seq<u8>, Seq<u8>)>)
    ensures
        ({
            let image = table_image(entries);
            let body = entries_wire(entries);
            let footer = offsets_wire(entry_offsets(entries));
            &&& image.len() == HEADER_LEN + body.len() + footer.len()
            &&& footer.len() == 8 * entries.len()
            &&& image.subrange(4, 12) == spec_u64_to_le_bytes((HEADER_LEN + body.len()) as u64)
            &&& image.subrange(12, 20) == spec_u64_to_le_bytes(entries.len() as u64)
            &&& image.subrange(HEADER_LEN as int, HEADER_LEN + body.len()) == body
            &&& image.subrange(HEADER_LEN + body.len(), image.len() as int) == footer
        }),
{
    lemma_auto_spec_u64_to_from_le_bytes();
    lemma_offsets_wire_len(entry_offsets(entries));
    let image = table_image(entries);
    let body = entries_wire(entries);
    let footer = offsets_wire(entry_offsets(entries));
    assert(image.subrange(4, 12) =~= spec_u64_to_le_bytes((HEADER_LEN + body.len()) as u64));
    assert(image.subrange(12, 20) =~= spec_u64_to_le_bytes(entries.len() as u64));
    assert(image.subrange(HEADER_LEN as int, HEADER_LEN + body.len()) =~= body);
    assert(image.subrange(HEADER_LEN + body.len(), image.len() as int) =~= footer);
}

/// A table reads back: the bytes of the table of some entries hold a
/// header and a footer, and the offsets in the footer are the offsets of the
/// entries.
pub proof fn law_table_round_trip(entries: Seq<(Seq<u8>, Seq<u8>)>)
    requires
        fits(entries),
    ensures
        readable(table_image(entries)),
        footer_at(table_image(entries)) == HEADER_LEN + entries_wire(entries).len(),
        entry_count(table_image(entries)) == entries.len(),
        stored_offsets(table_image(entries)) == entry_offsets(entries),
{
    lemma_auto_spec_u64_to_from_le_bytes();
    lemma_table_parts(entries);
    lemma_entries_count(entries);
    let image = table_image(entries);
    let footer_start = HEADER_LEN + entries_wire(entries).len();
    let footer = offsets_wire(entry_offsets(entries));
    assert(stored_offsets(image) =~= entry_offsets(entries)) by {
        assert forall|i: int| 0 <= i < entries.len() implies stored_offsets(image)[i]
            == entry_offsets(entries)[i] by {
            lemma_offsets_wire(entry_offsets(entries), i);
            assert(image.subrange(footer_start + 8 * i, footer_start + 8 * i + 8)
                =~= footer.subrange(8 * i, 8 * i + 8));
        }
    }
}

/// An entry reads back: at the offset of the entry at `i`, the bytes of a
/// table hold that entry, and it ends where the next entry or the footer
/// starts.
pub proof fn law_entry_round_trip(entries: Seq<(Seq<u8>, Seq<u8>)>, i: int)
    requires
        fits(entries),
        0 <= i < entries.len(),
    ensures
        entry_at(table_image(entries), entry_offsets(entries)[i] as int) == Ok::<
            Option<((Seq<u8>, Seq<u8>), int)>,
            CaveyError,
        >(Some((entries[i], HEADER_LEN + entries_wire(entries.subrange(0, i + 1)).len()))),
{
    lemma_auto_spec_u32_to_from_le_bytes();
    lemma_table_parts(entries);
    lemma_entry_in_wire(entries, i);
    lemma_entry_wire_len(entries[i]);
    let image = table_image(entries);
    let body = entries_wire(entries);
    let start = entries_wire(entries.subrange(0, i)).len() as int;
    let end = entries_wire(entries.subrange(0, i + 1)).len() as int;
    let position = HEADER_LEN + start;
    let wire = entry_wire(entries[i]);
    let key = entries[i].0;
    let value = entries[i].1;
    assert(image.subrange(position, HEADER_LEN + end) =~= wire) by {
        assert forall|j: int| 0 <= j < wire.len() implies image[position + j] == wire[j] by {
            assert(image.subrange(HEADER_LEN as int, HEADER_LEN + body.len())[start + j] == body[start
                + j]);
            assert(body.subrange(start, end)[j] == body[start + j]);
        }
    }
    let chunk = image.subrange(position, HEADER_LEN + end);
    let key_at = (8 + key.len()) as int;
    assert(image.subrange(position, position + 4) =~= chunk.subrange(0, 4));
    assert(wire.subrange(0, 4) =~= spec_u32_to_le_bytes(key.len() as u32));
    assert(image.subrange(position + 4, position + 8) =~= chunk.subrange(4, 8));
    assert(wire.subrange(4, 8) =~= spec_u32_to_le_bytes(value.len() as u32));
    assert(image.subrange(position + 8, position + key_at) =~= chunk.subrange(8, key_at));
    assert(wire.subrange(8, key_at) =~= key);
    assert(image.subrange(position + key_at, position + key_at + value.len()) =~= chunk.subrange(
        key_at,
        key_at + value.len(),
    ));
    assert(wire.subrange(key_at, key_at + value.len()) =~= value);
    lemma_entries_wire_grows(entries, i);
}

} // verus!
