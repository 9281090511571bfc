//! The engine contract: what the connection handler asks of a store.
use vstd::prelude::*;
use vstd::utf8::{decode_utf8, valid_utf8};
use crate::error::CaveyError;

verus! {

/// The value that a map from keys to values gives for a key.
pub open spec fn lookup(contents: Map<Seq<char>, Seq<char>>, key: Seq<char>) -> Option<Seq<char>> {
    if contents.contains_key(key) {
        Some(contents[key])
    } else {
        None
    }
}

/// The characters of a string that may be absent.
pub open spec fn text_of(found: Option<String>) -> Option<Seq<char>> {
    match found {
        Some(text) => Some(text@),
        None => None,
    }
}

/// A store of string keys and values.
///
/// An engine holds a map from keys to values. Whatever else an operation
/// does, and however it fails, it answers and changes that map as stated
/// here. An engine says what it holds by defining `valid` and `contents`; one
/// that defines neither is never known to be valid, and nothing is known of
/// what it answers. An engine may also say, by defining `gets`, `puts` and
/// `removes`, exactly what each operation answers and leaves.
pub trait CaveyEngine {
    /// The engine is fit for use.
    open spec fn valid(&self) -> bool {
        false
    }

    /// The map from keys to values that the engine holds.
    open spec fn contents(&self) -> Map<Seq<char>, Seq<char>> {
        Map::empty()
    }

    /// What a `get` of `key` on this engine may answer and leave: `r` is the
    /// answer and `after` the engine after it. An engine that does not say
    /// allows every answer.
    open spec fn gets(
        &self,
        key: Seq<char>,
        after: &Self,
        r: Result<Option<String>, CaveyError>,
    ) -> bool {
        true
    }

    /// What a `put` of `value` for `key` on this engine may answer and leave:
    /// `r` is the answer and `after` the engine after it. An engine that does
    /// not say allows every answer.
    open spec fn puts(
        &self,
        key: Seq<char>,
        value: Seq<char>,
        after: &Self,
        r: Result<(), CaveyError>,
    ) -> bool {
        true
    }

    /// What a `remove` of `key` on this engine may answer and leave: `r` is
    /// the answer and `after` the engine after it. An engine that does not
    /// say allows every answer.
    open spec fn removes(&self, key: Seq<char>, after: &Self, r: Result<(), CaveyError>) -> bool {
        true
    }

    /// Looks up the value of a key. The map stays as it is; an answer is the
    /// value that the map gives.
    fn get(&mut self, key: String) -> (r: Result<Option<String>, CaveyError>)
        requires
            old(self).valid(),
        ensures
            final(self).valid(),
            final(self).contents() == old(self).contents(),
            r matches Ok(found) ==> text_of(found) == lookup(old(self).contents(), key@),
            old(self).gets(key@, final(self), r),
    ;

    /// Sets the value of a key. On success the map gives the value for the
    /// key and is unchanged elsewhere.
    fn put(&mut self, key: String, value: String) -> (r: Result<(), CaveyError>)
        requires
            old(self).valid(),
        ensures
            final(self).valid(),
            r is Ok ==> final(self).contents() == old(self).contents().insert(key@, value@),
            old(self).puts(key@, value@, final(self), r),
    ;

    /// Removes a key. A key without a value is a failure that leaves the map
    /// as it is; on success the key had a value and has none any more.
    fn remove(&mut self, key: String) -> (r: Result<(), CaveyError>)
        requires
            old(self).valid(),
        ensures
            final(self).valid(),
            r is Ok ==> old(self).contents().contains_key(key@) && final(self).contents() == old(
                self,
            ).contents().remove(key@),
            !old(self).contents().contains_key(key@) ==> r is Err && final(self).contents() == old(
                self,
            ).contents(),
            old(self).removes(key@, final(self), r),
    ;
}

/// Calls `String::from_utf8`, which gives the string that the bytes encode
/// where they are UTF-8, and fails where they are not.
#[verifier::external_body]
fn utf8_text(bytes: Vec<u8>) -> (r: Option<String>)
    ensures
        match r {
            Some(text) => valid_utf8(bytes@) && text@ == decode_utf8(bytes@),
            None => !valid_utf8(bytes@),
        },
{
    String::from_utf8(bytes).ok()
}

/// What an engine that keeps values as bytes answers to a `Get`, given the
/// bytes it found: no value where it found none, the string that the bytes
/// encode where they are UTF-8, and `DecodeError` where they are not.
pub fn found_text(found: Option<Vec<u8>>) -> (r: Result<Option<String>, CaveyError>)
    ensures
        match found {
            None => r matches Ok(None),
            Some(bytes) => if valid_utf8(bytes@) {
                r matches Ok(Some(text)) && text@ == decode_utf8(bytes@)
            } else {
                r == Err::<Option<String>, CaveyError>(CaveyError::DecodeError)
            },
        },
{
    match found {
        None => Ok(None),
        Some(bytes) => match utf8_text(bytes) {
            Some(text) => Ok(Some(text)),
            None => Err(CaveyError::DecodeError),
        },
    }
}

/// What an engine answers to a `Remove`, given whether the key had a value:
/// success where it had one, `KeyNotFound` where it had none.
pub fn removal(had_value: bool) -> (r: Result<(), CaveyError>)
    ensures
        r == if had_value {
            Ok::<(), CaveyError>(())
        } else {
            Err::<(), CaveyError>(CaveyError::KeyNotFound)
        },
{
    if had_value {
        Ok(())
    } else {
        Err(CaveyError::KeyNotFound)
    }
}

} // verus!
