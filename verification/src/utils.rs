//! The marker that says which engine owns a data directory.
use vstd::prelude::*;
use vstd::string::StringExecFns;
use vstd::utf8::{decode_utf8, valid_utf8};
use crate::bytes::same_bytes;
use crate::error::CaveyError;

verus! {

/// The name of the marker file in a data directory.
pub const MARKER_NAME: &'static str = ".engine";

/// A file name is the marker's.
pub open spec fn is_marker(name: Seq<char>) -> bool {
    name == MARKER_NAME@
}

/// Tells whether a file name is the marker's.
pub fn is_marker_name(name: &String) -> (r: bool)
    ensures
        r == is_marker(name@),
{
    *name == String::from_str(MARKER_NAME)
}

/// The text that `String::from_utf8_lossy` makes of some bytes.
pub uninterp spec fn lossy_text(bytes: Seq<u8>) -> Seq<char>;

/// Calls `String::from_utf8_lossy`, which reads bytes as UTF-8 and puts a
/// replacement character where they are none. The text is only named, but
/// for bytes that are UTF-8 throughout: it is then the string they encode.
#[verifier::external_body]
fn read_lossy(bytes: &[u8]) -> (r: String)
    ensures
        r@ == lossy_text(bytes@),
        valid_utf8(bytes@) ==> r@ == decode_utf8(bytes@),
{
    String::from_utf8_lossy(bytes).into_owned()
}

/// Checks the marker of a data directory against the engine that opens it.
///
/// `found` is what the marker file holds, or none where there is no marker
/// file. The answer says whether the marker has to be written: yes where
/// there is none, no where it names the engine. A marker that names another
/// engine is an `EngineMismatch` with the marker's text.
pub fn check_engine(found: Option<&[u8]>, expected: &[u8]) -> (r: Result<bool, CaveyError>)
    ensures
        match found {
            None => r == Ok::<bool, CaveyError>(true),
            Some(marker) => if marker@ == expected@ {
                r == Ok::<bool, CaveyError>(false)
            } else {
                r matches Err(CaveyError::EngineMismatch(text)) && text@ == lossy_text(marker@)
                    && (valid_utf8(marker@) ==> text@ == decode_utf8(marker@))
            },
        },
{
    match found {
        None => Ok(true),
        Some(marker) => {
            if same_bytes(marker, expected) {
                Ok(false)
            } else {
                Err(CaveyError::EngineMismatch(read_lossy(marker)))
            }
        },
    }
}

} // verus!
