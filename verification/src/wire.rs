//! The bytes of a message on the wire.
//!
//! A message is a tag of four bytes followed by its fields. A string is its
//! length in UTF-8 as eight bytes and then its UTF-8; a string that may be
//! absent is one byte, 0 or 1, and then the string where the byte is 1. All
//! numbers are little-endian. This is what `bincode` writes for these
//! messages, and the numbers, the strings and the strings that may be absent
//! are written and read by `bincode`.
use vstd::prelude::*;
use vstd::bytes::{
    lemma_auto_spec_u32_to_from_le_bytes, lemma_auto_spec_u64_to_from_le_bytes,
    spec_u32_to_le_bytes, spec_u64_to_le_bytes,
};
use vstd::slice::slice_subrange;
use vstd::utf8::{encode_utf8, encode_utf8_decode_utf8};
use crate::engine::text_of;
use crate::error::CaveyError;
use crate::protocol::{ClientMessage, ClientModel, ServerMessage, ServerModel};
use crate::bytes::append_bytes;

verus! {

/// The tag of a `Get`.
pub const TAG_GET: u32 = 0;

/// The tag of a `Put`.
pub const TAG_PUT: u32 = 1;

/// The tag of a `Remove`.
pub const TAG_REMOVE: u32 = 2;

/// The tag of a `Success`.
pub const TAG_SUCCESS: u32 = 0;

/// The tag of an `Error`.
pub const TAG_ERROR: u32 = 1;

/// A string can be sent: the length of its UTF-8 fits in eight bytes.
pub open spec fn sendable(text: Seq<char>) -> bool {
    encode_utf8(text).len() <= u64::MAX
}

/// The bytes of a string.
pub open spec fn string_wire(text: Seq<char>) -> Seq<u8> {
    spec_u64_to_le_bytes(encode_utf8(text).len() as u64) + encode_utf8(text)
}

/// The bytes of a string that may be absent.
pub open spec fn option_wire(value: Option<Seq<char>>) -> Seq<u8> {
    match value {
        None => seq![0u8],
        Some(text) => seq![1u8] + string_wire(text),
    }
}

/// The bytes of a request.
pub open spec fn client_wire(message: ClientModel) -> Seq<u8> {
    match message {
        ClientModel::Get { key } => spec_u32_to_le_bytes(TAG_GET) + string_wire(key),
        ClientModel::Put { key, value } => spec_u32_to_le_bytes(TAG_PUT) + string_wire(key)
            + string_wire(value),
        ClientModel::Remove { key } => spec_u32_to_le_bytes(TAG_REMOVE) + string_wire(key),
    }
}

/// The bytes of a reply.
pub open spec fn server_wire(message: ServerModel) -> Seq<u8> {
    match message {
        ServerModel::Success { value } => spec_u32_to_le_bytes(TAG_SUCCESS) + option_wire(value),
        ServerModel::Error { message } => spec_u32_to_le_bytes(TAG_ERROR) + string_wire(message),
    }
}

/// No string that can be sent has its bytes at the front of `bytes`.
pub open spec fn starts_no_string(bytes: Seq<u8>) -> bool {
    forall|text: Seq<char>| sendable(text) ==> !(#[trigger] string_wire(text)).is_prefix_of(bytes)
}

/// No string that may be absent and can be sent has its bytes at the front
/// of `bytes`.
pub open spec fn starts_no_option(bytes: Seq<u8>) -> bool {
    forall|value: Option<Seq<char>>|
        (value matches Some(text) ==> sendable(text)) ==> !(#[trigger] option_wire(
            value,
        )).is_prefix_of(bytes)
}

/// The tag of a request.
pub open spec fn client_tag(message: ClientModel) -> u32 {
    match message {
        ClientModel::Get { .. } => TAG_GET,
        ClientModel::Put { .. } => TAG_PUT,
        ClientModel::Remove { .. } => TAG_REMOVE,
    }
}

/// The key of a request.
pub open spec fn client_key(message: ClientModel) -> Seq<char> {
    match message {
        ClientModel::Get { key } => key,
        ClientModel::Put { key, .. } => key,
        ClientModel::Remove { key } => key,
    }
}

/// The tag of a reply.
pub open spec fn server_tag(message: ServerModel) -> u32 {
    match message {
        ServerModel::Success { .. } => TAG_SUCCESS,
        ServerModel::Error { .. } => TAG_ERROR,
    }
}

/// Every string of a request can be sent.
pub open spec fn client_sendable(message: ClientModel) -> bool {
    match message {
        ClientModel::Get { key } => sendable(key),
        ClientModel::Put { key, value } => sendable(key) && sendable(value),
        ClientModel::Remove { key } => sendable(key),
    }
}

/// Every string of a reply can be sent.
pub open spec fn server_sendable(message: ServerModel) -> bool {
    match message {
        ServerModel::Success { value: Some(text) } => sendable(text),
        ServerModel::Success { value: None } => true,
        ServerModel::Error { message } => sendable(message),
    }
}

/// `bincode::ErrorKind`: what `bincode` reports when it fails. The library
/// carries such a value and never looks into it.
#[verifier::external_type_specification]
#[verifier::external_body]
pub struct ExBincodeErrorKind(bincode::ErrorKind);

/// No request that can be sent has its bytes at the front of `bytes`.
pub open spec fn starts_no_request(bytes: Seq<u8>) -> bool {
    forall|message: ClientModel|
        client_sendable(message) ==> !(#[trigger] client_wire(message)).is_prefix_of(bytes)
}

/// No reply that can be sent has its bytes at the front of `bytes`.
pub open spec fn starts_no_reply(bytes: Seq<u8>) -> bool {
    forall|message: ServerModel|
        server_sendable(message) ==> !(#[trigger] server_wire(message)).is_prefix_of(bytes)
}

/// Calls `bincode::serialize` on a `u32`, which writes to a vector without
/// a size limit and so gives bytes: the number's four bytes, least
/// significant first.
#[verifier::external_body]
fn write_u32(value: u32) -> (r: Result<Vec<u8>, Box<bincode::ErrorKind>>)
    ensures
        match r {
            Ok(bytes) => bytes@ == spec_u32_to_le_bytes(value),
            Err(_) => false,
        },
{
    bincode::serialize(&value)
}

/// Calls `bincode::serialize` on a string, which writes to a vector without
/// a size limit and so gives bytes: the length of the string's UTF-8 as
/// eight bytes, least significant first, and then the UTF-8.
#[verifier::external_body]
fn write_string(text: &str) -> (r: Result<Vec<u8>, Box<bincode::ErrorKind>>)
    ensures
        match r {
            Ok(bytes) => bytes@ == string_wire(text@),
            Err(_) => false,
        },
{
    bincode::serialize(text)
}

/// Calls `bincode::serialize` on a string that may be absent, which writes
/// to a vector without a size limit and so gives bytes: the byte 0 for none,
/// and the byte 1 and then the bytes of the string for one.
#[verifier::external_body]
fn write_option(value: &Option<String>) -> (r: Result<Vec<u8>, Box<bincode::ErrorKind>>)
    ensures
        match r {
            Ok(bytes) => bytes@ == option_wire(text_of(*value)),
            Err(_) => false,
        },
{
    bincode::serialize(value)
}

/// Calls `bincode::deserialize` for a `u32`, which reads the first four
/// bytes and leaves the rest alone: it gives the number whose bytes they
/// are, and fails where there are fewer than four.
#[verifier::external_body]
pub(crate) fn read_u32(bytes: &[u8]) -> (r: Result<u32, Box<bincode::ErrorKind>>)
    ensures
        match r {
            Ok(value) => spec_u32_to_le_bytes(value).is_prefix_of(bytes@),
            Err(_) => bytes@.len() < 4,
        },
{
    bincode::deserialize(bytes)
}

/// Calls `bincode::deserialize` for a `u64`, which reads the first eight
/// bytes and leaves the rest alone: it gives the number whose bytes they
/// are, and fails where there are fewer than eight.
#[verifier::external_body]
pub(crate) fn read_u64(bytes: &[u8]) -> (r: Result<u64, Box<bincode::ErrorKind>>)
    ensures
        match r {
            Ok(value) => spec_u64_to_le_bytes(value).is_prefix_of(bytes@),
            Err(_) => bytes@.len() < 8,
        },
{
    bincode::deserialize(bytes)
}

/// Calls `bincode::deserialize` for a `String`, which reads a length and
/// that many bytes of UTF-8 from the front and leaves the rest alone: it
/// gives the string whose bytes stand at the front, and fails where no
/// string's bytes do.
#[verifier::external_body]
fn read_string(bytes: &[u8]) -> (r: Result<String, Box<bincode::ErrorKind>>)
    ensures
        match r {
            Ok(text) => string_wire(text@).is_prefix_of(bytes@),
            Err(_) => starts_no_string(bytes@),
        },
{
    bincode::deserialize(bytes)
}

/// Calls `bincode::deserialize` for an `Option<String>`, which reads one
/// byte and, where it is 1, a string from the front and leaves the rest
/// alone: it gives the value whose bytes stand at the front, and fails where
/// no value's bytes do.
#[verifier::external_body]
fn read_option(bytes: &[u8]) -> (r: Result<Option<String>, Box<bincode::ErrorKind>>)
    ensures
        match r {
            Ok(value) => option_wire(text_of(value)).is_prefix_of(bytes@),
            Err(_) => starts_no_option(bytes@),
        },
{
    bincode::deserialize(bytes)
}

/// Bytes that start with `first + second` start with `first`, and go on
/// with `second`; and the other way round.
pub proof fn lemma_prefix_split(first: Seq<u8>, second: Seq<u8>, bytes: Seq<u8>)
    ensures
        (first + second).is_prefix_of(bytes) <==> first.is_prefix_of(bytes) && second.is_prefix_of(
            bytes.skip(first.len() as int),
        ),
{
    let both = first + second;
    let rest = bytes.skip(first.len() as int);
    if both.is_prefix_of(bytes) {
        assert(first =~= bytes.subrange(0, first.len() as int)) by {
            assert forall|i: int| 0 <= i < first.len() implies first[i] == bytes[i] by {
                assert(both[i] == first[i]);
                assert(bytes.subrange(0, both.len() as int)[i] == bytes[i]);
            }
        }
        assert(second =~= rest.subrange(0, second.len() as int)) by {
            assert forall|i: int| 0 <= i < second.len() implies second[i] == rest[i] by {
                assert(both[first.len() + i] == second[i]);
                assert(bytes.subrange(0, both.len() as int)[first.len() + i] == bytes[first.len()
                    + i]);
            }
        }
    }
    if first.is_prefix_of(bytes) && second.is_prefix_of(rest) {
        assert(both =~= bytes.subrange(0, both.len() as int)) by {
            assert forall|i: int| 0 <= i < both.len() implies both[i] == bytes[i] by {
                if i < first.len() {
                    assert(bytes.subrange(0, first.len() as int)[i] == bytes[i]);
                } else {
                    assert(rest.subrange(0, second.len() as int)[i - first.len()] == rest[i
                        - first.len()]);
                }
            }
        }
    }
}

/// Bytes start with the bytes of one tag only.
pub proof fn lemma_tag_unique(first: u32, second: u32, bytes: Seq<u8>)
    requires
        spec_u32_to_le_bytes(first).is_prefix_of(bytes),
        spec_u32_to_le_bytes(second).is_prefix_of(bytes),
    ensures
        first == second,
        spec_u32_to_le_bytes(first).len() == 4,
{
    lemma_auto_spec_u32_to_from_le_bytes();
    assert(spec_u32_to_le_bytes(first) =~= spec_u32_to_le_bytes(second));
}

/// The bytes of a string are eight more than its UTF-8.
pub proof fn lemma_string_wire_len(text: Seq<char>)
    ensures
        string_wire(text).len() == 8 + encode_utf8(text).len(),
{
    lemma_auto_spec_u64_to_from_le_bytes();
}

/// Bytes start with the bytes of one string only.
pub proof fn lemma_string_unique(first: Seq<char>, second: Seq<char>, bytes: Seq<u8>)
    requires
        sendable(first),
        sendable(second),
        string_wire(first).is_prefix_of(bytes),
        string_wire(second).is_prefix_of(bytes),
    ensures
        first == second,
{
    lemma_auto_spec_u64_to_from_le_bytes();
    let first_len = spec_u64_to_le_bytes(encode_utf8(first).len() as u64);
    let second_len = spec_u64_to_le_bytes(encode_utf8(second).len() as u64);
    lemma_prefix_split(first_len, encode_utf8(first), bytes);
    lemma_prefix_split(second_len, encode_utf8(second), bytes);
    assert(first_len =~= second_len);
    assert(encode_utf8(first).len() as u64 == encode_utf8(second).len() as u64);
    assert(encode_utf8(first) =~= encode_utf8(second));
    encode_utf8_decode_utf8(first);
    encode_utf8_decode_utf8(second);
}

/// Bytes start with the bytes of one string that may be absent only.
pub proof fn lemma_option_unique(
    first: Option<Seq<char>>,
    second: Option<Seq<char>>,
    bytes: Seq<u8>,
)
    requires
        first matches Some(text) ==> sendable(text),
        second matches Some(text) ==> sendable(text),
        option_wire(first).is_prefix_of(bytes),
        option_wire(second).is_prefix_of(bytes),
    ensures
        first == second,
{
    assert(option_wire(first)[0] == bytes[0]);
    assert(option_wire(second)[0] == bytes[0]);
    if first is Some && second is Some {
        lemma_prefix_split(seq![1u8], string_wire(first->0), bytes);
        lemma_prefix_split(seq![1u8], string_wire(second->0), bytes);
        lemma_string_unique(first->0, second->0, bytes.skip(1));
    }
}

/// Bytes start with the bytes of a request exactly when they start with its
/// tag and go on with its key, and for a `Put` with its value.
pub proof fn lemma_client_parts(message: ClientModel, bytes: Seq<u8>)
    ensures
        spec_u32_to_le_bytes(client_tag(message)).len() == 4,
        client_wire(message).is_prefix_of(bytes) <==> {
            &&& spec_u32_to_le_bytes(client_tag(message)).is_prefix_of(bytes)
            &&& string_wire(client_key(message)).is_prefix_of(bytes.skip(4))
            &&& message matches ClientModel::Put { value, .. } ==> string_wire(value).is_prefix_of(
                bytes.skip(4).skip(string_wire(client_key(message)).len() as int),
            )
        },
        client_wire(message).len() == 4 + string_wire(client_key(message)).len() + (match message {
            ClientModel::Put { value, .. } => string_wire(value).len(),
            _ => 0,
        }),
{
    lemma_auto_spec_u32_to_from_le_bytes();
    let tag = spec_u32_to_le_bytes(client_tag(message));
    let key = string_wire(client_key(message));
    match message {
        ClientModel::Put { value, .. } => {
            assert(client_wire(message) =~= tag + (key + string_wire(value)));
            lemma_prefix_split(tag, key + string_wire(value), bytes);
            lemma_prefix_split(key, string_wire(value), bytes.skip(4));
        },
        _ => {
            lemma_prefix_split(tag, key, bytes);
        },
    }
}

/// Bytes start with the bytes of a reply exactly when they start with its
/// tag and go on with its field.
pub proof fn lemma_server_parts(message: ServerModel, bytes: Seq<u8>)
    ensures
        spec_u32_to_le_bytes(server_tag(message)).len() == 4,
        server_wire(message).is_prefix_of(bytes) <==> {
            &&& spec_u32_to_le_bytes(server_tag(message)).is_prefix_of(bytes)
            &&& match message {
                ServerModel::Success { value } => option_wire(value).is_prefix_of(bytes.skip(4)),
                ServerModel::Error { message } => string_wire(message).is_prefix_of(bytes.skip(4)),
            }
        },
{
    lemma_auto_spec_u32_to_from_le_bytes();
    let tag = spec_u32_to_le_bytes(server_tag(message));
    match message {
        ServerModel::Success { value } => {
            lemma_prefix_split(tag, option_wire(value), bytes);
        },
        ServerModel::Error { message } => {
            lemma_prefix_split(tag, string_wire(message), bytes);
        },
    }
}

/// Bytes start with the bytes of one request only: where a request ends is
/// decided by its own bytes.
pub proof fn lemma_client_unique(first: ClientModel, second: ClientModel, bytes: Seq<u8>)
    requires
        client_sendable(first),
        client_sendable(second),
        client_wire(first).is_prefix_of(bytes),
        client_wire(second).is_prefix_of(bytes),
    ensures
        first == second,
{
    lemma_client_parts(first, bytes);
    lemma_client_parts(second, bytes);
    lemma_tag_unique(client_tag(first), client_tag(second), bytes);
    let rest = bytes.skip(4);
    lemma_string_unique(client_key(first), client_key(second), rest);
    if first is Put {
        lemma_string_unique(
            first->Put_value,
            second->Put_value,
            rest.skip(string_wire(client_key(first)).len() as int),
        );
    }
}

/// Bytes start with the bytes of one reply only.
pub proof fn lemma_server_unique(first: ServerModel, second: ServerModel, bytes: Seq<u8>)
    requires
        server_sendable(first),
        server_sendable(second),
        server_wire(first).is_prefix_of(bytes),
        server_wire(second).is_prefix_of(bytes),
    ensures
        first == second,
{
    lemma_server_parts(first, bytes);
    lemma_server_parts(second, bytes);
    lemma_tag_unique(server_tag(first), server_tag(second), bytes);
    match (first, second) {
        (ServerModel::Success { value: a }, ServerModel::Success { value: b }) => {
            lemma_option_unique(a, b, bytes.skip(4));
        },
        (ServerModel::Error { message: a }, ServerModel::Error { message: b }) => {
            lemma_string_unique(a, b, bytes.skip(4));
        },
        _ => {},
    }
}

/// A request reads back: bytes that start with the bytes of a request
/// start with the bytes of no other, whatever follows them.
pub proof fn law_client_round_trip(message: ClientModel, rest: Seq<u8>, read: ClientModel)
    requires
        client_sendable(message),
        client_sendable(read),
        client_wire(read).is_prefix_of(client_wire(message) + rest),
    ensures
        client_wire(message).is_prefix_of(client_wire(message) + rest),
        read == message,
{
    let bytes = client_wire(message) + rest;
    assert(client_wire(message) =~= bytes.subrange(0, client_wire(message).len() as int));
    lemma_client_unique(message, read, bytes);
}

/// A reply reads back: bytes that start with the bytes of a reply start
/// with the bytes of no other, whatever follows them.
pub proof fn law_server_round_trip(message: ServerModel, rest: Seq<u8>, read: ServerModel)
    requires
        server_sendable(message),
        server_sendable(read),
        server_wire(read).is_prefix_of(server_wire(message) + rest),
    ensures
        server_wire(message).is_prefix_of(server_wire(message) + rest),
        read == message,
{
    let bytes = server_wire(message) + rest;
    assert(server_wire(message) =~= bytes.subrange(0, server_wire(message).len() as int));
    lemma_server_unique(message, read, bytes);
}

/// The bytes that `bincode` gave, or `EncodeError`.
fn written(r: Result<Vec<u8>, Box<bincode::ErrorKind>>) -> (bytes: Result<Vec<u8>, CaveyError>)
    ensures
        match bytes {
            Ok(bytes) => r matches Ok(given) && bytes == given,
            Err(e) => r is Err && e == CaveyError::EncodeError,
        },
{
    match r {
        Ok(bytes) => Ok(bytes),
        Err(_) => Err(CaveyError::EncodeError),
    }
}

/// Writes a request: the result is the bytes of the request.
pub fn encode_client(message: &ClientMessage) -> (r: Result<Vec<u8>, CaveyError>)
    ensures
        r matches Ok(bytes) && bytes@ == client_wire(message@),
{
    let (tag, key, value) = match message {
        ClientMessage::Get { key } => (TAG_GET, key, None),
        ClientMessage::Put { key, value } => (TAG_PUT, key, Some(value)),
        ClientMessage::Remove { key } => (TAG_REMOVE, key, None),
    };
    let mut bytes = written(write_u32(tag))?;
    let key_bytes = written(write_string(key.as_str()))?;
    append_bytes(&mut bytes, key_bytes.as_slice());
    match value {
        Some(value) => {
            let value_bytes = written(write_string(value.as_str()))?;
            append_bytes(&mut bytes, value_bytes.as_slice());
        },
        None => {},
    }
    Ok(bytes)
}

/// Writes a reply: the result is the bytes of the reply.
pub fn encode_server(message: &ServerMessage) -> (r: Result<Vec<u8>, CaveyError>)
    ensures
        r matches Ok(bytes) && bytes@ == server_wire(message@),
{
    match message {
        ServerMessage::Success { value } => {
            let mut bytes = written(write_u32(TAG_SUCCESS))?;
            let value_bytes = written(write_option(value))?;
            append_bytes(&mut bytes, value_bytes.as_slice());
            Ok(bytes)
        },
        ServerMessage::Error { message } => {
            let mut bytes = written(write_u32(TAG_ERROR))?;
            let text_bytes = written(write_string(message.as_str()))?;
            append_bytes(&mut bytes, text_bytes.as_slice());
            Ok(bytes)
        },
    }
}

/// Reads the string whose bytes start at `at`, and gives it with the
/// position after it.
fn take_string(bytes: &[u8], at: usize) -> (r: Option<(String, usize)>)
    requires
        at <= bytes@.len(),
    ensures
        match r {
            Some((text, end)) => {
                &&& sendable(text@)
                &&& string_wire(text@).is_prefix_of(bytes@.skip(at as int))
                &&& end == at + string_wire(text@).len()
                &&& end <= bytes@.len()
            },
            None => starts_no_string(bytes@.skip(at as int)),
        },
{
    let rest = slice_subrange(bytes, at, bytes.len());
    assert(rest@ =~= bytes@.skip(at as int));
    match read_string(rest) {
        Ok(text) => {
            proof {
                lemma_string_wire_len(text@);
            }
            let end = at + 8 + text.as_str().len();
            Some((text, end))
        },
        Err(_) => None,
    }
}

/// Reads the request at the front of `bytes`, and gives it with the number
/// of bytes it takes. Bytes after the request are left alone. Fails where
/// no request's bytes stand at the front.
pub fn decode_client(bytes: &[u8]) -> (r: Result<(ClientMessage, usize), CaveyError>)
    ensures
        match r {
            Ok((message, used)) => {
                &&& client_sendable(message@)
                &&& client_wire(message@).is_prefix_of(bytes@)
                &&& used == client_wire(message@).len()
            },
            Err(e) => e == CaveyError::DecodeError && starts_no_request(bytes@),
        },
{
    let tag = match read_u32(bytes) {
        Ok(tag) => tag,
        Err(_) => {
            assert forall|message: ClientModel| client_sendable(message) implies !(
            #[trigger] client_wire(message)).is_prefix_of(bytes@) by {
                lemma_client_parts(message, bytes@);
            }
            return Err(CaveyError::DecodeError);
        },
    };
    proof {
        lemma_tag_unique(tag, tag, bytes@);
    }
    let found = if tag <= TAG_REMOVE {
        take_string(bytes, 4)
    } else {
        None
    };
    let (key, end) = match found {
        Some(found) => found,
        None => {
            assert forall|message: ClientModel| client_sendable(message) implies !(
            #[trigger] client_wire(message)).is_prefix_of(bytes@) by {
                lemma_client_parts(message, bytes@);
                if client_wire(message).is_prefix_of(bytes@) {
                    lemma_tag_unique(tag, client_tag(message), bytes@);
                }
            }
            return Err(CaveyError::DecodeError);
        },
    };
    if tag == TAG_PUT {
        assert(bytes@.skip(4).skip(string_wire(key@).len() as int) =~= bytes@.skip(end as int));
        match take_string(bytes, end) {
            Some((value, after)) => {
                let message = ClientMessage::Put { key, value };
                proof {
                    lemma_client_parts(message@, bytes@);
                }
                Ok((message, after))
            },
            None => {
                assert forall|message: ClientModel| client_sendable(message) implies !(
                #[trigger] client_wire(message)).is_prefix_of(bytes@) by {
                    lemma_client_parts(message, bytes@);
                    if client_wire(message).is_prefix_of(bytes@) {
                        lemma_tag_unique(tag, client_tag(message), bytes@);
                        lemma_string_unique(key@, client_key(message), bytes@.skip(4));
                    }
                }
                Err(CaveyError::DecodeError)
            },
        }
    } else {
        let message = if tag == TAG_GET {
            ClientMessage::Get { key }
        } else {
            ClientMessage::Remove { key }
        };
        proof {
            lemma_client_parts(message@, bytes@);
        }
        Ok((message, end))
    }
}

/// Reads the reply at the front of `bytes`, and gives it with the number of
/// bytes it takes. Bytes after the reply are left alone. Fails where no
/// reply's bytes stand at the front.
pub fn decode_server(bytes: &[u8]) -> (r: Result<(ServerMessage, usize), CaveyError>)
    ensures
        match r {
            Ok((message, used)) => {
                &&& server_sendable(message@)
                &&& server_wire(message@).is_prefix_of(bytes@)
                &&& used == server_wire(message@).len()
            },
            Err(e) => e == CaveyError::DecodeError && starts_no_reply(bytes@),
        },
{
    let tag = match read_u32(bytes) {
        Ok(tag) => tag,
        Err(_) => {
            assert forall|message: ServerModel| server_sendable(message) implies !(
            #[trigger] server_wire(message)).is_prefix_of(bytes@) by {
                lemma_server_parts(message, bytes@);
            }
            return Err(CaveyError::DecodeError);
        },
    };
    proof {
        lemma_tag_unique(tag, tag, bytes@);
    }
    if tag == TAG_SUCCESS {
        let rest = slice_subrange(bytes, 4, bytes.len());
        assert(rest@ =~= bytes@.skip(4));
        match read_option(rest) {
            Ok(value) => {
                proof {
                    if value is Some {
                        lemma_string_wire_len(value->0@);
                        lemma_prefix_split(seq![1u8], string_wire(value->0@), rest@);
                    }
                }
                let used = match &value {
                    Some(text) => 4 + 1 + 8 + text.as_str().len(),
                    None => 4 + 1,
                };
                let message = ServerMessage::Success { value };
                proof {
                    lemma_server_parts(message@, bytes@);
                }
                Ok((message, used))
            },
            Err(_) => {
                assert forall|message: ServerModel| server_sendable(message) implies !(
                #[trigger] server_wire(message)).is_prefix_of(bytes@) by {
                    lemma_server_parts(message, bytes@);
                    if server_wire(message).is_prefix_of(bytes@) {
                        lemma_tag_unique(tag, server_tag(message), bytes@);
                    }
                }
                Err(CaveyError::DecodeError)
            },
        }
    } else if tag == TAG_ERROR {
        match take_string(bytes, 4) {
            Some((text, end)) => {
                let message = ServerMessage::Error { message: text };
                proof {
                    lemma_server_parts(message@, bytes@);
                }
                Ok((message, end))
            },
            None => {
                assert forall|message: ServerModel| server_sendable(message) implies !(
                #[trigger] server_wire(message)).is_prefix_of(bytes@) by {
                    lemma_server_parts(message, bytes@);
                    if server_wire(message).is_prefix_of(bytes@) {
                        lemma_tag_unique(tag, server_tag(message), bytes@);
                    }
                }
                Err(CaveyError::DecodeError)
            },
        }
    } else {
        assert forall|message: ServerModel| server_sendable(message) implies !(
        #[trigger] server_wire(message)).is_prefix_of(bytes@) by {
            lemma_server_parts(message, bytes@);
            if server_wire(message).is_prefix_of(bytes@) {
                lemma_tag_unique(tag, server_tag(message), bytes@);
            }
        }
        Err(CaveyError::DecodeError)
    }
}

} // verus!
