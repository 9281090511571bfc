//! How many bytes of a message are still to come.
//!
//! A message on a byte stream ends where its own bytes say. A reader that
//! asks these functions how many bytes to read next, reads exactly that
//! many, and asks again, ends with exactly the bytes of one message.
use vstd::prelude::*;
use vstd::bytes::{
    lemma_auto_spec_u32_to_from_le_bytes, lemma_auto_spec_u64_to_from_le_bytes,
    spec_u32_from_le_bytes, spec_u32_to_le_bytes, spec_u64_from_le_bytes, spec_u64_to_le_bytes,
};
use vstd::slice::slice_subrange;
use vstd::utf8::encode_utf8;
use crate::protocol::{ClientModel, ServerModel};
use crate::wire::{
    client_key, client_sendable, client_tag, client_wire, lemma_client_parts, lemma_prefix_split,
    lemma_server_parts, lemma_string_wire_len, option_wire, read_u32, read_u64, sendable,
    server_sendable, server_tag, server_wire, string_wire, TAG_ERROR, TAG_PUT, TAG_REMOVE,
    TAG_SUCCESS,
};

verus! {

/// The number of bytes to hold before the string that starts at `at` can be
/// told to be complete: the eight bytes of its length, and once they are
/// there, also as many as they say.
pub open spec fn string_target(bytes: Seq<u8>, at: int) -> int {
    if bytes.len() < at + 8 {
        at + 8
    } else {
        at + 8 + spec_u64_from_le_bytes(bytes.subrange(at, at + 8))
    }
}

/// The number of bytes to hold before a request can be told to be
/// complete, as far as the bytes at hand say; none where they are the start
/// of no request.
pub open spec fn client_target(bytes: Seq<u8>) -> Option<int> {
    if bytes.len() < 4 {
        Some(4)
    } else {
        let tag = spec_u32_from_le_bytes(bytes.subrange(0, 4));
        let key_end = string_target(bytes, 4);
        if tag > TAG_REMOVE {
            None
        } else if tag != TAG_PUT || bytes.len() < key_end {
            Some(key_end)
        } else {
            Some(string_target(bytes, key_end))
        }
    }
}

/// The number of bytes to hold before a reply can be told to be complete,
/// as far as the bytes at hand say; none where they are the start of no
/// reply.
pub open spec fn server_target(bytes: Seq<u8>) -> Option<int> {
    if bytes.len() < 4 {
        Some(4)
    } else {
        let tag = spec_u32_from_le_bytes(bytes.subrange(0, 4));
        if tag == TAG_ERROR {
            Some(string_target(bytes, 4))
        } else if tag != TAG_SUCCESS {
            None
        } else if bytes.len() < 5 {
            Some(5)
        } else if bytes[4] == 0 {
            Some(5)
        } else if bytes[4] == 1 {
            Some(string_target(bytes, 5))
        } else {
            None
        }
    }
}

/// The number of bytes to read next: what is missing to the target, and
/// nothing where there is no target, where it is reached, or where it is
/// more than can be held.
pub open spec fn need_of(target: Option<int>, held: nat) -> nat {
    match target {
        Some(target) => if held < target <= usize::MAX {
            (target - held) as nat
        } else {
            0
        },
        None => 0,
    }
}

/// The target of the string at `at`, or none where it is more than can be
/// held.
fn string_end(bytes: &[u8], at: usize) -> (r: Option<usize>)
    requires
        at <= bytes@.len(),
    ensures
        match r {
            Some(end) => end == string_target(bytes@, at as int),
            None => string_target(bytes@, at as int) > usize::MAX,
        },
{
    if at > usize::MAX - 8 {
        return None;
    }
    if bytes.len() < at + 8 {
        return Some(at + 8);
    }
    let field = slice_subrange(bytes, at, at + 8);
    assert(field@ =~= bytes@.subrange(at as int, at + 8));
    match read_u64(field) {
        Ok(length) => {
            proof {
                lemma_auto_spec_u64_to_from_le_bytes();
                assert(spec_u64_to_le_bytes(length) =~= field@);
            }
            if length > (usize::MAX - at - 8) as u64 {
                None
            } else {
                Some(at + 8 + length as usize)
            }
        },
        Err(_) => None,
    }
}

/// What is missing to `target`.
fn missing(target: Option<usize>, held: usize) -> (r: usize)
    ensures
        r == match target {
            Some(target) => need_of(Some(target as int), held as nat),
            None => 0,
        },
{
    match target {
        Some(target) => if held < target {
            target - held
        } else {
            0
        },
        None => 0,
    }
}

/// The number of bytes to read next, given the bytes of a request that
/// were read so far. Zero says to read no more: the request is complete, or
/// the bytes are the start of none.
pub fn client_need(bytes: &[u8]) -> (r: usize)
    ensures
        r == need_of(client_target(bytes@), bytes@.len()),
{
    if bytes.len() < 4 {
        return 4 - bytes.len();
    }
    let tag = match read_u32(bytes) {
        Ok(tag) => tag,
        Err(_) => {
            return 0;
        },
    };
    proof {
        lemma_auto_spec_u32_to_from_le_bytes();
        assert(spec_u32_to_le_bytes(tag) =~= bytes@.subrange(0, 4));
    }
    if tag > TAG_REMOVE {
        return 0;
    }
    let key_end = match string_end(bytes, 4) {
        Some(end) => end,
        None => {
            assert(string_target(bytes@, string_target(bytes@, 4)) > usize::MAX) by {
                lemma_string_target(bytes@, string_target(bytes@, 4));
            }
            return 0;
        },
    };
    if tag != TAG_PUT || bytes.len() < key_end {
        return missing(Some(key_end), bytes.len());
    }
    missing(string_end(bytes, key_end), bytes.len())
}

/// The number of bytes to read next, given the bytes of a reply that were
/// read so far. Zero says to read no more: the reply is complete, or the
/// bytes are the start of none.
pub fn server_need(bytes: &[u8]) -> (r: usize)
    ensures
        r == need_of(server_target(bytes@), bytes@.len()),
{
    if bytes.len() < 4 {
        return 4 - bytes.len();
    }
    let tag = match read_u32(bytes) {
        Ok(tag) => tag,
        Err(_) => {
            return 0;
        },
    };
    proof {
        lemma_auto_spec_u32_to_from_le_bytes();
        assert(spec_u32_to_le_bytes(tag) =~= bytes@.subrange(0, 4));
    }
    if tag == TAG_ERROR {
        missing(string_end(bytes, 4), bytes.len())
    } else if tag != TAG_SUCCESS {
        0
    } else if bytes.len() < 5 {
        1
    } else if bytes[4] == 0 {
        0
    } else if bytes[4] == 1 {
        missing(string_end(bytes, 5), bytes.len())
    } else {
        0
    }
}

/// The target of a string lies at least eight bytes after its start.
pub proof fn lemma_string_target(bytes: Seq<u8>, at: int)
    ensures
        string_target(bytes, at) >= at + 8,
{
}

/// The target of a string whose bytes start at `at`, given the first
/// `held` bytes of what holds it: past what is held while the string is
/// incomplete, and never past the string's end.
pub proof fn lemma_string_progress(bytes: Seq<u8>, at: int, text: Seq<char>, held: int)
    requires
        sendable(text),
        0 <= at <= held <= bytes.len(),
        string_wire(text).is_prefix_of(bytes.skip(at)),
    ensures
        ({
            let end = at + string_wire(text).len();
            let target = string_target(bytes.subrange(0, held), at);
            &&& end <= bytes.len()
            &&& held < end ==> held < target <= end
            &&& held >= end ==> target == end
        }),
{
    lemma_auto_spec_u64_to_from_le_bytes();
    lemma_string_wire_len(text);
    let length = spec_u64_to_le_bytes(encode_utf8(text).len() as u64);
    lemma_prefix_split(length, encode_utf8(text), bytes.skip(at));
    if held >= at + 8 {
        assert(bytes.subrange(0, held).subrange(at, at + 8) =~= length);
    }
}

/// Reading a request never stalls and never overruns: while the bytes
/// held are a proper part of a request's bytes, more are needed, and no more
/// than the request has; once they are all held, none are.
pub proof fn law_client_framing(message: ClientModel, held: int)
    requires
        client_sendable(message),
        0 <= held <= client_wire(message).len(),
    ensures
        ({
            let wire = client_wire(message);
            let target = client_target(wire.subrange(0, held));
            &&& target is Some
            &&& held < wire.len() ==> held < target->0 <= wire.len()
            &&& held == wire.len() ==> target->0 == wire.len()
        }),
{
    lemma_auto_spec_u32_to_from_le_bytes();
    let wire = client_wire(message);
    let part = wire.subrange(0, held);
    assert(wire.is_prefix_of(wire)) by {
        assert(wire.subrange(0, wire.len() as int) =~= wire);
    }
    lemma_client_parts(message, wire);
    let key = client_key(message);
    lemma_string_wire_len(key);
    if held >= 4 {
        assert(part.subrange(0, 4) =~= spec_u32_to_le_bytes(client_tag(message)));
        assert(wire.skip(4) =~= wire.skip(4));
        lemma_string_progress(wire, 4, key, held);
        let key_end = 4 + string_wire(key).len();
        if message is Put && held >= key_end {
            assert(wire.skip(4).skip(string_wire(key).len() as int) =~= wire.skip(key_end as int));
            lemma_string_progress(wire, key_end as int, message->Put_value, held);
        }
    }
}

/// Reading a reply never stalls and never overruns: while the bytes held
/// are a proper part of a reply's bytes, more are needed, and no more than
/// the reply has; once they are all held, none are.
pub proof fn law_server_framing(message: ServerModel, held: int)
    requires
        server_sendable(message),
        0 <= held <= server_wire(message).len(),
    ensures
        ({
            let wire = server_wire(message);
            let target = server_target(wire.subrange(0, held));
            &&& target is Some
            &&& held < wire.len() ==> held < target->0 <= wire.len()
            &&& held == wire.len() ==> target->0 == wire.len()
        }),
{
    lemma_auto_spec_u32_to_from_le_bytes();
    let wire = server_wire(message);
    let part = wire.subrange(0, held);
    assert(wire.is_prefix_of(wire)) by {
        assert(wire.subrange(0, wire.len() as int) =~= wire);
    }
    lemma_server_parts(message, wire);
    if held >= 4 {
        assert(part.subrange(0, 4) =~= spec_u32_to_le_bytes(server_tag(message)));
        match message {
            ServerModel::Error { message: text } => {
                lemma_string_wire_len(text);
                lemma_string_progress(wire, 4, text, held);
            },
            ServerModel::Success { value: None } => {
                assert(option_wire(None::<Seq<char>>)[0] == wire.skip(4)[0]);
            },
            ServerModel::Success { value: Some(text) } => {
                assert(option_wire(Some(text))[0] == wire.skip(4)[0]);
                lemma_string_wire_len(text);
                lemma_prefix_split(seq![1u8], string_wire(text), wire.skip(4));
                assert(wire.skip(4).skip(1) =~= wire.skip(5));
                if held >= 5 {
                    lemma_string_progress(wire, 5, text, held);
                }
            },
        }
    }
}

} // verus!
