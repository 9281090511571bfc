//! The connection handler: one request in, one reply out.
use vstd::prelude::*;
use crate::engine::{lookup, text_of, CaveyEngine};
use crate::error::CaveyError;
use crate::protocol::{ClientMessage, ClientModel, ServerMessage, ServerModel};
use crate::wire::{
    client_sendable, client_wire, decode_client, encode_server, server_wire, starts_no_request,
};

verus! {

/// The reply to a `Get`, given what the engine answered: the value it found
/// or the description of its failure.
pub open spec fn get_reply(result: Result<Option<String>, CaveyError>) -> ServerModel {
    match result {
        Ok(found) => ServerModel::Success { value: text_of(found) },
        Err(e) => ServerModel::Error { message: e.message_spec() },
    }
}

/// The reply to a `Put` or a `Remove`, given what the engine answered:
/// success without a value or the description of its failure.
pub open spec fn write_reply(result: Result<(), CaveyError>) -> ServerModel {
    match result {
        Ok(()) => ServerModel::Success { value: None },
        Err(e) => ServerModel::Error { message: e.message_spec() },
    }
}

/// Makes the reply to a `Get` from the engine's answer.
pub fn reply_to_get(result: Result<Option<String>, CaveyError>) -> (reply: ServerMessage)
    ensures
        reply@ == get_reply(result),
{
    match result {
        Ok(value) => ServerMessage::Success { value },
        Err(e) => ServerMessage::Error { message: e.message() },
    }
}

/// Makes the reply to a `Put` or a `Remove` from the engine's answer.
pub fn reply_to_write(result: Result<(), CaveyError>) -> (reply: ServerMessage)
    ensures
        reply@ == write_reply(result),
{
    match result {
        Ok(()) => ServerMessage::Success { value: None },
        Err(e) => ServerMessage::Error { message: e.message() },
    }
}

/// What a reply to a request says of the engine's map before and after the
/// request.
///
/// A `Success` to a `Get` brings the value that the map gave, and none where
/// it gave none. A `Success` to a `Put` or a `Remove` brings no value, and
/// the map has changed as the request asks; a `Remove` of a key without a
/// value gets no `Success`. A `Get` and a failed `Remove` of such a key leave
/// the map as it was.
pub open spec fn answers(
    request: ClientModel,
    before: Map<Seq<char>, Seq<char>>,
    after: Map<Seq<char>, Seq<char>>,
    reply: ServerModel,
) -> bool {
    match request {
        ClientModel::Get { key } => {
            &&& after == before
            &&& reply matches ServerModel::Success { value } ==> value == lookup(before, key)
        },
        ClientModel::Put { key, value } => {
            reply matches ServerModel::Success { value: brought } ==> brought is None && after
                == before.insert(key, value)
        },
        ClientModel::Remove { key } => {
            &&& reply matches ServerModel::Success { value: brought } ==> brought is None
                && before.contains_key(key) && after == before.remove(key)
            &&& !before.contains_key(key) ==> reply is Error && after == before
        },
    }
}

/// Carries out a request on an engine by its `get`, `put` or `remove`, and
/// makes the reply from the answer: an `Error` with its description if it failed.
pub fn handle_message<E: CaveyEngine>(engine: &mut E, request: ClientMessage) -> (reply:
    ServerMessage)
    requires
        old(engine).valid(),
    ensures
        final(engine).valid(),
        answers(request@, old(engine).contents(), final(engine).contents(), reply@),
        serves(request@, old(engine), final(engine), reply@),
{
    match request {
        ClientMessage::Get { key } => {
            let result = engine.get(key);
            let ghost answer = result;
            let reply = reply_to_get(result);
            assert(old(engine).gets(key@, engine, answer) && reply@ == get_reply(answer));
            reply
        },
        ClientMessage::Put { key, value } => {
            let result = engine.put(key, value);
            let ghost answer = result;
            let reply = reply_to_write(result);
            assert(old(engine).puts(key@, value@, engine, answer) && reply@ == write_reply(answer));
            reply
        },
        ClientMessage::Remove { key } => {
            let result = engine.remove(key);
            let ghost answer = result;
            let reply = reply_to_write(result);
            assert(old(engine).removes(key@, engine, answer) && reply@ == write_reply(answer));
            reply
        },
    }
}

/// The reply to a `Get` of `key` is made from an answer that the engine's
/// `get` may give to that key between `before` and `after`.
pub open spec fn serves_get<E: CaveyEngine>(
    key: Seq<char>,
    before: &E,
    after: &E,
    reply: ServerModel,
) -> bool {
    exists|r: Result<Option<String>, CaveyError>|
        #![trigger before.gets(key, after, r)]
        before.gets(key, after, r) && reply == get_reply(r)
}

/// The reply to a `Put` of `value` for `key` is made from an answer that
/// the engine's `put` may give to them between `before` and `after`.
pub open spec fn serves_put<E: CaveyEngine>(
    key: Seq<char>,
    value: Seq<char>,
    before: &E,
    after: &E,
    reply: ServerModel,
) -> bool {
    exists|r: Result<(), CaveyError>|
        #![trigger before.puts(key, value, after, r)]
        before.puts(key, value, after, r) && reply == write_reply(r)
}

/// The reply to a `Remove` of `key` is made from an answer that the
/// engine's `remove` may give to that key between `before` and `after`.
pub open spec fn serves_remove<E: CaveyEngine>(
    key: Seq<char>,
    before: &E,
    after: &E,
    reply: ServerModel,
) -> bool {
    exists|r: Result<(), CaveyError>|
        #![trigger before.removes(key, after, r)]
        before.removes(key, after, r) && reply == write_reply(r)
}

/// A request was carried out on an engine and the reply made from what the
/// engine answered.
///
/// `before` and `after` are the engine before and after the request. There
/// is an answer that the engine's own operation may give to the request's key
/// and value between the two, and the reply is the reply to that answer: a
/// `Success` with what a `Get` found, a `Success` without a value for a `Put`
/// or a `Remove` that went well, and an `Error` with the description of the
/// failure else.
pub open spec fn serves<E: CaveyEngine>(
    request: ClientModel,
    before: &E,
    after: &E,
    reply: ServerModel,
) -> bool {
    match request {
        ClientModel::Get { key } => serves_get(key, before, after, reply),
        ClientModel::Put { key, value } => serves_put(key, value, before, after, reply),
        ClientModel::Remove { key } => serves_remove(key, before, after, reply),
    }
}

/// Serves one connection: reads the request at the front of the bytes that
/// came in, carries it out, and writes the reply.
///
/// Fails with `DecodeError`, and leaves the engine alone, where no request
/// stands at the front of the bytes.
pub fn handle_connection<E: CaveyEngine>(engine: &mut E, incoming: &[u8]) -> (r: Result<
    Vec<u8>,
    CaveyError,
>)
    requires
        old(engine).valid(),
    ensures
        final(engine).valid(),
        match r {
            Ok(outgoing) => exists|request: ClientModel, reply: ServerModel|
                {
                    &&& client_sendable(request)
                    &&& #[trigger] client_wire(request).is_prefix_of(incoming@)
                    &&& outgoing@ == #[trigger] server_wire(reply)
                    &&& answers(request, old(engine).contents(), final(engine).contents(), reply)
                    &&& serves(request, old(engine), final(engine), reply)
                },
            Err(e) => {
                &&& e == CaveyError::DecodeError
                &&& final(engine).contents() == old(engine).contents()
                &&& starts_no_request(incoming@)
            },
        },
{
    let (request, _) = match decode_client(incoming) {
        Ok(decoded) => decoded,
        Err(e) => {
            return Err(e);
        },
    };
    let ghost asked = request@;
    let reply = handle_message(engine, request);
    match encode_server(&reply) {
        Ok(outgoing) => {
            assert(client_wire(asked).is_prefix_of(incoming@) && outgoing@ == server_wire(reply@));
            Ok(outgoing)
        },
        Err(e) => Err(e),
    }
}

} // verus!
