//! The client's side of an exchange: what a reply means to the caller.
use vstd::prelude::*;
use crate::engine::text_of;
use crate::error::CaveyError;
use crate::protocol::ServerMessage;

verus! {

/// What the reply to a `Get` means: the value it brings, or the failure
/// that the server reported.
pub fn receive_value(reply: ServerMessage) -> (r: Result<Option<String>, CaveyError>)
    ensures
        match reply {
            ServerMessage::Success { value } => r matches Ok(found) && text_of(found) == text_of(
                value,
            ),
            ServerMessage::Error { message } => r matches Err(CaveyError::Remote(text)) && text@
                == message@,
        },
{
    match reply {
        ServerMessage::Success { value } => Ok(value),
        ServerMessage::Error { message } => Err(CaveyError::Remote(message)),
    }
}

/// What the reply to a `Put` or a `Remove` means: success where it brings
/// no value, `UnexpectedResponse` with the value where it brings one, or the
/// failure that the server reported.
pub fn receive_empty(reply: ServerMessage) -> (r: Result<(), CaveyError>)
    ensures
        match reply {
            ServerMessage::Success { value: None } => r is Ok,
            ServerMessage::Success { value: Some(value) } => r matches Err(
                CaveyError::UnexpectedResponse(text),
            ) && text@ == value@,
            ServerMessage::Error { message } => r matches Err(CaveyError::Remote(text)) && text@
                == message@,
        },
{
    match reply {
        ServerMessage::Success { value: None } => Ok(()),
        ServerMessage::Success { value: Some(value) } => Err(CaveyError::UnexpectedResponse(value)),
        ServerMessage::Error { message } => Err(CaveyError::Remote(message)),
    }
}

} // verus!
