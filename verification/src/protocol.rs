//! The messages that a client and a server exchange.
use vstd::prelude::*;
use crate::engine::text_of;

verus! {

/// A request.
#[derive(Debug, Clone, Eq)]
pub enum ClientMessage {
    Get { key: String },
    Put { key: String, value: String },
    Remove { key: String },
}

/// What a request says, with its strings as sequences of characters.
pub enum ClientModel {
    Get { key: Seq<char> },
    Put { key: Seq<char>, value: Seq<char> },
    Remove { key: Seq<char> },
}

/// A reply.
#[derive(Debug, Clone, Eq)]
pub enum ServerMessage {
    /// The request was carried out; a `Get` that found a value brings it.
    Success { value: Option<String> },
    /// The request failed, for the reason given.
    Error { message: String },
}

/// What a reply says, with its strings as sequences of characters.
pub enum ServerModel {
    Success { value: Option<Seq<char>> },
    Error { message: Seq<char> },
}

impl View for ClientMessage {
    type V = ClientModel;

    open spec fn view(&self) -> ClientModel {
        match self {
            ClientMessage::Get { key } => ClientModel::Get { key: key@ },
            ClientMessage::Put { key, value } => ClientModel::Put { key: key@, value: value@ },
            ClientMessage::Remove { key } => ClientModel::Remove { key: key@ },
        }
    }
}

impl View for ServerMessage {
    type V = ServerModel;

    open spec fn view(&self) -> ServerModel {
        match self {
            ServerMessage::Success { value } => ServerModel::Success { value: text_of(*value) },
            ServerMessage::Error { message } => ServerModel::Error { message: message@ },
        }
    }
}

impl PartialEq for ClientMessage {
    /// Two requests are equal when they say the same.
    fn eq(&self, other: &ClientMessage) -> (r: bool) {
        match (self, other) {
            (ClientMessage::Get { key }, ClientMessage::Get { key: k }) => *key == *k,
            (ClientMessage::Put { key, value }, ClientMessage::Put { key: k, value: v }) => *key
                == *k && *value == *v,
            (ClientMessage::Remove { key }, ClientMessage::Remove { key: k }) => *key == *k,
            _ => false,
        }
    }
}

impl vstd::std_specs::cmp::PartialEqSpecImpl for ClientMessage {
    open spec fn obeys_eq_spec() -> bool {
        true
    }

    open spec fn eq_spec(&self, other: &ClientMessage) -> bool {
        self@ == other@
    }
}

impl PartialEq for ServerMessage {
    /// Two replies are equal when they say the same.
    fn eq(&self, other: &ServerMessage) -> (r: bool) {
        match (self, other) {
            (ServerMessage::Success { value }, ServerMessage::Success { value: v }) => match (
                value,
                v,
            ) {
                (Some(a), Some(b)) => *a == *b,
                (None, None) => true,
                _ => false,
            },
            (ServerMessage::Error { message }, ServerMessage::Error { message: m }) => *message
                == *m,
            _ => false,
        }
    }
}

impl vstd::std_specs::cmp::PartialEqSpecImpl for ServerMessage {
    open spec fn obeys_eq_spec() -> bool {
        true
    }

    open spec fn eq_spec(&self, other: &ServerMessage) -> bool {
        self@ == other@
    }
}

} // verus!
