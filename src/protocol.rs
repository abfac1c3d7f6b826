use vstd::prelude::*;
use vstd::string::StringExecFns;

use crate::message_sample::{decimal, decimal_string};
use crate::update::ServerEntity;

verus! {

/// UDP port the server listens on.
pub const PORT: u16 = 42069;

/// Version of the session-level messages.
pub const SERVER_MESSAGE_PROTOCOL: u64 = 1;

/// Version of the entity update messages.
pub const ENTITY_UPDATE_PROTOCOL: u64 = 1;

/// The hash `std`'s `DefaultHasher::new()` gives after hashing the string `s`.
pub uninterp spec fn default_str_hash_of(s: Seq<char>) -> u64;

/// Relies on `std::hash::Hash` for `str` with `DefaultHasher::new()`, which starts from fixed
/// keys: the hash depends on the characters alone.
#[verifier::external_body]
fn hash_str(s: &str) -> (r: u64)
    ensures
        r == default_str_hash_of(s@),
{
    let mut hasher = std::collections::hash_map::DefaultHasher::new();
    std::hash::Hash::hash(s, &mut hasher);
    std::hash::Hasher::finish(&hasher)
}

/// The text the protocol id is the hash of: both message versions.
pub open spec fn protocol_text() -> Seq<char> {
    "server:"@ + decimal(SERVER_MESSAGE_PROTOCOL as nat) + ";entity:"@ + decimal(ENTITY_UPDATE_PROTOCOL as nat) + ";"@
}

/// Identifier of the wire protocol: client and server refuse each other when theirs differ.
pub fn protocol_id() -> (r: u64)
    ensures
        r == default_str_hash_of(protocol_text()),
{
    let mut text = String::from_str("server:");
    let server = decimal_string(SERVER_MESSAGE_PROTOCOL);
    text.append(server.as_str());
    text.append(";entity:");
    let entity = decimal_string(ENTITY_UPDATE_PROTOCOL);
    text.append(entity.as_str());
    text.append(";");
    hash_str(text.as_str())
}

/// Channels from server to client.
#[derive(Debug, Clone, Copy, PartialEq, Eq, Structural, Hash)]
pub enum ServerChannel {
    Message,
    EntityUpdate,
}

impl ServerChannel {
    pub fn id(&self) -> (r: u8)
        ensures
            *self == ServerChannel::Message ==> r == 0,
            *self == ServerChannel::EntityUpdate ==> r == 1,
    {
        match self {
            ServerChannel::Message => 0,
            ServerChannel::EntityUpdate => 1,
        }
    }
}

/// Channels from client to server.
#[derive(Debug, Clone, Copy, PartialEq, Eq, Structural, Hash)]
pub enum ClientChannel {
    Input,
}

impl ClientChannel {
    pub fn id(&self) -> (r: u8)
        ensures
            r == 0,
    {
        match self {
            ClientChannel::Input => 0,
        }
    }
}

/// Session-level messages from the server.
#[derive(Debug, Clone, Copy, PartialEq, Eq, Structural)]
pub enum ServerMessage {
    SetPlayer { id: u64, entity: ServerEntity },
    AssignOwnership { entity: ServerEntity },
    PlayerConnected { id: u64, entity: ServerEntity },
    PlayerDisconnected { id: u64 },
}

} // verus!
