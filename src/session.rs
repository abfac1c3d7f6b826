use vstd::prelude::*;

verus! {

/// The last transport error reported, so that a repeat is not reported again.
pub struct PreviousRenetError(pub Option<String>);

impl PreviousRenetError {
    pub fn new() -> (r: PreviousRenetError)
        ensures
            r.0 is None,
    {
        PreviousRenetError(None)
    }

    /// Whether `err` is to be reported: it is, unless it repeats the last one reported.
    pub fn report(&mut self, err: String) -> (r: bool)
        ensures
            r == !(old(self).0 is Some && old(self).0.unwrap()@ == err@),
            r ==> final(self).0 is Some && final(self).0.unwrap()@ == err@,
            !r ==> final(self).0 == old(self).0,
    {
        let repeat = match &self.0 {
            Some(previous) => *previous == err,
            None => false,
        };
        if !repeat {
            self.0 = Some(err);
        }
        !repeat
    }
}

/// Marker: this process receives replication.
#[derive(Debug, Clone, Copy, PartialEq, Eq, Structural)]
pub struct Client;

/// Marker: this process receives inputs and sends replication.
#[derive(Debug, Clone, Copy, PartialEq, Eq, Structural)]
pub struct Server;

/// Marker: this process plays both sides, with no networking in between.
#[derive(Debug, Clone, Copy, PartialEq, Eq, Structural)]
pub struct Local;

/// The side of the session a process plays.
#[derive(Debug, Clone, Copy, PartialEq, Eq, Structural)]
pub enum Role {
    Client,
    Server,
}

/// The role from the markers the host set; acting locally counts as a client. `None` when
/// the markers name both sides or neither.
pub fn choose_role(local: bool, client: bool, server: bool) -> (r: Option<Role>)
    ensures
        local ==> r == Some(Role::Client),
        !local && client && !server ==> r == Some(Role::Client),
        !local && !client && server ==> r == Some(Role::Server),
        !local && client == server ==> r is None,
{
    if local {
        Some(Role::Client)
    } else if client && !server {
        Some(Role::Client)
    } else if server && !client {
        Some(Role::Server)
    } else {
        None
    }
}

/// What to drop when the connection may have gone.
#[derive(Debug, Clone, Copy, PartialEq, Eq, Structural)]
pub enum DisconnectAction {
    /// Nothing went.
    Keep,
    /// The client lost the server: drop the client transport and the tick.
    DropClient,
    /// The server transport is gone: drop the tick.
    DropTick,
}

/// The reaction to the transport state: `client_disconnected` is `None` without a client
/// transport, else whether it reports a disconnect.
pub fn on_disconnect(local: bool, client_disconnected: Option<bool>, has_server: bool, has_tick: bool) -> (r:
    DisconnectAction)
    ensures
        local ==> r == DisconnectAction::Keep,
        !local && client_disconnected == Some(true) ==> r == DisconnectAction::DropClient,
        !local && client_disconnected == Some(false) ==> r == DisconnectAction::Keep,
        !local && client_disconnected is None ==> r == (if !has_server && has_tick {
            DisconnectAction::DropTick
        } else {
            DisconnectAction::Keep
        }),
{
    if local {
        return DisconnectAction::Keep;
    }
    match client_disconnected {
        Some(true) => DisconnectAction::DropClient,
        Some(false) => DisconnectAction::Keep,
        None => {
            if !has_server && has_tick {
                DisconnectAction::DropTick
            } else {
                DisconnectAction::Keep
            }
        },
    }
}

} // verus!
