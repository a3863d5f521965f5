//! The messages that a connection's life produces, and why it ends.
use vstd::prelude::*;

use crate::session::Session;

verus! {

#[verifier::external_type_specification]
#[verifier::external_body]
pub struct ExEntity(bevy::ecs::entity::Entity);

/// How long a ban lasts.
#[derive(Copy, Clone, Debug, PartialEq, Eq, Structural)]
pub struct BanDuration {
    pub secs: u64,
    pub nanos: u32,
}

/// Why a connection ended.
#[derive(Clone, Debug, PartialEq, Eq)]
pub enum DisconnectReason {
    /// The client's TCP stream was closed.
    Quit,
    /// The server forced a disconnection.
    Kicked { reason: String },
    /// An administrator banned the player.
    Banned { reason: String, duration: Option<BanDuration> },
    /// No messages were received from this player for some time.
    Timeout,
    /// The player sent a message that violated a protocol expectation.
    ProtocolViolation { explanation: String },
    /// The server shut down.
    ServerShutdown,
    /// An I/O error was reported by the operating system; `kind` is its text.
    IoError { kind: String },
}

/// A connection was established.
pub struct Connected {
    /// The session assigned to the connection.
    pub session: Session,
    /// The entity created for the connection's transports.
    pub entity: bevy::ecs::entity::Entity,
}

/// A connection ended.
pub struct Disconnected {
    pub session: Session,
    pub entity: bevy::ecs::entity::Entity,
    pub reason: DisconnectReason,
}

} // verus!
