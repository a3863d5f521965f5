use vstd::prelude::*;

pub mod channel;
pub mod codec;
pub mod collections;
pub mod context;
pub mod messages;
pub mod netsync;
pub mod runtime;
pub mod session;
pub mod tcp;
pub mod transport;
pub mod version;
pub mod wire;
