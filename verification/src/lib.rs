//! A reliability and ordering layer for lossy datagram transports.
//!
//! Clients send *commands*, servers broadcast *state* snapshots.  The
//! library restores per-peer in-order delivery of commands, piggybacks a
//! bitmap NACK of recently missing command ids on every state packet, and
//! serves retransmissions from a bounded send cache.  Socket handling and
//! the fixed-cadence server loop live outside this crate; everything here
//! is pure protocol logic with verified contracts.

pub mod cache;
pub mod codec;
pub mod engine;
pub mod id;
pub mod entities;
pub mod key;
pub mod protocol;
pub mod timer;
pub mod version;

use vstd::prelude::*;

verus! {

pub use crate::engine::Client;
pub use crate::engine::Server;
pub use crate::entities::CommandPacket;
pub use crate::entities::Exception;
pub use crate::entities::SessionKey;
pub use crate::entities::StatePacket;

} // verus!
