//! Server side of a real-time multiplayer game's network layer.
//!
//! The library tracks per-client sessions keyed by a transport address,
//! converts wire messages to and from bytes, keeps unacknowledged payloads
//! queued for resend, and evicts sessions that have gone silent. All
//! socket work is left to the caller: the library consumes and produces
//! plain byte buffers and address keys.

use vstd::prelude::*;

pub mod codec;
pub mod server;
pub mod session;

verus! {

/// How many times per second the network tick occurs.
pub const NETWORK_TICK_HZ: u64 = 1;

/// How many times per second the game tick occurs.
pub const GAME_TICK_HZ: u64 = 60;

/// Maximum number of concurrently connected clients.
pub const MAX_CLIENTS: usize = 2;

/// How many game ticks a session may go without a fresh message
/// before it is dropped.
pub const FRAME_DIFFERENCE_BEFORE_DISCONNECT: u64 = 10 * GAME_TICK_HZ;

} // verus!
