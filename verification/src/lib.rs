//! A reliable, ordered, congestion-controlled byte stream over datagrams.
//!
//! The crate holds the protocol engine and nothing that touches a socket or
//! a clock: datagrams, clock readings and random identifiers are handed in,
//! datagrams to transmit are handed out.

use vstd::prelude::*;

pub mod congestion;
pub mod engine;
pub mod in_queue;
pub mod out_queue;
pub mod packet;
pub mod socket;
pub mod util;

verus! {

/// Largest congestion window, in bytes.
pub const MAX_WINDOW_SIZE: usize = 64 * 1_024;

/// Largest number of packets that may be in flight unacknowledged, and the
/// number of sequence numbers from the next expected one on that the
/// receiver keeps room for.
pub const MAX_DELTA_SEQ: usize = 32;

/// Why a connection ended other than by being closed.
#[derive(Clone, Copy, Debug, PartialEq, Eq, Structural)]
pub enum Failure {
    /// The peer reset the connection.
    Reset,
    /// The peer stayed silent for too long.
    Timeout,
}

} // verus!
