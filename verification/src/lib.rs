//! BGW-style multi-party computation over the BN254 scalar field:
//! Shamir secret sharing, arithmetic circuits, and a per-party protocol
//! engine with interactive degree reduction at multiplication gates.

pub mod circuit;
pub mod field;
pub mod message;
pub mod party;
pub mod sharing;

use vstd::prelude::*;

verus! {

/// Errors a protocol party can surface.
#[derive(Clone, Copy, Debug, PartialEq, Eq, Structural)]
pub enum MpcError {
    /// A party owns an input wire but no value was supplied for it.
    MissingInput,
    /// Reconstruction was attempted from shares with duplicate x-coordinates.
    DuplicateX,
    /// Two operand shares of a local gate carry different x-coordinates.
    InconsistentX,
    /// A wait for protocol messages exceeded its deadline.
    ProtocolTimeout,
    /// A peer terminated prematurely and closed its channel.
    ChannelClosed,
    /// A gate references a missing predecessor or is mistyped.
    InvalidCircuit,
}

} // verus!
