//! The protocol's message taxonomy: every inter-party datum is one share,
//! scoped to a wire id and tagged by the phase that produced it.

use vstd::prelude::*;
use crate::sharing::Share;

verus! {

/// A wire-scoped share message.
#[derive(Clone, Copy, Debug, PartialEq, Eq, Structural)]
pub enum Message {
    /// A share of an input wire's secret, sent during the input phase.
    InputShare(usize, Share),
    /// A degree-2t share of a local product, broadcast at a `Mul` gate.
    MulShare(usize, Share),
    /// A share of an output wire, exchanged during the output phase.
    OutputShare(usize, Share),
    /// A fresh degree-t share of an opened product, sent to restore degree t.
    Reshare(usize, Share),
}

impl Message {
    /// The carried share is well formed.
    pub open spec fn wf(self) -> bool {
        match self {
            Message::InputShare(_, s) => s.wf(),
            Message::MulShare(_, s) => s.wf(),
            Message::OutputShare(_, s) => s.wf(),
            Message::Reshare(_, s) => s.wf(),
        }
    }
}

} // verus!
