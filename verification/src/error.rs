//! Failure taxonomy of the communication substrate and of the protocols
//! built on it. A failed collective round cannot be retried piecemeal, so
//! every condition here is fatal to the round that raised it and is
//! surfaced to the caller as a typed value rather than a process abort.

use vstd::prelude::*;

verus! {

/// Why a collective operation, or a protocol built on one, failed.
#[derive(Debug, Clone, Copy, PartialEq, Eq, Structural)]
pub enum ComError {
    /// A peer could not be reached after the transport gave up retrying.
    PeerUnreachable,
    /// A peer broke the frame protocol (for example a second closing frame
    /// from a rank whose message was already complete, or an origin rank
    /// outside the cluster), or peer-supplied data broke a protocol
    /// invariant that the local rank cannot repair.
    Protocol,
    /// A received payload could not be decoded as the expected type.
    Codec,
    /// The run's configuration is inconsistent, for example a collective
    /// invoked with a message array whose length is not the rank count.
    Config,
}

impl ComError {
    /// A short diagnostic label for the condition.
    pub fn describe(&self) -> (r: &'static str)
        ensures
            r@ == match *self {
                ComError::PeerUnreachable => "peer unreachable"@,
                ComError::Protocol => "protocol violation"@,
                ComError::Codec => "malformed payload"@,
                ComError::Config => "inconsistent configuration"@,
            },
    {
        match self {
            ComError::PeerUnreachable => "peer unreachable",
            ComError::Protocol => "protocol violation",
            ComError::Codec => "malformed payload",
            ComError::Config => "inconsistent configuration",
        }
    }
}

} // verus!
