//! Errors of the protocol.
use vstd::prelude::*;

verus! {

/// Internal error
#[derive(Debug)]
pub enum InternalErr {
    /// Arithmetic error
    ArithmeticError(String),
}

/// Protocol error
#[derive(Debug)]
pub enum Error<RecvErr, SendErr, InternalErr> {
    /// Couldn't send a message in the first round
    Round1Send(SendErr),
    /// Couldn't receive a message in the first round
    Round1Receive(RecvErr),
    /// Couldn't send a message in the second round
    Round2Send(SendErr),
    /// Couldn't receive a message in the second round
    Round2Receive(RecvErr),
    /// Couldn't send a message in the third round
    Round3Send(SendErr),
    /// Couldn't receive a message in the third round
    Round3Receive(RecvErr),
    /// Internal error
    InternalError(InternalErr),
    /// The protocol was aborted because a check failed (e.g. a decommitment
    /// didn't match its commitment, or the echo consistency check failed). The
    /// message carries context such as the offending party index.
    Abort {
        /// Session id of the aborted protocol run
        sid: u64,
        /// Label of the offending party: when this party's own checks failed,
        /// the sender of the message that failed them, or `None` when no single
        /// message is to blame (the share did not match the share curve
        /// points); when its own checks passed, the first party whose verify
        /// message reported a failure
        party: Option<u16>,
    },
}

impl<RecvErr, SendErr> From<InternalErr> for Error<RecvErr, SendErr, InternalErr> {
    fn from(e: InternalErr) -> (r: Self) {
        Error::InternalError(e)
    }
}

impl<RecvErr, SendErr> vstd::std_specs::convert::FromSpecImpl<InternalErr> for Error<RecvErr, SendErr, InternalErr> {
    open spec fn obeys_from_spec() -> bool {
        true
    }

    open spec fn from_spec(v: InternalErr) -> Self {
        Error::InternalError(v)
    }
}

} // verus!
