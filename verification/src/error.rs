//! The ways in which a decode session can fail.

use vstd::prelude::*;

verus! {

/// Every failure is fatal to the session that met it; none is retried.
#[derive(Clone, Copy, Debug, PartialEq, Eq, Structural)]
pub enum DecodeError {
    /// The stream does not begin with a recognised magic.
    InvalidHeader,
    /// The codec's state could not be allocated.
    AllocationFailure,
    /// The codec refused to initialise its state.
    DecoderInitFailure,
    /// The codec rejected a packet, a packet did not fit into the lookahead
    /// window, or an event did not answer the session's last request.
    DecodeFailure,
    /// Reading the input or writing the output failed.
    IOError,
    /// The progress subscriber went away.
    ChannelClosed,
}

} // verus!
