//! The two message shapes that cross the pipeline's boundaries.

use vstd::prelude::*;

verus! {

/// A message handed in by the presentation layer, to be framed and sent.
/// The timestamp is the sender's clock, in milliseconds since the epoch.
#[derive(Debug)]
pub struct SendingMessage {
    pub text: String,
    pub timestamp: u128,
}

/// A message decoded from one received frame. `ip` is the textual address
/// of the sender's host; text and timestamp are the sender's own, taken
/// from the frame without correction.
#[derive(Debug)]
pub struct ReceivedMessage {
    pub text: String,
    pub timestamp: u128,
    pub ip: String,
}

} // verus!
