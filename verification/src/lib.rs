//! LAN-local multicast chat transport: wire framing, message segmentation,
//! and the per-item decisions of the pipeline stages.
//!
//! The transport sends short text messages as UDP multicast datagrams. Each
//! datagram carries one self-contained frame: a JSON object with exactly the
//! fields `text` and `timestamp`. Oversized text is word-wrapped into several
//! frames that share the original timestamp. This crate holds the verified
//! core: the codec, the segmentation policy, and the decode/encode steps.
//! Socket and queue plumbing lives outside, in the surrounding binary.

pub mod config;
pub mod frame;
pub mod messages;
pub mod pipeline;
pub mod text;
pub mod wrap;

use vstd::prelude::*;

verus! {

/// Maximum UDP payload this transport accepts or emits, in bytes.
pub const MAX_DATAGRAM_BYTES: usize = 64 * 1024;

/// Characters held back from the datagram budget for the frame envelope
/// around the text (braces, field names, quotes, timestamp digits).
pub const FRAME_RESERVE: usize = 1024;

/// Width, in characters, that message text is wrapped to before framing.
pub const SEGMENT_WIDTH: usize = MAX_DATAGRAM_BYTES - FRAME_RESERVE;

/// A datagram is forwarded into the pipeline only when its payload does not
/// exceed the maximum size; larger packets are dropped by the receive loop.
pub fn accept_datagram(len: usize) -> (r: bool)
    ensures
        r == (len <= MAX_DATAGRAM_BYTES),
{
    len <= MAX_DATAGRAM_BYTES
}

} // verus!
