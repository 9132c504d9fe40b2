//! The transport's network parameters, gathered in one value constructed
//! at startup and passed into the transport explicitly, instead of being
//! scattered as hidden constants.

use vstd::prelude::*;
use crate::FRAME_RESERVE;
use crate::MAX_DATAGRAM_BYTES;

verus! {

/// Network parameters of one transport instance: the multicast group to
/// join (textual address), the UDP port, the largest accepted datagram
/// payload, and the characters reserved out of that budget for the frame
/// envelope around the text.
pub struct NetConfig {
    pub group: String,
    pub port: u16,
    pub max_payload: usize,
    pub reserve: usize,
}

impl NetConfig {
    /// A configuration is well formed when the reserve leaves room for at
    /// least one character of text in every datagram.
    pub open spec fn wf(&self) -> bool {
        1 <= self.reserve < self.max_payload
    }

    /// The fixed parameters this chat uses: group 224.0.0.1, port 31337,
    /// the standard payload bound and envelope reserve.
    pub fn standard() -> (c: NetConfig)
        ensures
            c.wf(),
            c.group@ == "224.0.0.1"@,
            c.port == 31337,
            c.max_payload == MAX_DATAGRAM_BYTES,
            c.reserve == FRAME_RESERVE,
    {
        NetConfig {
            group: "224.0.0.1".to_owned(),
            port: 31337,
            max_payload: MAX_DATAGRAM_BYTES,
            reserve: FRAME_RESERVE,
        }
    }

    /// The wrap width this configuration leaves for message text.
    pub fn segment_width(&self) -> (w: usize)
        requires
            self.wf(),
        ensures
            w == self.max_payload - self.reserve,
            w >= 1,
    {
        self.max_payload - self.reserve
    }
}

} // verus!
