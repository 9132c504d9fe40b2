//! Per-item decisions of the pipeline stages: what one decoder or encoder
//! replica does with one queue item, and how many replicas to run. The
//! loops that move items between the network and these steps live outside
//! the library; each step here is a pure function of its one item, so any
//! number of replicas may run it concurrently.

use vstd::prelude::*;
use vstd::string::StrSliceExecFns;
use vstd::string::StringSliceAdditionalSpecFns;
use vstd::utf8::encode_utf8;
use crate::frame::decode_frame;
use crate::frame::decode_spec;
use crate::frame::encode_frame;
use crate::frame::frame_chars;
use crate::frame::lemma_round_trip;
use crate::frame::utf8_to_string;
use crate::messages::ReceivedMessage;
use crate::messages::SendingMessage;
use crate::wrap::is_space;
use crate::wrap::lemma_single_word_segment;
use crate::wrap::segment;
use crate::wrap::segments_spec;
use crate::wrap::views;
use crate::SEGMENT_WIDTH;

verus! {

/// How many decoder and encoder replicas to run for a machine with
/// `procs` processing units: one less than the unit count, at least one.
pub fn replica_count(procs: usize) -> (r: usize)
    ensures
        r == if procs <= 1 { 1usize } else { (procs - 1) as usize },
{
    if procs <= 1 {
        1
    } else {
        procs - 1
    }
}

/// One decoder step: what one replica does with one received datagram.
/// The payload must be the canonical frame shape in valid UTF-8; then the
/// message carries the frame's text and timestamp and the sender's address
/// as origin. Anything else is malformed and yields no message — the item
/// is dropped and the replica goes on to the next one.
pub fn decode_packet(origin: String, packet: Vec<u8>) -> (r: Option<ReceivedMessage>)
    ensures
        match decode_spec(packet@) {
            Some((t, v)) => r matches Some(m) && m.text@ == t && m.timestamp == v && m.ip@
                == origin@,
            None => r is None,
        },
{
    let s = match utf8_to_string(packet) {
        Some(s) => s,
        None => {
            return None;
        },
    };
    match decode_frame(s.as_str()) {
        Some((text, ts)) => Some(
            ReceivedMessage { text, timestamp: ts, ip: origin },
        ),
        None => None,
    }
}

/// One encoder step: what one replica does with one outgoing message.
/// The text is wrapped to the segment width and each resulting line is
/// framed with the message's own timestamp, in order; a message without
/// any word still yields one frame with empty text.
pub fn encode_message(msg: &SendingMessage) -> (frames: Vec<Vec<u8>>)
    ensures
        frames@.len() == segments_spec(msg.text@, SEGMENT_WIDTH as nat).len(),
        forall|k: int|
            0 <= k < frames@.len() ==> (#[trigger] frames@[k])@ == encode_utf8(
                frame_chars(segments_spec(msg.text@, SEGMENT_WIDTH as nat)[k], msg.timestamp),
            ),
        frames@.len() >= 1,
{
    let lines = segment(msg.text.as_str(), SEGMENT_WIDTH);
    let mut frames: Vec<Vec<u8>> = Vec::new();
    let mut i: usize = 0;
    while i < lines.len()
        invariant
            views(lines@) == segments_spec(msg.text@, SEGMENT_WIDTH as nat),
            i <= lines@.len(),
            frames@.len() == i,
            forall|k: int|
                0 <= k < i ==> (#[trigger] frames@[k])@ == encode_utf8(
                    frame_chars(views(lines@)[k], msg.timestamp),
                ),
        decreases lines@.len() - i,
    {
        let f = encode_frame(lines[i].as_str(), msg.timestamp);
        let b = f.as_str().as_bytes_vec();
        proof {
            assert(views(lines@)[i as int] == lines@[i as int]@);
            assert(b@ == encode_utf8(frame_chars(views(lines@)[i as int], msg.timestamp)));
        }
        frames.push(b);
        i = i + 1;
    }
    frames
}

/// Round trip: a message whose text is one word fitting within one
/// segment is encoded as exactly one frame, and decoding that frame
/// yields the same text and timestamp; the origin is independent,
/// supplied by the transport beside the payload.
pub proof fn lemma_message_round_trip(t: Seq<char>, ts: u128)
    requires
        1 <= t.len() <= SEGMENT_WIDTH,
        forall|m: int| 0 <= m < t.len() ==> !is_space(t[m]),
    ensures
        segments_spec(t, SEGMENT_WIDTH as nat) == seq![t],
        decode_spec(encode_utf8(frame_chars(t, ts))) == Some((t, ts)),
{
    lemma_single_word_segment(t, SEGMENT_WIDTH as nat);
    lemma_round_trip(t, ts);
}

/// Malformed input isolation: a payload that does not decode yields no
/// message, and a well-formed frame handled after it still decodes to its
/// own text and timestamp. Each item is decoded on its own; a corrupted
/// datagram has no effect on any other.
pub proof fn lemma_malformed_isolation(bad: Seq<u8>, t: Seq<char>, ts: u128)
    requires
        decode_spec(bad) is None,
    ensures
        decode_spec(bad) is None,
        decode_spec(encode_utf8(frame_chars(t, ts))) == Some((t, ts)),
{
    lemma_round_trip(t, ts);
}

} // verus!
