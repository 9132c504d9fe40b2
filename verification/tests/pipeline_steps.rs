use lanchat::accept_datagram;
use lanchat::config::NetConfig;
use lanchat::messages::SendingMessage;
use lanchat::pipeline::decode_packet;
use lanchat::pipeline::encode_message;
use lanchat::pipeline::replica_count;
use lanchat::MAX_DATAGRAM_BYTES;
use lanchat::SEGMENT_WIDTH;

fn msg(text: &str, timestamp: u128) -> SendingMessage {
    SendingMessage { text: text.to_string(), timestamp }
}

#[test]
fn message_round_trip_through_encode_and_decode() {
    let frames = encode_message(&msg("hello", 1700000000123));
    assert_eq!(frames.len(), 1);
    let m = decode_packet("192.168.0.7".to_string(), frames[0].clone())
        .expect("own frame must decode");
    assert_eq!(m.text, "hello");
    assert_eq!(m.timestamp, 1700000000123);
    assert_eq!(m.ip, "192.168.0.7");
}

#[test]
fn multi_word_message_round_trips_as_one_frame() {
    let frames = encode_message(&msg("a few short words", 5));
    assert_eq!(frames.len(), 1);
    let m = decode_packet("h".to_string(), frames[0].clone()).unwrap();
    assert_eq!(m.text, "a few short words");
    assert_eq!(m.timestamp, 5);
}

#[test]
fn long_text_becomes_several_frames_sharing_the_timestamp() {
    // a text of space-separated words longer than one segment
    let word = "x".repeat(2000);
    let words: Vec<String> = (0..40).map(|_| word.clone()).collect();
    let text = words.join(" ");
    assert!(text.chars().count() > SEGMENT_WIDTH);
    let frames = encode_message(&msg(&text, 77));
    assert!(frames.len() >= 2);
    let mut rejoined: Vec<String> = Vec::new();
    for f in &frames {
        let m = decode_packet("o".to_string(), f.clone()).expect("each frame decodes");
        assert_eq!(m.timestamp, 77);
        assert!(m.text.chars().count() <= SEGMENT_WIDTH);
        rejoined.extend(m.text.split_whitespace().map(String::from));
    }
    let original: Vec<String> = text.split_whitespace().map(String::from).collect();
    assert_eq!(rejoined, original);
}

#[test]
fn empty_message_still_produces_one_frame() {
    let frames = encode_message(&msg("", 3));
    assert_eq!(frames.len(), 1);
    let m = decode_packet("o".to_string(), frames[0].clone()).unwrap();
    assert_eq!(m.text, "");
    assert_eq!(m.timestamp, 3);
}

#[test]
fn malformed_packet_yields_no_message_and_next_one_still_decodes() {
    let corrupted = b"\x00\x01garbage".to_vec();
    assert!(decode_packet("a".to_string(), corrupted).is_none());
    let frames = encode_message(&msg("still alive", 8));
    let m = decode_packet("a".to_string(), frames[0].clone()).expect("valid frame decodes");
    assert_eq!(m.text, "still alive");
}

#[test]
fn invalid_utf8_packet_yields_no_message() {
    assert!(decode_packet("a".to_string(), vec![0xff, 0xfe, 0xfd]).is_none());
}

#[test]
fn oversized_datagram_is_rejected_and_next_one_processed() {
    let oversized = vec![b'x'; MAX_DATAGRAM_BYTES + 1];
    assert!(!accept_datagram(oversized.len()));
    let frames = encode_message(&msg("after the big one", 4));
    assert!(accept_datagram(frames[0].len()));
    let m = decode_packet("o".to_string(), frames[0].clone()).unwrap();
    assert_eq!(m.text, "after the big one");
}

#[test]
fn accept_datagram_boundary() {
    assert!(accept_datagram(0));
    assert!(accept_datagram(MAX_DATAGRAM_BYTES));
    assert!(!accept_datagram(MAX_DATAGRAM_BYTES + 1));
}

#[test]
fn replica_count_is_units_minus_one_with_floor_one() {
    assert_eq!(replica_count(0), 1);
    assert_eq!(replica_count(1), 1);
    assert_eq!(replica_count(2), 1);
    assert_eq!(replica_count(4), 3);
    assert_eq!(replica_count(16), 15);
}

#[test]
fn standard_config_has_the_fixed_parameters() {
    let cfg = NetConfig::standard();
    assert_eq!(cfg.group, "224.0.0.1");
    assert_eq!(cfg.port, 31337);
    assert_eq!(cfg.max_payload, MAX_DATAGRAM_BYTES);
    assert_eq!(cfg.segment_width(), SEGMENT_WIDTH);
}

#[test]
fn origin_is_attached_verbatim() {
    let frames = encode_message(&msg("who", 1));
    let m = decode_packet("10.1.2.3".to_string(), frames[0].clone()).unwrap();
    assert_eq!(m.ip, "10.1.2.3");
}
