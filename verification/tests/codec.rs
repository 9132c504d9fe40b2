use lanchat::frame::decode_frame;
use lanchat::frame::encode_frame;

#[test]
fn frame_has_exact_canonical_shape() {
    let f = encode_frame("hi", 1620000000000);
    assert_eq!(f, "{\"text\":\"hi\",\"timestamp\":1620000000000}");
}

#[test]
fn frame_round_trip_plain_text() {
    let f = encode_frame("hello world", 42);
    let (text, ts) = decode_frame(&f).expect("frame must decode");
    assert_eq!(text, "hello world");
    assert_eq!(ts, 42);
}

#[test]
fn frame_round_trip_escaped_characters() {
    let original = "a\"b\\c/d\ne\tf\rg";
    let f = encode_frame(original, 7);
    let (text, ts) = decode_frame(&f).expect("frame must decode");
    assert_eq!(text, original);
    assert_eq!(ts, 7);
}

#[test]
fn named_escapes_round_trip() {
    let original = "a\u{8}b\u{c}c";
    let f = encode_frame(original, 2);
    assert!(f.contains("\\b") && f.contains("\\f"));
    let (text, ts) = decode_frame(&f).expect("frame must decode");
    assert_eq!(text, original);
    assert_eq!(ts, 2);
}

#[test]
fn frame_round_trip_control_characters() {
    let original = "x\u{1}y\u{1f}z\u{7}";
    let f = encode_frame(original, 9);
    assert!(f.contains("\\u0001"));
    let (text, ts) = decode_frame(&f).expect("frame must decode");
    assert_eq!(text, original);
    assert_eq!(ts, 9);
}

#[test]
fn frame_round_trip_unicode_text() {
    let original = "héllo wörld ✓ 日本語";
    let f = encode_frame(original, 123456789);
    let (text, ts) = decode_frame(&f).expect("frame must decode");
    assert_eq!(text, original);
    assert_eq!(ts, 123456789);
}

#[test]
fn frame_round_trip_timestamp_bounds() {
    for &ts in &[0u128, 1, 9, 10, 999, u64::MAX as u128, u128::MAX] {
        let f = encode_frame("t", ts);
        let (text, got) = decode_frame(&f).expect("frame must decode");
        assert_eq!(text, "t");
        assert_eq!(got, ts);
    }
}

#[test]
fn frame_round_trip_empty_text() {
    let f = encode_frame("", 5);
    assert_eq!(f, "{\"text\":\"\",\"timestamp\":5}");
    let (text, ts) = decode_frame(&f).expect("frame must decode");
    assert_eq!(text, "");
    assert_eq!(ts, 5);
}

#[test]
fn decode_rejects_malformed_frames() {
    assert!(decode_frame("").is_none());
    assert!(decode_frame("not json at all").is_none());
    assert!(decode_frame("{\"text\":\"unterminated").is_none());
    assert!(decode_frame("{\"text\":\"a\"}").is_none());
    assert!(decode_frame("{\"text\":\"a\",\"timestamp\":}").is_none());
    assert!(decode_frame("{\"text\":\"a\",\"timestamp\":12").is_none());
    assert!(decode_frame("{\"text\":\"a\",\"timestamp\":12}x").is_none());
    assert!(decode_frame("{\"text\":\"a\",\"timestamp\":-3}").is_none());
    assert!(decode_frame("{\"wrong\":\"a\",\"timestamp\":3}").is_none());
}

#[test]
fn decode_rejects_timestamp_overflow() {
    // one more than u128::MAX
    let f = "{\"text\":\"a\",\"timestamp\":340282366920938463463374607431768211456}";
    assert!(decode_frame(f).is_none());
    let max = "{\"text\":\"a\",\"timestamp\":340282366920938463463374607431768211455}";
    let (_, ts) = decode_frame(max).expect("max timestamp decodes");
    assert_eq!(ts, u128::MAX);
}

#[test]
fn decode_rejects_unknown_escapes() {
    assert!(decode_frame("{\"text\":\"a\\q\",\"timestamp\":3}").is_none());
    assert!(decode_frame("{\"text\":\"a\\u12ff\",\"timestamp\":3}").is_none());
}

#[test]
fn emitted_frames_are_json_for_other_parsers() {
    let f = encode_frame("quote \" and \\ tab\t", 1234);
    let v: serde_json::Value = serde_json::from_str(&f).expect("frame must be valid JSON");
    assert_eq!(v["text"].as_str().unwrap(), "quote \" and \\ tab\t");
    assert_eq!(v["timestamp"].as_u64().unwrap(), 1234);
}

#[test]
fn canonical_json_from_other_serializers_decodes() {
    // serde_json writes object keys of a Value in sorted order, which for
    // these two fields is exactly the canonical frame order.
    let v: serde_json::Value =
        serde_json::from_str("{\"timestamp\": 33, \"text\": \"hi\"}").unwrap();
    let f = serde_json::to_string(&v).unwrap();
    let (text, ts) = decode_frame(&f).expect("canonical JSON decodes");
    assert_eq!(text, "hi");
    assert_eq!(ts, 33);
}
