use signal_broker::message::{decode_message, encode_message, SignalingMessage};

fn bytes(s: &str) -> Vec<u8> {
    s.as_bytes().to_vec()
}

fn round_trips(m: SignalingMessage) {
    let frame = encode_message(&m);
    assert_eq!(decode_message(&frame), Some(m));
}

#[test]
fn offer_round_trips() {
    round_trips(SignalingMessage::Offer { sdp: bytes("v=0\r\no=- 46117 2 IN IP4 127.0.0.1") });
}

#[test]
fn answer_round_trips() {
    round_trips(SignalingMessage::Answer { sdp: bytes("v=0\r\ns=-\r\n") });
}

#[test]
fn candidate_round_trips() {
    round_trips(SignalingMessage::Candidate {
        candidate: bytes("candidate:1 1 UDP 2122252543 192.168.0.2 60000 typ host"),
        sdp_mid: Some(bytes("0")),
        sdp_mline_index: Some(0),
    });
}

#[test]
fn candidate_with_nulls_round_trips() {
    round_trips(SignalingMessage::Candidate {
        candidate: bytes("candidate:0"),
        sdp_mid: None,
        sdp_mline_index: None,
    });
}

#[test]
fn candidate_with_largest_index_round_trips() {
    round_trips(SignalingMessage::Candidate {
        candidate: bytes("c"),
        sdp_mid: Some(bytes("audio")),
        sdp_mline_index: Some(u32::MAX),
    });
}

#[test]
fn image_round_trips() {
    round_trips(SignalingMessage::Image { data: bytes("data:image/png;base64,aGVsbG8=") });
}

#[test]
fn trigger_round_trips() {
    round_trips(SignalingMessage::TriggerImageCapture);
}

#[test]
fn empty_payload_round_trips() {
    round_trips(SignalingMessage::Offer { sdp: Vec::new() });
}

#[test]
fn quotes_backslashes_and_controls_round_trip() {
    round_trips(SignalingMessage::Offer { sdp: vec![0x22, 0x5c, 0x0a, 0x0d, 0x09, 0x01, 0x1f, b'x'] });
}

#[test]
fn offer_encodes_canonically() {
    let frame = encode_message(&SignalingMessage::Offer { sdp: bytes("v=0\r\no=-") });
    assert_eq!(frame, bytes("{\"type\":\"offer\",\"sdp\":\"v=0\\r\\no=-\"}"));
}

#[test]
fn candidate_encodes_canonically() {
    let frame = encode_message(&SignalingMessage::Candidate {
        candidate: bytes("cand"),
        sdp_mid: Some(bytes("0")),
        sdp_mline_index: Some(7),
    });
    assert_eq!(
        frame,
        bytes("{\"type\":\"candidate\",\"candidate\":\"cand\",\"sdp_mid\":\"0\",\"sdp_mline_index\":7}")
    );
}

#[test]
fn candidate_nulls_encode_canonically() {
    let frame = encode_message(&SignalingMessage::Candidate {
        candidate: bytes("c"),
        sdp_mid: None,
        sdp_mline_index: None,
    });
    assert_eq!(
        frame,
        bytes("{\"type\":\"candidate\",\"candidate\":\"c\",\"sdp_mid\":null,\"sdp_mline_index\":null}")
    );
}

#[test]
fn control_bytes_encode_as_unicode_escapes() {
    let frame = encode_message(&SignalingMessage::Offer { sdp: vec![0x01] });
    assert_eq!(frame, bytes("{\"type\":\"offer\",\"sdp\":\"\\u0001\"}"));
}

#[test]
fn trigger_encodes_canonically() {
    let frame = encode_message(&SignalingMessage::TriggerImageCapture);
    assert_eq!(frame, bytes("{\"type\":\"triggerimagecapture\"}"));
}

#[test]
fn unicode_escape_decodes() {
    let m = decode_message(&bytes("{\"type\":\"offer\",\"sdp\":\"\\u0009\"}"));
    assert_eq!(m, Some(SignalingMessage::Offer { sdp: vec![0x09] }));
}

#[test]
fn backspace_and_formfeed_escapes_decode() {
    let m = decode_message(&bytes("{\"type\":\"offer\",\"sdp\":\"a\\bz\\f\"}"));
    assert_eq!(m, Some(SignalingMessage::Offer { sdp: vec![b'a', 0x08, b'z', 0x0c] }));
}

#[test]
fn backspace_and_formfeed_bytes_round_trip() {
    let m = SignalingMessage::Offer { sdp: vec![0x08, 0x0c] };
    let frame = encode_message(&m);
    // the encoder spells them as unicode escapes; both spellings decode
    assert_eq!(frame, bytes("{\"type\":\"offer\",\"sdp\":\"\\u0008\\u000c\"}"));
    assert_eq!(decode_message(&frame), Some(m));
}

#[test]
fn malformed_frames_are_rejected() {
    assert_eq!(decode_message(&bytes("not json")), None);
    assert_eq!(decode_message(&Vec::new()), None);
    assert_eq!(decode_message(&bytes("{\"type\":\"offer\",\"sdp\":\"x\"")), None);
    assert_eq!(decode_message(&bytes("{\"type\":\"offer\",\"sdp\":\"x\"}}")), None);
    assert_eq!(decode_message(&bytes("{\"type\":\"offer\"}")), None);
    assert_eq!(decode_message(&bytes("{\"type\":\"bogus\",\"sdp\":\"x\"}")), None);
    assert_eq!(decode_message(&bytes("{\"type\":\"offer\",\"sdp\":\"\\q\"}")), None);
}

#[test]
fn out_of_range_index_is_rejected() {
    let frame = bytes(
        "{\"type\":\"candidate\",\"candidate\":\"c\",\"sdp_mid\":null,\"sdp_mline_index\":4294967296}",
    );
    assert_eq!(decode_message(&frame), None);
}
