use signal_broker::message::{encode_message, SignalingMessage};
use signal_broker::registry::PeerRegistry;
use signal_broker::relay::{on_frame, RelayDecision, RelayPolicy};

fn id(s: &str) -> Vec<u8> {
    s.as_bytes().to_vec()
}

fn bytes(s: &str) -> Vec<u8> {
    s.as_bytes().to_vec()
}

fn three_peer_registry() -> PeerRegistry {
    let mut reg = PeerRegistry::new();
    reg.register(id("a"), 1).unwrap();
    reg.register(id("b"), 2).unwrap();
    reg.register(id("c"), 3).unwrap();
    reg
}

#[test]
fn broadcast_mode_delivers_to_all_others() {
    let reg = three_peer_registry();
    let msg = SignalingMessage::Offer { sdp: bytes("v=0") };
    let frame = encode_message(&msg);
    match on_frame(&reg, RelayPolicy::Broadcast, &id("a"), &frame) {
        RelayDecision::Deliver { targets, frame: out } => {
            let ids: Vec<Vec<u8>> = targets.iter().map(|e| e.id.clone()).collect();
            assert_eq!(ids, vec![id("b"), id("c")]);
            // the relay re-serializes canonically and mutates nothing
            assert_eq!(out, frame);
        }
        other => panic!("expected delivery, got {:?}", other),
    }
}

#[test]
fn malformed_frame_is_dropped_and_connection_survives() {
    let reg = three_peer_registry();
    let decision = on_frame(&reg, RelayPolicy::Broadcast, &id("a"), &bytes("not json"));
    assert!(matches!(decision, RelayDecision::Rejected));
    // the sender is still registered and a valid frame still goes through
    assert_eq!(reg.lookup_handle(&id("a")), Ok(1));
    let frame = encode_message(&SignalingMessage::Answer { sdp: bytes("v=0") });
    let decision = on_frame(&reg, RelayPolicy::Broadcast, &id("a"), &frame);
    assert!(matches!(decision, RelayDecision::Deliver { .. }));
}

#[test]
fn point_to_point_routes_to_the_unique_counterparty() {
    let mut reg = PeerRegistry::new();
    reg.register(id("caller"), 1).unwrap();
    reg.register(id("callee"), 2).unwrap();
    let frame = encode_message(&SignalingMessage::Candidate {
        candidate: bytes("candidate:1"),
        sdp_mid: Some(bytes("0")),
        sdp_mline_index: Some(0),
    });
    match on_frame(&reg, RelayPolicy::PointToPoint, &id("caller"), &frame) {
        RelayDecision::Deliver { targets, .. } => {
            assert_eq!(targets.len(), 1);
            assert_eq!(targets[0].id, id("callee"));
            assert_eq!(targets[0].handle, 2);
        }
        other => panic!("expected delivery, got {:?}", other),
    }
}

#[test]
fn point_to_point_without_counterparty_is_dropped() {
    let frame = encode_message(&SignalingMessage::Offer { sdp: bytes("v=0") });

    let mut lone = PeerRegistry::new();
    lone.register(id("caller"), 1).unwrap();
    let decision = on_frame(&lone, RelayPolicy::PointToPoint, &id("caller"), &frame);
    assert!(matches!(decision, RelayDecision::NoCounterparty));

    let crowded = three_peer_registry();
    let decision = on_frame(&crowded, RelayPolicy::PointToPoint, &id("a"), &frame);
    assert!(matches!(decision, RelayDecision::NoCounterparty));
}

#[test]
fn image_frame_is_unpacked_locally() {
    let reg = three_peer_registry();
    let frame = encode_message(&SignalingMessage::Image {
        data: bytes("data:image/png;base64,aGk="),
    });
    match on_frame(&reg, RelayPolicy::Broadcast, &id("a"), &frame) {
        RelayDecision::SaveImage { bytes: img } => assert_eq!(img, b"hi".to_vec()),
        other => panic!("expected an image, got {:?}", other),
    }
}

#[test]
fn image_with_bad_transfer_encoding_is_diagnosed() {
    let reg = three_peer_registry();
    let frame = encode_message(&SignalingMessage::Image { data: bytes("data:image/png;base64,!!!") });
    let decision = on_frame(&reg, RelayPolicy::Broadcast, &id("a"), &frame);
    assert!(matches!(decision, RelayDecision::BadImagePayload));
}

#[test]
fn image_without_comma_has_empty_payload() {
    let reg = three_peer_registry();
    let frame = encode_message(&SignalingMessage::Image { data: bytes("no delimiter here") });
    match on_frame(&reg, RelayPolicy::Broadcast, &id("a"), &frame) {
        RelayDecision::SaveImage { bytes: img } => assert!(img.is_empty()),
        other => panic!("expected an empty image, got {:?}", other),
    }
}

#[test]
fn capture_trigger_is_handled_locally() {
    let reg = three_peer_registry();
    let frame = encode_message(&SignalingMessage::TriggerImageCapture);
    let decision = on_frame(&reg, RelayPolicy::Broadcast, &id("a"), &frame);
    assert!(matches!(decision, RelayDecision::CaptureRequested));
}
