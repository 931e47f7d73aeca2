//! Message relay: decode an inbound frame and decide where it goes. A
//! malformed frame is dropped and the connection stays open; negotiation
//! kinds are re-serialized canonically and delivered point-to-point or to
//! every other peer, by deployment mode; an image is unpacked locally; a
//! capture trigger runs a local hook. The decision is a value: performing
//! the writes it names is the surrounding runtime's job.
use vstd::prelude::*;

use crate::message::{
    decode_message, encode_message, image_segment, spec_decode, spec_encode, MessageModel,
    SignalingMessage,
};
use crate::registry::{entry_views, other_than, PeerEntry, PeerRegistry};

verus! {

/// The deployment's routing mode for negotiation kinds.
#[derive(Clone, Copy, Debug, PartialEq, Eq, Structural)]
pub enum RelayPolicy {
    /// Route to the single counterparty of a two-party session.
    PointToPoint,
    /// Route to every registered peer other than the sender.
    Broadcast,
}

/// What the relay decided for one inbound frame.
#[derive(Debug)]
pub enum RelayDecision {
    /// The frame is outside the grammar: drop it, keep the connection.
    Rejected,
    /// Write `frame` to each target's sink, tolerating per-target failure.
    Deliver { targets: Vec<PeerEntry>, frame: Vec<u8> },
    /// Point-to-point mode with no unique counterparty: drop, diagnose.
    NoCounterparty,
    /// An image arrived: hand these bytes to the local store hook.
    SaveImage { bytes: Vec<u8> },
    /// An image arrived but its transfer encoding did not decode.
    BadImagePayload,
    /// A capture trigger arrived: run the local capture hook.
    CaptureRequested,
}

/// The kinds that are relayed to other peers rather than handled locally.
pub open spec fn relayed_kind(m: MessageModel) -> bool {
    m is Offer || m is Answer || m is Candidate
}

/// A name for what base64's standard-alphabet `decode` returns: a pure
/// function of the input bytes alone.
pub uninterp spec fn base64_decoding(s: Seq<u8>) -> Option<Seq<u8>>;

/// Relies on base64: the standard-alphabet engine's `decode`, a pure
/// function of its input, whose result is named `base64_decoding`.
#[verifier::external_body]
fn decode_base64(s: &Vec<u8>) -> (r: Option<Vec<u8>>)
    ensures
        (match r {
            Some(v) => base64_decoding(s@) == Some(v@),
            None => base64_decoding(s@) is None,
        }),
{
    match base64::Engine::decode(&base64::engine::general_purpose::STANDARD, s.as_slice()) {
        Ok(v) => Some(v),
        Err(_) => None,
    }
}

/// Unpack an image payload and hand it to the local store, or diagnose it.
pub fn unpack_image(data: &Vec<u8>) -> (r: RelayDecision)
    ensures
        (match base64_decoding(image_segment(data@)) {
            Some(v) => (r matches RelayDecision::SaveImage { bytes } && bytes@ == v),
            None => r is BadImagePayload,
        }),
{
    let payload = crate::message::image_payload(data);
    match decode_base64(&payload) {
        Some(bytes) => RelayDecision::SaveImage { bytes },
        None => RelayDecision::BadImagePayload,
    }
}

/// Decide the fate of one inbound frame from a registered sender.
pub fn on_frame(
    registry: &PeerRegistry,
    policy: RelayPolicy,
    sender_id: &Vec<u8>,
    frame: &Vec<u8>,
) -> (r: RelayDecision)
    requires
        registry.wf(),
    ensures
        (match spec_decode(frame@) {
            None => r is Rejected,
            Some(m) => {
                &&& (relayed_kind(m) ==> {
                    let os = registry@.filter(other_than(sender_id@));
                    &&& ((policy == RelayPolicy::Broadcast || os.len() == 1) ==> (
                    r matches RelayDecision::Deliver { targets, frame: out } && entry_views(
                        targets@,
                    ) == os && out@ == spec_encode(m)))
                    &&& ((policy == RelayPolicy::PointToPoint && os.len() != 1)
                        ==> r is NoCounterparty)
                })
                &&& (m matches MessageModel::Image { data } ==> (match base64_decoding(
                    image_segment(data),
                ) {
                    Some(v) => (r matches RelayDecision::SaveImage { bytes } && bytes@ == v),
                    None => r is BadImagePayload,
                }))
                &&& (m is TriggerImageCapture ==> r is CaptureRequested)
            },
        }),
{
    match decode_message(frame) {
        None => RelayDecision::Rejected,
        Some(msg) => match msg {
            SignalingMessage::Image { data } => unpack_image(&data),
            SignalingMessage::TriggerImageCapture => RelayDecision::CaptureRequested,
            other => {
                let out = encode_message(&other);
                let targets = registry.broadcast_targets(sender_id);
                match policy {
                    RelayPolicy::Broadcast => RelayDecision::Deliver { targets, frame: out },
                    RelayPolicy::PointToPoint => {
                        if targets.len() == 1 {
                            RelayDecision::Deliver { targets, frame: out }
                        } else {
                            RelayDecision::NoCounterparty
                        }
                    },
                }
            },
        },
    }
}

} // verus!