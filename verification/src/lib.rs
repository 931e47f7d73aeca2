//! Verified core of a peer-session broker: a registry of live connections
//! with broadcast routing, a canonical signaling-message codec, and a
//! single-active-session admission queue with stale-session reclamation.
pub mod bytes;
pub mod message;
pub mod queue;
pub mod registry;
pub mod relay;
