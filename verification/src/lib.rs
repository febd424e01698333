//! Reception pipeline for a push-notification channel: decoding inbound text
//! frames into envelopes, resolving which notification shapes an envelope
//! carries, and driving the per-frame state machine of the connection loop.

pub mod codec;
pub mod envelope;
pub mod resolver;
pub mod session;
