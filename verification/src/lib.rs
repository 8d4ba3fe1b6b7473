//! Core of a minimal selective forwarding unit for two-party terminal video
//! calls: the control-frame codec, the server-side signalling state machine,
//! the media relay table, and the client-side call state machine.
//!
//! All I/O lives outside this crate; every function here is a pure state
//! transition or a codec step with a verified contract.

pub mod client;
pub mod codec;
pub mod relay;
pub mod render;
pub mod server;
