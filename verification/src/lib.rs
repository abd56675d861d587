//! Coordinator logic for a distributed screenshot-collection service.
//!
//! Agents connect to a central coordinator over a bidirectional message
//! channel; external callers ask the coordinator to capture a screenshot from
//! every connected agent.  This crate holds the verified core: the message
//! codec, the keyed-MAC authenticator, the client registry, the per-request
//! aggregation barrier, the image store with its retention sweep, and the
//! per-connection session state machines.  The surrounding I/O (sockets,
//! timers, disk) lives outside and drives these functions.

pub mod auth;
pub mod binary;
pub mod log_buffer;
pub mod messages;
pub mod text;
pub mod pending;
pub mod secret;
pub mod session;
pub mod state;
pub mod registry;
pub mod seqext;
pub mod store;
pub mod client;
pub mod strutil;

pub use auth::{compute_hmac, verify_hmac};
pub use client::check_and_request_screen_recording_permission;
pub use client::ConnectionStatus;
pub use messages::{ClientMessage, ScreenshotData, ServerMessage};
