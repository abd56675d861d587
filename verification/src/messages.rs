//! The two peer-to-peer message families.  Control messages travel as text
//! frames; a screenshot response travels as a binary frame because of the
//! embedded image bytes.

use vstd::prelude::*;

verus! {

/// One captured screen: the agent-chosen monitor index and the encoded
/// image bytes (opaque to the coordinator).
pub struct ScreenshotData {
    pub monitor: u32,
    pub data: Vec<u8>,
}

impl ScreenshotData {
    /// The mathematical value of one captured screen.
    pub open spec fn view_pair(&self) -> (u32, Seq<u8>) {
        (self.monitor, self.data@)
    }
}

/// The values of a list of captured screens.
pub open spec fn shots_view(s: Seq<ScreenshotData>) -> Seq<(u32, Seq<u8>)> {
    s.map_values(|d: ScreenshotData| (d.monitor, d.data@))
}

/// Coordinator-to-agent messages.
pub enum ServerMessage {
    /// Sent once, immediately after a connection is accepted.
    AuthChallenge { nonce: String },
    /// Asks the agent to capture now and answer with a binary response.
    ScreenshotRequest { request_id: String },
}

/// Agent-to-coordinator messages.  An authentication response travels as a
/// text frame; a screenshot response travels as a binary frame, so each
/// variant has its codec in the module for its wire form.
pub enum ClientMessage {
    /// The agent's name and the hex-encoded MAC over the nonce.
    AuthResponse { name: String, hmac: String },
    /// The captured screens for one request.
    ScreenshotResponse { request_id: String, screenshots: Vec<ScreenshotData> },
}

} // verus!
