//! Agent-side pieces that are pure decisions: the connection status values,
//! the reconnect backoff schedule, and the capture-permission probe on
//! platforms where no permission is needed.

use vstd::prelude::*;

use vstd::string::StringExecFns;

use crate::auth::compute_hmac;
use crate::auth::mac_hex_of;
use crate::messages::ServerMessage;
use crate::session::Frame;
use crate::text::decode_server_message;
use crate::text::encode_auth_response;
use crate::text::spec_auth_challenge;
use crate::text::spec_auth_response;
use crate::text::spec_screenshot_request;

verus! {

/// The agent's saved settings.
pub struct Config {
    pub server_addr: String,
    pub machine_name: String,
    pub secret_key: String,
}

impl Default for Config {
    /// The settings before the user has entered anything: the local
    /// coordinator address, a placeholder machine name (the caller may put
    /// the host's name in its place), and no secret.
    fn default() -> (r: Config)
        ensures
            r.server_addr@ == "ws://127.0.0.1:8283/ws"@,
            r.machine_name@ == "unknown"@,
            r.secret_key@ == Seq::<char>::empty(),
    {
        Config {
            server_addr: String::from_str("ws://127.0.0.1:8283/ws"),
            machine_name: String::from_str("unknown"),
            secret_key: String::new(),
        }
    }
}

/// The agent's reply to an authentication challenge: its name beside the
/// MAC computed over the nonce with the shared secret, as a text frame.
pub fn auth_reply(name: &str, secret: &str, nonce: &str) -> (r: String)
    ensures
        r@ == spec_auth_response(name@, mac_hex_of(secret@, nonce@)),
{
    let mac = compute_hmac(secret, nonce);
    encode_auth_response(name, mac.as_str())
}

/// What the agent does with one frame while it still waits for the
/// coordinator's challenge.
pub enum ClientAuthStep {
    /// The challenge arrived: answer it with `auth_reply` over this nonce.
    GotNonce { nonce: String },
    /// Anything else decodable or not: log and keep waiting.
    KeepWaiting,
    /// The coordinator closed: reconnect later.
    Disconnect,
}

/// Feeds one frame to the agent's wait for the authentication challenge.
pub fn client_auth_step(frame: Frame) -> (r: ClientAuthStep)
    ensures
        frame matches Frame::Close ==> r is Disconnect,
        (frame matches Frame::Binary(_) || frame matches Frame::Ping(_) || frame matches Frame::Pong(
            _,
        )) ==> r is KeepWaiting,
        frame matches Frame::Text(t) ==> {
            &&& (r matches ClientAuthStep::GotNonce { nonce } ==> t@ == spec_auth_challenge(
                nonce@,
            ))
            &&& forall|x: Seq<char>|
                t@ == #[trigger] spec_auth_challenge(x) ==> (
                r matches ClientAuthStep::GotNonce { nonce } && nonce@ == x)
            &&& (forall|x: Seq<char>| t@ != #[trigger] spec_auth_challenge(x)) ==> r
                is KeepWaiting
        },
{
    match frame {
        Frame::Text(t) => {
            match decode_server_message(t.as_str()) {
                Some(ServerMessage::AuthChallenge { nonce }) => ClientAuthStep::GotNonce { nonce },
                Some(ServerMessage::ScreenshotRequest { .. }) => ClientAuthStep::KeepWaiting,
                None => ClientAuthStep::KeepWaiting,
            }
        },
        Frame::Close => ClientAuthStep::Disconnect,
        _ => ClientAuthStep::KeepWaiting,
    }
}

/// What the agent does with one frame from the coordinator.
pub enum ClientAction {
    /// Drop the frame: undecodable, a duplicate challenge, or a stray
    /// binary payload.
    Ignore,
    /// Capture every screen and answer with a binary response carrying
    /// this request id.
    Capture { request_id: String },
    /// Answer a ping with a pong carrying the same payload.
    SendPong(Vec<u8>),
    /// The coordinator closed: leave the service loop and reconnect later.
    Disconnect,
}

/// Feeds one frame to the agent's service loop, once authenticated.
pub fn client_step(frame: Frame) -> (r: ClientAction)
    ensures
        frame matches Frame::Close ==> r is Disconnect,
        frame matches Frame::Ping(p) ==> (r matches ClientAction::SendPong(q) && q@ == p@),
        frame matches Frame::Pong(_) ==> r is Ignore,
        frame matches Frame::Binary(_) ==> r is Ignore,
        frame matches Frame::Text(t) ==> {
            &&& (r matches ClientAction::Capture { request_id } ==> t@ == spec_screenshot_request(
                request_id@,
            ))
            &&& forall|x: Seq<char>|
                t@ == #[trigger] spec_screenshot_request(x) ==> (
                r matches ClientAction::Capture { request_id } && request_id@ == x)
            &&& forall|x: Seq<char>| t@ == #[trigger] spec_auth_challenge(x) ==> r is Ignore
        },
{
    match frame {
        Frame::Text(t) => {
            match decode_server_message(t.as_str()) {
                Some(ServerMessage::ScreenshotRequest { request_id }) => ClientAction::Capture {
                    request_id,
                },
                Some(ServerMessage::AuthChallenge { .. }) => ClientAction::Ignore,
                None => ClientAction::Ignore,
            }
        },
        Frame::Ping(p) => ClientAction::SendPong(p),
        Frame::Close => ClientAction::Disconnect,
        _ => ClientAction::Ignore,
    }
}

/// Status of the agent's connection to the coordinator, reported to the UI.
#[derive(Debug, Clone, PartialEq, Eq, Structural)]
pub enum ConnectionStatus {
    Connecting,
    Connected,
    Disconnected,
}

/// The base reconnect delay in seconds after `attempt` consecutive failures:
/// `min(2^attempt, 60)`.
pub open spec fn backoff_base_spec(attempt: u32) -> u64 {
    if attempt >= 6 {
        60
    } else {
        (1u64 << attempt) as u64
    }
}

/// Base delay, in seconds, before the reconnect try number `attempt`
/// (counting from 0): doubles each time, capped at one minute.
pub fn backoff_base_secs(attempt: u32) -> (r: u64)
    ensures
        r == backoff_base_spec(attempt),
        1 <= r <= 60,
{
    let r: u64 = match attempt {
        0 => 1,
        1 => 2,
        2 => 4,
        3 => 8,
        4 => 16,
        5 => 32,
        _ => 60,
    };
    assert(r == backoff_base_spec(attempt) && 1 <= r <= 60) by (bit_vector)
        requires
            r == (match attempt {
                0u32 => 1u64,
                1u32 => 2,
                2u32 => 4,
                3u32 => 8,
                4u32 => 16,
                5u32 => 32,
                _ => 60,
            }),
            backoff_base_spec(attempt) == (if attempt >= 6 {
                60u64
            } else {
                (1u64 << attempt) as u64
            }),
    ;
    r
}

/// Whether screen capture is allowed without asking the operating system.
/// On platforms without a screen-recording permission dialog this always
/// holds; the platform-specific probe lives outside the verified core.
pub fn check_and_request_screen_recording_permission() -> (r: bool)
    ensures
        r,
{
    true
}

} // verus!
