//! The per-connection agent session, as decision steps over incoming
//! frames: the challenge sent on accept, the wait for a valid
//! authentication response, and the registered service phase.  The socket
//! reads and writes between the steps happen outside.

use vstd::prelude::*;

use crate::auth::mac_matches;
use crate::auth::verify_hmac;
use crate::messages::ScreenshotData;
use crate::messages::ServerMessage;
use crate::state::AppState;
use crate::text::decode_auth_response;
use crate::text::encode_server_message;
use crate::text::spec_auth_challenge;
use crate::text::spec_auth_response;

verus! {

/// One frame received from (or addressed to) a peer.
pub enum Frame {
    Text(String),
    Binary(Vec<u8>),
    Ping(Vec<u8>),
    Pong(Vec<u8>),
    Close,
}

/// Relies on `uuid::Uuid::new_v4` and its `Display` form: a fresh random
/// 128-bit identifier rendered as the 36-character hyphenated lowercase
/// hex string.  Two calls may differ; only the length is promised.
#[verifier::external_body]
pub(crate) fn fresh_uuid() -> (r: String)
    ensures
        r@.len() == 36,
{
    uuid::Uuid::new_v4().to_string()
}

/// Opens a session: mints the connection's client id and nonce and builds
/// the challenge frame that is sent immediately after accept.
pub fn start_session(state: &mut AppState) -> (r: (u64, String, String))
    requires
        old(state).wf(),
        old(state).clients.next_client_id < u64::MAX,
    ensures
        final(state).wf(),
        final(state).clients.entries@ == old(state).clients.entries@,
        final(state).clients.next_client_id == old(state).clients.next_client_id + 1,
        final(state).pending_requests == old(state).pending_requests,
        final(state).stored_images == old(state).stored_images,
        old(state).same_config(final(state)),
        r.0 == old(state).clients.next_client_id,
        !final(state).clients.contains_id(r.0),
        r.2@ == spec_auth_challenge(r.1@),
{
    let client_id = state.next_id();
    let nonce = fresh_uuid();
    let challenge = encode_server_message(&ServerMessage::AuthChallenge { nonce: nonce.clone() });
    (client_id, nonce, challenge)
}

/// What one frame did to a session still waiting for authentication.
pub enum AuthStep {
    /// Not an authentication response: the frame is dropped and the wait
    /// goes on.
    KeepWaiting,
    /// A well-formed response with the right MAC: the agent is now
    /// registered under this session's client id.
    Registered { name: String },
    /// A well-formed response with a wrong MAC: close without registering.
    Rejected,
    /// The peer closed (or the transport failed): end silently.
    Closed,
}

/// Feeds one frame to a session awaiting authentication.  Exactly a text
/// frame carrying the canonical authentication response decides the wait:
/// the right MAC registers the agent, any other MAC rejects the session.
pub fn auth_step(state: &mut AppState, client_id: u64, nonce: &str, frame: &Frame) -> (r: AuthStep)
    requires
        old(state).wf(),
        !old(state).clients.contains_id(client_id),
        client_id < old(state).clients.next_client_id,
    ensures
        final(state).wf(),
        final(state).pending_requests == old(state).pending_requests,
        final(state).stored_images == old(state).stored_images,
        old(state).same_config(final(state)),
        final(state).clients.next_client_id == old(state).clients.next_client_id,
        frame matches Frame::Close ==> r is Closed,
        (frame matches Frame::Binary(_) || frame matches Frame::Ping(_) || frame matches Frame::Pong(
            _,
        )) ==> r is KeepWaiting,
        r matches AuthStep::Registered { name } ==> final(state).clients.entries@ == old(
            state,
        ).clients.entries@.push(
            crate::registry::ConnectedClient { id: client_id, name: name },
        ),
        !(r is Registered) ==> final(state).clients.entries@ == old(state).clients.entries@,
        frame matches Frame::Text(t) ==> {
            &&& forall|x: Seq<char>, y: Seq<char>|
                t@ == #[trigger] spec_auth_response(x, y) ==> if mac_matches(
                    old(state).secret_key@,
                    nonce@,
                    y,
                ) {
                    r matches AuthStep::Registered { name } && name@ == x
                } else {
                    r is Rejected
                }
            &&& (forall|x: Seq<char>, y: Seq<char>| t@ != #[trigger] spec_auth_response(x, y))
                ==> r is KeepWaiting
        },
{
    match frame {
        Frame::Text(t) => {
            match decode_auth_response(t.as_str()) {
                Some((name, mac)) => {
                    let secret = state.secret_key.clone();
                    if verify_hmac(secret.as_str(), nonce, mac.as_str()) {
                        state.register_client(client_id, name.clone());
                        AuthStep::Registered { name }
                    } else {
                        AuthStep::Rejected
                    }
                },
                None => AuthStep::KeepWaiting,
            }
        },
        Frame::Close => AuthStep::Closed,
        _ => AuthStep::KeepWaiting,
    }
}

/// What a registered session does with one inbound frame.
pub enum ServeAction {
    /// Drop the frame: an undecodable payload, a text frame where only the
    /// binary response form is accepted, or a pong.
    Ignore,
    /// Answer a ping with a pong carrying the same payload.
    SendPong(Vec<u8>),
    /// A binary screenshot response, handed on to the response path.
    Response { request_id: String, screenshots: Vec<ScreenshotData> },
    /// The peer closed (or the transport failed): unregister and end.
    Disconnect,
}

/// Feeds one frame to a registered session.  Screenshot responses are
/// accepted in their binary form only; everything else text is logged
/// territory and dropped without closing the session.
pub fn serve_step(frame: Frame) -> (r: ServeAction)
    ensures
        frame matches Frame::Close ==> r is Disconnect,
        frame matches Frame::Ping(p) ==> (r matches ServeAction::SendPong(q) && q@ == p@),
        frame matches Frame::Pong(_) ==> r is Ignore,
        frame matches Frame::Text(_) ==> r is Ignore,
        frame matches Frame::Binary(b) ==> {
            &&& (r matches ServeAction::Response { request_id, screenshots } ==> b@
                == crate::binary::spec_screenshot_response(
                request_id@,
                crate::messages::shots_view(screenshots@),
            ))
            &&& forall|rid: Seq<char>, shots: Seq<(u32, Seq<u8>)>|
                b@ == #[trigger] crate::binary::spec_screenshot_response(rid, shots) ==> (
                r matches ServeAction::Response { request_id, screenshots } && request_id@ == rid
                    && crate::messages::shots_view(screenshots@) == shots)
        },
{
    match frame {
        Frame::Text(_) => ServeAction::Ignore,
        Frame::Binary(b) => {
            match crate::binary::decode_screenshot_response(b.as_slice()) {
                Some((request_id, screenshots)) => ServeAction::Response { request_id, screenshots },
                None => ServeAction::Ignore,
            }
        },
        Frame::Ping(p) => ServeAction::SendPong(p),
        Frame::Pong(_) => ServeAction::Ignore,
        Frame::Close => ServeAction::Disconnect,
    }
}

} // verus!
