use remoshot::client::auth_reply;
use remoshot::pending::DeliverOutcome;
use remoshot::session::{auth_step, serve_step, start_session, AuthStep, Frame, ServeAction};
use remoshot::state::AppState;
use remoshot::store::{image_filename, image_url};
use remoshot::text::result_json;

fn fresh_state(retention_mins: u64, secret: &str) -> AppState {
    AppState::new(retention_mins, String::from("images"), String::from(secret))
}

/// Runs the whole handshake for one agent: challenge, client reply, server
/// verification and registration.
fn connect_agent(state: &mut AppState, name: &str, secret: &str) -> u64 {
    let (client_id, nonce, challenge) = start_session(state);
    assert!(challenge.contains("auth_challenge"));
    let reply = auth_reply(name, secret, &nonce);
    match auth_step(state, client_id, &nonce, &Frame::Text(reply)) {
        AuthStep::Registered { name: registered } => assert_eq!(registered, name),
        _ => panic!("a valid MAC must register the agent"),
    }
    client_id
}

fn lookup<'a>(result: &'a [(String, Vec<String>)], key: &str) -> Option<&'a Vec<String>> {
    result.iter().find(|p| p.0 == key).map(|p| &p.1)
}

#[test]
fn happy_path_two_agents() {
    let mut state = fresh_state(60, "s3cret");
    connect_agent(&mut state, "A", "s3cret");
    connect_agent(&mut state, "B", "s3cret");

    let (msg, targets) = state.broadcast_screenshot_request("rid-1");
    assert_eq!(msg, "{\"type\":\"screenshot_request\",\"request_id\":\"rid-1\"}");
    assert_eq!(targets.len(), 2);
    assert!(state.install_pending(String::from("rid-1"), 2));

    let rid = String::from("rid-1");
    let file_a = image_filename("rid-1", "A", 0, 5);
    assert_eq!(file_a, "rid-1_A_0_5.jpg");
    let url_a = image_url(&file_a);
    assert_eq!(url_a, "/images/rid-1_A_0_5.jpg");
    let url_b = image_url(&image_filename("rid-1", "B", 0, 6));

    let first = state.deliver(&rid, &String::from("A"), vec![url_a.clone()]);
    assert!(matches!(first, DeliverOutcome::Recorded));
    let second = state.deliver(&rid, &String::from("B"), vec![url_b.clone()]);
    let completed = match second {
        DeliverOutcome::Completed(map) => map,
        _ => panic!("the second delivery must fill the barrier"),
    };

    let result = state.finish_request(&rid, Some(completed));
    assert_eq!(result.len(), 2);
    assert_eq!(lookup(&result, "A"), Some(&vec![url_a.clone()]));
    assert_eq!(lookup(&result, "B"), Some(&vec![url_b.clone()]));
    assert_eq!(
        result_json(&result),
        format!("{{\"A\":[\"{}\"],\"B\":[\"{}\"]}}", url_a, url_b)
    );
}

#[test]
fn session_opens_with_a_fresh_nonce_challenge() {
    let mut state = fresh_state(60, "s3cret");
    let (id0, nonce, challenge) = start_session(&mut state);
    assert_eq!(id0, 0);
    // The nonce is a hyphenated 128-bit identifier.
    assert_eq!(nonce.chars().count(), 36);
    assert_eq!(
        challenge,
        format!("{{\"type\":\"auth_challenge\",\"nonce\":\"{}\"}}", nonce)
    );
    // Ids are minted per connection, monotonically.
    let (id1, nonce2, _) = start_session(&mut state);
    assert_eq!(id1, 1);
    assert_ne!(nonce, nonce2);
}

#[test]
fn no_agents_yields_the_empty_map() {
    let state = fresh_state(60, "s3cret");
    let (_, targets) = state.broadcast_screenshot_request("rid-2");
    assert!(targets.is_empty());
    // With nothing to wait for, the caller answers at once with {}.
    let empty: Vec<(String, Vec<String>)> = vec![];
    assert_eq!(result_json(&empty), "{}");
}

#[test]
fn partial_timeout_keeps_the_silent_agent_as_an_empty_key() {
    let mut state = fresh_state(60, "s3cret");
    connect_agent(&mut state, "A", "s3cret");
    connect_agent(&mut state, "B", "s3cret");
    connect_agent(&mut state, "C", "s3cret");

    let rid = String::from("rid-3");
    assert!(state.install_pending(rid.clone(), 3));
    assert!(matches!(
        state.deliver(&rid, &String::from("A"), vec![String::from("/images/a.jpg")]),
        DeliverOutcome::Recorded
    ));
    assert!(matches!(
        state.deliver(&rid, &String::from("B"), vec![String::from("/images/b.jpg")]),
        DeliverOutcome::Recorded
    ));

    // The deadline fires before C answers: the partial map is taken.
    let result = state.finish_request(&rid, None);
    assert_eq!(result.len(), 3);
    assert_eq!(lookup(&result, "A"), Some(&vec![String::from("/images/a.jpg")]));
    assert_eq!(lookup(&result, "B"), Some(&vec![String::from("/images/b.jpg")]));
    assert_eq!(lookup(&result, "C"), Some(&vec![]));
}

#[test]
fn bad_mac_closes_without_registering() {
    let mut state = fresh_state(60, "s3cret");
    let (client_id, nonce, _) = start_session(&mut state);
    let forged = remoshot::text::encode_auth_response("A", "deadbeef");
    match auth_step(&mut state, client_id, &nonce, &Frame::Text(forged)) {
        AuthStep::Rejected => {},
        _ => panic!("a wrong MAC must be rejected"),
    }
    // Nothing was registered: a screenshot call sees no agents.
    let (_, targets) = state.broadcast_screenshot_request("rid-4");
    assert!(targets.is_empty());
    let result = state.finish_request(&String::from("rid-4"), None);
    assert_eq!(result_json(&result), "{}");
}

#[test]
fn late_response_is_dropped_and_stays_out_of_later_requests() {
    let mut state = fresh_state(60, "s3cret");
    connect_agent(&mut state, "A", "s3cret");

    let rid = String::from("rid-5");
    assert!(state.install_pending(rid.clone(), 1));
    // The deadline fires with nothing received.
    let result = state.finish_request(&rid, None);
    assert_eq!(result.len(), 1);
    assert_eq!(lookup(&result, "A"), Some(&vec![]));

    // The answer arrives after the entry left the table: silently dropped.
    assert!(matches!(
        state.deliver(&rid, &String::from("A"), vec![String::from("/images/late.jpg")]),
        DeliverOutcome::Dropped
    ));

    // A later, unrelated request never sees the late answer.
    let rid2 = String::from("rid-6");
    assert!(state.install_pending(rid2.clone(), 1));
    let result2 = state.finish_request(&rid2, None);
    assert_eq!(lookup(&result2, "A"), Some(&vec![]));
}

#[test]
fn retention_sweep_evicts_expired_entries() {
    let mut state = fresh_state(1, "s3cret");
    state.store_image(String::from("images/old.jpg"), 0);
    state.store_image(String::from("images/new.jpg"), 45_000);

    // At 61 s the first entry is past the one-minute retention.
    let expired = state.sweep_expired(61_000);
    assert_eq!(expired, vec![String::from("images/old.jpg")]);
    assert_eq!(state.stored_images.entries.len(), 1);
    assert_eq!(state.stored_images.entries[0].path, "images/new.jpg");

    // Before the cutoff nothing leaves.
    let none = state.sweep_expired(100_000);
    assert!(none.is_empty());
}

#[test]
fn duplicate_agent_names_overwrite_one_slot() {
    let mut state = fresh_state(60, "s3cret");
    connect_agent(&mut state, "A", "s3cret");
    connect_agent(&mut state, "A", "s3cret");

    let rid = String::from("rid-7");
    assert!(state.install_pending(rid.clone(), 2));
    assert!(matches!(
        state.deliver(&rid, &String::from("A"), vec![String::from("/images/first.jpg")]),
        DeliverOutcome::Recorded
    ));
    // The same name again: last write wins, the barrier does not fill.
    assert!(matches!(
        state.deliver(&rid, &String::from("A"), vec![String::from("/images/second.jpg")]),
        DeliverOutcome::Recorded
    ));
    let result = state.finish_request(&rid, None);
    // One key for the shared name, carrying the later answer.
    assert_eq!(result.len(), 1);
    assert_eq!(lookup(&result, "A"), Some(&vec![String::from("/images/second.jpg")]));
}

#[test]
fn completion_fires_exactly_once() {
    let mut state = fresh_state(60, "s3cret");
    connect_agent(&mut state, "A", "s3cret");
    let rid = String::from("rid-8");
    assert!(state.install_pending(rid.clone(), 1));
    assert!(matches!(
        state.deliver(&rid, &String::from("A"), vec![]),
        DeliverOutcome::Completed(_)
    ));
    // A repeated answer from the same agent updates its slot but cannot
    // fire the signal again.
    assert!(matches!(
        state.deliver(&rid, &String::from("A"), vec![String::from("/images/again.jpg")]),
        DeliverOutcome::Recorded
    ));
    // An answer from a name the barrier never expected is dropped once the
    // barrier is full.
    assert!(matches!(
        state.deliver(&rid, &String::from("B"), vec![]),
        DeliverOutcome::Dropped
    ));
}

#[test]
fn unregister_removes_exactly_that_agent() {
    let mut state = fresh_state(60, "s3cret");
    let id_a = connect_agent(&mut state, "A", "s3cret");
    connect_agent(&mut state, "B", "s3cret");
    state.unregister_client(id_a);
    let (_, targets) = state.broadcast_screenshot_request("rid-9");
    assert_eq!(targets.len(), 1);
    // Removing it again changes nothing.
    state.unregister_client(id_a);
    assert_eq!(state.clients.entries.len(), 1);
    assert_eq!(state.clients.entries[0].name, "B");
}

#[test]
fn an_agent_that_answered_keeps_its_key_after_disconnecting() {
    let mut state = fresh_state(60, "s3cret");
    let id_a = connect_agent(&mut state, "A", "s3cret");
    connect_agent(&mut state, "B", "s3cret");

    let rid = String::from("rid-11");
    assert!(state.install_pending(rid.clone(), 2));
    assert!(matches!(
        state.deliver(&rid, &String::from("A"), vec![String::from("/images/a.jpg")]),
        DeliverOutcome::Recorded
    ));
    // A's session ends before the deadline; its answer stays in the map.
    state.unregister_client(id_a);
    let result = state.finish_request(&rid, None);
    assert_eq!(result.len(), 2);
    assert_eq!(lookup(&result, "A"), Some(&vec![String::from("/images/a.jpg")]));
    assert_eq!(lookup(&result, "B"), Some(&vec![]));
}

#[test]
fn expected_count_is_frozen_at_broadcast_time() {
    let mut state = fresh_state(60, "s3cret");
    connect_agent(&mut state, "A", "s3cret");
    connect_agent(&mut state, "B", "s3cret");

    let rid = String::from("rid-12");
    assert!(state.install_pending(rid.clone(), 2));
    // An agent that connects after the broadcast neither raises the bar
    // nor can it prematurely satisfy it.
    connect_agent(&mut state, "C", "s3cret");
    assert!(matches!(
        state.deliver(&rid, &String::from("A"), vec![]),
        DeliverOutcome::Recorded
    ));
    let completed = match state.deliver(&rid, &String::from("B"), vec![]) {
        DeliverOutcome::Completed(map) => map,
        _ => panic!("the frozen count of two must fill with two answers"),
    };
    // The late joiner still appears in the final map, with an empty list.
    let result = state.finish_request(&rid, Some(completed));
    assert_eq!(result.len(), 3);
    assert_eq!(lookup(&result, "C"), Some(&vec![]));
}

#[test]
fn serve_step_dispatches_frames() {
    match serve_step(Frame::Ping(vec![1, 2])) {
        ServeAction::SendPong(p) => assert_eq!(p, vec![1, 2]),
        _ => panic!("a ping must be answered with a pong"),
    }
    assert!(matches!(serve_step(Frame::Close), ServeAction::Disconnect));
    assert!(matches!(serve_step(Frame::Pong(vec![])), ServeAction::Ignore));
    // Text screenshot responses are not accepted; only binary ones are.
    let text = String::from("{\"type\":\"auth_response\",\"name\":\"A\",\"hmac\":\"x\"}");
    assert!(matches!(serve_step(Frame::Text(text)), ServeAction::Ignore));
    let shots = vec![remoshot::messages::ScreenshotData { monitor: 3, data: vec![8] }];
    let bytes = remoshot::binary::encode_screenshot_response("rid-10", &shots);
    match serve_step(Frame::Binary(bytes)) {
        ServeAction::Response { request_id, screenshots } => {
            assert_eq!(request_id, "rid-10");
            assert_eq!(screenshots.len(), 1);
            assert_eq!(screenshots[0].monitor, 3);
        },
        _ => panic!("a canonical binary response must be handed on"),
    }
    assert!(matches!(serve_step(Frame::Binary(vec![9, 9])), ServeAction::Ignore));
}
