use remoshot::client::{
    auth_reply, backoff_base_secs, check_and_request_screen_recording_permission, client_step,
    ClientAction, Config, ConnectionStatus,
};
use remoshot::log_buffer::{format_log_line, LogBuffer};
use remoshot::session::Frame;
use remoshot::strutil::u64_to_string;

#[test]
fn auth_reply_carries_the_computed_mac() {
    let s = auth_reply("A", "s3cret", "n1");
    assert_eq!(
        s,
        "{\"type\":\"auth_response\",\"name\":\"A\",\"hmac\":\"760576ac94c64827c45bf4f25254b2e2c142eb12b381246e8c3520cbc6d977c9\"}"
    );
}

#[test]
fn client_step_captures_on_request() {
    let text = String::from("{\"type\":\"screenshot_request\",\"request_id\":\"rid-a\"}");
    match client_step(Frame::Text(text)) {
        ClientAction::Capture { request_id } => assert_eq!(request_id, "rid-a"),
        _ => panic!("a screenshot request must start a capture"),
    }
}

#[test]
fn client_step_ignores_what_it_must() {
    // A duplicate challenge after authentication is dropped.
    let dup = String::from("{\"type\":\"auth_challenge\",\"nonce\":\"n\"}");
    assert!(matches!(client_step(Frame::Text(dup)), ClientAction::Ignore));
    // Undecodable text is dropped without closing.
    assert!(matches!(
        client_step(Frame::Text(String::from("garbage"))),
        ClientAction::Ignore
    ));
    assert!(matches!(client_step(Frame::Binary(vec![1])), ClientAction::Ignore));
    assert!(matches!(client_step(Frame::Pong(vec![])), ClientAction::Ignore));
    match client_step(Frame::Ping(vec![5])) {
        ClientAction::SendPong(p) => assert_eq!(p, vec![5]),
        _ => panic!("a ping must be answered with a pong"),
    }
    assert!(matches!(client_step(Frame::Close), ClientAction::Disconnect));
}

#[test]
fn backoff_doubles_up_to_one_minute() {
    assert_eq!(backoff_base_secs(0), 1);
    assert_eq!(backoff_base_secs(1), 2);
    assert_eq!(backoff_base_secs(2), 4);
    assert_eq!(backoff_base_secs(3), 8);
    assert_eq!(backoff_base_secs(4), 16);
    assert_eq!(backoff_base_secs(5), 32);
    assert_eq!(backoff_base_secs(6), 60);
    assert_eq!(backoff_base_secs(100), 60);
}

#[test]
fn default_config_points_at_the_local_coordinator() {
    let c = Config::default();
    assert_eq!(c.server_addr, "ws://127.0.0.1:8283/ws");
    assert_eq!(c.machine_name, "unknown");
    assert_eq!(c.secret_key, "");
}

#[test]
fn connection_status_values_compare() {
    assert_eq!(ConnectionStatus::Connected, ConnectionStatus::Connected);
    assert_ne!(ConnectionStatus::Connecting, ConnectionStatus::Disconnected);
}

#[test]
fn permission_probe_passes_without_a_dialog() {
    assert!(check_and_request_screen_recording_permission());
}

#[test]
fn log_buffer_drops_the_oldest_line() {
    let mut buf = LogBuffer::new(2);
    buf.push(String::from("a"));
    buf.push(String::from("b"));
    assert_eq!(buf.snapshot(), "a\nb");
    buf.push(String::from("c"));
    assert_eq!(buf.snapshot(), "b\nc");
    buf.clear();
    assert_eq!(buf.snapshot(), "");
}

#[test]
fn log_line_format_matches_the_window() {
    let no_fields: Vec<String> = vec![];
    assert_eq!(
        format_log_line("12:00:01", "INFO", "agent", "connected", &no_fields),
        "[12:00:01 INFO agent] connected"
    );
    let fields = vec![String::from("id=3"), String::from("try=1")];
    assert_eq!(
        format_log_line("12:00:02", "WARN", "agent", "retry", &fields),
        "[12:00:02 WARN agent] retry id=3 try=1"
    );
}

#[test]
fn decimal_rendering_is_exact() {
    assert_eq!(u64_to_string(0), "0");
    assert_eq!(u64_to_string(7), "7");
    assert_eq!(u64_to_string(1234567890), "1234567890");
    assert_eq!(u64_to_string(u64::MAX), "18446744073709551615");
}
