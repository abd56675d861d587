use remoshot::binary::{decode_screenshot_response, encode_screenshot_response};
use remoshot::messages::{ScreenshotData, ServerMessage};
use remoshot::text::{
    decode_auth_response, decode_server_message, encode_auth_response, encode_server_message,
    result_json,
};

#[test]
fn auth_challenge_encodes_canonically() {
    let m = ServerMessage::AuthChallenge { nonce: String::from("n1") };
    let s = encode_server_message(&m);
    assert_eq!(s, "{\"type\":\"auth_challenge\",\"nonce\":\"n1\"}");
}

#[test]
fn screenshot_request_encodes_canonically() {
    let m = ServerMessage::ScreenshotRequest { request_id: String::from("req-7") };
    let s = encode_server_message(&m);
    assert_eq!(s, "{\"type\":\"screenshot_request\",\"request_id\":\"req-7\"}");
}

#[test]
fn auth_response_encodes_canonically() {
    let s = encode_auth_response("A", "deadbeef");
    assert_eq!(s, "{\"type\":\"auth_response\",\"name\":\"A\",\"hmac\":\"deadbeef\"}");
}

#[test]
fn text_round_trip_auth_challenge() {
    let m = ServerMessage::AuthChallenge { nonce: String::from("x\"y\\z") };
    let s = encode_server_message(&m);
    match decode_server_message(&s) {
        Some(ServerMessage::AuthChallenge { nonce }) => assert_eq!(nonce, "x\"y\\z"),
        _ => panic!("expected an auth challenge"),
    }
}

#[test]
fn text_round_trip_screenshot_request() {
    let m = ServerMessage::ScreenshotRequest { request_id: String::from("id-1") };
    let s = encode_server_message(&m);
    match decode_server_message(&s) {
        Some(ServerMessage::ScreenshotRequest { request_id }) => assert_eq!(request_id, "id-1"),
        _ => panic!("expected a screenshot request"),
    }
}

#[test]
fn text_round_trip_auth_response_with_escapes() {
    let name = "a\"b\\c\nd\u{1}e";
    let s = encode_auth_response(name, "m");
    assert_eq!(
        s,
        "{\"type\":\"auth_response\",\"name\":\"a\\\"b\\\\c\\nd\\u0001e\",\"hmac\":\"m\"}"
    );
    let (n, mac) = decode_auth_response(&s).expect("canonical form must decode");
    assert_eq!(n, name);
    assert_eq!(mac, "m");
}

#[test]
fn decode_then_encode_gives_back_the_input() {
    let inputs = [
        "{\"type\":\"auth_challenge\",\"nonce\":\"n1\"}",
        "{\"type\":\"screenshot_request\",\"request_id\":\"r\\t2\"}",
    ];
    for input in inputs {
        let m = decode_server_message(input).expect("canonical form must decode");
        assert_eq!(encode_server_message(&m), input);
    }
    let ar = "{\"type\":\"auth_response\",\"name\":\"A\",\"hmac\":\"00ff\"}";
    let (n, mac) = decode_auth_response(ar).expect("canonical form must decode");
    assert_eq!(encode_auth_response(&n, &mac), ar);
}

#[test]
fn strict_decoder_rejects_non_canonical_text() {
    // Trailing content after the closing brace.
    assert!(decode_server_message("{\"type\":\"auth_challenge\",\"nonce\":\"n\"} ").is_none());
    // Whitespace inside the frame.
    assert!(decode_server_message("{\"type\": \"auth_challenge\",\"nonce\":\"n\"}").is_none());
    // An unescaped control character inside the string.
    assert!(decode_auth_response("{\"type\":\"auth_response\",\"name\":\"a\nb\",\"hmac\":\"m\"}")
        .is_none());
    // A hex escape for a character the encoder writes literally.
    assert!(decode_auth_response(
        "{\"type\":\"auth_response\",\"name\":\"\\u0041\",\"hmac\":\"m\"}"
    )
    .is_none());
    // A hex escape for a character that has a short escape.
    assert!(decode_auth_response(
        "{\"type\":\"auth_response\",\"name\":\"\\u000a\",\"hmac\":\"m\"}"
    )
    .is_none());
    // An unknown escape.
    assert!(decode_auth_response("{\"type\":\"auth_response\",\"name\":\"\\x\",\"hmac\":\"m\"}")
        .is_none());
    // A different message kind.
    assert!(decode_auth_response("{\"type\":\"auth_challenge\",\"nonce\":\"n\"}").is_none());
}

#[test]
fn binary_round_trip_two_screenshots() {
    let shots = vec![
        ScreenshotData { monitor: 0, data: vec![1, 2, 3] },
        ScreenshotData { monitor: 7, data: vec![] },
    ];
    let bytes = encode_screenshot_response("req-9", &shots);
    let (rid, decoded) = decode_screenshot_response(&bytes).expect("canonical frame must decode");
    assert_eq!(rid, "req-9");
    assert_eq!(decoded.len(), 2);
    assert_eq!(decoded[0].monitor, 0);
    assert_eq!(decoded[0].data, vec![1, 2, 3]);
    assert_eq!(decoded[1].monitor, 7);
    assert!(decoded[1].data.is_empty());
}

#[test]
fn binary_round_trip_empty_and_unicode() {
    let shots: Vec<ScreenshotData> = vec![];
    let bytes = encode_screenshot_response("id-\u{e9}\u{4e16}", &shots);
    let (rid, decoded) = decode_screenshot_response(&bytes).expect("canonical frame must decode");
    assert_eq!(rid, "id-\u{e9}\u{4e16}");
    assert!(decoded.is_empty());
}

#[test]
fn binary_decoder_rejects_damaged_frames() {
    let shots = vec![ScreenshotData { monitor: 1, data: vec![9] }];
    let good = encode_screenshot_response("r", &shots);
    assert!(decode_screenshot_response(&good).is_some());

    let mut wrong_kind = good.clone();
    wrong_kind[0] = 2;
    assert!(decode_screenshot_response(&wrong_kind).is_none());

    let truncated = &good[..good.len() - 1];
    assert!(decode_screenshot_response(truncated).is_none());

    let mut padded = good.clone();
    padded.push(0);
    assert!(decode_screenshot_response(&padded).is_none());

    assert!(decode_screenshot_response(&[]).is_none());
}

#[test]
fn result_json_renders_the_map() {
    let result: Vec<(String, Vec<String>)> = vec![
        (String::from("A"), vec![String::from("/images/a_0.jpg")]),
        (String::from("B"), vec![]),
    ];
    assert_eq!(result_json(&result), "{\"A\":[\"/images/a_0.jpg\"],\"B\":[]}");
    let empty: Vec<(String, Vec<String>)> = vec![];
    assert_eq!(result_json(&empty), "{}");
}
