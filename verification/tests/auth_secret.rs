use remoshot::auth::{compute_hmac, verify_hmac};
use remoshot::secret::{generate_secret, secret_from_contents, secret_key_path};

#[test]
fn hmac_known_answer() {
    assert_eq!(
        compute_hmac("s3cret", "n1"),
        "760576ac94c64827c45bf4f25254b2e2c142eb12b381246e8c3520cbc6d977c9"
    );
    assert_eq!(
        compute_hmac("s3cret", "n2"),
        "564afba6dfd7c8779207919c17a79f31b27438342c874e9239d5e5793972d6a6"
    );
    assert_eq!(
        compute_hmac("k", "abc"),
        "342e519ce0ad6c03a36b98eeb3f1d130db4813b9df4d1160eda488d712dc78ee"
    );
}

#[test]
fn verify_accepts_the_computed_mac() {
    let mac = compute_hmac("s3cret", "n1");
    assert!(verify_hmac("s3cret", "n1", &mac));
}

#[test]
fn verify_rejects_any_change() {
    let mac = compute_hmac("s3cret", "n1");
    // A different MAC string.
    let mut flipped = mac.clone().into_bytes();
    flipped[0] ^= 1;
    let flipped = String::from_utf8(flipped).unwrap();
    assert!(!verify_hmac("s3cret", "n1", &flipped));
    // A different secret.
    assert!(!verify_hmac("s3creT", "n1", &mac));
    // A different nonce.
    assert!(!verify_hmac("s3cret", "n2", &mac));
    // A plainly wrong MAC.
    assert!(!verify_hmac("s3cret", "n1", "deadbeef"));
}

#[test]
fn generated_secret_is_64_hex_digits() {
    let s = generate_secret();
    assert_eq!(s.len(), 64);
    assert!(s.chars().all(|c| c.is_ascii_hexdigit() && !c.is_ascii_uppercase()));
    // Two fresh secrets almost surely differ.
    assert_ne!(s, generate_secret());
}

#[test]
fn secret_file_contents_are_trimmed() {
    assert_eq!(secret_from_contents("  abc\n"), Some(String::from("abc")));
    assert_eq!(secret_from_contents("abc"), Some(String::from("abc")));
    assert_eq!(secret_from_contents("\ta b\r\n"), Some(String::from("a b")));
    assert_eq!(secret_from_contents(""), None);
    assert_eq!(secret_from_contents("  \n\t"), None);
}

#[test]
fn secret_path_is_fixed() {
    assert_eq!(secret_key_path(), "secret.key");
}
