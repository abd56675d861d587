//! The keyed-MAC authenticator: a lowercase hex-encoded HMAC-SHA-256 over a
//! server-issued nonce, keyed by the shared secret.  The MAC computation
//! itself comes from the `hmac` and `sha2` crates; everything around it is
//! verified against the name given to their result.

use vstd::prelude::*;

use crate::strutil::hex_of;
use vstd::string::StringSliceAdditionalSpecFns;
use vstd::utf8::encode_utf8;

verus! {

/// The HMAC-SHA-256 tag of `msg` keyed by `key`.  The tag is a pure function
/// of the two byte sequences; its value is given only by the `hmac` crate.
pub uninterp spec fn hmac_sha256(key: Seq<u8>, msg: Seq<u8>) -> Seq<u8>;

/// Relies on `Hmac<Sha256>` of the `hmac` crate (with the `sha2` hash): the
/// 32-byte HMAC-SHA-256 tag of `msg` keyed by `key`, a function of the two
/// arguments alone.  `new_from_slice` accepts keys of any length for HMAC.
#[verifier::external_body]
fn hmac_sha256_tag(key: &[u8], msg: &[u8]) -> (r: Vec<u8>)
    ensures
        r@ == hmac_sha256(key@, msg@),
        r@.len() == 32,
{
    let mut mac = <hmac::Hmac<sha2::Sha256> as hmac::KeyInit>::new_from_slice(key)
        .expect("HMAC accepts keys of any length");
    hmac::Mac::update(&mut mac, msg);
    hmac::Mac::finalize(mac).into_bytes().to_vec()
}

/// Relies on `hex::encode`: two lowercase hex digits per byte, high nibble
/// first.
#[verifier::external_body]
pub(crate) fn hex_encode(b: &[u8]) -> (r: String)
    ensures
        r@ == hex_of(b@),
{
    hex::encode(b)
}

/// The MAC string an agent must present for a given secret and nonce: the
/// lowercase hex rendering of the HMAC-SHA-256 tag of the nonce's UTF-8
/// bytes, keyed by the secret's UTF-8 bytes.
pub open spec fn mac_hex_of(secret: Seq<char>, nonce: Seq<char>) -> Seq<char> {
    hex_of(hmac_sha256(encode_utf8(secret), encode_utf8(nonce)))
}

/// Whether a presented MAC string is the right one for this secret and nonce.
pub open spec fn mac_matches(secret: Seq<char>, nonce: Seq<char>, mac: Seq<char>) -> bool {
    mac == mac_hex_of(secret, nonce)
}

/// Computes the MAC an agent presents during authentication.
pub fn compute_hmac(secret: &str, nonce: &str) -> (r: String)
    ensures
        r@ == mac_hex_of(secret@, nonce@),
        r@.len() == 64,
{
    let tag = hmac_sha256_tag(secret.as_bytes(), nonce.as_bytes());
    hex_encode(tag.as_slice())
}

/// Recomputes the MAC for this secret and nonce and compares it with the
/// presented one; true exactly when they agree.
pub fn verify_hmac(secret: &str, nonce: &str, hmac_hex: &str) -> (r: bool)
    ensures
        r == mac_matches(secret@, nonce@, hmac_hex@),
{
    let expected = compute_hmac(secret, nonce);
    expected == hmac_hex.to_owned()
}

/// A MAC computed with the right secret and nonce always verifies, and for a
/// given secret and nonce every other MAC string is rejected.
pub proof fn lemma_mac_round_trip(secret: Seq<char>, nonce: Seq<char>, mac: Seq<char>)
    ensures
        mac_matches(secret, nonce, mac_hex_of(secret, nonce)),
        mac != mac_hex_of(secret, nonce) ==> !mac_matches(secret, nonce, mac),
{
}

} // verus!
