//! The coordinator-wide shared secret: where it is persisted, how a fresh
//! one is generated, and how a persisted one is validated.  Reading and
//! writing the file happens outside the verified core.

use vstd::prelude::*;

use crate::auth::hex_encode;
use crate::strutil::hex_of;
use vstd::string::StrSliceExecFns;
use vstd::string::StringExecFns;

verus! {

/// The file the hex-encoded secret is persisted in, next to the working
/// directory.
pub fn secret_key_path() -> (r: String)
    ensures
        r@ == "secret.key"@,
{
    String::from_str("secret.key")
}

/// Relies on `rand::random`: 32 bytes from the thread-local generator.
/// Nothing but the length holds of every outcome.
#[verifier::external_body]
fn random_bytes_32() -> (r: Vec<u8>)
    ensures
        r@.len() == 32,
{
    let b: [u8; 32] = rand::random();
    b.to_vec()
}

/// A fresh secret: 32 random bytes, rendered as 64 lowercase hex digits.
pub fn generate_secret() -> (r: String)
    ensures
        r@.len() == 64,
        exists|b: Seq<u8>| b.len() == 32 && r@ == hex_of(b),
{
    let bytes = random_bytes_32();
    let r = hex_encode(bytes.as_slice());
    proof {
        assert(bytes@.len() == 32 && r@ == hex_of(bytes@));
    }
    r
}

/// Whether a character counts as whitespace for trimming: the Unicode
/// White_Space characters, as std's `char::is_whitespace` recognises them.
pub open spec fn is_ws(c: char) -> bool {
    c == '\t' || c == '\n' || c == '\u{b}' || c == '\u{c}' || c == '\r' || c == ' ' || c == '\u{85}'
        || c == '\u{a0}' || c == '\u{1680}' || c == '\u{2000}' || c == '\u{2001}' || c == '\u{2002}'
        || c == '\u{2003}' || c == '\u{2004}' || c == '\u{2005}' || c == '\u{2006}' || c
        == '\u{2007}' || c == '\u{2008}' || c == '\u{2009}' || c == '\u{200a}' || c == '\u{2028}'
        || c == '\u{2029}' || c == '\u{202f}' || c == '\u{205f}' || c == '\u{3000}'
}

/// The input without leading whitespace.
pub open spec fn trim_front(s: Seq<char>) -> Seq<char>
    decreases s.len(),
{
    if s.len() > 0 && is_ws(s[0]) {
        trim_front(s.drop_first())
    } else {
        s
    }
}

/// The input without trailing whitespace.
pub open spec fn trim_back(s: Seq<char>) -> Seq<char>
    decreases s.len(),
{
    if s.len() > 0 && is_ws(s.last()) {
        trim_back(s.drop_last())
    } else {
        s
    }
}

/// The input without leading and trailing whitespace.
pub open spec fn trimmed(s: Seq<char>) -> Seq<char> {
    trim_back(trim_front(s))
}

/// Skipping a run of leading whitespace computes `trim_front`.
proof fn lemma_trim_front_at(s: Seq<char>, i: int)
    requires
        0 <= i <= s.len(),
        forall|j: int| 0 <= j < i ==> is_ws(s[j]),
        i == s.len() || !is_ws(s[i]),
    ensures
        trim_front(s) == s.skip(i),
    decreases i,
{
    if i == 0 {
        assert(s.skip(0) =~= s);
    } else {
        assert(is_ws(s[0]));
        lemma_trim_front_at(s.drop_first(), i - 1);
        assert(s.drop_first().skip(i - 1) =~= s.skip(i));
    }
}

/// Dropping a run of trailing whitespace computes `trim_back`.
proof fn lemma_trim_back_at(s: Seq<char>, i: int)
    requires
        0 <= i <= s.len(),
        forall|j: int| i <= j < s.len() ==> is_ws(s[j]),
        i == 0 || !is_ws(s[i - 1]),
    ensures
        trim_back(s) == s.take(i),
    decreases s.len() - i,
{
    if i == s.len() {
        assert(s.take(i) =~= s);
    } else {
        assert(is_ws(s.last()));
        lemma_trim_back_at(s.drop_last(), i);
        assert(s.drop_last().take(i) =~= s.take(i));
    }
}

/// Whether a character counts as whitespace, decided in code.
fn is_ws_char(c: char) -> (r: bool)
    ensures
        r == is_ws(c),
{
    c == '\t' || c == '\n' || c == '\u{b}' || c == '\u{c}' || c == '\r' || c == ' ' || c == '\u{85}'
        || c == '\u{a0}' || c == '\u{1680}' || c == '\u{2000}' || c == '\u{2001}' || c == '\u{2002}'
        || c == '\u{2003}' || c == '\u{2004}' || c == '\u{2005}' || c == '\u{2006}' || c
        == '\u{2007}' || c == '\u{2008}' || c == '\u{2009}' || c == '\u{200a}' || c == '\u{2028}'
        || c == '\u{2029}' || c == '\u{202f}' || c == '\u{205f}' || c == '\u{3000}'
}

/// Validates the contents of a persisted secret file: the secret is the
/// contents with surrounding whitespace trimmed, and an effectively empty
/// file yields nothing (a fresh secret is generated instead).
pub fn secret_from_contents(contents: &str) -> (r: Option<String>)
    ensures
        r matches Some(t) ==> t@ == trimmed(contents@) && t@.len() > 0,
        r is None ==> trimmed(contents@).len() == 0,
{
    let n = contents.unicode_len();
    let mut start: usize = 0;
    while start < n && is_ws_char(contents.get_char(start))
        invariant
            n == contents@.len(),
            start <= n,
            forall|j: int| 0 <= j < start ==> is_ws(contents@[j]),
        decreases n - start,
    {
        start = start + 1;
    }
    proof {
        lemma_trim_front_at(contents@, start as int);
    }
    if start == n {
        proof {
            assert(contents@.skip(start as int).len() == 0);
            assert(trim_back(trim_front(contents@)) == trim_front(contents@));
        }
        return None;
    }
    let mut end: usize = n;
    while end > start && is_ws_char(contents.get_char(end - 1))
        invariant
            n == contents@.len(),
            start <= end <= n,
            forall|j: int| end <= j < n ==> is_ws(contents@[j]),
            !is_ws(contents@[start as int]),
        decreases end,
    {
        end = end - 1;
    }
    proof {
        let front = contents@.skip(start as int);
        assert(front[0] == contents@[start as int]);
        assert(end > start);
        assert forall|j: int| end - start <= j < front.len() implies is_ws(front[j]) by {
            assert(front[j] == contents@[j + start]);
        }
        assert(!is_ws(front[end - start - 1]));
        lemma_trim_back_at(front, end - start);
        assert(trimmed(contents@) == front.take(end - start));
        assert(front.take(end - start) =~= contents@.subrange(start as int, end as int));
    }
    let t = contents.substring_char(start, end);
    Some(t.to_owned())
}

} // verus!
