//! The binary form of a screenshot response: a compact length-prefixed
//! framing, used because of the embedded image bytes.  A leading kind byte
//! is followed by the UTF-8 request id and the screenshot list, every
//! variable-length part preceded by its length.  As with the text form,
//! the encoder produces exactly one rendering and the decoder accepts
//! exactly that rendering.

use vstd::prelude::*;

use crate::messages::shots_view;
use crate::messages::ScreenshotData;
use vstd::string::StringSliceAdditionalSpecFns;
use vstd::utf8::decode_utf8;
use vstd::utf8::encode_utf8;
use vstd::utf8::valid_utf8;

verus! {

/// The kind byte that opens a binary screenshot response.
pub open spec fn response_kind_byte() -> u8 {
    1
}

/// Big-endian rendering of a 64-bit length.
pub open spec fn u64_be(n: u64) -> Seq<u8> {
    seq![
        (n >> 56) as u8,
        (n >> 48) as u8,
        (n >> 40) as u8,
        (n >> 32) as u8,
        (n >> 24) as u8,
        (n >> 16) as u8,
        (n >> 8) as u8,
        n as u8,
    ]
}

/// Big-endian rendering of a 32-bit monitor index.
pub open spec fn u32_be(n: u32) -> Seq<u8> {
    seq![(n >> 24) as u8, (n >> 16) as u8, (n >> 8) as u8, n as u8]
}

/// The 64-bit value behind eight big-endian bytes.
pub open spec fn from_u64_be(b: Seq<u8>) -> u64
    recommends
        b.len() == 8,
{
    ((b[0] as u64) << 56) | ((b[1] as u64) << 48) | ((b[2] as u64) << 40) | ((b[3] as u64) << 32)
        | ((b[4] as u64) << 24) | ((b[5] as u64) << 16) | ((b[6] as u64) << 8) | (b[7] as u64)
}

/// The 32-bit value behind four big-endian bytes.
pub open spec fn from_u32_be(b: Seq<u8>) -> u32
    recommends
        b.len() == 4,
{
    ((b[0] as u32) << 24) | ((b[1] as u32) << 16) | ((b[2] as u32) << 8) | (b[3] as u32)
}

/// Eight big-endian bytes carry their value and nothing else: rendering and
/// reading are mutually inverse.
pub proof fn lemma_u64_be_inverse(n: u64, b: Seq<u8>)
    requires
        b.len() == 8,
    ensures
        from_u64_be(u64_be(n)) == n,
        u64_be(from_u64_be(b)) =~= b,
{
    let b0 = b[0];
    let b1 = b[1];
    let b2 = b[2];
    let b3 = b[3];
    let b4 = b[4];
    let b5 = b[5];
    let b6 = b[6];
    let b7 = b[7];
    let m = ((b0 as u64) << 56) | ((b1 as u64) << 48) | ((b2 as u64) << 40) | ((b3 as u64) << 32)
        | ((b4 as u64) << 24) | ((b5 as u64) << 16) | ((b6 as u64) << 8) | (b7 as u64);
    assert((((n >> 56) as u8) as u64) << 56 | (((n >> 48) as u8) as u64) << 48 | (((n >> 40) as u8)
        as u64) << 40 | (((n >> 32) as u8) as u64) << 32 | (((n >> 24) as u8) as u64) << 24 | (((n
        >> 16) as u8) as u64) << 16 | (((n >> 8) as u8) as u64) << 8 | ((n as u8) as u64) == n)
        by (bit_vector);
    assert((m >> 56) as u8 == b0 && (m >> 48) as u8 == b1 && (m >> 40) as u8 == b2 && (m >> 32)
        as u8 == b3 && (m >> 24) as u8 == b4 && (m >> 16) as u8 == b5 && (m >> 8) as u8 == b6 && m
        as u8 == b7) by (bit_vector)
        requires
            m == ((b0 as u64) << 56) | ((b1 as u64) << 48) | ((b2 as u64) << 40) | ((b3 as u64)
                << 32) | ((b4 as u64) << 24) | ((b5 as u64) << 16) | ((b6 as u64) << 8) | (
            b7 as u64),
    ;
}

/// Four big-endian bytes carry their value and nothing else.
pub proof fn lemma_u32_be_inverse(n: u32, b: Seq<u8>)
    requires
        b.len() == 4,
    ensures
        from_u32_be(u32_be(n)) == n,
        u32_be(from_u32_be(b)) =~= b,
{
    let b0 = b[0];
    let b1 = b[1];
    let b2 = b[2];
    let b3 = b[3];
    let m = ((b0 as u32) << 24) | ((b1 as u32) << 16) | ((b2 as u32) << 8) | (b3 as u32);
    assert((((n >> 24) as u8) as u32) << 24 | (((n >> 16) as u8) as u32) << 16 | (((n >> 8) as u8)
        as u32) << 8 | ((n as u8) as u32) == n) by (bit_vector);
    assert((m >> 24) as u8 == b0 && (m >> 16) as u8 == b1 && (m >> 8) as u8 == b2 && m as u8 == b3)
        by (bit_vector)
        requires
            m == ((b0 as u32) << 24) | ((b1 as u32) << 16) | ((b2 as u32) << 8) | (b3 as u32),
    ;
}

/// The rendering of one screenshot: monitor index, then the image bytes
/// behind their length.
pub open spec fn spec_shot(monitor: u32, bytes: Seq<u8>) -> Seq<u8> {
    u32_be(monitor) + u64_be(bytes.len() as u64) + bytes
}

/// The rendering of a screenshot list, in order.
pub open spec fn spec_shots(shots: Seq<(u32, Seq<u8>)>) -> Seq<u8>
    decreases shots.len(),
{
    if shots.len() == 0 {
        Seq::empty()
    } else {
        spec_shots(shots.drop_last()) + spec_shot(shots.last().0, shots.last().1)
    }
}

/// The complete binary rendering of a screenshot response.
pub open spec fn spec_screenshot_response(rid: Seq<char>, shots: Seq<(u32, Seq<u8>)>) -> Seq<u8> {
    seq![response_kind_byte()] + u64_be(encode_utf8(rid).len() as u64) + encode_utf8(rid) + u64_be(
        shots.len() as u64,
    ) + spec_shots(shots)
}

/// Rendering a shot list distributes over appending one shot.
pub proof fn lemma_shots_push(shots: Seq<(u32, Seq<u8>)>, s: (u32, Seq<u8>))
    ensures
        spec_shots(shots.push(s)) == spec_shots(shots) + spec_shot(s.0, s.1),
{
    assert(shots.push(s).drop_last() =~= shots);
    assert(shots.push(s).last() == s);
}

/// Rendering a shot list distributes over concatenation.
pub proof fn lemma_shots_concat(a: Seq<(u32, Seq<u8>)>, b: Seq<(u32, Seq<u8>)>)
    ensures
        spec_shots(a + b) == spec_shots(a) + spec_shots(b),
    decreases b.len(),
{
    if b.len() == 0 {
        assert(a + b =~= a);
        assert(spec_shots(b) =~= Seq::<u8>::empty());
        assert(spec_shots(a) + spec_shots(b) =~= spec_shots(a));
    } else {
        lemma_shots_concat(a, b.drop_last());
        assert((a + b).drop_last() =~= a + b.drop_last());
        assert((a + b).last() == b.last());
        assert(spec_shots(a + b) == spec_shots(a + b.drop_last()) + spec_shot(
            b.last().0,
            b.last().1,
        ));
        assert((spec_shots(a) + spec_shots(b.drop_last())) + spec_shot(b.last().0, b.last().1)
            =~= spec_shots(a) + (spec_shots(b.drop_last()) + spec_shot(b.last().0, b.last().1)));
    }
}

/// With `acc` a strict prefix of the shot list already read, the rendering
/// of the next shot stands exactly at the end of what was consumed.
proof fn lemma_shots_next(shots: Seq<(u32, Seq<u8>)>, acc_len: int)
    requires
        0 <= acc_len < shots.len(),
    ensures
        spec_shots(shots) == spec_shots(shots.take(acc_len)) + spec_shot(
            shots[acc_len].0,
            shots[acc_len].1,
        ) + spec_shots(shots.skip(acc_len + 1)),
{
    assert(shots =~= shots.take(acc_len) + (seq![shots[acc_len]] + shots.skip(acc_len + 1)));
    lemma_shots_concat(shots.take(acc_len), seq![shots[acc_len]] + shots.skip(acc_len + 1));
    lemma_shots_concat(seq![shots[acc_len]], shots.skip(acc_len + 1));
    assert(seq![shots[acc_len]].drop_last() =~= Seq::<(u32, Seq<u8>)>::empty());
    assert(spec_shots(Seq::<(u32, Seq<u8>)>::empty()) =~= Seq::<u8>::empty());
    assert(spec_shots(seq![shots[acc_len]]) =~= spec_shot(shots[acc_len].0, shots[acc_len].1));
    assert(spec_shots(shots) =~= spec_shots(shots.take(acc_len)) + spec_shot(
        shots[acc_len].0,
        shots[acc_len].1,
    ) + spec_shots(shots.skip(acc_len + 1)));
}

/// Relies on std's `String::from_utf8`: accepts exactly valid UTF-8 and
/// decodes it to the characters it encodes.
#[verifier::external_body]
fn string_from_utf8(v: Vec<u8>) -> (r: Option<String>)
    ensures
        r matches Some(s) ==> valid_utf8(v@) && s@ == decode_utf8(v@),
        r is None ==> !valid_utf8(v@),
{
    match String::from_utf8(v) {
        Ok(s) => Some(s),
        Err(_) => None,
    }
}

/// Appends a byte slice.
fn push_bytes(out: &mut Vec<u8>, b: &[u8])
    ensures
        final(out)@ == old(out)@ + b@,
{
    let n = b.len();
    let mut i: usize = 0;
    while i < n
        invariant
            n == b@.len(),
            i <= n,
            out@ == old(out)@ + b@.take(i as int),
        decreases n - i,
    {
        out.push(b[i]);
        proof {
            assert(out@ =~= old(out)@ + b@.take(i + 1));
        }
        i = i + 1;
    }
    proof {
        assert(b@.take(n as int) =~= b@);
    }
}

/// Appends the big-endian rendering of a 64-bit value.
fn push_u64_be(out: &mut Vec<u8>, n: u64)
    ensures
        final(out)@ == old(out)@ + u64_be(n),
{
    out.push(#[verifier::truncate] ((n >> 56) as u8));
    out.push(#[verifier::truncate] ((n >> 48) as u8));
    out.push(#[verifier::truncate] ((n >> 40) as u8));
    out.push(#[verifier::truncate] ((n >> 32) as u8));
    out.push(#[verifier::truncate] ((n >> 24) as u8));
    out.push(#[verifier::truncate] ((n >> 16) as u8));
    out.push(#[verifier::truncate] ((n >> 8) as u8));
    out.push(#[verifier::truncate] (n as u8));
    proof {
        assert(out@ =~= old(out)@ + u64_be(n));
    }
}

/// Appends the big-endian rendering of a 32-bit value.
fn push_u32_be(out: &mut Vec<u8>, n: u32)
    ensures
        final(out)@ == old(out)@ + u32_be(n),
{
    out.push(#[verifier::truncate] ((n >> 24) as u8));
    out.push(#[verifier::truncate] ((n >> 16) as u8));
    out.push(#[verifier::truncate] ((n >> 8) as u8));
    out.push(#[verifier::truncate] (n as u8));
    proof {
        assert(out@ =~= old(out)@ + u32_be(n));
    }
}

/// Reads eight big-endian bytes.
fn read_u64_be(data: &[u8], pos: usize) -> (r: u64)
    requires
        pos + 8 <= data@.len(),
    ensures
        r == from_u64_be(data@.subrange(pos as int, pos + 8)),
{
    let r = ((data[pos] as u64) << 56) | ((data[pos + 1] as u64) << 48) | ((data[pos + 2] as u64)
        << 40) | ((data[pos + 3] as u64) << 32) | ((data[pos + 4] as u64) << 24) | ((data[pos + 5]
        as u64) << 16) | ((data[pos + 6] as u64) << 8) | (data[pos + 7] as u64);
    proof {
        let b = data@.subrange(pos as int, pos + 8);
        assert(b[0] == data@[pos as int] && b[1] == data@[pos + 1] && b[2] == data@[pos + 2] && b[3]
            == data@[pos + 3] && b[4] == data@[pos + 4] && b[5] == data@[pos + 5] && b[6] == data@[
            pos + 6] && b[7] == data@[pos + 7]);
    }
    r
}

/// Reads four big-endian bytes.
fn read_u32_be(data: &[u8], pos: usize) -> (r: u32)
    requires
        pos + 4 <= data@.len(),
    ensures
        r == from_u32_be(data@.subrange(pos as int, pos + 4)),
{
    let r = ((data[pos] as u32) << 24) | ((data[pos + 1] as u32) << 16) | ((data[pos + 2] as u32)
        << 8) | (data[pos + 3] as u32);
    proof {
        let b = data@.subrange(pos as int, pos + 4);
        assert(b[0] == data@[pos as int] && b[1] == data@[pos + 1] && b[2] == data@[pos + 2] && b[3]
            == data@[pos + 3]);
    }
    r
}

/// Copies a byte range into a fresh vector.
fn bytes_range_vec(data: &[u8], start: usize, end: usize) -> (r: Vec<u8>)
    requires
        start <= end <= data@.len(),
    ensures
        r@ == data@.subrange(start as int, end as int),
{
    let mut r: Vec<u8> = Vec::new();
    let mut i: usize = start;
    while i < end
        invariant
            start <= i <= end <= data@.len(),
            r@ == data@.subrange(start as int, i as int),
        decreases end - i,
    {
        r.push(data[i]);
        proof {
            assert(r@ =~= data@.subrange(start as int, i + 1));
        }
        i = i + 1;
    }
    r
}

/// Encodes a screenshot response as its canonical binary frame.
pub fn encode_screenshot_response(request_id: &str, screenshots: &Vec<ScreenshotData>) -> (r: Vec<
    u8,
>)
    ensures
        r@ == spec_screenshot_response(request_id@, shots_view(screenshots@)),
{
    let mut out: Vec<u8> = Vec::new();
    out.push(1u8);
    let rid_bytes = request_id.as_bytes();
    push_u64_be(&mut out, rid_bytes.len() as u64);
    push_bytes(&mut out, rid_bytes);
    push_u64_be(&mut out, screenshots.len() as u64);
    let ghost header = seq![response_kind_byte()] + u64_be(encode_utf8(request_id@).len() as u64)
        + encode_utf8(request_id@) + u64_be(shots_view(screenshots@).len() as u64);
    proof {
        assert(out@ =~= header);
    }
    let n = screenshots.len();
    let mut i: usize = 0;
    while i < n
        invariant
            n == screenshots@.len(),
            i <= n,
            out@ == header + spec_shots(shots_view(screenshots@).take(i as int)),
        decreases n - i,
    {
        let shot = &screenshots[i];
        push_u32_be(&mut out, shot.monitor);
        push_u64_be(&mut out, shot.data.len() as u64);
        push_bytes(&mut out, shot.data.as_slice());
        proof {
            let sv = shots_view(screenshots@);
            lemma_shots_push(sv.take(i as int), sv[i as int]);
            assert(sv.take(i + 1) =~= sv.take(i as int).push(sv[i as int]));
            assert(out@ =~= header + spec_shots(sv.take(i + 1)));
        }
        i = i + 1;
    }
    proof {
        assert(shots_view(screenshots@).take(n as int) =~= shots_view(screenshots@));
        assert(out@ =~= spec_screenshot_response(request_id@, shots_view(screenshots@)));
    }
    out
}

/// Every rendered shot takes at least its two length fields.
pub proof fn lemma_shots_len(shots: Seq<(u32, Seq<u8>)>)
    ensures
        spec_shots(shots).len() >= 12 * shots.len(),
    decreases shots.len(),
{
    if shots.len() > 0 {
        lemma_shots_len(shots.drop_last());
    }
}

/// Where each field of a canonical frame stands.
proof fn lemma_response_fields(data: Seq<u8>, rid: Seq<char>, shots: Seq<(u32, Seq<u8>)>)
    requires
        data == spec_screenshot_response(rid, shots),
    ensures
        data.len() == 17 + encode_utf8(rid).len() + spec_shots(shots).len(),
        data[0] == 1,
        data.subrange(1, 9) =~= u64_be(encode_utf8(rid).len() as u64),
        data.subrange(9, 9 + encode_utf8(rid).len() as int) =~= encode_utf8(rid),
        data.subrange(
            9 + encode_utf8(rid).len() as int,
            17 + encode_utf8(rid).len() as int,
        ) =~= u64_be(shots.len() as u64),
        data.subrange(17 + encode_utf8(rid).len() as int, data.len() as int) =~= spec_shots(shots),
        spec_shots(shots).len() >= 12 * shots.len(),
{
    lemma_shots_len(shots);
}

/// Decodes a binary frame as a screenshot response; accepts exactly the
/// canonical frames the encoder produces.
#[verifier::rlimit(100)]
#[verifier::loop_isolation(false)]
pub fn decode_screenshot_response(data: &[u8]) -> (r: Option<(String, Vec<ScreenshotData>)>)
    ensures
        r matches Some(p) ==> data@ == spec_screenshot_response(p.0@, shots_view(p.1@)),
        forall|rid: Seq<char>, shots: Seq<(u32, Seq<u8>)>|
            data@ == #[trigger] spec_screenshot_response(rid, shots) ==> (r matches Some(p) && p.0@
                == rid && shots_view(p.1@) == shots),
{
    broadcast use vstd::utf8::encode_utf8_valid_utf8, vstd::utf8::encode_utf8_decode_utf8, vstd::utf8::decode_utf8_encode_utf8;

    let len = data.len();
    if len < 17 {
        proof {
            assert forall|rid: Seq<char>, shots: Seq<(u32, Seq<u8>)>|
                data@ != #[trigger] spec_screenshot_response(rid, shots) by {
                if data@ == spec_screenshot_response(rid, shots) {
                    lemma_response_fields(data@, rid, shots);
                }
            }
        }
        return None;
    }
    if data[0] != 1 {
        proof {
            assert forall|rid: Seq<char>, shots: Seq<(u32, Seq<u8>)>|
                data@ != #[trigger] spec_screenshot_response(rid, shots) by {
                if data@ == spec_screenshot_response(rid, shots) {
                    lemma_response_fields(data@, rid, shots);
                }
            }
        }
        return None;
    }
    let l1u = read_u64_be(data, 1);
    proof {
        assert forall|rid: Seq<char>, shots: Seq<(u32, Seq<u8>)>|
            data@ == #[trigger] spec_screenshot_response(rid, shots) implies l1u == encode_utf8(
            rid,
        ).len() && l1u <= (len - 17) as u64 by {
            lemma_response_fields(data@, rid, shots);
            lemma_u64_be_inverse(encode_utf8(rid).len() as u64, data@.subrange(1, 9));
        }
    }
    if l1u > (len - 17) as u64 {
        proof {
            assert forall|rid: Seq<char>, shots: Seq<(u32, Seq<u8>)>|
                data@ != #[trigger] spec_screenshot_response(rid, shots) by {
            }
        }
        return None;
    }
    let l1 = l1u as usize;
    let rid_vec = bytes_range_vec(data, 9, 9 + l1);
    let rid_str_opt = string_from_utf8(rid_vec);
    let rid_str = match rid_str_opt {
        Some(s) => s,
        None => {
            proof {
                assert forall|rid: Seq<char>, shots: Seq<(u32, Seq<u8>)>|
                    data@ != #[trigger] spec_screenshot_response(rid, shots) by {
                    if data@ == spec_screenshot_response(rid, shots) {
                        lemma_response_fields(data@, rid, shots);
                        assert(valid_utf8(encode_utf8(rid)));
                    }
                }
            }
            return None;
        },
    };
    let cnt_u = read_u64_be(data, 9 + l1);
    let pos0 = 17 + l1;
    proof {
        assert forall|rid: Seq<char>, shots: Seq<(u32, Seq<u8>)>|
            data@ == #[trigger] spec_screenshot_response(rid, shots) implies cnt_u == shots.len()
            && rid_str@ == rid && cnt_u <= ((len - pos0) / 12) as u64 by {
            lemma_response_fields(data@, rid, shots);
            assert(rid_vec@ == encode_utf8(rid));
            assert(decode_utf8(encode_utf8(rid)) == rid);
            lemma_u64_be_inverse(shots.len() as u64, data@.subrange(9 + l1 as int, 17 + l1 as int));
            assert((len - pos0) as int == spec_shots(shots).len());
        }
    }
    if cnt_u > ((len - pos0) / 12) as u64 {
        proof {
            assert forall|rid: Seq<char>, shots: Seq<(u32, Seq<u8>)>|
                data@ != #[trigger] spec_screenshot_response(rid, shots) by {
            }
        }
        return None;
    }
    let cnt = cnt_u as usize;
    let mut acc: Vec<ScreenshotData> = Vec::new();
    let mut pos: usize = pos0;
    let mut i: usize = 0;
    while i < cnt
        invariant
            len == data@.len(),
            17 + l1 == pos0 <= pos <= len,
            i <= cnt,
            acc@.len() == i,
            data@.subrange(pos0 as int, pos as int) == spec_shots(shots_view(acc@)),
            forall|rid: Seq<char>, shots: Seq<(u32, Seq<u8>)>|
                data@ == #[trigger] spec_screenshot_response(rid, shots) ==> shots.len() == cnt
                    && shots_view(acc@) == shots.take(i as int),
        decreases cnt - i,
    {
        proof {
            assert forall|rid: Seq<char>, shots: Seq<(u32, Seq<u8>)>|
                data@ == #[trigger] spec_screenshot_response(rid, shots) implies len - pos >= 12
                && data@.subrange(pos as int, pos + 4) =~= u32_be(shots[i as int].0)
                && data@.subrange(pos + 4, pos + 12) =~= u64_be(shots[i as int].1.len() as u64)
                && len - pos >= 12 + shots[i as int].1.len() && data@.subrange(
                pos + 12,
                pos + 12 + shots[i as int].1.len(),
            ) =~= shots[i as int].1 by {
                lemma_response_fields(data@, rid, shots);
                lemma_shots_next(shots, i as int);
                assert(data@.subrange(pos0 as int, len as int) == spec_shots(shots));
                assert(spec_shots(shots.take(i as int)) == data@.subrange(pos0 as int, pos as int));
                let tail = spec_shot(shots[i as int].0, shots[i as int].1) + spec_shots(
                    shots.skip(i as int + 1),
                );
                assert(data@.subrange(pos as int, len as int) =~= tail);
            }
        }
        if len - pos < 12 {
            proof {
                assert forall|rid: Seq<char>, shots: Seq<(u32, Seq<u8>)>|
                    data@ != #[trigger] spec_screenshot_response(rid, shots) by {
                }
            }
            return None;
        }
        let monitor = read_u32_be(data, pos);
        let dlen_u = read_u64_be(data, pos + 4);
        proof {
            assert forall|rid: Seq<char>, shots: Seq<(u32, Seq<u8>)>|
                data@ == #[trigger] spec_screenshot_response(rid, shots) implies monitor
                == shots[i as int].0 && dlen_u == shots[i as int].1.len() && dlen_u <= (len - (pos
                + 12)) as u64 by {
                lemma_u32_be_inverse(shots[i as int].0, data@.subrange(pos as int, pos + 4));
                lemma_u64_be_inverse(
                    shots[i as int].1.len() as u64,
                    data@.subrange(pos + 4, pos + 12),
                );
            }
        }
        if dlen_u > (len - (pos + 12)) as u64 {
            proof {
                assert forall|rid: Seq<char>, shots: Seq<(u32, Seq<u8>)>|
                    data@ != #[trigger] spec_screenshot_response(rid, shots) by {
                }
            }
            return None;
        }
        let dlen = dlen_u as usize;
        let dvec = bytes_range_vec(data, pos + 12, pos + 12 + dlen);
        let ghost pre_acc = acc@;
        let ghost pre_pos = pos as int;
        acc.push(ScreenshotData { monitor, data: dvec });
        pos = pos + 12 + dlen;
        i = i + 1;
        proof {
            assert(shots_view(acc@) =~= shots_view(pre_acc).push((monitor, dvec@)));
            lemma_shots_push(shots_view(pre_acc), (monitor, dvec@));
            assert(spec_shot(monitor, dvec@) =~= data@.subrange(pre_pos, pos as int)) by {
                lemma_u32_be_inverse(monitor, data@.subrange(pre_pos, pre_pos + 4));
                lemma_u64_be_inverse(dlen as u64, data@.subrange(pre_pos + 4, pre_pos + 12));
                assert(data@.subrange(pre_pos, pos as int) =~= data@.subrange(pre_pos, pre_pos + 4)
                    + data@.subrange(pre_pos + 4, pre_pos + 12) + data@.subrange(
                    pre_pos + 12,
                    pos as int,
                ));
            }
            assert(data@.subrange(pos0 as int, pos as int) =~= data@.subrange(pos0 as int, pre_pos)
                + data@.subrange(pre_pos, pos as int));
            assert forall|rid: Seq<char>, shots: Seq<(u32, Seq<u8>)>|
                data@ == #[trigger] spec_screenshot_response(rid, shots) implies shots.len() == cnt
                && shots_view(acc@) == shots.take(i as int) by {
                assert(shots_view(pre_acc) == shots.take(i - 1));
                assert(monitor == shots[i - 1].0 && dvec@ == shots[i - 1].1);
                assert(shots_view(acc@) =~= shots.take(i as int));
            }
        }
    }
    if pos != len {
        proof {
            assert forall|rid: Seq<char>, shots: Seq<(u32, Seq<u8>)>|
                data@ != #[trigger] spec_screenshot_response(rid, shots) by {
                if data@ == spec_screenshot_response(rid, shots) {
                    lemma_response_fields(data@, rid, shots);
                    assert(shots.take(cnt as int) =~= shots);
                    assert(data@.subrange(pos0 as int, pos as int) == spec_shots(shots));
                    assert(pos - pos0 == spec_shots(shots).len());
                }
            }
        }
        return None;
    }
    proof {
        assert(data@ == spec_screenshot_response(rid_str@, shots_view(acc@))) by {
            assert(rid_vec@ == data@.subrange(9, 9 + l1 as int));
            assert(encode_utf8(rid_str@) == rid_vec@);
            assert(data@ =~= seq![1u8] + data@.subrange(1, 9) + data@.subrange(9, 9 + l1 as int)
                + data@.subrange(9 + l1 as int, pos0 as int) + data@.subrange(
                pos0 as int,
                len as int,
            ));
            lemma_u64_be_inverse(l1 as u64, data@.subrange(1, 9));
            lemma_u64_be_inverse(cnt as u64, data@.subrange(9 + l1 as int, pos0 as int));
            assert(shots_view(acc@).len() == cnt);
            assert(data@.subrange(pos0 as int, len as int) == spec_shots(shots_view(acc@)));
            assert(spec_screenshot_response(rid_str@, shots_view(acc@)) =~= seq![1u8] + u64_be(
                l1 as u64,
            ) + rid_vec@ + u64_be(cnt as u64) + spec_shots(shots_view(acc@)));
        }
        assert forall|rid: Seq<char>, shots: Seq<(u32, Seq<u8>)>|
            data@ == #[trigger] spec_screenshot_response(rid, shots) implies rid_str@ == rid
            && shots_view(acc@) == shots by {
            assert(shots.take(cnt as int) =~= shots);
        }
    }
    Some((rid_str, acc))
}

} // verus!
