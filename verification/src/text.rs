//! The text form of the control messages: a canonical JSON rendering with a
//! `type` discriminator in snake_case.  The encoder produces exactly one
//! rendering per message; the decoder accepts exactly that rendering, so
//! decoding and re-encoding gives back the input unchanged.

use vstd::prelude::*;

use crate::messages::ServerMessage;
use crate::strutil::hex_digit;
use crate::strutil::push_char;

verus! {

/// The JSON expansion of one character inside a quoted string: quote and
/// backslash get a two-character escape, the five control characters with
/// short escapes get theirs, every other control character gets a lowercase
/// `\u00..` escape, and everything else stands for itself.
pub open spec fn esc_char(c: char) -> Seq<char> {
    if c == '"' {
        seq!['\\', '"']
    } else if c == '\\' {
        seq!['\\', '\\']
    } else if c == '\u{8}' {
        seq!['\\', 'b']
    } else if c == '\t' {
        seq!['\\', 't']
    } else if c == '\n' {
        seq!['\\', 'n']
    } else if c == '\u{c}' {
        seq!['\\', 'f']
    } else if c == '\r' {
        seq!['\\', 'r']
    } else if (c as u32) < 0x20 {
        seq![
            '\\',
            'u',
            '0',
            '0',
            hex_digit((c as u32 / 16) as u8),
            hex_digit((c as u32 % 16) as u8),
        ]
    } else {
        seq![c]
    }
}

/// The body of a JSON string: every character expanded.
pub open spec fn json_escaped(s: Seq<char>) -> Seq<char>
    decreases s.len(),
{
    if s.len() == 0 {
        Seq::empty()
    } else {
        json_escaped(s.drop_last()) + esc_char(s.last())
    }
}

/// The shape of a single escaped character: never empty, never starts with
/// a quote, and multi-character expansions start with a backslash.
pub proof fn lemma_esc_char_shape(x: char)
    ensures
        1 <= esc_char(x).len() <= 6,
        esc_char(x)[0] != '"',
        esc_char(x).len() == 1 ==> esc_char(x) == seq![x] && x != '"' && x != '\\' && (x as u32)
            >= 0x20,
        esc_char(x).len() > 1 ==> esc_char(x)[0] == '\\',
{
}

/// Escaping distributes over appending one character.
pub proof fn lemma_escaped_push(s: Seq<char>, c: char)
    ensures
        json_escaped(s.push(c)) == json_escaped(s) + esc_char(c),
{
    assert(s.push(c).drop_last() =~= s);
    assert(s.push(c).last() == c);
}

/// Escaping distributes over concatenation.
pub proof fn lemma_escaped_concat(a: Seq<char>, b: Seq<char>)
    ensures
        json_escaped(a + b) == json_escaped(a) + json_escaped(b),
    decreases b.len(),
{
    if b.len() == 0 {
        assert(a + b =~= a);
        assert(json_escaped(b) =~= Seq::<char>::empty());
        assert(json_escaped(a) + json_escaped(b) =~= json_escaped(a));
    } else {
        lemma_escaped_concat(a, b.drop_last());
        assert((a + b).drop_last() =~= a + b.drop_last());
        assert((a + b).last() == b.last());
        assert(json_escaped(b).drop_last() =~= json_escaped(b.drop_last()) + esc_char(
            b.last(),
        ).drop_last());
        assert(json_escaped(a + b) == json_escaped(a + b.drop_last()) + esc_char(b.last()));
        assert((json_escaped(a) + json_escaped(b.drop_last())) + esc_char(b.last()) =~= json_escaped(
            a,
        ) + (json_escaped(b.drop_last()) + esc_char(b.last())));
    }
}

/// Where a strict scan stands inside the escaping of a longer string: with
/// `out` a prefix of `n`, the input continues with the expansion of the next
/// character of `n`, or with the closing quote when `out` is all of `n`.
proof fn lemma_scan_step(s_full: Seq<char>, start: int, out: Seq<char>, n: Seq<char>)
    requires
        0 <= start <= s_full.len(),
        json_escaped(n).push('"').is_prefix_of(s_full.skip(start)),
        out.len() <= n.len(),
        out == n.take(out.len() as int),
    ensures
        json_escaped(n).len() >= json_escaped(out).len(),
        s_full.len() >= start + json_escaped(n).len() + 1,
        out.len() == n.len() ==> s_full[start + json_escaped(out).len()] == '"',
        out.len() < n.len() ==> json_escaped(n).len() >= json_escaped(out).len() + esc_char(
            n[out.len() as int],
        ).len() && forall|q: int|
            0 <= q < esc_char(n[out.len() as int]).len() ==> s_full[start + json_escaped(out).len()
                + q] == esc_char(n[out.len() as int])[q],
{
    let t = out.len() as int;
    assert(n =~= n.take(t) + n.skip(t));
    lemma_escaped_concat(n.take(t), n.skip(t));
    assert(json_escaped(n) == json_escaped(out) + json_escaped(n.skip(t)));
    let p = json_escaped(n).push('"');
    assert forall|q: int| 0 <= q < p.len() implies s_full[start + q] == p[q] by {
        assert(p[q] == s_full.skip(start)[q]);
    }
    if t == n.len() {
        assert(json_escaped(n.skip(t)) =~= Seq::<char>::empty());
        assert(json_escaped(n).len() == json_escaped(out).len());
        assert(p[json_escaped(out).len() as int] == '"');
    } else {
        let rest = n.skip(t);
        assert(rest.len() > 0);
        assert(rest =~= seq![n[t]] + rest.skip(1));
        lemma_escaped_concat(seq![n[t]], rest.skip(1));
        assert(seq![n[t]].drop_last() =~= Seq::<char>::empty());
        assert(seq![n[t]].last() == n[t]);
        assert(json_escaped(Seq::<char>::empty()) =~= Seq::<char>::empty());
        assert(json_escaped(seq![n[t]]) == json_escaped(seq![n[t]].drop_last()) + esc_char(n[t]));
        assert(json_escaped(seq![n[t]]) =~= esc_char(n[t]));
        assert(json_escaped(rest) == esc_char(n[t]) + json_escaped(rest.skip(1)));
        assert forall|q: int| 0 <= q < esc_char(n[t]).len() implies s_full[start + json_escaped(
            out,
        ).len() + q] == esc_char(n[t])[q] by {
            assert(p[json_escaped(out).len() + q] == esc_char(n[t])[q]);
        }
    }
}

/// Two nibbles render as the same hex digit only if they are equal.
proof fn lemma_hex_digit_inj(a: u8, b: u8)
    requires
        a < 16,
        b < 16,
        hex_digit(a) == hex_digit(b),
    ensures
        a == b,
{
}

/// The hex digit character for a nibble.
fn nibble_char(v: u8) -> (c: char)
    requires
        v < 16,
    ensures
        c == hex_digit(v),
{
    match v {
        0 => '0',
        1 => '1',
        2 => '2',
        3 => '3',
        4 => '4',
        5 => '5',
        6 => '6',
        7 => '7',
        8 => '8',
        9 => '9',
        10 => 'a',
        11 => 'b',
        12 => 'c',
        13 => 'd',
        14 => 'e',
        _ => 'f',
    }
}

/// The nibble behind a lowercase hex digit character, if it is one.
fn hex_nibble(c: char) -> (r: Option<u8>)
    ensures
        r matches Some(v) ==> v < 16 && hex_digit(v) == c,
        r is None ==> forall|w: u8| w < 16 ==> hex_digit(w) != c,
{
    match c {
        '0' => Some(0),
        '1' => Some(1),
        '2' => Some(2),
        '3' => Some(3),
        '4' => Some(4),
        '5' => Some(5),
        '6' => Some(6),
        '7' => Some(7),
        '8' => Some(8),
        '9' => Some(9),
        'a' => Some(10),
        'b' => Some(11),
        'c' => Some(12),
        'd' => Some(13),
        'e' => Some(14),
        'f' => Some(15),
        _ => None,
    }
}

/// Appends the canonical JSON expansion of `s` to `out`.
pub fn append_escaped(out: &mut String, s: &str)
    ensures
        final(out)@ == old(out)@ + json_escaped(s@),
{
    let n = s.unicode_len();
    let mut i: usize = 0;
    while i < n
        invariant
            n == s@.len(),
            i <= n,
            out@ == old(out)@ + json_escaped(s@.take(i as int)),
        decreases n - i,
    {
        let c = s.get_char(i);
        if c == '"' {
            push_char(out, '\\');
            push_char(out, '"');
        } else if c == '\\' {
            push_char(out, '\\');
            push_char(out, '\\');
        } else if c == '\u{8}' {
            push_char(out, '\\');
            push_char(out, 'b');
        } else if c == '\t' {
            push_char(out, '\\');
            push_char(out, 't');
        } else if c == '\n' {
            push_char(out, '\\');
            push_char(out, 'n');
        } else if c == '\u{c}' {
            push_char(out, '\\');
            push_char(out, 'f');
        } else if c == '\r' {
            push_char(out, '\\');
            push_char(out, 'r');
        } else if (c as u32) < 0x20 {
            push_char(out, '\\');
            push_char(out, 'u');
            push_char(out, '0');
            push_char(out, '0');
            push_char(out, nibble_char((c as u32 / 16) as u8));
            push_char(out, nibble_char((c as u32 % 16) as u8));
        } else {
            push_char(out, c);
        }
        proof {
            lemma_escaped_push(s@.take(i as int), c);
            assert(s@.take(i + 1) =~= s@.take(i as int).push(c));
            assert(out@ =~= old(out)@ + json_escaped(s@.take(i + 1)));
        }
        i = i + 1;
    }
    proof {
        assert(s@.take(n as int) =~= s@);
    }
}

/// Scans the body of a canonical JSON string starting at `start`: collects
/// characters up to an unescaped closing quote, accepting exactly the
/// escaping that `esc_char` produces, and reports where the closing quote
/// stands.
/// The scanner's view of a witness string `n` whose escaping (plus closing
/// quote) the input carries: with `out` already consumed up to `pos`, the
/// expansion of the next character of `n` (or the closing quote) stands
/// exactly at `pos`, with room for the quote after it.
proof fn lemma_witness_next(s_full: Seq<char>, start: int, out: Seq<char>, pos: int, n: Seq<char>)
    requires
        0 <= start <= pos <= s_full.len(),
        json_escaped(out) == s_full.subrange(start, pos),
        json_escaped(n).push('"').is_prefix_of(s_full.skip(start)),
        out.len() <= n.len(),
        out == n.take(out.len() as int),
    ensures
        out.len() == n.len() ==> pos < s_full.len() && s_full[pos] == '"',
        out.len() < n.len() ==> (forall|q: int|
            0 <= q < esc_char(n[out.len() as int]).len() ==> s_full[pos + q] == esc_char(
                n[out.len() as int],
            )[q]) && s_full.len() >= pos + esc_char(n[out.len() as int]).len() + 1,
{
    lemma_scan_step(s_full, start, out, n);
    assert(json_escaped(out).len() == pos - start);
}

/// Scans the body of a canonical JSON string starting at `start`: collects
/// characters up to an unescaped closing quote, accepting exactly the
/// escaping that `esc_char` produces, and reports where the closing quote
/// stands.  Fails on anything the canonical encoder would not have written.
#[verifier::rlimit(60)]
pub fn scan_json_string(s: &str, start: usize) -> (r: Option<(String, usize)>)
    requires
        start <= s@.len(),
    ensures
        r matches Some(p) ==> start <= p.1 < s@.len() && json_escaped(p.0@) == s@.subrange(
            start as int,
            p.1 as int,
        ) && s@[p.1 as int] == '"',
        forall|n: Seq<char>|
            (#[trigger] json_escaped(n)).push('"').is_prefix_of(s@.skip(start as int)) ==> (
            r matches Some(p) && p.0@ == n),
{
    let n_chars = s.unicode_len();
    let mut out = String::new();
    let mut pos: usize = start;
    loop
        invariant
            n_chars == s@.len(),
            start <= pos <= n_chars,
            json_escaped(out@) == s@.subrange(start as int, pos as int),
            forall|n: Seq<char>|
                (#[trigger] json_escaped(n)).push('"').is_prefix_of(s@.skip(start as int))
                    ==> out@.len() <= n.len() && out@ == n.take(out@.len() as int),
        decreases n_chars - pos,
    {
        if pos >= n_chars {
            // The input ended before a closing quote appeared.
            proof {
                assert forall|n: Seq<char>|
                    !(#[trigger] json_escaped(n)).push('"').is_prefix_of(
                        s@.skip(start as int),
                    ) by {
                    if json_escaped(n).push('"').is_prefix_of(s@.skip(start as int)) {
                        lemma_witness_next(s@, start as int, out@, pos as int, n);
                        if out@.len() < n.len() {
                            lemma_esc_char_shape(n[out@.len() as int]);
                        }
                    }
                }
            }
            return None;
        }
        let c = s.get_char(pos);
        if c == '"' {
            proof {
                assert forall|n: Seq<char>|
                    (#[trigger] json_escaped(n)).push('"').is_prefix_of(
                        s@.skip(start as int),
                    ) implies out@ == n by {
                    lemma_witness_next(s@, start as int, out@, pos as int, n);
                    if out@.len() < n.len() {
                        lemma_esc_char_shape(n[out@.len() as int]);
                        assert(s@[pos as int] == esc_char(n[out@.len() as int])[0]);
                        assert(false);
                    }
                    assert(out@ =~= n);
                }
            }
            return Some((out, pos));
        } else if c == '\\' {
            // An escape: its second character decides the decoded one.
            proof {
                assert forall|n: Seq<char>|
                    (#[trigger] json_escaped(n)).push('"').is_prefix_of(s@.skip(start as int))
                        implies out@.len() < n.len() && esc_char(n[out@.len() as int])[0] == '\\'
                        && esc_char(n[out@.len() as int]).len() >= 2 && n_chars >= pos + 3 by {
                    lemma_witness_next(s@, start as int, out@, pos as int, n);
                    if out@.len() == n.len() {
                        assert(s@[pos as int] == '"');
                        assert(false);
                    }
                    let x = n[out@.len() as int];
                    lemma_esc_char_shape(x);
                    assert(esc_char(x)[0] == s@[pos as int]);
                    if esc_char(x).len() == 1 {
                        assert(x == '\\');
                        assert(false);
                    }
                }
            }
            if n_chars - pos < 2 {
                proof {
                    assert forall|n: Seq<char>|
                        !(#[trigger] json_escaped(n)).push('"').is_prefix_of(
                            s@.skip(start as int),
                        ) by {
                    }
                }
                return None;
            }
            let c2 = s.get_char(pos + 1);
            let ghost pre_out = out@;
            let ghost pre_pos = pos as int;
            proof {
                assert forall|n: Seq<char>|
                    (#[trigger] json_escaped(n)).push('"').is_prefix_of(s@.skip(start as int))
                        implies esc_char(n[pre_out.len() as int])[1] == c2 by {
                    lemma_witness_next(s@, start as int, pre_out, pre_pos, n);
                    lemma_esc_char_shape(n[pre_out.len() as int]);
                }
            }
            let decoded: char;
            let width: usize;
            if c2 == '"' {
                decoded = '"';
                width = 2;
            } else if c2 == '\\' {
                decoded = '\\';
                width = 2;
            } else if c2 == 'b' {
                decoded = '\u{8}';
                width = 2;
            } else if c2 == 't' {
                decoded = '\t';
                width = 2;
            } else if c2 == 'n' {
                decoded = '\n';
                width = 2;
            } else if c2 == 'f' {
                decoded = '\u{c}';
                width = 2;
            } else if c2 == 'r' {
                decoded = '\r';
                width = 2;
            } else if c2 == 'u' {
                // Only the canonical lowercase `\u00..` form of a control
                // character that has no short escape is accepted.
                proof {
                    assert forall|n: Seq<char>|
                        (#[trigger] json_escaped(n)).push('"').is_prefix_of(s@.skip(start as int))
                            implies esc_char(n[pre_out.len() as int]).len() == 6 && n_chars >= pos
                            + 7 by {
                        lemma_witness_next(s@, start as int, pre_out, pre_pos, n);
                        let x = n[pre_out.len() as int];
                        lemma_esc_char_shape(x);
                    }
                }
                if n_chars - pos < 6 {
                    proof {
                        assert forall|n: Seq<char>|
                            !(#[trigger] json_escaped(n)).push('"').is_prefix_of(
                                s@.skip(start as int),
                            ) by {
                        }
                    }
                    return None;
                }
                let d2 = s.get_char(pos + 2);
                let d3 = s.get_char(pos + 3);
                let d4 = s.get_char(pos + 4);
                let d5 = s.get_char(pos + 5);
                let hi_opt = hex_nibble(d4);
                let lo_opt = hex_nibble(d5);
                let ok: bool;
                let mut v: u8 = 0;
                match (hi_opt, lo_opt) {
                    (Some(hi), Some(lo)) => {
                        v = hi * 16 + lo;
                        ok = d2 == '0' && d3 == '0' && v < 0x20 && v != 0x8 && v != 0x9 && v
                            != 0xa && v != 0xc && v != 0xd;
                    },
                    _ => {
                        ok = false;
                    },
                }
                proof {
                    assert forall|n: Seq<char>|
                        (#[trigger] json_escaped(n)).push('"').is_prefix_of(s@.skip(start as int))
                            implies ok && v as char == n[pre_out.len() as int] by {
                        lemma_witness_next(s@, start as int, pre_out, pre_pos, n);
                        let x = n[pre_out.len() as int];
                        lemma_esc_char_shape(x);
                        assert((x as u32) < 0x20);
                        let xhi = (x as u32 / 16) as u8;
                        let xlo = (x as u32 % 16) as u8;
                        assert(esc_char(x)[2] == s@[pre_pos + 2] && esc_char(x)[3] == s@[pre_pos
                            + 3]);
                        assert(esc_char(x)[4] == s@[pre_pos + 4] && esc_char(x)[5] == s@[pre_pos
                            + 5]);
                        assert(d2 == '0' && d3 == '0');
                        assert(hex_digit(xhi) == d4 && hex_digit(xlo) == d5);
                        match hi_opt {
                            Option::None => {
                                assert(xhi < 16 && hex_digit(xhi) != d4);
                                assert(false);
                            },
                            Option::Some(hi) => {
                                lemma_hex_digit_inj(hi, xhi);
                            },
                        }
                        match lo_opt {
                            Option::None => {
                                assert(xlo < 16 && hex_digit(xlo) != d5);
                                assert(false);
                            },
                            Option::Some(lo) => {
                                lemma_hex_digit_inj(lo, xlo);
                            },
                        }
                        assert(v == x as u32);
                        assert(v as char == x) by {
                            vstd::utf8::char_u32_cast(x, x as u32);
                            assert((v as u32) == x as u32);
                            assert(((v as u32) as char) == x);
                        }
                    }
                }
                if !ok {
                    proof {
                        assert forall|n: Seq<char>|
                            !(#[trigger] json_escaped(n)).push('"').is_prefix_of(
                                s@.skip(start as int),
                            ) by {
                        }
                    }
                    return None;
                }
                decoded = v as char;
                width = 6;
            } else {
                proof {
                    assert forall|n: Seq<char>|
                        !(#[trigger] json_escaped(n)).push('"').is_prefix_of(
                            s@.skip(start as int),
                        ) by {
                        if json_escaped(n).push('"').is_prefix_of(s@.skip(start as int)) {
                            let x = n[pre_out.len() as int];
                            lemma_witness_next(s@, start as int, pre_out, pre_pos, n);
                            lemma_esc_char_shape(x);
                            assert(esc_char(x)[1] == c2);
                        }
                    }
                }
                return None;
            }
            push_char(&mut out, decoded);
            pos = pos + width;
            proof {
                assert(esc_char(decoded).len() == width) by {
                    if width == 6 {
                        assert((decoded as u32) < 0x20);
                        assert(decoded != '\u{8}' && decoded != '\t' && decoded != '\n' && decoded
                            != '\u{c}' && decoded != '\r');
                    }
                }
                assert(esc_char(decoded) =~= s@.subrange(pre_pos, pre_pos + width)) by {
                    assert(s@[pre_pos] == '\\');
                    assert(s@[pre_pos + 1] == c2);
                    if width == 6 {
                        assert((decoded as u32) < 0x20);
                        assert(decoded != '\u{8}' && decoded != '\t' && decoded != '\n' && decoded
                            != '\u{c}' && decoded != '\r');
                        assert(esc_char(decoded)[4] == hex_digit((decoded as u32 / 16) as u8));
                        assert(esc_char(decoded)[5] == hex_digit((decoded as u32 % 16) as u8));
                    }
                }
                lemma_escaped_push(pre_out, decoded);
                assert(json_escaped(out@) =~= s@.subrange(start as int, pos as int));
                assert forall|n: Seq<char>|
                    (#[trigger] json_escaped(n)).push('"').is_prefix_of(
                        s@.skip(start as int),
                    ) implies out@.len() <= n.len() && out@ == n.take(out@.len() as int) by {
                    lemma_witness_next(s@, start as int, pre_out, pre_pos, n);
                    let x = n[pre_out.len() as int];
                    lemma_esc_char_shape(x);
                    assert(esc_char(x)[1] == c2);
                    assert(x == decoded) by {
                        if (x as u32) < 0x20 && x != '\u{8}' && x != '\t' && x != '\n' && x
                            != '\u{c}' && x != '\r' && x != '"' && x != '\\' {
                            assert(esc_char(x)[1] == 'u');
                        }
                    }
                    assert(out@ =~= n.take(out@.len() as int));
                }
            }
        } else {
            if (c as u32) < 0x20 {
                proof {
                    assert forall|n: Seq<char>|
                        !(#[trigger] json_escaped(n)).push('"').is_prefix_of(
                            s@.skip(start as int),
                        ) by {
                        if json_escaped(n).push('"').is_prefix_of(s@.skip(start as int)) {
                            lemma_witness_next(s@, start as int, out@, pos as int, n);
                            if out@.len() < n.len() {
                                let x = n[out@.len() as int];
                                lemma_esc_char_shape(x);
                                assert(esc_char(x)[0] == c);
                            } else {
                                assert(s@[pos as int] == '"');
                            }
                        }
                    }
                }
                return None;
            }
            let ghost pre_out = out@;
            let ghost pre_pos = pos as int;
            push_char(&mut out, c);
            pos = pos + 1;
            proof {
                assert(esc_char(c) =~= s@.subrange(pre_pos, pre_pos + 1));
                lemma_escaped_push(pre_out, c);
                assert(json_escaped(out@) =~= s@.subrange(start as int, pos as int));
                assert forall|n: Seq<char>|
                    (#[trigger] json_escaped(n)).push('"').is_prefix_of(
                        s@.skip(start as int),
                    ) implies out@.len() <= n.len() && out@ == n.take(out@.len() as int) by {
                    lemma_witness_next(s@, start as int, pre_out, pre_pos, n);
                    if pre_out.len() == n.len() {
                        assert(s@[pre_pos] == '"');
                        assert(false);
                    }
                    let x = n[pre_out.len() as int];
                    lemma_esc_char_shape(x);
                    assert(esc_char(x)[0] == c);
                    assert(x == c);
                    assert(out@ =~= n.take(out@.len() as int));
                }
            }
        }
    }
}

/// A JSON string: the escaped body between quotes.
pub open spec fn spec_json_string(s: Seq<char>) -> Seq<char> {
    seq!['"'] + json_escaped(s) + seq!['"']
}

/// A JSON array of strings.
pub open spec fn spec_string_array(items: Seq<Seq<char>>) -> Seq<char> {
    seq!['['] + crate::log_buffer::spec_joined(
        ',',
        items.map_values(|s: Seq<char>| spec_json_string(s)),
    ) + seq![']']
}

/// The JSON object a screenshot call answers with: agent names as keys,
/// each mapped to its array of URL paths, in the result's own order.
pub open spec fn spec_result_json(m: Seq<(Seq<char>, Seq<Seq<char>>)>) -> Seq<char> {
    seq!['{'] + crate::log_buffer::spec_joined(
        ',',
        m.map_values(
            |p: (Seq<char>, Seq<Seq<char>>)| spec_json_string(p.0) + seq![':'] + spec_string_array(
                p.1,
            ),
        ),
    ) + seq!['}']
}

/// Appends a JSON string.
fn append_json_string(out: &mut String, s: &str)
    ensures
        final(out)@ == old(out)@ + spec_json_string(s@),
{
    push_char(out, '"');
    append_escaped(out, s);
    push_char(out, '"');
    proof {
        assert(out@ =~= old(out)@ + spec_json_string(s@));
    }
}

/// Renders a result map as the JSON body of the screenshot answer.
pub fn result_json(result: &Vec<(String, Vec<String>)>) -> (r: String)
    ensures
        r@ == spec_result_json(crate::pending::rec_view(result@)),
{
    let mut out = String::new();
    push_char(&mut out, '{');
    let n = result.len();
    let ghost rv = crate::pending::rec_view(result@);
    let ghost item_fn = |p: (Seq<char>, Seq<Seq<char>>)| spec_json_string(p.0) + seq![':']
        + spec_string_array(p.1);
    let mut i: usize = 0;
    while i < n
        invariant
            n == result@.len(),
            i <= n,
            rv == crate::pending::rec_view(result@),
            item_fn == (|p: (Seq<char>, Seq<Seq<char>>)| spec_json_string(p.0) + seq![':']
                + spec_string_array(p.1)),
            out@ == seq!['{'] + crate::log_buffer::spec_joined(
                ',',
                rv.take(i as int).map_values(item_fn),
            ),
        decreases n - i,
    {
        if i > 0 {
            push_char(&mut out, ',');
        }
        append_json_string(&mut out, result[i].0.as_str());
        push_char(&mut out, ':');
        push_char(&mut out, '[');
        let urls = &result[i].1;
        let m = urls.len();
        let ghost uv = crate::strutil::views_of(urls@);
        let ghost pre_arr = out@;
        let mut j: usize = 0;
        while j < m
            invariant
                m == urls@.len(),
                j <= m,
                uv == crate::strutil::views_of(urls@),
                out@ == pre_arr + crate::log_buffer::spec_joined(
                    ',',
                    uv.take(j as int).map_values(|s: Seq<char>| spec_json_string(s)),
                ),
            decreases m - j,
        {
            if j > 0 {
                push_char(&mut out, ',');
            }
            append_json_string(&mut out, urls[j].as_str());
            proof {
                let mapped = uv.take(j as int).map_values(|s: Seq<char>| spec_json_string(s));
                let mapped1 = uv.take(j + 1).map_values(|s: Seq<char>| spec_json_string(s));
                crate::log_buffer::lemma_joined_push(',', mapped, spec_json_string(uv[j as int]));
                assert(mapped1 =~= mapped.push(spec_json_string(uv[j as int])));
                assert(out@ =~= pre_arr + crate::log_buffer::spec_joined(',', mapped1));
            }
            j = j + 1;
        }
        push_char(&mut out, ']');
        proof {
            assert(uv.take(m as int) =~= uv);
            let items = rv.take(i as int).map_values(item_fn);
            let items1 = rv.take(i + 1).map_values(item_fn);
            crate::log_buffer::lemma_joined_push(',', items, item_fn(rv[i as int]));
            assert(items1 =~= items.push(item_fn(rv[i as int])));
            assert(spec_string_array(uv) == seq!['['] + crate::log_buffer::spec_joined(
                ',',
                uv.map_values(|s: Seq<char>| spec_json_string(s)),
            ) + seq![']']);
            assert(out@ =~= seq!['{'] + crate::log_buffer::spec_joined(',', items1));
        }
        i = i + 1;
    }
    push_char(&mut out, '}');
    proof {
        assert(rv.take(n as int) =~= rv);
        assert(out@ =~= spec_result_json(rv));
    }
    out
}

/// Whether the characters of `lit` stand at position `start` of `s`.
pub fn match_lit(s: &str, start: usize, lit: &str) -> (r: bool)
    requires
        start <= s@.len(),
    ensures
        r == (start + lit@.len() <= s@.len() && s@.subrange(start as int, start + lit@.len())
            == lit@),
{
    let s_n = s.unicode_len();
    let l_n = lit.unicode_len();
    if s_n - start < l_n {
        return false;
    }
    let mut i: usize = 0;
    while i < l_n
        invariant
            s_n == s@.len(),
            l_n == lit@.len(),
            start + l_n <= s_n,
            i <= l_n,
            forall|j: int| 0 <= j < i ==> s@[start + j] == lit@[j],
        decreases l_n - i,
    {
        if s.get_char(start + i) != lit.get_char(i) {
            proof {
                if s@.subrange(start as int, start + lit@.len()) == lit@ {
                    assert(s@.subrange(start as int, start + lit@.len())[i as int] == lit@[i as int]);
                    assert(false);
                }
            }
            return false;
        }
        i = i + 1;
    }
    proof {
        assert(s@.subrange(start as int, start + lit@.len()) =~= lit@);
    }
    true
}

/// The canonical text rendering of an authentication challenge.
pub open spec fn spec_auth_challenge(nonce: Seq<char>) -> Seq<char> {
    "{\"type\":\"auth_challenge\",\"nonce\":\""@ + json_escaped(nonce) + "\"}"@
}

/// The canonical text rendering of a screenshot request.
pub open spec fn spec_screenshot_request(request_id: Seq<char>) -> Seq<char> {
    "{\"type\":\"screenshot_request\",\"request_id\":\""@ + json_escaped(request_id) + "\"}"@
}

/// The canonical text rendering of an authentication response.
pub open spec fn spec_auth_response(name: Seq<char>, mac: Seq<char>) -> Seq<char> {
    "{\"type\":\"auth_response\",\"name\":\""@ + json_escaped(name) + "\",\"hmac\":\""@
        + json_escaped(mac) + "\"}"@
}

/// The canonical text rendering of a coordinator-to-agent message.
pub open spec fn spec_server_message(m: ServerMessage) -> Seq<char> {
    match m {
        ServerMessage::AuthChallenge { nonce } => spec_auth_challenge(nonce@),
        ServerMessage::ScreenshotRequest { request_id } => spec_screenshot_request(request_id@),
    }
}

/// Encodes a coordinator-to-agent message as its canonical text frame.
pub fn encode_server_message(m: &ServerMessage) -> (r: String)
    ensures
        r@ == spec_server_message(*m),
{
    match m {
        ServerMessage::AuthChallenge { nonce } => {
            let mut out = String::from_str("{\"type\":\"auth_challenge\",\"nonce\":\"");
            append_escaped(&mut out, nonce.as_str());
            out.append("\"}");
            proof {
                assert(out@ =~= spec_auth_challenge(nonce@));
            }
            out
        },
        ServerMessage::ScreenshotRequest { request_id } => {
            let mut out = String::from_str("{\"type\":\"screenshot_request\",\"request_id\":\"");
            append_escaped(&mut out, request_id.as_str());
            out.append("\"}");
            proof {
                assert(out@ =~= spec_screenshot_request(request_id@));
            }
            out
        },
    }
}

/// Encodes the agent's authentication response as its canonical text frame.
pub fn encode_auth_response(name: &str, mac: &str) -> (r: String)
    ensures
        r@ == spec_auth_response(name@, mac@),
{
    let mut out = String::from_str("{\"type\":\"auth_response\",\"name\":\"");
    append_escaped(&mut out, name);
    out.append("\",\"hmac\":\"");
    append_escaped(&mut out, mac);
    out.append("\"}");
    proof {
        assert(out@ =~= spec_auth_response(name@, mac@));
    }
    out
}

/// Decodes a text frame as a coordinator-to-agent message; accepts exactly
/// the canonical renderings the encoder produces.
pub fn decode_server_message(s: &str) -> (r: Option<ServerMessage>)
    ensures
        r matches Some(m) ==> s@ == spec_server_message(m),
        forall|x: Seq<char>|
            s@ == #[trigger] spec_auth_challenge(x) ==> (r matches Some(m) && (
            m matches ServerMessage::AuthChallenge { nonce } && nonce@ == x)),
        forall|x: Seq<char>|
            s@ == #[trigger] spec_screenshot_request(x) ==> (r matches Some(m) && (
            m matches ServerMessage::ScreenshotRequest { request_id } && request_id@ == x)),
{
    let ac_pre = "{\"type\":\"auth_challenge\",\"nonce\":\"";
    let sr_pre = "{\"type\":\"screenshot_request\",\"request_id\":\"";
    proof {
        reveal_strlit("{\"type\":\"auth_challenge\",\"nonce\":\"");
        reveal_strlit("{\"type\":\"screenshot_request\",\"request_id\":\"");
        reveal_strlit("\"}");
    }
    let s_n = s.unicode_len();
    if match_lit(s, 0, ac_pre) {
        proof {
            assert forall|x: Seq<char>| s@ != #[trigger] spec_screenshot_request(x) by {
                if s@ == spec_screenshot_request(x) {
                    assert(s@[9] == sr_pre@[9]);
                    assert(s@[9] == ac_pre@[9]);
                    assert(false);
                }
            }
        }
        let plen = ac_pre.unicode_len();
        proof {
            assert forall|x: Seq<char>|
                s@ == #[trigger] spec_auth_challenge(x) implies json_escaped(x).push(
                '"',
            ).is_prefix_of(s@.skip(plen as int)) by {
                assert(s@.skip(plen as int) =~= json_escaped(x) + "\"}"@);
                assert(json_escaped(x).push('"').is_prefix_of(json_escaped(x) + "\"}"@)) by {
                    assert(json_escaped(x).push('"') =~= (json_escaped(x) + "\"}"@).subrange(
                        0,
                        json_escaped(x).len() as int + 1,
                    ));
                }
            }
        }
        match scan_json_string(s, plen) {
            Some((nonce, q)) => {
                if match_lit(s, q, "\"}") && s_n - q == 2 {
                    proof {
                        assert(s@ =~= s@.subrange(0, plen as int) + s@.subrange(plen as int, q as int)
                            + s@.subrange(q as int, s@.len() as int));
                        assert(s@.subrange(q as int, s@.len() as int) == "\"}"@);
                        assert(s@ == spec_auth_challenge(nonce@));
                    }
                    Some(ServerMessage::AuthChallenge { nonce })
                } else {
                    proof {
                        assert forall|x: Seq<char>| s@ != #[trigger] spec_auth_challenge(x) by {
                            if s@ == spec_auth_challenge(x) {
                                assert(nonce@ == x);
                                assert(q == plen + json_escaped(x).len());
                                assert(s@.subrange(q as int, q + 2) =~= "\"}"@);
                                assert(s@.len() == q + 2);
                                assert(false);
                            }
                        }
                    }
                    None
                }
            },
            None => {
                proof {
                    assert forall|x: Seq<char>| s@ != #[trigger] spec_auth_challenge(x) by {
                    }
                }
                None
            },
        }
    } else if match_lit(s, 0, sr_pre) {
        proof {
            assert forall|x: Seq<char>| s@ != #[trigger] spec_auth_challenge(x) by {
                if s@ == spec_auth_challenge(x) {
                    assert(s@.subrange(0, ac_pre@.len() as int) =~= ac_pre@);
                    assert(false);
                }
            }
        }
        let plen = sr_pre.unicode_len();
        proof {
            assert forall|x: Seq<char>|
                s@ == #[trigger] spec_screenshot_request(x) implies json_escaped(x).push(
                '"',
            ).is_prefix_of(s@.skip(plen as int)) by {
                assert(s@.skip(plen as int) =~= json_escaped(x) + "\"}"@);
                assert(json_escaped(x).push('"').is_prefix_of(json_escaped(x) + "\"}"@)) by {
                    assert(json_escaped(x).push('"') =~= (json_escaped(x) + "\"}"@).subrange(
                        0,
                        json_escaped(x).len() as int + 1,
                    ));
                }
            }
        }
        match scan_json_string(s, plen) {
            Some((request_id, q)) => {
                if match_lit(s, q, "\"}") && s_n - q == 2 {
                    proof {
                        assert(s@ =~= s@.subrange(0, plen as int) + s@.subrange(plen as int, q as int)
                            + s@.subrange(q as int, s@.len() as int));
                        assert(s@.subrange(q as int, s@.len() as int) == "\"}"@);
                        assert(s@ == spec_screenshot_request(request_id@));
                    }
                    Some(ServerMessage::ScreenshotRequest { request_id })
                } else {
                    proof {
                        assert forall|x: Seq<char>| s@ != #[trigger] spec_screenshot_request(x) by {
                            if s@ == spec_screenshot_request(x) {
                                assert(request_id@ == x);
                                assert(q == plen + json_escaped(x).len());
                                assert(s@.subrange(q as int, q + 2) =~= "\"}"@);
                                assert(s@.len() == q + 2);
                                assert(false);
                            }
                        }
                    }
                    None
                }
            },
            None => {
                proof {
                    assert forall|x: Seq<char>| s@ != #[trigger] spec_screenshot_request(x) by {
                    }
                }
                None
            },
        }
    } else {
        proof {
            assert forall|x: Seq<char>| s@ != #[trigger] spec_auth_challenge(x) by {
                if s@ == spec_auth_challenge(x) {
                    assert(s@.subrange(0, ac_pre@.len() as int) =~= ac_pre@);
                    assert(false);
                }
            }
            assert forall|x: Seq<char>| s@ != #[trigger] spec_screenshot_request(x) by {
                if s@ == spec_screenshot_request(x) {
                    assert(s@.subrange(0, sr_pre@.len() as int) =~= sr_pre@);
                    assert(false);
                }
            }
        }
        None
    }
}

/// Decodes a text frame as an agent authentication response (the one
/// agent-to-coordinator message with a text form); accepts exactly the
/// canonical rendering and yields the name and the presented MAC.
pub fn decode_auth_response(s: &str) -> (r: Option<(String, String)>)
    ensures
        r matches Some(p) ==> s@ == spec_auth_response(p.0@, p.1@),
        forall|x: Seq<char>, y: Seq<char>|
            s@ == #[trigger] spec_auth_response(x, y) ==> (r matches Some(p) && p.0@ == x && p.1@
                == y),
{
    let ar_pre = "{\"type\":\"auth_response\",\"name\":\"";
    let ar_mid = "\",\"hmac\":\"";
    proof {
        reveal_strlit("{\"type\":\"auth_response\",\"name\":\"");
        reveal_strlit("\",\"hmac\":\"");
        reveal_strlit("\"}");
    }
    let s_n = s.unicode_len();
    if !match_lit(s, 0, ar_pre) {
        proof {
            assert forall|x: Seq<char>, y: Seq<char>| s@ != #[trigger] spec_auth_response(x, y) by {
                if s@ == spec_auth_response(x, y) {
                    assert(s@.subrange(0, ar_pre@.len() as int) =~= ar_pre@);
                    assert(false);
                }
            }
        }
        return None;
    }
    let plen = ar_pre.unicode_len();
    proof {
        assert forall|x: Seq<char>, y: Seq<char>|
            s@ == #[trigger] spec_auth_response(x, y) implies json_escaped(x).push(
            '"',
        ).is_prefix_of(s@.skip(plen as int)) by {
            let tail = ar_mid@ + json_escaped(y) + "\"}"@;
            assert(s@.skip(plen as int) =~= json_escaped(x) + tail);
            assert(tail[0] == '"');
            assert(json_escaped(x).push('"') =~= (json_escaped(x) + tail).subrange(
                0,
                json_escaped(x).len() as int + 1,
            ));
        }
    }
    let (name, q1) = match scan_json_string(s, plen) {
        Some(p) => p,
        None => {
            proof {
                assert forall|x: Seq<char>, y: Seq<char>|
                    s@ != #[trigger] spec_auth_response(x, y) by {
                }
            }
            return None;
        },
    };
    if !match_lit(s, q1, ar_mid) {
        proof {
            assert forall|x: Seq<char>, y: Seq<char>| s@ != #[trigger] spec_auth_response(x, y) by {
                if s@ == spec_auth_response(x, y) {
                    assert(name@ == x);
                    assert(q1 == plen + json_escaped(x).len());
                    assert(s@.subrange(q1 as int, q1 + ar_mid@.len()) =~= ar_mid@);
                    assert(false);
                }
            }
        }
        return None;
    }
    let mid_len = ar_mid.unicode_len();
    proof {
        assert forall|x: Seq<char>, y: Seq<char>|
            s@ == #[trigger] spec_auth_response(x, y) implies json_escaped(y).push(
            '"',
        ).is_prefix_of(s@.skip(q1 + mid_len as int)) by {
            assert(name@ == x);
            assert(q1 == plen + json_escaped(x).len());
            assert(s@.skip(q1 + mid_len as int) =~= json_escaped(y) + "\"}"@);
            assert(json_escaped(y).push('"') =~= (json_escaped(y) + "\"}"@).subrange(
                0,
                json_escaped(y).len() as int + 1,
            ));
        }
    }
    let (mac, q2) = match scan_json_string(s, q1 + mid_len) {
        Some(p) => p,
        None => {
            proof {
                assert forall|x: Seq<char>, y: Seq<char>|
                    s@ != #[trigger] spec_auth_response(x, y) by {
                }
            }
            return None;
        },
    };
    if match_lit(s, q2, "\"}") && s_n - q2 == 2 {
        proof {
            assert(s@ =~= s@.subrange(0, plen as int) + s@.subrange(plen as int, q1 as int)
                + s@.subrange(q1 as int, q1 + mid_len as int) + s@.subrange(
                q1 + mid_len as int,
                q2 as int,
            ) + s@.subrange(q2 as int, s@.len() as int));
            assert(s@.subrange(q2 as int, s@.len() as int) == "\"}"@);
            assert(s@ == spec_auth_response(name@, mac@));
        }
        Some((name, mac))
    } else {
        proof {
            assert forall|x: Seq<char>, y: Seq<char>| s@ != #[trigger] spec_auth_response(x, y) by {
                if s@ == spec_auth_response(x, y) {
                    assert(name@ == x);
                    assert(q1 == plen + json_escaped(x).len());
                    assert(mac@ == y);
                    assert(q2 == q1 + mid_len + json_escaped(y).len());
                    assert(s@.subrange(q2 as int, q2 + 2) =~= "\"}"@);
                    assert(s@.len() == q2 + 2);
                    assert(false);
                }
            }
        }
        None
    }
}

} // verus!
