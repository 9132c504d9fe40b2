//! Wire codec: one frame is the JSON text `{"text":"...","timestamp":N}`.
//!
//! The encoder emits exactly this canonical shape: the text field first,
//! the named string escapes `\"`, `\\`, `\n`, `\r`, `\t`, `\b`, `\f` and
//! `\u00XX` for other control characters, and the timestamp as plain
//! decimal digits. The
//! decoder accepts exactly the same shape, so any frame this transport
//! emits is decoded back to the text and timestamp it was built from;
//! anything else is treated as a malformed frame and rejected.

use vstd::prelude::*;
use vstd::string::StrSliceExecFns;
use vstd::string::StringSliceAdditionalSpecFns;
use crate::text::chars_of;
use crate::text::push_char;
use vstd::utf8::decode_utf8;
use vstd::utf8::encode_utf8;
use vstd::utf8::valid_utf8;

verus! {

/// The opening of every frame: `{"text":"`.
pub open spec fn head_chars() -> Seq<char> {
    seq!['{', '"', 't', 'e', 'x', 't', '"', ':', '"']
}

/// The middle of every frame, after the text's closing quote:
/// `,"timestamp":`.
pub open spec fn mid_chars() -> Seq<char> {
    seq![',', '"', 't', 'i', 'm', 'e', 's', 't', 'a', 'm', 'p', '"', ':']
}

/// Decimal digit test.
pub open spec fn is_digit(c: char) -> bool {
    48 <= c as u32 <= 57
}

/// Value of a decimal digit character.
pub open spec fn digit_val(c: char) -> int {
    c as u32 - 48
}

/// Character for a decimal digit value below ten.
pub open spec fn digit_char(v: int) -> char {
    ((48 + v) as u8) as char
}

/// Lowercase hexadecimal digit test.
pub open spec fn is_hex(c: char) -> bool {
    is_digit(c) || 97 <= c as u32 <= 102
}

/// Value of a lowercase hexadecimal digit character.
pub open spec fn hex_val(c: char) -> int {
    if is_digit(c) {
        c as u32 - 48
    } else {
        c as u32 - 87
    }
}

/// Character for a hexadecimal digit value below sixteen.
pub open spec fn hex_char(v: int) -> char {
    if v < 10 {
        ((48 + v) as u8) as char
    } else {
        ((87 + v) as u8) as char
    }
}

/// The character with code `v`, for codes below 128.
pub open spec fn code_char(v: int) -> char {
    (v as u8) as char
}

/// How one character of message text is written inside the JSON string.
pub open spec fn esc_char(c: char) -> Seq<char> {
    if c == '"' {
        seq!['\\', '"']
    } else if c == '\\' {
        seq!['\\', '\\']
    } else if c == '\n' {
        seq!['\\', 'n']
    } else if c == '\r' {
        seq!['\\', 'r']
    } else if c == '\t' {
        seq!['\\', 't']
    } else if c == '\u{8}' {
        seq!['\\', 'b']
    } else if c == '\u{c}' {
        seq!['\\', 'f']
    } else if (c as u32) < 32 {
        seq!['\\', 'u', '0', '0', hex_char((c as u32 / 16) as int), hex_char((c as u32 % 16) as int)]
    } else {
        seq![c]
    }
}

/// The whole text written inside the JSON string.
pub open spec fn esc(s: Seq<char>) -> Seq<char>
    decreases s.len(),
{
    if s.len() == 0 {
        Seq::empty()
    } else {
        esc_char(s[0]) + esc(s.drop_first())
    }
}

/// Decimal digits of `n`, most significant first.
pub open spec fn dec_of(n: nat) -> Seq<char>
    decreases n,
{
    if n < 10 {
        seq![digit_char(n as int)]
    } else {
        dec_of(n / 10).push(digit_char((n % 10) as int))
    }
}

/// The characters of one frame carrying `t` as text and `ts` as timestamp.
pub open spec fn frame_chars(t: Seq<char>, ts: u128) -> Seq<char> {
    head_chars() + esc(t) + seq!['"'] + mid_chars() + dec_of(ts as nat) + seq!['}']
}

/// Relies on `String::from_utf8`: succeeds exactly on valid UTF-8 input,
/// and then returns the string those bytes encode (`from_utf8` is
/// documented as the inverse of `into_bytes`).
#[verifier::external_body]
pub(crate) fn utf8_to_string(v: Vec<u8>) -> (r: Option<String>)
    ensures
        r matches Some(s) ==> valid_utf8(v@) && s@ == decode_utf8(v@),
        r is None ==> !valid_utf8(v@),
{
    String::from_utf8(v).ok()
}

/// Escaping distributes over appending one character.
proof fn lemma_esc_push(s: Seq<char>, c: char)
    ensures
        esc(s.push(c)) == esc(s) + esc_char(c),
    decreases s.len(),
{
    if s.len() == 0 {
        assert(s.push(c)[0] == c);
        assert(s.push(c).drop_first() =~= Seq::<char>::empty());
        assert(esc(Seq::<char>::empty()) == Seq::<char>::empty());
        assert(esc(s.push(c)) =~= esc(s) + esc_char(c));
    } else {
        assert(s.push(c)[0] == s[0]);
        assert(s.push(c).drop_first() =~= s.drop_first().push(c));
        lemma_esc_push(s.drop_first(), c);
        assert(esc(s.push(c)) =~= esc(s) + esc_char(c));
    }
}

/// Writes the escaped form of one text character.
fn push_escaped(out: &mut String, c: char)
    ensures
        final(out)@ == old(out)@ + esc_char(c),
{
    if c == '"' {
        push_char(out, '\\');
        push_char(out, '"');
        proof {
            assert(old(out)@.push('\\').push('"') =~= old(out)@ + esc_char(c));
        }
    } else if c == '\\' {
        push_char(out, '\\');
        push_char(out, '\\');
        proof {
            assert(old(out)@.push('\\').push('\\') =~= old(out)@ + esc_char(c));
        }
    } else if c == '\n' {
        push_char(out, '\\');
        push_char(out, 'n');
        proof {
            assert(old(out)@.push('\\').push('n') =~= old(out)@ + esc_char(c));
        }
    } else if c == '\r' {
        push_char(out, '\\');
        push_char(out, 'r');
        proof {
            assert(old(out)@.push('\\').push('r') =~= old(out)@ + esc_char(c));
        }
    } else if c == '\t' {
        push_char(out, '\\');
        push_char(out, 't');
        proof {
            assert(old(out)@.push('\\').push('t') =~= old(out)@ + esc_char(c));
        }
    } else if c == '\u{8}' {
        push_char(out, '\\');
        push_char(out, 'b');
        proof {
            assert(old(out)@.push('\\').push('b') =~= old(out)@ + esc_char(c));
        }
    } else if c == '\u{c}' {
        push_char(out, '\\');
        push_char(out, 'f');
        proof {
            assert(old(out)@.push('\\').push('f') =~= old(out)@ + esc_char(c));
        }
    } else {
        let v = c as u32;
        if v < 32 {
            let hi = (v / 16) as u8;
            let lo = (v % 16) as u8;
            push_char(out, '\\');
            push_char(out, 'u');
            push_char(out, '0');
            push_char(out, '0');
            push_char(out, hex_digit_char(hi));
            push_char(out, hex_digit_char(lo));
            proof {
                assert(old(out)@.push('\\').push('u').push('0').push('0').push(
                    hex_char((c as u32 / 16) as int),
                ).push(hex_char((c as u32 % 16) as int)) =~= old(out)@ + esc_char(c));
            }
        } else {
            push_char(out, c);
            proof {
                assert(old(out)@.push(c) =~= old(out)@ + esc_char(c));
            }
        }
    }
}

/// The character for one hexadecimal digit value.
fn hex_digit_char(v: u8) -> (c: char)
    requires
        v < 16,
    ensures
        c == hex_char(v as int),
{
    if v < 10 {
        (48 + v) as char
    } else {
        (87 + v) as char
    }
}

/// Writes the decimal digits of `n`, most significant first.
fn push_decimal(out: &mut String, n: u128)
    ensures
        final(out)@ == old(out)@ + dec_of(n as nat),
{
    let mut tmp: Vec<char> = Vec::new();
    let mut cur: u128 = n;
    let ghost mut tail: Seq<char> = Seq::empty();
    while cur >= 10
        invariant
            dec_of(n as nat) == dec_of(cur as nat) + tail,
            tmp@.len() == tail.len(),
            forall|k: int| 0 <= k < tail.len() ==> tail[k] == tmp@[tail.len() - 1 - k],
        decreases cur,
    {
        let d = (cur % 10) as u8;
        proof {
            assert(dec_of(cur as nat) == dec_of((cur as nat) / 10).push(
                digit_char(((cur as nat) % 10) as int),
            ));
            assert(dec_of((cur as nat) / 10).push(digit_char(((cur as nat) % 10) as int)) + tail
                =~= dec_of((cur as nat) / 10) + (seq![digit_char(((cur as nat) % 10) as int)]
                + tail));
            tail = seq![digit_char(((cur as nat) % 10) as int)] + tail;
        }
        tmp.push((48 + d) as char);
        cur = cur / 10;
    }
    push_char(out, (48 + (cur as u8)) as char);
    proof {
        assert(dec_of(cur as nat) == seq![digit_char(cur as int)]);
        assert(old(out)@.push(digit_char(cur as int)) =~= old(out)@ + seq![digit_char(cur as int)]);
    }
    let ghost base = out@;
    let mut j: usize = tmp.len();
    while j > 0
        invariant
            j <= tmp@.len() == tail.len(),
            forall|k: int| 0 <= k < tail.len() ==> tail[k] == tmp@[tail.len() - 1 - k],
            out@ == base + tail.take(tail.len() - j),
        decreases j,
    {
        j = j - 1;
        let c = tmp[j];
        push_char(out, c);
        proof {
            assert(tail[tail.len() - 1 - j] == tmp@[j as int]);
            assert(base + tail.take(tail.len() - j - 1 + 1) =~= (base + tail.take(
                tail.len() - j - 1,
            )).push(tmp@[j as int]));
        }
    }
    proof {
        assert(tail.take(tail.len() as int) =~= tail);
        assert(base + tail =~= old(out)@ + dec_of(n as nat));
    }
}

/// Reading the JSON string open at position `i` of `s`: the decoded text up
/// to the closing quote, and the position just past that quote. `None` when
/// the string never closes or holds an escape the codec does not emit.
pub open spec fn unesc_at(s: Seq<char>, i: int) -> Option<(Seq<char>, int)>
    decreases s.len() - i,
{
    if i < 0 || i >= s.len() {
        None
    } else if s[i] == '"' {
        Some((Seq::empty(), i + 1))
    } else if s[i] == '\\' {
        if i + 1 >= s.len() {
            None
        } else {
            let e = s[i + 1];
            if e == '"' || e == '\\' {
                unesc_cont(unesc_at(s, i + 2), seq![e])
            } else if e == 'n' {
                unesc_cont(unesc_at(s, i + 2), seq!['\n'])
            } else if e == 'r' {
                unesc_cont(unesc_at(s, i + 2), seq!['\r'])
            } else if e == 't' {
                unesc_cont(unesc_at(s, i + 2), seq!['\t'])
            } else if e == 'b' {
                unesc_cont(unesc_at(s, i + 2), seq!['\u{8}'])
            } else if e == 'f' {
                unesc_cont(unesc_at(s, i + 2), seq!['\u{c}'])
            } else if e == 'u' {
                if i + 6 > s.len() {
                    None
                } else if s[i + 2] == '0' && s[i + 3] == '0' && is_hex(s[i + 4]) && is_hex(
                    s[i + 5],
                ) {
                    unesc_cont(unesc_at(s, i + 6), seq![code_char(hex_val(s[i + 4]) * 16 + hex_val(s[i + 5]))])
                } else {
                    None
                }
            } else {
                None
            }
        }
    } else {
        unesc_cont(unesc_at(s, i + 1), seq![s[i]])
    }
}

/// Prepends already-decoded characters to the rest of a string read.
pub open spec fn unesc_cont(r: Option<(Seq<char>, int)>, pre: Seq<char>) -> Option<
    (Seq<char>, int),
> {
    match r {
        None => None,
        Some((t, j)) => Some((pre + t, j)),
    }
}

/// First position at or after `i` that does not hold a decimal digit.
pub open spec fn digits_end(s: Seq<char>, i: int) -> int
    decreases s.len() - i,
{
    if 0 <= i < s.len() && is_digit(s[i]) {
        digits_end(s, i + 1)
    } else {
        i
    }
}

/// Value of a run of decimal digits, most significant first.
pub open spec fn dec_val(ds: Seq<char>) -> int
    decreases ds.len(),
{
    if ds.len() == 0 {
        0
    } else {
        dec_val(ds.drop_last()) * 10 + digit_val(ds.last())
    }
}

/// The frame a character sequence parses to, if any: the canonical shape
/// `{"text":"..","timestamp":N}` and nothing else. This is the decoder's
/// whole behaviour: a sequence parses to `Some` exactly when it is such a
/// frame with an in-range timestamp.
pub open spec fn parse_frame(s: Seq<char>) -> Option<(Seq<char>, u128)> {
    if s.len() < 9 || s.subrange(0, 9) != head_chars() {
        None
    } else {
        match unesc_at(s, 9) {
            None => None,
            Some((t, p)) => {
                if p + 13 > s.len() || s.subrange(p, p + 13) != mid_chars() {
                    None
                } else {
                    let j = p + 13;
                    let e = digits_end(s, j);
                    if e == j {
                        None
                    } else {
                        let v = dec_val(s.subrange(j, e));
                        if v > u128::MAX {
                            None
                        } else if e + 1 == s.len() && s[e] == '}' {
                            Some((t, v as u128))
                        } else {
                            None
                        }
                    }
                }
            },
        }
    }
}

/// What a received payload decodes to: the bytes must be valid UTF-8 whose
/// characters parse as one frame.
pub open spec fn decode_spec(bytes: Seq<u8>) -> Option<(Seq<char>, u128)> {
    if valid_utf8(bytes) {
        parse_frame(decode_utf8(bytes))
    } else {
        None
    }
}

/// The value of one hexadecimal digit character, when it is one.
fn hex_value(c: char) -> (r: Option<u8>)
    ensures
        (r is Some) == is_hex(c),
        r matches Some(v) ==> v < 16 && v as int == hex_val(c),
{
    let u = c as u32;
    if 48 <= u && u <= 57 {
        Some((u - 48) as u8)
    } else if 97 <= u && u <= 102 {
        Some((u - 87) as u8)
    } else {
        None
    }
}

/// Whether `v` carries exactly `pat` starting at position `i`.
fn match_at(v: &Vec<char>, i: usize, pat: &str) -> (r: bool)
    requires
        i <= v@.len(),
    ensures
        r == (i + pat@.len() <= v@.len() && v@.subrange(i as int, i + pat@.len()) == pat@),
{
    let n = v.len();
    let m = pat.unicode_len();
    if m > n - i {
        return false;
    }
    let mut k: usize = 0;
    while k < m
        invariant
            i + m <= n == v@.len(),
            m == pat@.len(),
            k <= m,
            forall|q: int| 0 <= q < k ==> v@[i + q] == pat@[q],
        decreases m - k,
    {
        if v[i + k] != pat.get_char(k) {
            proof {
                assert(v@.subrange(i as int, i + m) [k as int] == v@[i + k]);
            }
            return false;
        }
        k = k + 1;
    }
    proof {
        assert(v@.subrange(i as int, i + m) =~= pat@);
    }
    true
}

/// Reads the JSON string open at `start`, returning the decoded text and the
/// position just past the closing quote.
fn unescape_from(v: &Vec<char>, start: usize) -> (r: Option<(String, usize)>)
    requires
        start <= v@.len(),
    ensures
        match unesc_at(v@, start as int) {
            Some((t, j)) => r matches Some(p) && p.0@ == t && p.1 == j && p.1 <= v@.len(),
            None => r is None,
        },
{
    let n = v.len();
    let mut text = String::new();
    let mut i: usize = start;
    while i < n
        invariant
            v@.len() == n,
            start <= i <= n,
            unesc_at(v@, start as int) == unesc_cont(unesc_at(v@, i as int), text@),
        decreases n - i,
    {
        let ghost sv = v@;
        let ghost pre = text@;
        let c = v[i];
        if c == '"' {
            proof {
                assert(unesc_at(sv, i as int) == Some((Seq::<char>::empty(), i + 1)));
                assert(pre + Seq::<char>::empty() =~= pre);
            }
            return Some((text, i + 1));
        } else if c == '\\' {
            if i + 1 >= n {
                proof {
                    assert(unesc_at(sv, i as int) is None);
                }
                return None;
            }
            let e = v[i + 1];
            if e == '"' || e == '\\' {
                proof {
                    assert(unesc_at(sv, i as int) == unesc_cont(unesc_at(sv, i + 2), seq![e]));
                    assert(pre + (seq![e] + unesc_text(unesc_at(sv, i + 2))) =~= pre.push(e)
                        + unesc_text(unesc_at(sv, i + 2)));
                }
                push_char(&mut text, e);
                i = i + 2;
            } else if e == 'n' {
                proof {
                    assert(unesc_at(sv, i as int) == unesc_cont(unesc_at(sv, i + 2), seq!['\n']));
                    assert(pre + (seq!['\n'] + unesc_text(unesc_at(sv, i + 2))) =~= pre.push('\n')
                        + unesc_text(unesc_at(sv, i + 2)));
                }
                push_char(&mut text, '\n');
                i = i + 2;
            } else if e == 'r' {
                proof {
                    assert(unesc_at(sv, i as int) == unesc_cont(unesc_at(sv, i + 2), seq!['\r']));
                    assert(pre + (seq!['\r'] + unesc_text(unesc_at(sv, i + 2))) =~= pre.push('\r')
                        + unesc_text(unesc_at(sv, i + 2)));
                }
                push_char(&mut text, '\r');
                i = i + 2;
            } else if e == 't' {
                proof {
                    assert(unesc_at(sv, i as int) == unesc_cont(unesc_at(sv, i + 2), seq!['\t']));
                    assert(pre + (seq!['\t'] + unesc_text(unesc_at(sv, i + 2))) =~= pre.push('\t')
                        + unesc_text(unesc_at(sv, i + 2)));
                }
                push_char(&mut text, '\t');
                i = i + 2;
            } else if e == 'b' {
                proof {
                    assert(unesc_at(sv, i as int) == unesc_cont(
                        unesc_at(sv, i + 2),
                        seq!['\u{8}'],
                    ));
                    assert(pre + (seq!['\u{8}'] + unesc_text(unesc_at(sv, i + 2))) =~= pre.push(
                        '\u{8}',
                    ) + unesc_text(unesc_at(sv, i + 2)));
                }
                push_char(&mut text, '\u{8}');
                i = i + 2;
            } else if e == 'f' {
                proof {
                    assert(unesc_at(sv, i as int) == unesc_cont(
                        unesc_at(sv, i + 2),
                        seq!['\u{c}'],
                    ));
                    assert(pre + (seq!['\u{c}'] + unesc_text(unesc_at(sv, i + 2))) =~= pre.push(
                        '\u{c}',
                    ) + unesc_text(unesc_at(sv, i + 2)));
                }
                push_char(&mut text, '\u{c}');
                i = i + 2;
            } else if e == 'u' {
                if n - i < 6 {
                    proof {
                        assert(unesc_at(sv, i as int) is None);
                    }
                    return None;
                }
                let c2 = v[i + 2];
                let c3 = v[i + 3];
                if c2 != '0' || c3 != '0' {
                    proof {
                        assert(unesc_at(sv, i as int) is None);
                    }
                    return None;
                }
                let h1 = match hex_value(v[i + 4]) {
                    Some(hv) => hv,
                    None => {
                        proof {
                            assert(unesc_at(sv, i as int) is None);
                        }
                        return None;
                    },
                };
                let h2 = match hex_value(v[i + 5]) {
                    Some(hv) => hv,
                    None => {
                        proof {
                            assert(unesc_at(sv, i as int) is None);
                        }
                        return None;
                    },
                };
                let code: u8 = h1 * 16 + h2;
                proof {
                    assert(code as int == hex_val(sv[i + 4]) * 16 + hex_val(sv[i + 5]));
                    assert(code as char == code_char(code as int));
                    assert(unesc_at(sv, i as int) == unesc_cont(
                        unesc_at(sv, i + 6),
                        seq![code_char(code as int)],
                    ));
                    assert(pre + (seq![code_char(code as int)] + unesc_text(unesc_at(sv, i + 6)))
                        =~= pre.push(code_char(code as int)) + unesc_text(unesc_at(sv, i + 6)));
                }
                push_char(&mut text, code as char);
                i = i + 6;
            } else {
                proof {
                    assert(unesc_at(sv, i as int) is None);
                }
                return None;
            }
        } else {
            proof {
                assert(unesc_at(sv, i as int) == unesc_cont(unesc_at(sv, i + 1), seq![c]));
                assert(pre + (seq![c] + unesc_text(unesc_at(sv, i + 1))) =~= pre.push(c)
                    + unesc_text(unesc_at(sv, i + 1)));
            }
            push_char(&mut text, c);
            i = i + 1;
        }
    }
    proof {
        assert(unesc_at(v@, i as int) is None);
    }
    None
}

/// The text component of a string read, empty when the read failed.
pub open spec fn unesc_text(r: Option<(Seq<char>, int)>) -> Seq<char> {
    match r {
        None => Seq::empty(),
        Some((t, j)) => t,
    }
}

/// Decodes one frame's characters: text and timestamp of the canonical
/// frame shape, `None` for anything else.
pub fn decode_frame(s: &str) -> (r: Option<(String, u128)>)
    ensures
        match parse_frame(s@) {
            Some((t, v)) => r matches Some(p) && p.0@ == t && p.1 == v,
            None => r is None,
        },
{
    let cs = chars_of(s);
    let n = cs.len();
    let ghost sv = s@;
    proof {
        reveal_strlit("{\"text\":\"");
        assert("{\"text\":\""@ =~= head_chars());
    }
    if !match_at(&cs, 0, "{\"text\":\"") {
        return None;
    }
    let (text, p) = match unescape_from(&cs, 9) {
        Some(tp) => tp,
        None => {
            return None;
        },
    };
    proof {
        reveal_strlit(",\"timestamp\":");
        assert(",\"timestamp\":"@ =~= mid_chars());
    }
    if !match_at(&cs, p, ",\"timestamp\":") {
        return None;
    }
    let j = p + 13;
    let mut e = j;
    while e < n && is_digit_char(cs[e])
        invariant
            sv == s@,
            sv == cs@,
            sv.len() == n,
            sv.subrange(0, 9) == head_chars(),
            unesc_at(sv, 9) == Some((text@, p as int)),
            p + 13 <= n,
            sv.subrange(p as int, p + 13) == mid_chars(),
            j == p + 13,
            j <= e <= n,
            digits_end(sv, j as int) == digits_end(sv, e as int),
            forall|q: int| j <= q < e ==> is_digit(sv[q]),
        decreases n - e,
    {
        proof {
            assert(digits_end(sv, e as int) == digits_end(sv, e + 1));
        }
        e = e + 1;
    }
    proof {
        assert(digits_end(sv, e as int) == e);
    }
    if e == j {
        return None;
    }
    let ghost ds = sv.subrange(j as int, e as int);
    proof {
        lemma_dec_val_nonneg(ds);
        assert(parse_frame(sv) == (if dec_val(ds) > u128::MAX {
            None
        } else if e + 1 == n && sv[e as int] == '}' {
            Some((text@, dec_val(ds) as u128))
        } else {
            None::<(Seq<char>, u128)>
        }));
    }
    let mut acc: u128 = 0;
    let mut k = j;
    proof {
        assert(ds.take(0) =~= Seq::<char>::empty());
    }
    while k < e
        invariant
            sv == s@,
            sv == cs@,
            sv.len() == n,
            j <= k <= e <= n,
            ds == sv.subrange(j as int, e as int),
            forall|q: int| j <= q < e ==> is_digit(sv[q]),
            acc as int == dec_val(ds.take(k - j)),
            parse_frame(sv) == (if dec_val(ds) > u128::MAX {
                None
            } else if e + 1 == n && sv[e as int] == '}' {
                Some((text@, dec_val(ds) as u128))
            } else {
                None::<(Seq<char>, u128)>
            }),
        decreases e - k,
    {
        let c = cs[k];
        let d: u8 = ((c as u32) - 48) as u8;
        proof {
            assert(is_digit(sv[k as int]));
            assert(d as int == digit_val(sv[k as int]));
        }
        if acc > (u128::MAX - (d as u128)) / 10 {
            proof {
                lemma_dec_guard(acc as int, d as int);
                assert(ds.take(k - j + 1).drop_last() =~= ds.take(k - j));
                assert(ds.take(k - j + 1).last() == sv[k as int]);
                assert(dec_val(ds.take(k - j + 1)) > u128::MAX);
                lemma_dec_val_mono(ds, k - j + 1);
                assert(dec_val(sv.subrange(j as int, e as int)) > u128::MAX);
            }
            return None;
        }
        proof {
            lemma_dec_guard(acc as int, d as int);
            assert(ds.take(k - j + 1).drop_last() =~= ds.take(k - j));
            assert(ds.take(k - j + 1).last() == sv[k as int]);
        }
        acc = acc * 10 + (d as u128);
        k = k + 1;
    }
    proof {
        assert(ds.take(e - j) =~= ds);
    }
    if e < n && e + 1 == n && cs[e] == '}' {
        Some((text, acc))
    } else {
        None
    }
}

/// Decimal digit test, executable form.
fn is_digit_char(c: char) -> (r: bool)
    ensures
        r == is_digit(c),
{
    let u = c as u32;
    48 <= u && u <= 57
}

/// The value of a digit run is never negative.
proof fn lemma_dec_val_nonneg(ds: Seq<char>)
    requires
        forall|q: int| 0 <= q < ds.len() ==> is_digit(#[trigger] ds[q]),
    ensures
        dec_val(ds) >= 0,
    decreases ds.len(),
{
    if ds.len() > 0 {
        assert(forall|q: int|
            0 <= q < ds.drop_last().len() ==> is_digit(#[trigger] ds.drop_last()[q]));
        lemma_dec_val_nonneg(ds.drop_last());
        assert(digit_val(ds.last()) >= 0);
    }
}

/// A longer digit prefix never has a smaller value.
proof fn lemma_dec_val_mono(ds: Seq<char>, m: int)
    requires
        0 <= m <= ds.len(),
        forall|q: int| 0 <= q < ds.len() ==> is_digit(#[trigger] ds[q]),
    ensures
        dec_val(ds) >= dec_val(ds.take(m)),
    decreases ds.len() - m,
{
    if m == ds.len() {
        assert(ds.take(m) =~= ds);
    } else {
        lemma_dec_val_mono(ds, m + 1);
        assert(ds.take(m + 1).drop_last() =~= ds.take(m));
        assert(forall|q: int| 0 <= q < ds.take(m).len() ==> is_digit(#[trigger] ds.take(m)[q]));
        lemma_dec_val_nonneg(ds.take(m));
        assert(is_digit(ds.take(m + 1).last()));
        assert(dec_val(ds.take(m + 1)) >= dec_val(ds.take(m)));
    }
}

/// The decoder's overflow guard agrees with the parsed value bound.
proof fn lemma_dec_guard(acc: int, d: int)
    requires
        0 <= acc,
        0 <= d <= 9,
    ensures
        (acc > (u128::MAX - d) / 10) == (acc * 10 + d > u128::MAX),
{
    let m = u128::MAX as int;
    let q = (m - d) / 10;
    assert((m - d) == 10 * q + (m - d) % 10) by {
        vstd::arithmetic::div_mod::lemma_fundamental_div_mod(m - d, 10);
    }
    if acc <= q {
        assert(acc * 10 <= q * 10);
        assert(acc * 10 + d <= m);
    } else {
        assert(acc * 10 >= (q + 1) * 10);
        assert(acc * 10 + d > m);
    }
}

/// Every decimal rendering is a nonempty run of digit characters.
proof fn lemma_dec_of_digits(n: nat)
    ensures
        dec_of(n).len() >= 1,
        forall|k: int| 0 <= k < dec_of(n).len() ==> is_digit(#[trigger] dec_of(n)[k]),
    decreases n,
{
    if n < 10 {
        assert(is_digit(digit_char(n as int)));
    } else {
        lemma_dec_of_digits(n / 10);
        assert(is_digit(digit_char((n % 10) as int)));
        assert forall|k: int| 0 <= k < dec_of(n).len() implies is_digit(
            #[trigger] dec_of(n)[k],
        ) by {
            if k < dec_of(n).len() - 1 {
                assert(dec_of(n)[k] == dec_of(n / 10)[k]);
            } else {
                assert(dec_of(n)[k] == digit_char((n % 10) as int));
            }
        }
    }
}

/// Reading back the decimal rendering of `n` yields `n`.
proof fn lemma_dec_of_val(n: nat)
    ensures
        dec_val(dec_of(n)) == n,
    decreases n,
{
    if n < 10 {
        assert(seq![digit_char(n as int)].drop_last() =~= Seq::<char>::empty());
        assert(dec_val(Seq::<char>::empty()) == 0);
        assert(digit_val(digit_char(n as int)) == n);
    } else {
        lemma_dec_of_val(n / 10);
        assert(dec_of(n).drop_last() =~= dec_of(n / 10));
        assert(dec_of(n).last() == digit_char((n % 10) as int));
        assert(digit_val(digit_char((n % 10) as int)) == n % 10);
        vstd::arithmetic::div_mod::lemma_fundamental_div_mod(n as int, 10);
    }
}

/// A run of `k` digits followed by a non-digit scans to exactly its end.
proof fn lemma_digits_end_block(s: Seq<char>, i: int, k: int)
    requires
        0 <= i,
        0 <= k,
        i + k <= s.len(),
        forall|m: int| i <= m < i + k ==> is_digit(#[trigger] s[m]),
        i + k == s.len() || !is_digit(s[i + k]),
    ensures
        digits_end(s, i) == i + k,
    decreases k,
{
    if k == 0 {
    } else {
        assert(is_digit(s[i]));
        lemma_digits_end_block(s, i + 1, k - 1);
    }
}

/// A character with a code below 128 is recovered from that code.
proof fn lemma_code_char_id(c: char)
    requires
        (c as u32) < 128,
    ensures
        code_char((c as u32) as int) == c,
{
}

/// Reading back the escaped form of `t`, up to its closing quote, yields
/// `t` itself and stops just past the quote.
proof fn lemma_unesc_esc(t: Seq<char>, s: Seq<char>, i: int, rest: Seq<char>)
    requires
        0 <= i <= s.len(),
        s.skip(i) == esc(t) + seq!['"'] + rest,
    ensures
        unesc_at(s, i) == Some((t, i + esc(t).len() + 1)),
    decreases t.len(),
{
    if t.len() == 0 {
        assert(esc(t) == Seq::<char>::empty());
        assert(s.skip(i).len() == 1 + rest.len());
        assert(i < s.len());
        assert(s[i] == s.skip(i)[0]);
        assert(s[i] == '"');
        assert(t =~= Seq::<char>::empty());
    } else {
        let c = t[0];
        let t2 = t.drop_first();
        let ec = esc_char(c);
        assert(esc(t) == ec + esc(t2));
        let k = ec.len() as int;
        assert(s.skip(i).len() == esc(t).len() + 1 + rest.len());
        assert(i + k <= s.len());
        assert forall|m: int| 0 <= m < k implies s[i + m] == ec[m] by {
            assert(s.skip(i)[m] == s[i + m]);
            assert((esc(t) + seq!['"'] + rest)[m] == esc(t)[m]);
            assert(esc(t)[m] == ec[m]);
        }
        assert(s.skip(i + k) =~= esc(t2) + seq!['"'] + rest) by {
            assert forall|m: int| 0 <= m < s.len() - i - k implies s.skip(i + k)[m] == (esc(t2)
                + seq!['"'] + rest)[m] by {
                assert(s.skip(i + k)[m] == s[i + k + m]);
                assert(s[i + k + m] == s.skip(i)[k + m]);
                assert(s.skip(i)[k + m] == (esc(t) + seq!['"'] + rest)[k + m]);
            }
        }
        lemma_unesc_esc(t2, s, i + k, rest);
        assert(seq![c] + t2 =~= t);
        if c == '"' {
            assert(s[i] == '\\' && s[i + 1] == '"');
        } else if c == '\\' {
            assert(s[i] == '\\' && s[i + 1] == '\\');
        } else if c == '\n' {
            assert(s[i] == '\\' && s[i + 1] == 'n');
        } else if c == '\r' {
            assert(s[i] == '\\' && s[i + 1] == 'r');
        } else if c == '\t' {
            assert(s[i] == '\\' && s[i + 1] == 't');
        } else if c == '\u{8}' {
            assert(s[i] == '\\' && s[i + 1] == 'b');
        } else if c == '\u{c}' {
            assert(s[i] == '\\' && s[i + 1] == 'f');
        } else if (c as u32) < 32 {
            let code = c as u32 as int;
            let hi = code / 16;
            let lo = code % 16;
            assert(s[i] == '\\' && s[i + 1] == 'u' && s[i + 2] == '0' && s[i + 3] == '0');
            assert(s[i + 4] == hex_char(hi) && s[i + 5] == hex_char(lo));
            assert(0 <= hi < 2 && 0 <= lo < 16) by {
                vstd::arithmetic::div_mod::lemma_fundamental_div_mod(code, 16);
            }
            assert(is_hex(hex_char(hi)) && hex_val(hex_char(hi)) == hi);
            assert(is_hex(hex_char(lo)) && hex_val(hex_char(lo)) == lo);
            assert(hi * 16 + lo == code) by {
                vstd::arithmetic::div_mod::lemma_fundamental_div_mod(code, 16);
            }
            lemma_code_char_id(c);
            assert(code == (c as u32) as int);
            assert(i + 6 <= s.len());
            assert(unesc_at(s, i) == unesc_cont(unesc_at(s, i + 6), seq![c]));
        } else {
            assert(s[i] == c);
            assert(c != '"' && c != '\\');
            assert(unesc_at(s, i) == unesc_cont(unesc_at(s, i + 1), seq![c]));
        }
    }
}

/// Round trip of the character codec: the frame built from any text and
/// timestamp parses back to exactly that text and timestamp.
pub proof fn lemma_frame_round_trip(t: Seq<char>, ts: u128)
    ensures
        parse_frame(frame_chars(t, ts)) == Some((t, ts)),
{
    let s = frame_chars(t, ts);
    let e0 = esc(t);
    let d = dec_of(ts as nat);
    lemma_dec_of_digits(ts as nat);
    lemma_dec_of_val(ts as nat);
    assert(s.len() == 9 + e0.len() + 1 + 13 + d.len() + 1);
    assert(s.subrange(0, 9) =~= head_chars());
    assert(s.skip(9) =~= e0 + seq!['"'] + (mid_chars() + d + seq!['}']));
    lemma_unesc_esc(t, s, 9, mid_chars() + d + seq!['}']);
    let p = 9 + e0.len() as int + 1;
    assert(unesc_at(s, 9) == Some((t, p)));
    assert(s.subrange(p, p + 13) =~= mid_chars());
    let j = p + 13;
    assert forall|m: int| j <= m < j + d.len() implies is_digit(#[trigger] s[m]) by {
        assert(s[m] == d[m - j]);
    }
    assert(s[j + d.len()] == '}');
    assert(!is_digit('}'));
    lemma_digits_end_block(s, j, d.len() as int);
    let e = j + d.len() as int;
    assert(s.subrange(j, e) =~= d);
    assert(dec_val(s.subrange(j, e)) == ts);
    assert(e + 1 == s.len());
    assert(s[e] == '}');
}

/// Round trip over the wire: the bytes of an encoded frame decode back to
/// the text and timestamp the frame was built from.
pub proof fn lemma_round_trip(t: Seq<char>, ts: u128)
    ensures
        decode_spec(encode_utf8(frame_chars(t, ts))) == Some((t, ts)),
{
    vstd::utf8::encode_utf8_valid_utf8(frame_chars(t, ts));
    vstd::utf8::encode_utf8_decode_utf8(frame_chars(t, ts));
    lemma_frame_round_trip(t, ts);
}

/// Builds the frame text for one segment and its timestamp.
pub fn encode_frame(text: &str, ts: u128) -> (r: String)
    ensures
        r@ == frame_chars(text@, ts),
{
    let mut out = String::new();
    push_char(&mut out, '{');
    push_char(&mut out, '"');
    push_char(&mut out, 't');
    push_char(&mut out, 'e');
    push_char(&mut out, 'x');
    push_char(&mut out, 't');
    push_char(&mut out, '"');
    push_char(&mut out, ':');
    push_char(&mut out, '"');
    proof {
        assert(out@ =~= head_chars());
    }
    let cs = chars_of(text);
    let n = cs.len();
    let mut i: usize = 0;
    proof {
        assert(text@.take(0) =~= Seq::<char>::empty());
        assert(esc(Seq::<char>::empty()) == Seq::<char>::empty());
        assert(out@ =~= head_chars() + esc(text@.take(0)));
    }
    while i < n
        invariant
            cs@ == text@,
            text@.len() == n,
            i <= n,
            out@ == head_chars() + esc(text@.take(i as int)),
        decreases n - i,
    {
        let c = cs[i];
        push_escaped(&mut out, c);
        proof {
            assert(text@.take(i + 1) =~= text@.take(i as int).push(text@[i as int]));
            lemma_esc_push(text@.take(i as int), text@[i as int]);
            assert(head_chars() + esc(text@.take(i as int)) + esc_char(text@[i as int])
                =~= head_chars() + esc(text@.take(i + 1)));
        }
        i = i + 1;
    }
    proof {
        assert(text@.take(n as int) =~= text@);
    }
    push_char(&mut out, '"');
    push_char(&mut out, ',');
    push_char(&mut out, '"');
    push_char(&mut out, 't');
    push_char(&mut out, 'i');
    push_char(&mut out, 'm');
    push_char(&mut out, 'e');
    push_char(&mut out, 's');
    push_char(&mut out, 't');
    push_char(&mut out, 'a');
    push_char(&mut out, 'm');
    push_char(&mut out, 'p');
    push_char(&mut out, '"');
    push_char(&mut out, ':');
    proof {
        assert(out@ =~= head_chars() + esc(text@) + seq!['"'] + mid_chars());
    }
    push_decimal(&mut out, ts);
    push_char(&mut out, '}');
    proof {
        assert(out@ =~= frame_chars(text@, ts));
    }
    out
}

} // verus!
