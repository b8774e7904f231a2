//! Text transforms applied to a clipboard entry before copy/paste: "paste as
//! plain text / UPPERCASE / a slug / decoded base64", etc.

use vstd::prelude::*;
use vstd::utf8::{decode_utf8, encode_utf8, valid_utf8};
use crate::text::{
    char_to_lower, char_to_upper, chars_of, is_ascii_alnum, is_ascii_ws, is_whitespace, is_ws,
    lower_char, lower_str, push_char, push_range, str_to_lower, str_to_upper, string_from_utf8,
    string_of, ascii_lower, ascii_lower_seq, to_ascii_lower, trim, trim_range, upper_char,
    upper_str,
};

verus! {

/// A named text transform the UI can offer on a text clip.
#[derive(Debug, Clone, Copy, PartialEq, Eq, Structural)]
pub enum TransformKind {
    /// Identity — "paste as plain text".
    Plain,
    UpperCase,
    LowerCase,
    /// Capitalize the first letter of each whitespace-separated word.
    TitleCase,
    /// Trim leading/trailing whitespace on the whole string.
    Trim,
    /// Collapse all runs of whitespace to single spaces and trim.
    SingleLine,
    /// URL-friendly slug: lowercase, non-alphanumerics to hyphens, collapsed
    /// and edge-trimmed.
    Slug,
    Base64Encode,
    /// Decode base64; falls back to the input text when it isn't valid
    /// base64 of UTF-8 text.
    Base64Decode,
}

// --- title case --------------------------------------------------------------

/// Title case of `s` when the first char `at_start`s a word: the first char of
/// each whitespace-separated word upper-cased, every other char lower-cased,
/// whitespace kept.
pub open spec fn title_from(s: Seq<char>, at_start: bool) -> Seq<char>
    decreases s.len(),
{
    if s.len() == 0 {
        seq![]
    } else if is_ws(s[0]) {
        seq![s[0]] + title_from(s.drop_first(), true)
    } else if at_start {
        upper_char(s[0]) + title_from(s.drop_first(), false)
    } else {
        lower_char(s[0]) + title_from(s.drop_first(), false)
    }
}

pub open spec fn spec_title_case(s: Seq<char>) -> Seq<char> {
    title_from(s, true)
}

fn push_all(out: &mut String, w: &Vec<char>)
    ensures
        final(out)@ == old(out)@ + w@,
{
    push_range(out, w, 0, w.len());
    assert(w@.subrange(0, w@.len() as int) == w@);
}

fn title_case(v: &Vec<char>) -> (r: String)
    ensures
        r@ == spec_title_case(v@),
{
    let mut out = String::new();
    let mut at_start = true;
    let mut i: usize = 0;
    assert(v@.skip(0) == v@);
    while i < v.len()
        invariant
            0 <= i <= v@.len(),
            out@ + title_from(v@.skip(i as int), at_start) == spec_title_case(v@),
        decreases v@.len() - i,
    {
        let ch = v[i];
        assert(v@.skip(i as int).drop_first() == v@.skip(i + 1));
        let ghost old_out = out@;
        let ghost old_start = at_start;
        if is_whitespace(ch) {
            at_start = true;
            push_char(&mut out, ch);
            assert(old_out.push(ch) == old_out + seq![ch]);
        } else if at_start {
            let u = char_to_upper(ch);
            push_all(&mut out, &u);
            at_start = false;
        } else {
            let l = char_to_lower(ch);
            push_all(&mut out, &l);
        }
        assert(old_out + title_from(v@.skip(i as int), old_start) == out@ + title_from(
            v@.skip(i + 1),
            at_start,
        ));
        i += 1;
    }
    assert(title_from(v@.skip(i as int), at_start) == Seq::<char>::empty());
    assert(out@ + Seq::<char>::empty() == out@);
    out
}

// --- single line --------------------------------------------------------------

/// The words of `s` (maximal runs of non-whitespace) joined by single spaces,
/// read left to right: `emitted` is whether a word was already emitted, and
/// `gap` whether whitespace followed it.
pub open spec fn single_line_from(s: Seq<char>, emitted: bool, gap: bool) -> Seq<char>
    decreases s.len(),
{
    if s.len() == 0 {
        seq![]
    } else if is_ws(s[0]) {
        single_line_from(s.drop_first(), emitted, emitted)
    } else if gap {
        seq![' ', s[0]] + single_line_from(s.drop_first(), true, false)
    } else {
        seq![s[0]] + single_line_from(s.drop_first(), true, false)
    }
}

pub open spec fn spec_single_line(s: Seq<char>) -> Seq<char> {
    single_line_from(s, false, false)
}

fn single_line(v: &Vec<char>) -> (r: String)
    ensures
        r@ == spec_single_line(v@),
{
    let mut out = String::new();
    let mut emitted = false;
    let mut gap = false;
    let mut i: usize = 0;
    assert(v@.skip(0) == v@);
    while i < v.len()
        invariant
            0 <= i <= v@.len(),
            out@ + single_line_from(v@.skip(i as int), emitted, gap) == spec_single_line(v@),
        decreases v@.len() - i,
    {
        let ch = v[i];
        assert(v@.skip(i as int).drop_first() == v@.skip(i + 1));
        let ghost old_out = out@;
        let ghost old_gap = gap;
        if is_whitespace(ch) {
            gap = emitted;
        } else {
            if gap {
                push_char(&mut out, ' ');
            }
            push_char(&mut out, ch);
            emitted = true;
            gap = false;
            assert(out@ == old_out + (if old_gap { seq![' ', ch] } else { seq![ch] }));
        }
        i += 1;
    }
    assert(out@ + Seq::<char>::empty() == out@);
    out
}

// --- slug ----------------------------------------------------------------------

/// Slug chars of `s` before the final hyphen trim: ASCII letters and digits
/// lower-cased, every run of other chars becoming one hyphen, none at the
/// start. `empty` is whether nothing was emitted yet, `hyphen` whether the
/// last char emitted was a hyphen.
pub open spec fn slug_from(s: Seq<char>, empty: bool, hyphen: bool) -> Seq<char>
    decreases s.len(),
{
    if s.len() == 0 {
        seq![]
    } else if is_ascii_alnum(s[0]) {
        seq![ascii_lower(s[0])] + slug_from(s.drop_first(), false, false)
    } else if !hyphen && !empty {
        seq!['-'] + slug_from(s.drop_first(), false, true)
    } else {
        slug_from(s.drop_first(), empty, hyphen)
    }
}

pub open spec fn spec_slug(s: Seq<char>) -> Seq<char> {
    let r = slug_from(s, true, false);
    if r.len() > 0 && r.last() == '-' {
        r.drop_last()
    } else {
        r
    }
}

fn slug(v: &Vec<char>) -> (r: String)
    ensures
        r@ == spec_slug(v@),
{
    let mut out: Vec<char> = Vec::new();
    let mut hyphen = false;
    let mut i: usize = 0;
    assert(v@.skip(0) == v@);
    while i < v.len()
        invariant
            0 <= i <= v@.len(),
            out@ + slug_from(v@.skip(i as int), out@.len() == 0, hyphen) == slug_from(v@, true, false),
        decreases v@.len() - i,
    {
        let ch = v[i];
        assert(v@.skip(i as int).drop_first() == v@.skip(i + 1));
        let ghost old_out = out@;
        if ('a' <= ch && ch <= 'z') || ('A' <= ch && ch <= 'Z') || ('0' <= ch && ch <= '9') {
            out.push(to_ascii_lower(ch));
            hyphen = false;
            assert(out@ == old_out + seq![ascii_lower(ch)]);
        } else if !hyphen && out.len() > 0 {
            out.push('-');
            hyphen = true;
            assert(out@ == old_out + seq!['-']);
        }
        i += 1;
    }
    assert(out@ + Seq::<char>::empty() == out@);
    if out.len() > 0 && out[out.len() - 1] == '-' {
        out.pop();
    }
    string_of(&out)
}

// --- base64 --------------------------------------------------------------------

/// The base64 digit for a 6-bit value (standard RFC 4648 alphabet).
pub open spec fn b64_digit(n: u8) -> char {
    if n < 26 {
        ((65 + n) as u8) as char
    } else if n < 52 {
        ((97 + n - 26) as u8) as char
    } else if n < 62 {
        ((48 + n - 52) as u8) as char
    } else if n == 62 {
        '+'
    } else {
        '/'
    }
}

/// The 6-bit value of a base64 digit.
pub open spec fn b64_value(c: char) -> Option<u8> {
    let u = c as u32;
    if 65 <= u <= 90 {
        Some((u - 65) as u8)
    } else if 97 <= u <= 122 {
        Some((u - 97 + 26) as u8)
    } else if 48 <= u <= 57 {
        Some((u - 48 + 52) as u8)
    } else if c == '+' {
        Some(62)
    } else if c == '/' {
        Some(63)
    } else {
        None
    }
}

/// Standard base64 with padding: every 3 bytes become 4 digits; a final 1 or
/// 2 bytes become 2 or 3 digits and `=` padding.
pub open spec fn spec_b64_encode(b: Seq<u8>) -> Seq<char>
    decreases b.len(),
{
    if b.len() == 0 {
        seq![]
    } else if b.len() == 1 {
        seq![b64_digit(b[0] >> 2), b64_digit((b[0] & 3) << 4), '=', '=']
    } else if b.len() == 2 {
        seq![
            b64_digit(b[0] >> 2),
            b64_digit(((b[0] & 3) << 4) | (b[1] >> 4)),
            b64_digit((b[1] & 15) << 2),
            '=',
        ]
    } else {
        seq![
            b64_digit(b[0] >> 2),
            b64_digit(((b[0] & 3) << 4) | (b[1] >> 4)),
            b64_digit(((b[1] & 15) << 2) | (b[2] >> 6)),
            b64_digit(b[2] & 63),
        ] + spec_b64_encode(b.skip(3))
    }
}

/// The 6-bit values of the digits of `s`, skipping ASCII whitespace and `=`;
/// `None` if any other char is not a base64 digit.
pub open spec fn b64_values(s: Seq<char>) -> Option<Seq<u8>>
    decreases s.len(),
{
    if s.len() == 0 {
        Some(seq![])
    } else if is_ascii_ws(s[0]) || s[0] == '=' {
        b64_values(s.drop_first())
    } else {
        match b64_value(s[0]) {
            None => None,
            Some(v) => match b64_values(s.drop_first()) {
                None => None,
                Some(rest) => Some(seq![v] + rest),
            },
        }
    }
}

/// Bytes from 6-bit values: each 4 values give 3 bytes; a final 2 or 3 values
/// give 1 or 2 bytes (their spare low bits dropped); a final single value
/// gives nothing.
pub open spec fn b64_bytes(vs: Seq<u8>) -> Seq<u8>
    decreases vs.len(),
{
    if vs.len() >= 4 {
        seq![
            (vs[0] << 2) | (vs[1] >> 4),
            ((vs[1] & 15) << 4) | (vs[2] >> 2),
            ((vs[2] & 3) << 6) | vs[3],
        ] + b64_bytes(vs.skip(4))
    } else if vs.len() == 3 {
        seq![(vs[0] << 2) | (vs[1] >> 4), ((vs[1] & 15) << 4) | (vs[2] >> 2)]
    } else if vs.len() == 2 {
        seq![(vs[0] << 2) | (vs[1] >> 4)]
    } else {
        seq![]
    }
}

/// Lenient base64 decoding: whitespace and padding are ignored anywhere; any
/// other non-digit, or no digits at all, means "not base64".
pub open spec fn spec_b64_decode(s: Seq<char>) -> Option<Seq<u8>> {
    match b64_values(s) {
        None => None,
        Some(vs) => if vs.len() == 0 {
            None
        } else {
            Some(b64_bytes(vs))
        },
    }
}

fn b64_digit_of(n: u8) -> (c: char)
    requires
        n < 64,
    ensures
        c == b64_digit(n),
{
    if n < 26 {
        ((65 + n) as u8) as char
    } else if n < 52 {
        ((97 + n - 26) as u8) as char
    } else if n < 62 {
        ((48 + n - 52) as u8) as char
    } else if n == 62 {
        '+'
    } else {
        '/'
    }
}

fn b64_value_of(c: char) -> (r: Option<u8>)
    ensures
        r == b64_value(c),
{
    let u = c as u32;
    if 65 <= u && u <= 90 {
        Some((u - 65) as u8)
    } else if 97 <= u && u <= 122 {
        Some((u - 97 + 26) as u8)
    } else if 48 <= u && u <= 57 {
        Some((u - 48 + 52) as u8)
    } else if c == '+' {
        Some(62)
    } else if c == '/' {
        Some(63)
    } else {
        None
    }
}

fn base64_encode(bytes: &[u8]) -> (r: String)
    ensures
        r@ == spec_b64_encode(bytes@),
{
    let mut out = String::new();
    let mut i: usize = 0;
    assert(bytes@.skip(0) == bytes@);
    while i < bytes.len()
        invariant
            0 <= i <= bytes@.len(),
            out@ + spec_b64_encode(bytes@.skip(i as int)) == spec_b64_encode(bytes@),
        decreases bytes@.len() - i,
    {
        let ghost old_out = out@;
        let ghost rest = bytes@.skip(i as int);
        let n = bytes.len() - i;
        let b0 = bytes[i];
        assert((b0 >> 2) < 64 && ((b0 & 3) << 4) < 64) by (bit_vector);
        push_char(&mut out, b64_digit_of(b0 >> 2));
        if n == 1 {
            push_char(&mut out, b64_digit_of((b0 & 3) << 4));
            push_char(&mut out, '=');
            push_char(&mut out, '=');
            assert(out@ == old_out + spec_b64_encode(rest));
            assert(rest == bytes@.subrange(i as int, bytes@.len() as int));
            assert(bytes@.skip(i + 1) == Seq::<u8>::empty());
            i = i + 1;
        } else {
            let b1 = bytes[i + 1];
            assert((((b0 & 3) << 4) | (b1 >> 4)) < 64 && ((b1 & 15) << 2) < 64) by (bit_vector);
            push_char(&mut out, b64_digit_of(((b0 & 3) << 4) | (b1 >> 4)));
            if n == 2 {
                push_char(&mut out, b64_digit_of((b1 & 15) << 2));
                push_char(&mut out, '=');
                assert(out@ == old_out + spec_b64_encode(rest));
                assert(bytes@.skip(i + 2) == Seq::<u8>::empty());
                i = i + 2;
            } else {
                let b2 = bytes[i + 2];
                assert((((b1 & 15) << 2) | (b2 >> 6)) < 64 && (b2 & 63) < 64) by (bit_vector);
                push_char(&mut out, b64_digit_of(((b1 & 15) << 2) | (b2 >> 6)));
                push_char(&mut out, b64_digit_of(b2 & 63));
                assert(rest.skip(3) == bytes@.skip(i + 3));
                assert(out@ + spec_b64_encode(bytes@.skip(i + 3)) == old_out + spec_b64_encode(rest));
                i = i + 3;
            }
        }
        assert(out@ + spec_b64_encode(bytes@.skip(i as int)) == old_out + spec_b64_encode(rest)) by {
            if i == bytes.len() {
                assert(spec_b64_encode(bytes@.skip(i as int)) == Seq::<char>::empty());
                assert(out@ + Seq::<char>::empty() == out@);
            }
        }
    }
    assert(bytes@.skip(i as int) == Seq::<u8>::empty());
    assert(out@ + Seq::<char>::empty() == out@);
    out
}

/// `o` with `p` put in front of its contents.
pub open spec fn prepend_values(p: Seq<u8>, o: Option<Seq<u8>>) -> Option<Seq<u8>> {
    match o {
        None => None,
        Some(r) => Some(p + r),
    }
}

fn base64_values(v: &Vec<char>) -> (r: Option<Vec<u8>>)
    ensures
        r matches Some(vals) ==> b64_values(v@) == Some(vals@) && forall|k: int|
            0 <= k < vals@.len() ==> #[trigger] vals@[k] < 64,
        r is None ==> b64_values(v@) is None,
{
    let mut vals: Vec<u8> = Vec::new();
    let mut i: usize = 0;
    assert(v@.skip(0) == v@);
    assert(Seq::<u8>::empty() + Seq::<u8>::empty() == Seq::<u8>::empty());
    while i < v.len()
        invariant
            0 <= i <= v@.len(),
            b64_values(v@) == prepend_values(vals@, b64_values(v@.skip(i as int))),
            forall|k: int| 0 <= k < vals@.len() ==> #[trigger] vals@[k] < 64,
        decreases v@.len() - i,
    {
        let c = v[i];
        assert(v@.skip(i as int).drop_first() == v@.skip(i + 1));
        if c == ' ' || c == '\t' || c == '\n' || c == '\x0C' || c == '\r' || c == '=' {
        } else {
            match b64_value_of(c) {
                None => {
                    return None;
                },
                Some(x) => {
                    let ghost old_vals = vals@;
                    vals.push(x);
                    proof {
                        match b64_values(v@.skip(i + 1)) {
                            None => {},
                            Some(rest) => {
                                assert(old_vals + (seq![x] + rest) == vals@ + rest);
                            },
                        }
                    }
                },
            }
        }
        i += 1;
    }
    assert(v@.skip(i as int) == Seq::<char>::empty());
    assert(vals@ + Seq::<u8>::empty() == vals@);
    Some(vals)
}

fn base64_bytes(vals: &Vec<u8>) -> (out: Vec<u8>)
    requires
        forall|k: int| 0 <= k < vals@.len() ==> #[trigger] vals@[k] < 64,
    ensures
        out@ == b64_bytes(vals@),
{
    let mut out: Vec<u8> = Vec::new();
    let mut j: usize = 0;
    assert(vals@.skip(0) == vals@);
    while vals.len() - j >= 4
        invariant
            0 <= j <= vals@.len(),
            out@ + b64_bytes(vals@.skip(j as int)) == b64_bytes(vals@),
        decreases vals@.len() - j,
    {
        let (a, b, c, d) = (vals[j], vals[j + 1], vals[j + 2], vals[j + 3]);
        let ghost old_out = out@;
        out.push((a << 2) | (b >> 4));
        out.push(((b & 15) << 4) | (c >> 2));
        out.push(((c & 3) << 6) | d);
        assert(vals@.skip(j as int).skip(4) == vals@.skip(j + 4));
        assert(old_out + b64_bytes(vals@.skip(j as int)) == out@ + b64_bytes(vals@.skip(j + 4)));
        j += 4;
    }
    let rem = vals.len() - j;
    let ghost old_out = out@;
    if rem == 3 {
        let (a, b, c) = (vals[j], vals[j + 1], vals[j + 2]);
        out.push((a << 2) | (b >> 4));
        out.push(((b & 15) << 4) | (c >> 2));
    } else if rem == 2 {
        let (a, b) = (vals[j], vals[j + 1]);
        out.push((a << 2) | (b >> 4));
    }
    assert(out@ == old_out + b64_bytes(vals@.skip(j as int)));
    out
}

fn base64_decode(v: &Vec<char>) -> (r: Option<Vec<u8>>)
    ensures
        r matches Some(b) ==> spec_b64_decode(v@) == Some(b@),
        r is None ==> spec_b64_decode(v@) is None,
{
    match base64_values(v) {
        None => None,
        Some(vals) => {
            if vals.len() == 0 {
                None
            } else {
                Some(base64_bytes(&vals))
            }
        },
    }
}

// --- base64 round trip -------------------------------------------------------

/// The 6-bit values `spec_b64_encode` writes as digits (padding left out).
pub open spec fn b64_sextets(b: Seq<u8>) -> Seq<u8>
    decreases b.len(),
{
    if b.len() == 0 {
        seq![]
    } else if b.len() == 1 {
        seq![b[0] >> 2, (b[0] & 3) << 4]
    } else if b.len() == 2 {
        seq![b[0] >> 2, ((b[0] & 3) << 4) | (b[1] >> 4), (b[1] & 15) << 2]
    } else {
        seq![
            b[0] >> 2,
            ((b[0] & 3) << 4) | (b[1] >> 4),
            ((b[1] & 15) << 2) | (b[2] >> 6),
            b[2] & 63,
        ] + b64_sextets(b.skip(3))
    }
}

proof fn lemma_digit_value(n: u8)
    requires
        n < 64,
    ensures
        b64_value(b64_digit(n)) == Some(n),
{
}

proof fn lemma_values_concat(x: Seq<char>, y: Seq<char>)
    ensures
        b64_values(x + y) == match b64_values(x) {
            None => None,
            Some(p) => prepend_values(p, b64_values(y)),
        },
    decreases x.len(),
{
    if x.len() == 0 {
        assert(x + y == y);
        match b64_values(y) {
            None => {},
            Some(r) => { assert(Seq::<u8>::empty() + r == r); },
        }
    } else {
        assert((x + y).drop_first() == x.drop_first() + y);
        lemma_values_concat(x.drop_first(), y);
        match b64_values(x.drop_first()) {
            None => {},
            Some(p) => {
                match b64_values(y) {
                    None => {},
                    Some(r) => {
                        if !(is_ascii_ws(x[0]) || x[0] == '=') {
                            if let Some(v) = b64_value(x[0]) {
                                assert(seq![v] + (p + r) == (seq![v] + p) + r);
                            }
                        }
                    },
                }
            },
        }
    }
}

#[verifier::spinoff_prover]
#[verifier::rlimit(30)]
proof fn lemma_values_of_encoding(b: Seq<u8>)
    ensures
        b64_values(spec_b64_encode(b)) == Some(b64_sextets(b)),
        forall|k: int| 0 <= k < b64_sextets(b).len() ==> #[trigger] b64_sextets(b)[k] < 64,
    decreases b.len(),
{
    reveal_with_fuel(b64_values, 5);
    if b.len() == 0 {
    } else if b.len() == 1 {
        let b0 = b[0];
        let (v0, v1) = (b0 >> 2, (b0 & 3) << 4);
        assert(v0 < 64 && v1 < 64) by (bit_vector)
            requires v0 == b0 >> 2, v1 == (b0 & 3) << 4;
        lemma_digit_value(v0);
        lemma_digit_value(v1);
        let e = spec_b64_encode(b);
        assert(e.drop_first().drop_first().drop_first().drop_first() == Seq::<char>::empty());
    } else if b.len() == 2 {
        let (b0, b1) = (b[0], b[1]);
        let (v0, v1, v2) = (b0 >> 2, ((b0 & 3) << 4) | (b1 >> 4), (b1 & 15) << 2);
        assert(v0 < 64 && v1 < 64 && v2 < 64) by (bit_vector)
            requires v0 == b0 >> 2, v1 == ((b0 & 3) << 4) | (b1 >> 4), v2 == (b1 & 15) << 2;
        lemma_digit_value(v0);
        lemma_digit_value(v1);
        lemma_digit_value(v2);
        let e = spec_b64_encode(b);
        assert(e.drop_first().drop_first().drop_first().drop_first() == Seq::<char>::empty());
    } else {
        let (b0, b1, b2) = (b[0], b[1], b[2]);
        let (v0, v1, v2, v3) = (
            b0 >> 2,
            ((b0 & 3) << 4) | (b1 >> 4),
            ((b1 & 15) << 2) | (b2 >> 6),
            b2 & 63,
        );
        assert(v0 < 64 && v1 < 64 && v2 < 64 && v3 < 64) by (bit_vector)
            requires
                v0 == b0 >> 2,
                v1 == ((b0 & 3) << 4) | (b1 >> 4),
                v2 == ((b1 & 15) << 2) | (b2 >> 6),
                v3 == b2 & 63;
        lemma_digit_value(v0);
        lemma_digit_value(v1);
        lemma_digit_value(v2);
        lemma_digit_value(v3);
        let head = seq![b64_digit(v0), b64_digit(v1), b64_digit(v2), b64_digit(v3)];
        assert(head.drop_first().drop_first().drop_first().drop_first() == Seq::<char>::empty());
        assert(b64_values(head) == Some(seq![v0, v1, v2, v3]));
        lemma_values_of_encoding(b.skip(3));
        lemma_values_concat(head, spec_b64_encode(b.skip(3)));
        let rest = b64_sextets(b.skip(3));
        assert forall|k: int| 0 <= k < b64_sextets(b).len() implies #[trigger] b64_sextets(b)[k] < 64 by {
            if k >= 4 {
                assert(b64_sextets(b)[k] == rest[k - 4]);
            }
        }
    }
}

proof fn lemma_bytes_of_sextets(b: Seq<u8>)
    ensures
        b64_bytes(b64_sextets(b)) == b,
    decreases b.len(),
{
    if b.len() == 0 {
    } else if b.len() == 1 {
        let b0 = b[0];
        let (v0, v1) = (b0 >> 2, (b0 & 3) << 4);
        assert((v0 << 2) | (v1 >> 4) == b0) by (bit_vector)
            requires v0 == b0 >> 2, v1 == (b0 & 3) << 4;
        assert(b64_bytes(seq![v0, v1]) == seq![b0]);
        assert(b == seq![b0]);
    } else if b.len() == 2 {
        let (b0, b1) = (b[0], b[1]);
        let (v0, v1, v2) = (b0 >> 2, ((b0 & 3) << 4) | (b1 >> 4), (b1 & 15) << 2);
        assert((v0 << 2) | (v1 >> 4) == b0 && ((v1 & 15) << 4) | (v2 >> 2) == b1) by (bit_vector)
            requires v0 == b0 >> 2, v1 == ((b0 & 3) << 4) | (b1 >> 4), v2 == (b1 & 15) << 2;
        assert(b64_bytes(seq![v0, v1, v2]) == seq![b0, b1]);
        assert(b == seq![b0, b1]);
    } else {
        let (b0, b1, b2) = (b[0], b[1], b[2]);
        let (v0, v1, v2, v3) = (
            b0 >> 2,
            ((b0 & 3) << 4) | (b1 >> 4),
            ((b1 & 15) << 2) | (b2 >> 6),
            b2 & 63,
        );
        assert((v0 << 2) | (v1 >> 4) == b0 && ((v1 & 15) << 4) | (v2 >> 2) == b1 && ((v2 & 3) << 6)
            | v3 == b2) by (bit_vector)
            requires
                v0 == b0 >> 2,
                v1 == ((b0 & 3) << 4) | (b1 >> 4),
                v2 == ((b1 & 15) << 2) | (b2 >> 6),
                v3 == b2 & 63;
        lemma_bytes_of_sextets(b.skip(3));
        let sx = b64_sextets(b);
        assert(sx.skip(4) == b64_sextets(b.skip(3)));
        assert(b == seq![b0, b1, b2] + b.skip(3));
    }
}

/// Base64 decoding gives back the bytes base64 encoding was given (nothing
/// for no bytes, which encode to an empty text).
pub proof fn law_base64_roundtrip(b: Seq<u8>)
    ensures
        spec_b64_decode(spec_b64_encode(b)) == (if b.len() == 0 {
            None
        } else {
            Some(b)
        }),
{
    lemma_values_of_encoding(b);
    lemma_bytes_of_sextets(b);
    if b.len() > 0 {
        assert(b64_sextets(b).len() > 0);
    }
}

/// Decoding what "Base64 Encode" produced gives back the text that was encoded.
pub proof fn law_base64_transform_roundtrip(s: Seq<char>)
    ensures
        spec_apply(
            TransformKind::Base64Decode,
            spec_apply(TransformKind::Base64Encode, s),
        ) == s,
{
    let b = encode_utf8(s);
    law_base64_roundtrip(b);
    vstd::utf8::encode_utf8_valid_utf8(s);
    vstd::utf8::encode_utf8_decode_utf8(s);
}

// --- apply -----------------------------------------------------------------------

/// The result of a transform on `s`.
pub open spec fn spec_apply(kind: TransformKind, s: Seq<char>) -> Seq<char> {
    match kind {
        TransformKind::Plain => s,
        TransformKind::UpperCase => upper_str(s),
        TransformKind::LowerCase => lower_str(s),
        TransformKind::TitleCase => spec_title_case(s),
        TransformKind::Trim => trim(s),
        TransformKind::SingleLine => spec_single_line(s),
        TransformKind::Slug => spec_slug(s),
        TransformKind::Base64Encode => spec_b64_encode(encode_utf8(s)),
        TransformKind::Base64Decode => match spec_b64_decode(s) {
            Some(b) => if valid_utf8(b) {
                decode_utf8(b)
            } else {
                s
            },
            None => s,
        },
    }
}

impl TransformKind {
    /// Apply the transform to `input`.
    pub fn apply(self, input: &str) -> (r: String)
        ensures
            r@ == spec_apply(self, input@),
    {
        match self {
            TransformKind::Plain => {
                let v = chars_of(input);
                string_of(&v)
            },
            TransformKind::UpperCase => str_to_upper(input),
            TransformKind::LowerCase => str_to_lower(input),
            TransformKind::TitleCase => {
                let v = chars_of(input);
                title_case(&v)
            },
            TransformKind::Trim => {
                let v = chars_of(input);
                let (a, b) = trim_range(&v, 0, v.len());
                assert(v@.subrange(0, v@.len() as int) == v@);
                let mut out = String::new();
                push_range(&mut out, &v, a, b);
                assert(Seq::<char>::empty() + v@.subrange(a as int, b as int) == v@.subrange(a as int, b as int));
                out
            },
            TransformKind::SingleLine => {
                let v = chars_of(input);
                single_line(&v)
            },
            TransformKind::Slug => {
                let v = chars_of(input);
                slug(&v)
            },
            TransformKind::Base64Encode => base64_encode(input.as_bytes()),
            TransformKind::Base64Decode => {
                let v = chars_of(input);
                match base64_decode(&v) {
                    Some(b) => match string_from_utf8(b) {
                        Some(s) => s,
                        None => string_of(&v),
                    },
                    None => string_of(&v),
                }
            },
        }
    }
}

/// A char a slug may hold: a lowercase ASCII letter, a digit, or `-`.
pub open spec fn is_slug_char(c: char) -> bool {
    ('a' <= c && c <= 'z') || ('0' <= c && c <= '9') || c == '-'
}

proof fn lemma_slug_from(s: Seq<char>, empty: bool, hyphen: bool)
    ensures
        ({
            let r = slug_from(s, empty, hyphen);
            &&& forall|k: int| 0 <= k < r.len() ==> is_slug_char(#[trigger] r[k])
            &&& forall|k: int| 0 <= k < r.len() - 1 ==> !(#[trigger] r[k] == '-' && r[k + 1] == '-')
            &&& (r.len() > 0 && r[0] == '-' ==> !hyphen && !empty)
        }),
    decreases s.len(),
{
    if s.len() > 0 {
        let c = s[0];
        if is_ascii_alnum(c) {
            lemma_slug_from(s.drop_first(), false, false);
            let rest = slug_from(s.drop_first(), false, false);
            let r = seq![ascii_lower(c)] + rest;
            assert forall|k: int| 0 <= k < r.len() implies is_slug_char(#[trigger] r[k]) by {
                if k > 0 {
                    assert(r[k] == rest[k - 1]);
                }
            }
            assert forall|k: int| 0 <= k < r.len() - 1 implies !(#[trigger] r[k] == '-' && r[k + 1]
                == '-') by {
                if k > 0 {
                    assert(r[k] == rest[k - 1] && r[k + 1] == rest[k]);
                }
            }
        } else if !hyphen && !empty {
            lemma_slug_from(s.drop_first(), false, true);
            let rest = slug_from(s.drop_first(), false, true);
            let r = seq!['-'] + rest;
            assert forall|k: int| 0 <= k < r.len() implies is_slug_char(#[trigger] r[k]) by {
                if k > 0 {
                    assert(r[k] == rest[k - 1]);
                }
            }
            assert forall|k: int| 0 <= k < r.len() - 1 implies !(#[trigger] r[k] == '-' && r[k + 1]
                == '-') by {
                if k > 0 {
                    assert(r[k] == rest[k - 1] && r[k + 1] == rest[k]);
                }
            }
        } else {
            lemma_slug_from(s.drop_first(), empty, hyphen);
        }
    }
}

/// A slug is URL-shaped: lowercase ASCII letters, digits and single hyphens,
/// never starting or ending with a hyphen.
pub proof fn law_slug_shape(s: Seq<char>)
    ensures
        ({
            let t = spec_slug(s);
            &&& forall|k: int| 0 <= k < t.len() ==> is_slug_char(#[trigger] t[k])
            &&& forall|k: int| 0 <= k < t.len() - 1 ==> !(#[trigger] t[k] == '-' && t[k + 1] == '-')
            &&& t.len() > 0 ==> t[0] != '-' && t.last() != '-'
        }),
{
    lemma_slug_from(s, true, false);
    let r = slug_from(s, true, false);
    let t = spec_slug(s);
    if r.len() > 0 && r.last() == '-' {
        assert(t == r.drop_last());
        assert forall|k: int| 0 <= k < t.len() implies is_slug_char(#[trigger] t[k]) by {
            assert(t[k] == r[k]);
        }
        assert forall|k: int| 0 <= k < t.len() - 1 implies !(#[trigger] t[k] == '-' && t[k + 1]
            == '-') by {
            assert(t[k] == r[k] && t[k + 1] == r[k + 1]);
        }
        if t.len() > 0 {
            assert(t[0] == r[0]);
            assert(r[r.len() - 2] == t.last());
        }
    }
}

proof fn lemma_single_line_from(s: Seq<char>, emitted: bool, gap: bool)
    ensures
        ({
            let r = single_line_from(s, emitted, gap);
            &&& forall|k: int| 0 <= k < r.len() ==> (#[trigger] r[k] == ' ' || !is_ws(r[k]))
            &&& forall|k: int| 0 <= k < r.len() - 1 ==> !(#[trigger] r[k] == ' ' && r[k + 1] == ' ')
            &&& (r.len() > 0 && r[0] == ' ' ==> gap || emitted)
            &&& (r.len() > 0 ==> r.last() != ' ')
            &&& (r.len() > 0 && r[0] == ' ' ==> r.len() > 1 && r[1] != ' ')
        }),
    decreases s.len(),
{
    if s.len() > 0 {
        let c = s[0];
        if is_ws(c) {
            lemma_single_line_from(s.drop_first(), emitted, emitted);
        } else {
            lemma_single_line_from(s.drop_first(), true, false);
            let rest = single_line_from(s.drop_first(), true, false);
            let r = single_line_from(s, emitted, gap);
            let head = if gap {
                seq![' ', c]
            } else {
                seq![c]
            };
            assert(r == head + rest);
            assert forall|k: int| 0 <= k < r.len() implies (#[trigger] r[k] == ' ' || !is_ws(r[k])) by {
                if k >= head.len() {
                    assert(r[k] == rest[k - head.len()]);
                }
            }
            assert forall|k: int| 0 <= k < r.len() - 1 implies !(#[trigger] r[k] == ' ' && r[k + 1]
                == ' ') by {
                if k >= head.len() {
                    assert(r[k] == rest[k - head.len()] && r[k + 1] == rest[k + 1 - head.len()]);
                } else if k + 1 >= head.len() {
                    assert(r[k] == c);
                }
            }
            if rest.len() > 0 {
                assert(r.last() == rest.last());
            }
        }
    }
}

/// Single-line text has no whitespace but single spaces between words, and
/// none at either end.
pub proof fn law_single_line_shape(s: Seq<char>)
    ensures
        ({
            let t = spec_single_line(s);
            &&& forall|k: int| 0 <= k < t.len() ==> (#[trigger] t[k] == ' ' || !is_ws(t[k]))
            &&& forall|k: int| 0 <= k < t.len() - 1 ==> !(#[trigger] t[k] == ' ' && t[k + 1] == ' ')
            &&& t.len() > 0 ==> t[0] != ' ' && t.last() != ' '
        }),
{
    lemma_single_line_from(s, false, false);
}


/// A char that base64 decoding neither reads as a digit nor skips.
pub open spec fn is_b64_stray(c: char) -> bool {
    !is_ascii_ws(c) && c != '=' && b64_value(c) is None
}

proof fn lemma_b64_values_cases(s: Seq<char>)
    ensures
        (exists|k: int| 0 <= k < s.len() && is_b64_stray(#[trigger] s[k])) ==> b64_values(s) is None,
        (forall|k: int| 0 <= k < s.len() ==> is_ascii_ws(#[trigger] s[k]) || s[k] == '=') ==> b64_values(
            s,
        ) == Some(Seq::<u8>::empty()),
    decreases s.len(),
{
    if s.len() > 0 {
        lemma_b64_values_cases(s.drop_first());
        if exists|k: int| 0 <= k < s.len() && is_b64_stray(#[trigger] s[k]) {
            let k = choose|k: int| 0 <= k < s.len() && is_b64_stray(#[trigger] s[k]);
            if k > 0 {
                assert(is_b64_stray(s.drop_first()[k - 1]));
            }
        }
        if forall|k: int| 0 <= k < s.len() ==> is_ascii_ws(#[trigger] s[k]) || s[k] == '=' {
            assert forall|k: int| 0 <= k < s.drop_first().len() implies is_ascii_ws(
                #[trigger] s.drop_first()[k],
            ) || s.drop_first()[k] == '=' by {
                assert(s.drop_first()[k] == s[k + 1]);
            }
        }
    }
}

/// "Base64 Decode" gives its input back unchanged when the input is not
/// base64 of UTF-8 text: when a char is neither a base64 digit, ASCII
/// whitespace nor `=`; when it holds no digits at all; or when the bytes it
/// decodes to are not valid UTF-8.
pub proof fn law_base64_decode_falls_back(s: Seq<char>)
    requires
        (exists|k: int| 0 <= k < s.len() && is_b64_stray(#[trigger] s[k])) || (forall|k: int|
            0 <= k < s.len() ==> is_ascii_ws(#[trigger] s[k]) || s[k] == '=') || (spec_b64_decode(
            s,
        ) matches Some(b) && !valid_utf8(b)),
    ensures
        spec_apply(TransformKind::Base64Decode, s) == s,
{
    lemma_b64_values_cases(s);
}


/// How many chars of `s`, from its start, are not whitespace.
pub open spec fn word_len(s: Seq<char>) -> nat
    decreases s.len(),
{
    if s.len() > 0 && !is_ws(s[0]) {
        1 + word_len(s.drop_first())
    } else {
        0
    }
}

/// The leading word of a text is no longer than the text.
pub proof fn lemma_word_len(s: Seq<char>)
    ensures
        word_len(s) <= s.len(),
    decreases s.len(),
{
    if s.len() > 0 && !is_ws(s[0]) {
        lemma_word_len(s.drop_first());
    }
}

/// The words of `s`: its maximal runs of non-whitespace chars, in order.
/// Every whitespace char separates words, line breaks included.
pub open spec fn ws_words(s: Seq<char>) -> Seq<Seq<char>>
    decreases s.len(),
{
    if s.len() == 0 {
        seq![]
    } else if is_ws(s[0]) {
        ws_words(s.drop_first())
    } else {
        proof {
            lemma_word_len(s);
        }
        seq![s.take(word_len(s) as int)] + ws_words(s.skip(word_len(s) as int))
    }
}

/// Words joined with one space between each two.
pub open spec fn join_spaced(ws: Seq<Seq<char>>) -> Seq<char>
    decreases ws.len(),
{
    if ws.len() == 0 {
        seq![]
    } else if ws.len() == 1 {
        ws[0]
    } else {
        ws[0] + seq![' '] + join_spaced(ws.drop_first())
    }
}

/// A word that starts `s` after its first char: the words of `s` are those of
/// the rest with `s[0]` put in front of the first one (or alone, when the rest
/// starts with whitespace or is empty).
proof fn lemma_ws_words_cons(s: Seq<char>)
    requires
        s.len() > 0,
        !is_ws(s[0]),
    ensures
        ({
            let r = s.drop_first();
            if r.len() == 0 || is_ws(r[0]) {
                ws_words(s) == seq![seq![s[0]]] + ws_words(r)
            } else {
                ws_words(r).len() > 0 && ws_words(s) == seq![seq![s[0]] + ws_words(r)[0]] + ws_words(
                    r,
                ).drop_first()
            }
        }),
{
    let r = s.drop_first();
    lemma_word_len(s);
    lemma_word_len(r);
    let n = word_len(s);
    assert(n == 1 + word_len(r));
    if r.len() == 0 || is_ws(r[0]) {
        assert(n == 1);
        assert(s.take(1) =~= seq![s[0]]);
        assert(s.skip(1) =~= r);
    } else {
        let w = word_len(r);
        assert(ws_words(r) == seq![r.take(w as int)] + ws_words(r.skip(w as int)));
        assert(s.take(n as int) =~= seq![s[0]] + r.take(w as int));
        assert(s.skip(n as int) =~= r.skip(w as int));
        assert((seq![r.take(w as int)] + ws_words(r.skip(w as int))).drop_first() =~= ws_words(
            r.skip(w as int),
        ));
    }
}

proof fn lemma_single_line_words(s: Seq<char>, emitted: bool, gap: bool)
    requires
        gap ==> emitted,
    ensures
        single_line_from(s, emitted, gap) == if ws_words(s).len() > 0 && (gap || (emitted && s.len()
            > 0 && is_ws(s[0]))) {
            seq![' '] + join_spaced(ws_words(s))
        } else {
            join_spaced(ws_words(s))
        },
    decreases s.len(),
{
    if s.len() > 0 {
        let r = s.drop_first();
        if is_ws(s[0]) {
            lemma_single_line_words(r, emitted, emitted);
        } else {
            lemma_single_line_words(r, true, false);
            lemma_ws_words_cons(s);
            if r.len() == 0 || is_ws(r[0]) {
                if ws_words(r).len() == 0 {
                    assert(seq![s[0]] + Seq::<char>::empty() == seq![s[0]]);
                } else {
                    let ws = seq![seq![s[0]]] + ws_words(r);
                    assert(ws.drop_first() == ws_words(r));
                }
            } else {
                let w0 = ws_words(r)[0];
                let rest = ws_words(r).drop_first();
                assert(ws_words(r) == seq![w0] + rest);
                let ws = seq![seq![s[0]] + w0] + rest;
                assert(ws.drop_first() == rest);
                if rest.len() == 0 {
                    assert(join_spaced(ws_words(r)) == w0);
                } else {
                    assert((seq![w0] + rest).drop_first() == rest);
                    assert(join_spaced(ws_words(r)) == w0 + seq![' '] + join_spaced(rest));
                    assert(seq![s[0]] + (w0 + seq![' '] + join_spaced(rest)) =~= (seq![s[0]] + w0)
                        + seq![' '] + join_spaced(rest));
                }
            }
        }
    }
}

/// "Single Line" gives the words of the text (its maximal runs of
/// non-whitespace, split at every whitespace char, line breaks included),
/// joined by single spaces.
pub proof fn law_single_line_joins_words(s: Seq<char>)
    ensures
        spec_apply(TransformKind::SingleLine, s) == join_spaced(ws_words(s)),
{
    lemma_single_line_words(s, false, false);
}


/// How many chars of `s`, from its start, are ASCII letters or digits.
pub open spec fn alnum_len(s: Seq<char>) -> nat
    decreases s.len(),
{
    if s.len() > 0 && is_ascii_alnum(s[0]) {
        1 + alnum_len(s.drop_first())
    } else {
        0
    }
}

/// The leading run of letters and digits is no longer than the text.
pub proof fn lemma_alnum_len(s: Seq<char>)
    ensures
        alnum_len(s) <= s.len(),
    decreases s.len(),
{
    if s.len() > 0 && is_ascii_alnum(s[0]) {
        lemma_alnum_len(s.drop_first());
    }
}

/// The maximal runs of ASCII letters and digits of `s`, lower-cased, in order.
pub open spec fn slug_words(s: Seq<char>) -> Seq<Seq<char>>
    decreases s.len(),
{
    if s.len() == 0 {
        seq![]
    } else if !is_ascii_alnum(s[0]) {
        slug_words(s.drop_first())
    } else {
        proof {
            lemma_alnum_len(s);
        }
        seq![ascii_lower_seq(s.take(alnum_len(s) as int))] + slug_words(s.skip(alnum_len(s) as int))
    }
}

/// Words joined with one hyphen between each two.
pub open spec fn join_dashed(ws: Seq<Seq<char>>) -> Seq<char>
    decreases ws.len(),
{
    if ws.len() == 0 {
        seq![]
    } else if ws.len() == 1 {
        ws[0]
    } else {
        ws[0] + seq!['-'] + join_dashed(ws.drop_first())
    }
}

proof fn lemma_slug_words_cons(s: Seq<char>)
    requires
        s.len() > 0,
        is_ascii_alnum(s[0]),
    ensures
        ({
            let r = s.drop_first();
            if r.len() == 0 || !is_ascii_alnum(r[0]) {
                slug_words(s) == seq![seq![ascii_lower(s[0])]] + slug_words(r)
            } else {
                slug_words(r).len() > 0 && slug_words(s) == seq![seq![ascii_lower(s[0])] + slug_words(r)[0]]
                    + slug_words(r).drop_first()
            }
        }),
{
    let r = s.drop_first();
    lemma_alnum_len(s);
    lemma_alnum_len(r);
    let n = alnum_len(s);
    if r.len() == 0 || !is_ascii_alnum(r[0]) {
        assert(ascii_lower_seq(s.take(1)) =~= seq![ascii_lower(s[0])]);
        assert(s.skip(1) =~= r);
    } else {
        let w = alnum_len(r);
        assert(slug_words(r) == seq![ascii_lower_seq(r.take(w as int))] + slug_words(r.skip(w as int)));
        assert(ascii_lower_seq(s.take(n as int)) =~= seq![ascii_lower(s[0])] + ascii_lower_seq(
            r.take(w as int),
        ));
        assert(s.skip(n as int) =~= r.skip(w as int));
        assert((seq![ascii_lower_seq(r.take(w as int))] + slug_words(r.skip(w as int))).drop_first()
            =~= slug_words(r.skip(w as int)));
    }
}

/// A text with no letters or digits has no slug words, and ends (if at all)
/// in a char that is neither.
proof fn lemma_slug_words_none(s: Seq<char>)
    ensures
        slug_words(s).len() == 0 ==> forall|k: int| 0 <= k < s.len() ==> !is_ascii_alnum(#[trigger] s[k]),
    decreases s.len(),
{
    if s.len() > 0 && !is_ascii_alnum(s[0]) {
        lemma_slug_words_none(s.drop_first());
        assert forall|k: int| 1 <= k < s.len() implies #[trigger] s[k] == s.drop_first()[k - 1] by {}
    }
}

/// A slug hyphen follows the text's last word when the text ends past it.
pub open spec fn slug_trail(s: Seq<char>) -> bool {
    slug_words(s).len() > 0 && !is_ascii_alnum(s.last())
}

proof fn lemma_slug_from_words(s: Seq<char>, empty: bool, hyphen: bool)
    requires
        hyphen ==> !empty,
    ensures
        slug_from(s, empty, hyphen) == (if !empty && !hyphen && s.len() > 0 && !is_ascii_alnum(s[0]) {
            seq!['-']
        } else {
            Seq::<char>::empty()
        }) + join_dashed(slug_words(s)) + (if slug_trail(s) {
            seq!['-']
        } else {
            Seq::<char>::empty()
        }),
    decreases s.len(),
{
    let e = Seq::<char>::empty();
    if s.len() == 0 {
        assert(e + e + e =~= e);
    } else {
        let r = s.drop_first();
        if r.len() > 0 {
            assert(s.last() == r.last());
        }
        if is_ascii_alnum(s[0]) {
            lemma_slug_from_words(r, false, false);
            lemma_slug_words_cons(s);
            let c = seq![ascii_lower(s[0])];
            if r.len() == 0 {
                assert(slug_words(r) =~= Seq::<Seq<char>>::empty());
                assert(c + e + e + e =~= e + c + e);
            } else if !is_ascii_alnum(r[0]) {
                let ws = seq![c] + slug_words(r);
                assert(ws.drop_first() == slug_words(r));
                lemma_slug_words_none(r);
                if slug_words(r).len() == 0 {
                    assert(!is_ascii_alnum(r[r.len() - 1]));
                    assert(c + (seq!['-'] + e + e) =~= e + c + seq!['-']);
                } else {
                    let jr = join_dashed(slug_words(r));
                    let t = if slug_trail(r) { seq!['-'] } else { e };
                    assert(c + (seq!['-'] + jr + t) =~= e + (c + seq!['-'] + jr) + t);
                }
            } else {
                let w0 = slug_words(r)[0];
                let rest = slug_words(r).drop_first();
                assert(slug_words(r) == seq![w0] + rest);
                let ws = seq![c + w0] + rest;
                assert(ws.drop_first() == rest);
                let t = if slug_trail(r) { seq!['-'] } else { e };
                if rest.len() == 0 {
                    assert(join_dashed(slug_words(r)) == w0);
                    assert(c + (e + w0 + t) =~= e + (c + w0) + t);
                } else {
                    assert((seq![w0] + rest).drop_first() == rest);
                    assert(join_dashed(slug_words(r)) == w0 + seq!['-'] + join_dashed(rest));
                    assert(c + (e + (w0 + seq!['-'] + join_dashed(rest)) + t) =~= e + ((c + w0)
                        + seq!['-'] + join_dashed(rest)) + t);
                }
            }
        } else {
            assert(slug_words(s) == slug_words(r));
            if !hyphen && !empty {
                lemma_slug_from_words(r, false, true);
                let jr = join_dashed(slug_words(r));
                let t = if slug_trail(r) { seq!['-'] } else { e };
                if r.len() == 0 {
                    assert(slug_words(r) =~= Seq::<Seq<char>>::empty());
                }
                assert(seq!['-'] + (e + jr + t) =~= seq!['-'] + jr + t);
            } else {
                lemma_slug_from_words(r, empty, hyphen);
                if r.len() == 0 {
                    assert(slug_words(r) =~= Seq::<Seq<char>>::empty());
                }
            }
        }
    }
}

proof fn lemma_join_dashed_last(ws: Seq<Seq<char>>)
    requires
        forall|i: int| 0 <= i < ws.len() ==> (#[trigger] ws[i]).len() > 0 && ws[i].last() != '-',
    ensures
        join_dashed(ws).len() > 0 ==> join_dashed(ws).last() != '-',
    decreases ws.len(),
{
    if ws.len() > 1 {
        lemma_join_dashed_last(ws.drop_first());
        assert forall|i: int| 0 <= i < ws.drop_first().len() implies (#[trigger] ws.drop_first()[i]).len() > 0
            && ws.drop_first()[i].last() != '-' by {
            assert(ws.drop_first()[i] == ws[i + 1]);
        }
        lemma_join_dashed_last(ws.drop_first());
        assert(ws.len() > 0 ==> ws[0].len() > 0);
    }
}

proof fn lemma_slug_words_ok(s: Seq<char>)
    ensures
        forall|i: int| 0 <= i < slug_words(s).len() ==> (#[trigger] slug_words(s)[i]).len() > 0
            && slug_words(s)[i].last() != '-',
    decreases s.len(),
{
    if s.len() > 0 {
        if !is_ascii_alnum(s[0]) {
            lemma_slug_words_ok(s.drop_first());
            assert(slug_words(s) == slug_words(s.drop_first()));
        } else {
            lemma_alnum_len(s);
            let n = alnum_len(s);
            lemma_slug_words_ok(s.skip(n as int));
            lemma_alnum_run(s);
            let w = ascii_lower_seq(s.take(n as int));
            assert(w.len() == n && n > 0);
            assert(is_ascii_alnum(s[n - 1]));
            assert(w.last() == ascii_lower(s[n - 1]));
            let ws = seq![w] + slug_words(s.skip(n as int));
            assert(slug_words(s) == ws);
            assert(w.last() != '-');
            assert forall|i: int| 0 <= i < ws.len() implies (#[trigger] ws[i]).len() > 0 && ws[i].last()
                != '-' by {
                if i > 0 {
                    assert(ws[i] == slug_words(s.skip(n as int))[i - 1]);
                }
            }
        }
    }
}

/// The leading run is made of letters and digits.
proof fn lemma_alnum_run(s: Seq<char>)
    ensures
        forall|k: int| 0 <= k < alnum_len(s) ==> is_ascii_alnum(#[trigger] s[k]),
        alnum_len(s) > 0 ==> s.len() > 0 && is_ascii_alnum(s[0]),
    decreases s.len(),
{
    lemma_alnum_len(s);
    if s.len() > 0 && is_ascii_alnum(s[0]) {
        lemma_alnum_run(s.drop_first());
        assert forall|k: int| 0 <= k < alnum_len(s) implies is_ascii_alnum(#[trigger] s[k]) by {
            if k > 0 {
                assert(s[k] == s.drop_first()[k - 1]);
            }
        }
    }
}

/// "Slug" gives the runs of ASCII letters and digits of the text, lower-cased,
/// joined by single hyphens: every other char only separates runs.
pub proof fn law_slug_joins_words(s: Seq<char>)
    ensures
        spec_apply(TransformKind::Slug, s) == join_dashed(slug_words(s)),
{
    lemma_slug_from_words(s, true, false);
    lemma_slug_words_ok(s);
    lemma_join_dashed_last(slug_words(s));
    let j = join_dashed(slug_words(s));
    let e = Seq::<char>::empty();
    if slug_trail(s) {
        assert((e + j + seq!['-']).drop_last() =~= j);
    } else {
        assert(e + j + e =~= j);
    }
}


/// What title case makes of char `i` of `s`: whitespace is kept, a char
/// that starts a word (first in the text, or right after whitespace) is
/// upper-cased, and any other char lower-cased.
pub open spec fn title_piece(s: Seq<char>, i: int) -> Seq<char> {
    if is_ws(s[i]) {
        seq![s[i]]
    } else if i == 0 || is_ws(s[i - 1]) {
        upper_char(s[i])
    } else {
        lower_char(s[i])
    }
}

/// The pieces of chars `i..` of `s`, in order.
pub open spec fn title_pieces(s: Seq<char>, i: int) -> Seq<char>
    decreases s.len() - i,
{
    if i < 0 || i >= s.len() {
        seq![]
    } else {
        title_piece(s, i) + title_pieces(s, i + 1)
    }
}

proof fn lemma_title_pieces(s: Seq<char>, i: int)
    requires
        0 <= i <= s.len(),
    ensures
        title_from(s.skip(i), i == 0 || is_ws(s[i - 1])) == title_pieces(s, i),
    decreases s.len() - i,
{
    if i < s.len() {
        lemma_title_pieces(s, i + 1);
        let t = s.skip(i);
        assert(t[0] == s[i]);
        assert(t.drop_first() =~= s.skip(i + 1));
    } else {
        assert(s.skip(i).len() == 0);
    }
}

/// "Title Case" maps every char on its own: whitespace stays, the first char
/// of each word (at the start, or after any whitespace, line breaks
/// included) is upper-cased, and every other char is lower-cased.
pub proof fn law_title_case_by_char(s: Seq<char>)
    ensures
        spec_apply(TransformKind::TitleCase, s) == title_pieces(s, 0),
{
    lemma_title_pieces(s, 0);
    assert(s.skip(0) == s);
}

} // verus!
