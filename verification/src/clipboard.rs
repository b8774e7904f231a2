//! Clipboard payloads: the CF_HTML document that carries rich text, and the
//! privacy rule that keeps marked clipboard content out of the history.

use vstd::prelude::*;
use vstd::utf8::*;
use crate::text::{lemma_encode_utf8_concat, push_char, push_str, utf8_len};
use crate::tokens::digit_char;

verus! {

/// `n` in decimal, without leading zeros.
pub open spec fn decimal(n: nat) -> Seq<char>
    decreases n,
{
    if n < 10 {
        seq![digit_char(n as int)]
    } else {
        decimal(n / 10).push(digit_char((n % 10) as int))
    }
}

/// `format!("{n:010}")`: `n` in decimal, zero-padded to at least ten digits.
pub open spec fn pad10(n: nat) -> Seq<char> {
    let d = decimal(n);
    if d.len() >= 10 {
        d
    } else {
        Seq::new((10 - d.len()) as nat, |i: int| '0') + d
    }
}

pub open spec fn cf_prefix() -> Seq<char> {
    "<html><body><!--StartFragment-->"@
}

pub open spec fn cf_suffix() -> Seq<char> {
    "<!--EndFragment--></body></html>"@
}

/// The CF_HTML header: `Key:Value` lines giving byte offsets into the payload.
pub open spec fn cf_header(start_html: nat, end_html: nat, start_frag: nat, end_frag: nat) -> Seq<
    char,
> {
    "Version:0.9\r\nStartHTML:"@ + pad10(start_html) + "\r\nEndHTML:"@ + pad10(end_html)
        + "\r\nStartFragment:"@ + pad10(start_frag) + "\r\nEndFragment:"@ + pad10(end_frag)
        + "\r\n"@
}

/// Bytes the payload adds around a fragment (header, prefix and suffix).
pub open spec fn cf_overhead() -> nat {
    utf8_len(cf_header(0, 0, 0, 0)) + utf8_len(cf_prefix()) + utf8_len(cf_suffix())
}

/// `(StartHTML, EndHTML, StartFragment, EndFragment)` for a fragment: the
/// document starts right after the header (measured with zero offsets), the
/// fragment right after the prefix.
pub open spec fn cf_offsets(f: Seq<char>) -> (nat, nat, nat, nat) {
    let sh = utf8_len(cf_header(0, 0, 0, 0));
    let sf = sh + utf8_len(cf_prefix());
    let ef = sf + utf8_len(f);
    let eh = sh + utf8_len(cf_prefix() + f + cf_suffix());
    (sh, eh, sf, ef)
}

/// The CF_HTML payload for an HTML fragment.
pub open spec fn cf_html(f: Seq<char>) -> Seq<char> {
    let (sh, eh, sf, ef) = cf_offsets(f);
    cf_header(sh, eh, sf, ef) + cf_prefix() + f + cf_suffix()
}

pub(crate) fn decimal_vec(n: usize) -> (v: Vec<char>)
    ensures
        v@ == decimal(n as nat),
    decreases n,
{
    if n < 10 {
        let mut v: Vec<char> = Vec::new();
        v.push(((48 + n) as u8) as char);
        v
    } else {
        let mut v = decimal_vec(n / 10);
        v.push(((48 + n % 10) as u8) as char);
        v
    }
}

fn push_pad10(out: &mut String, n: usize)
    ensures
        final(out)@ == old(out)@ + pad10(n as nat),
{
    let d = decimal_vec(n);
    let ghost before = out@;
    if d.len() < 10 {
        let mut k: usize = d.len();
        while k < 10
            invariant
                d@.len() <= k <= 10,
                out@ == before + Seq::new((k - d@.len()) as nat, |i: int| '0'),
            decreases 10 - k,
        {
            push_char(out, '0');
            assert(Seq::new((k + 1 - d@.len()) as nat, |i: int| '0') =~= Seq::new(
                (k - d@.len()) as nat,
                |i: int| '0',
            ).push('0'));
            k += 1;
        }
    }
    let ghost mid = out@;
    let mut j: usize = 0;
    while j < d.len()
        invariant
            j <= d@.len(),
            out@ == mid + d@.take(j as int),
        decreases d@.len() - j,
    {
        push_char(out, d[j]);
        assert(d@.take(j + 1) == d@.take(j as int).push(d@[j as int]));
        j += 1;
    }
    assert(d@.take(d@.len() as int) == d@);
    if d.len() >= 10 {
        assert(out@ == before + pad10(n as nat));
    } else {
        assert(out@ == before + pad10(n as nat));
    }
}

fn cf_header_string(sh: usize, eh: usize, sf: usize, ef: usize) -> (s: String)
    ensures
        s@ == cf_header(sh as nat, eh as nat, sf as nat, ef as nat),
{
    let mut s = String::new();
    push_str(&mut s, "Version:0.9\r\nStartHTML:");
    push_pad10(&mut s, sh);
    push_str(&mut s, "\r\nEndHTML:");
    push_pad10(&mut s, eh);
    push_str(&mut s, "\r\nStartFragment:");
    push_pad10(&mut s, sf);
    push_str(&mut s, "\r\nEndFragment:");
    push_pad10(&mut s, ef);
    push_str(&mut s, "\r\n");
    s
}

/// Builds the CF_HTML payload wrapping `fragment` (see [`cf_html`]).
pub fn build_cf_html(fragment: &str) -> (r: String)
    requires
        utf8_len(fragment@) + cf_overhead() <= usize::MAX,
    ensures
        r@ == cf_html(fragment@),
{
    let prefix = "<html><body><!--StartFragment-->";
    let suffix = "<!--EndFragment--></body></html>";
    let header0 = cf_header_string(0, 0, 0, 0);
    let header_len = header0.as_str().len();
    let mut body = String::new();
    push_str(&mut body, prefix);
    push_str(&mut body, fragment);
    push_str(&mut body, suffix);
    proof {
        lemma_encode_utf8_concat(cf_prefix(), fragment@);
        lemma_encode_utf8_concat(cf_prefix() + fragment@, cf_suffix());
        assert(Seq::<char>::empty() + cf_prefix() + fragment@ + cf_suffix() == cf_prefix()
            + fragment@ + cf_suffix());
    }
    let start_html = header_len;
    let start_fragment = start_html + prefix.len();
    let end_fragment = start_fragment + fragment.len();
    let end_html = start_html + body.as_str().len();
    let mut out = cf_header_string(start_html, end_html, start_fragment, end_fragment);
    push_str(&mut out, body.as_str());
    proof {
        assert(out@ == cf_header(start_html as nat, end_html as nat, start_fragment as nat, end_fragment as nat)
            + (Seq::<char>::empty() + cf_prefix() + fragment@ + cf_suffix()));
    }
    out
}

// --- the offsets law --------------------------------------------------------

proof fn lemma_ascii_utf8_len(s: Seq<char>)
    requires
        forall|i: int| 0 <= i < s.len() ==> (#[trigger] s[i] as u32) < 0x80,
    ensures
        utf8_len(s) == s.len(),
    decreases s.len(),
{
    if s.len() > 0 {
        assert forall|i: int| 0 <= i < s.drop_first().len() implies (#[trigger] s.drop_first()[i]
            as u32) < 0x80 by {
            assert(s.drop_first()[i] == s[i + 1]);
        }
        lemma_ascii_utf8_len(s.drop_first());
        assert((s[0] as u32) < 0x80);
    }
}

proof fn lemma_decimal(n: nat)
    ensures
        decimal(n).len() >= 1,
        forall|i: int| 0 <= i < decimal(n).len() ==> (#[trigger] decimal(n)[i] as u32) < 0x80,
        n < 10000000000 ==> decimal(n).len() <= 10,
    decreases n,
{
    if n >= 10 {
        lemma_decimal(n / 10);
        let d = decimal(n / 10);
        assert forall|i: int| 0 <= i < decimal(n).len() implies (#[trigger] decimal(n)[i] as u32)
            < 0x80 by {
            if i < d.len() {
                assert(decimal(n)[i] == d[i]);
            }
        }
        if n < 10000000000 {
            assert(pow10(10) == 10000000000) by {
                reveal_with_fuel(pow10, 11);
            }
            lemma_decimal_len(n, 10);
        }
    }
}

proof fn lemma_decimal_len(n: nat, k: nat)
    requires
        1 <= k,
        n < pow10(k),
    ensures
        decimal(n).len() <= k,
    decreases n,
{
    if n >= 10 {
        assert(k >= 2) by {
            if k == 1 {
                reveal_with_fuel(pow10, 2);
            }
        }
        assert(pow10(k) == 10 * pow10((k - 1) as nat));
        lemma_decimal_len(n / 10, (k - 1) as nat);
    }
}

pub open spec fn pow10(k: nat) -> nat
    decreases k,
{
    if k == 0 {
        1
    } else {
        10 * pow10((k - 1) as nat)
    }
}

proof fn lemma_pad10(n: nat)
    requires
        n < 10000000000,
    ensures
        pad10(n).len() == 10,
        utf8_len(pad10(n)) == 10,
{
    lemma_decimal(n);
    let p = pad10(n);
    let d = decimal(n);
    assert forall|i: int| 0 <= i < p.len() implies (#[trigger] p[i] as u32) < 0x80 by {
        if d.len() < 10 && i < 10 - d.len() {
            assert(p[i] == '0');
        } else if d.len() < 10 {
            assert(p[i] == d[i - (10 - d.len())]);
        }
    }
    lemma_ascii_utf8_len(p);
}

proof fn lemma_header_len(a: nat, b: nat, c: nat, d: nat)
    requires
        a < 10000000000,
        b < 10000000000,
        c < 10000000000,
        d < 10000000000,
    ensures
        utf8_len(cf_header(a, b, c, d)) == utf8_len(cf_header(0, 0, 0, 0)),
{
    lemma_header_parts(a, b, c, d);
    lemma_header_parts(0, 0, 0, 0);
}

/// The header's byte length: its fixed text plus four ten-digit numbers.
proof fn lemma_header_parts(a: nat, b: nat, c: nat, d: nat)
    requires
        a < 10000000000,
        b < 10000000000,
        c < 10000000000,
        d < 10000000000,
    ensures
        utf8_len(cf_header(a, b, c, d)) == utf8_len("Version:0.9\r\nStartHTML:"@) + utf8_len(
            "\r\nEndHTML:"@,
        ) + utf8_len("\r\nStartFragment:"@) + utf8_len("\r\nEndFragment:"@) + utf8_len("\r\n"@)
            + 40,
{
    lemma_pad10(a);
    lemma_pad10(b);
    lemma_pad10(c);
    lemma_pad10(d);
    let s1 = "Version:0.9\r\nStartHTML:"@;
    let s2 = "\r\nEndHTML:"@;
    let s3 = "\r\nStartFragment:"@;
    let s4 = "\r\nEndFragment:"@;
    let s5 = "\r\n"@;
    lemma_encode_utf8_concat(s1, pad10(a));
    lemma_encode_utf8_concat(s1 + pad10(a), s2);
    lemma_encode_utf8_concat(s1 + pad10(a) + s2, pad10(b));
    lemma_encode_utf8_concat(s1 + pad10(a) + s2 + pad10(b), s3);
    lemma_encode_utf8_concat(s1 + pad10(a) + s2 + pad10(b) + s3, pad10(c));
    lemma_encode_utf8_concat(s1 + pad10(a) + s2 + pad10(b) + s3 + pad10(c), s4);
    lemma_encode_utf8_concat(s1 + pad10(a) + s2 + pad10(b) + s3 + pad10(c) + s4, pad10(d));
    lemma_encode_utf8_concat(s1 + pad10(a) + s2 + pad10(b) + s3 + pad10(c) + s4 + pad10(d), s5);
}

/// The offsets a CF_HTML header announces point where they should: the
/// bytes between `StartFragment` and `EndFragment` are exactly the fragment,
/// `StartHTML` is where `<html>` begins, and `EndHTML` is the end of the
/// payload. Holds while the offsets fit the header's ten digits.
pub proof fn law_cf_html_offsets(f: Seq<char>)
    requires
        utf8_len(f) + cf_overhead() < 10000000000,
    ensures
        ({
            let (sh, eh, sf, ef) = cf_offsets(f);
            let p = encode_utf8(cf_html(f));
            &&& p.subrange(sf as int, ef as int) == encode_utf8(f)
            &&& p.subrange(sh as int, (sh + utf8_len("<html>"@)) as int) == encode_utf8("<html>"@)
            &&& p.len() == eh
        }),
{
    let (sh, eh, sf, ef) = cf_offsets(f);
    lemma_encode_utf8_concat(cf_prefix(), f);
    lemma_encode_utf8_concat(cf_prefix() + f, cf_suffix());
    lemma_header_len(sh, eh, sf, ef);
    let h = cf_header(sh, eh, sf, ef);
    let body = cf_prefix() + f + cf_suffix();
    assert(cf_html(f) == h + body);
    lemma_encode_utf8_concat(h, body);
    let p = encode_utf8(cf_html(f));
    assert(encode_utf8(h).len() == sh);
    assert(p == encode_utf8(h) + encode_utf8(cf_prefix()) + encode_utf8(f) + encode_utf8(cf_suffix()));
    assert(p.subrange(sf as int, ef as int) == encode_utf8(f));
    reveal_strlit("<html><body><!--StartFragment-->");
    reveal_strlit("<html>");
    let rest = cf_prefix().skip(6);
    assert(cf_prefix() == "<html>"@ + rest);
    lemma_encode_utf8_concat("<html>"@, rest);
    assert(p.subrange(sh as int, (sh + utf8_len("<html>"@)) as int) == encode_utf8("<html>"@));
}

// --- privacy markers ---------------------------------------------------------

/// Whether the current clipboard must stay out of the history: a
/// presence-only marker (set by password managers) always excludes it; the
/// `CanIncludeInClipboardHistory` flag excludes it when it reads 0, or when
/// it is present but cannot be read (erring on the side of privacy).
pub open spec fn spec_skip_clipboard(marker_present: bool, include_flag: Option<Option<u32>>) -> bool {
    if marker_present {
        true
    } else {
        match include_flag {
            Some(Some(v)) => v == 0,
            Some(None) => true,
            None => false,
        }
    }
}

/// Decides the privacy skip from what the clipboard carries:
/// `marker_present` for either presence-only marker, and `include_flag` for
/// `CanIncludeInClipboardHistory` (`None` when absent, `Some(None)` when it
/// is present but its value could not be read).
pub fn skip_clipboard(marker_present: bool, include_flag: Option<Option<u32>>) -> (b: bool)
    ensures
        b == spec_skip_clipboard(marker_present, include_flag),
{
    if marker_present {
        return true;
    }
    match include_flag {
        Some(Some(v)) => v == 0,
        Some(None) => true,
        None => false,
    }
}

/// A notification that the clipboard changed.
#[derive(Clone, Copy, Debug)]
pub struct ClipboardUpdate;

/// A saved clipboard text, put back after a paste.
#[derive(Debug)]
pub struct TextSnapshot {
    text: Option<String>,
}

impl TextSnapshot {
    /// A snapshot of the clipboard text read by the caller.
    pub fn capture(text: Option<String>) -> (s: TextSnapshot)
        ensures
            s.saved() == text,
    {
        TextSnapshot { text }
    }

    pub closed spec fn saved(&self) -> Option<String> {
        self.text
    }

    /// The text to put back on the clipboard; `None` when there was none,
    /// and then nothing is written.
    pub fn restore(&self) -> (t: Option<&String>)
        ensures
            match self.saved() {
                Some(s) => t matches Some(x) && *x == s,
                None => t is None,
            },
    {
        match &self.text {
            Some(t) => Some(t),
            None => None,
        }
    }
}

} // verus!
