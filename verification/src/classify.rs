//! Content-type classification for a text clip.
//!
//! Copying a URL, an email, a hex color, or a file path each affords a different
//! action (open in browser, compose mail, preview the color, reveal in Explorer).
//! Classification is conservative: when in doubt it returns
//! [`ContentType::Text`].

use vstd::prelude::*;
use crate::text::{
    ascii_lower, ascii_lower_seq, chars_of, find_char, has_char, is_ascii_alpha, is_ascii_digit,
    is_whitespace, is_ws, lemma_encode_utf8_concat, lemma_find_char_exact, lemma_utf8_len_ge,
    lines, next_line, rfind_char, rfind_char_in, find_char_in, starts_with, str_eq,
    to_ascii_lower, trim, trim_range, utf8_len, utf8_width, lemma_rfind_char, trim_end, trim_start, lemma_find_char,
};

verus! {

/// How a clip's content should be rendered and acted on. Mirrors the
/// `content_type` column.
#[derive(Debug, Clone, Copy, PartialEq, Eq, Structural)]
pub enum ContentType {
    Text,
    Url,
    Email,
    /// A CSS hex color like `#1a2b3c` or `#fff`.
    Color,
    /// A single filesystem path (Windows `C:\...` or UNC `\\server\...`).
    Path,
    /// One or more newline-separated file paths from an Explorer copy.
    Files,
    /// Bitmap image clip. Set by the caller, never inferred from text.
    Image,
}

/// The column value of each content type.
pub open spec fn content_type_name(t: ContentType) -> Seq<char> {
    match t {
        ContentType::Text => "text"@,
        ContentType::Url => "url"@,
        ContentType::Email => "email"@,
        ContentType::Color => "color"@,
        ContentType::Path => "path"@,
        ContentType::Files => "files"@,
        ContentType::Image => "image"@,
    }
}

/// The content type a column value names; anything unknown is `Text`.
pub open spec fn content_type_of_name(s: Seq<char>) -> ContentType {
    if s == "url"@ {
        ContentType::Url
    } else if s == "email"@ {
        ContentType::Email
    } else if s == "color"@ {
        ContentType::Color
    } else if s == "path"@ {
        ContentType::Path
    } else if s == "files"@ {
        ContentType::Files
    } else if s == "image"@ {
        ContentType::Image
    } else {
        ContentType::Text
    }
}

impl ContentType {
    pub fn as_str(self) -> (s: &'static str)
        ensures
            s@ == content_type_name(self),
    {
        match self {
            ContentType::Text => "text",
            ContentType::Url => "url",
            ContentType::Email => "email",
            ContentType::Color => "color",
            ContentType::Path => "path",
            ContentType::Files => "files",
            ContentType::Image => "image",
        }
    }

    pub fn from_str(s: &str) -> (t: ContentType)
        ensures
            t == content_type_of_name(s@),
    {
        if str_eq(s, "url") {
            ContentType::Url
        } else if str_eq(s, "email") {
            ContentType::Email
        } else if str_eq(s, "color") {
            ContentType::Color
        } else if str_eq(s, "path") {
            ContentType::Path
        } else if str_eq(s, "files") {
            ContentType::Files
        } else if str_eq(s, "image") {
            ContentType::Image
        } else {
            ContentType::Text
        }
    }
}

/// Reading back the stored name of a content type gives the same type.
pub proof fn law_content_type_name_roundtrip(t: ContentType)
    ensures
        content_type_of_name(content_type_name(t)) == t,
{
    reveal_strlit("text");
    reveal_strlit("url");
    reveal_strlit("email");
    reveal_strlit("color");
    reveal_strlit("path");
    reveal_strlit("files");
    reveal_strlit("image");
    assert("text"@[0] == 't' && "url"@[0] == 'u' && "email"@[0] == 'e' && "color"@[0] == 'c');
    assert("path"@[0] == 'p' && "files"@[0] == 'f' && "image"@[0] == 'i');
    assert("text"@ != "url"@ && "text"@ != "email"@ && "text"@ != "color"@);
    assert("text"@ != "path"@ && "text"@ != "files"@ && "text"@ != "image"@);
    assert("url"@ != "email"@ && "url"@ != "color"@ && "url"@ != "path"@);
    assert("url"@ != "files"@ && "url"@ != "image"@);
    assert("email"@ != "color"@ && "email"@ != "path"@ && "email"@ != "files"@);
    assert("email"@ != "image"@ && "color"@ != "path"@ && "color"@ != "files"@);
    assert("color"@ != "image"@ && "path"@ != "files"@ && "path"@ != "image"@);
    assert("files"@ != "image"@);
    reveal_strlit("url");
    reveal_strlit("email");
    reveal_strlit("color");
    reveal_strlit("path");
    reveal_strlit("files");
    reveal_strlit("image");
}

/// Some char of `s` is whitespace.
pub open spec fn has_ws(s: Seq<char>) -> bool {
    exists|i: int| 0 <= i < s.len() && is_ws(#[trigger] s[i])
}

/// `s` opens with `scheme` (ignoring ASCII case) and has something after it.
/// The schemes are ASCII, so char counts and byte counts agree here.
pub open spec fn has_scheme(s: Seq<char>, scheme: Seq<char>) -> bool {
    starts_with(ascii_lower_seq(s), scheme) && s.len() > scheme.len()
}

/// A URL: no whitespace and one of the schemes we are willing to open.
pub open spec fn spec_is_url(s: Seq<char>) -> bool {
    &&& !has_ws(s)
    &&& {
        ||| has_scheme(s, "https://"@)
        ||| has_scheme(s, "http://"@)
        ||| has_scheme(s, "ftp://"@)
        ||| has_scheme(s, "mailto:"@)
    }
}

/// An email address: no whitespace, a non-empty local part before the first
/// `@`, and a domain after it with no further `@` whose last `.` has a
/// non-empty host before it and a top-level label of two or more ASCII
/// letters after it.
pub open spec fn spec_is_email(s: Seq<char>) -> bool {
    &&& !has_ws(s)
    &&& match find_char(s, '@') {
        None => false,
        Some(at) => {
            let local = s.take(at as int);
            let domain = s.skip(at + 1int);
            &&& local.len() > 0
            &&& domain.len() > 0
            &&& !domain.contains('@')
            &&& match rfind_char(domain, '.') {
                None => false,
                Some(dot) => {
                    let tld = domain.skip(dot + 1int);
                    &&& dot > 0
                    &&& tld.len() >= 2
                    &&& forall|k: int| 0 <= k < tld.len() ==> is_ascii_alpha(#[trigger] tld[k])
                },
            }
        },
    }
}

pub open spec fn is_hex_digit(c: char) -> bool {
    is_ascii_digit(c) || ('a' <= c <= 'f') || ('A' <= c <= 'F')
}

/// `#` followed by 3, 4, 6 or 8 hex digits.
pub open spec fn spec_is_hex_color(s: Seq<char>) -> bool {
    &&& s.len() >= 1
    &&& s[0] == '#'
    &&& {
        let n = s.len() - 1;
        n == 3 || n == 4 || n == 6 || n == 8
    }
    &&& forall|k: int| 1 <= k < s.len() ==> is_hex_digit(#[trigger] s[k])
}

/// A Windows path: UNC (`\\` and more than three bytes in all) or a drive
/// path (`X:\` / `X:/` with `X` an ASCII letter).
pub open spec fn spec_is_path(s: Seq<char>) -> bool {
    ||| (s.len() >= 2 && s[0] == '\\' && s[1] == '\\' && utf8_len(s) > 3)
    ||| (s.len() >= 3 && is_ascii_alpha(s[0]) && s[1] == ':' && (s[2] == '\\' || s[2] == '/'))
}

/// Every line of a multi-line clip is either blank or a path.
pub open spec fn all_lines_paths(ls: Seq<Seq<char>>) -> bool {
    forall|i: int| 0 <= i < ls.len() ==> {
        let t = trim(#[trigger] ls[i]);
        t.len() == 0 || spec_is_path(t)
    }
}

/// The classification of a text clip.
pub open spec fn spec_classify(content: Seq<char>) -> ContentType {
    let s = trim(content);
    if s.len() == 0 {
        ContentType::Text
    } else if s.contains('\n') {
        if all_lines_paths(lines(s)) {
            ContentType::Files
        } else {
            ContentType::Text
        }
    } else if spec_is_url(s) {
        ContentType::Url
    } else if spec_is_email(s) {
        ContentType::Email
    } else if spec_is_hex_color(s) {
        ContentType::Color
    } else if spec_is_path(s) {
        ContentType::Path
    } else {
        ContentType::Text
    }
}

fn has_ws_in(v: &Vec<char>, lo: usize, hi: usize) -> (b: bool)
    requires
        lo <= hi <= v@.len(),
    ensures
        b == has_ws(v@.subrange(lo as int, hi as int)),
{
    let mut i = lo;
    while i < hi
        invariant
            lo <= i <= hi <= v@.len(),
            forall|k: int| lo <= k < i ==> !is_ws(#[trigger] v@[k]),
        decreases hi - i,
    {
        if is_whitespace(v[i]) {
            assert(is_ws(v@.subrange(lo as int, hi as int)[i - lo]));
            return true;
        }
        i += 1;
    }
    assert forall|k: int| 0 <= k < hi - lo implies !is_ws(
        #[trigger] v@.subrange(lo as int, hi as int)[k],
    ) by {
        assert(v@.subrange(lo as int, hi as int)[k] == v@[lo + k]);
    }
    false
}

fn scheme_in(v: &Vec<char>, lo: usize, hi: usize, scheme: &str) -> (b: bool)
    requires
        lo <= hi <= v@.len(),
    ensures
        b == has_scheme(v@.subrange(lo as int, hi as int), scheme@),
{
    let sc = chars_of(scheme);
    let ghost s = v@.subrange(lo as int, hi as int);
    assert(ascii_lower_seq(s).len() == s.len());
    if sc.len() > hi - lo {
        assert(!starts_with(ascii_lower_seq(s), sc@));
        return false;
    }
    let mut k: usize = 0;
    while k < sc.len()
        invariant
            lo <= hi <= v@.len(),
            s == v@.subrange(lo as int, hi as int),
            sc@ == scheme@,
            sc@.len() <= hi - lo,
            0 <= k <= sc@.len(),
            forall|j: int| 0 <= j < k ==> ascii_lower(#[trigger] v@[lo + j]) == sc@[j],
        decreases sc@.len() - k,
    {
        if to_ascii_lower(v[lo + k]) != sc[k] {
            assert(ascii_lower_seq(s)[k as int] == ascii_lower(v@[lo + k]));
            assert(ascii_lower_seq(s).take(sc@.len() as int)[k as int] != sc@[k as int]);
            return false;
        }
        k += 1;
    }
    assert(ascii_lower_seq(s).take(sc@.len() as int) == sc@) by {
        assert forall|j: int| 0 <= j < sc@.len() implies ascii_lower_seq(s).take(
            sc@.len() as int,
        )[j] == sc@[j] by {
            assert(ascii_lower(v@[lo + j]) == sc@[j]);
        }
    }
    hi - lo > sc.len()
}

fn url_in(v: &Vec<char>, lo: usize, hi: usize) -> (b: bool)
    requires
        lo <= hi <= v@.len(),
    ensures
        b == spec_is_url(v@.subrange(lo as int, hi as int)),
{
    if has_ws_in(v, lo, hi) {
        return false;
    }
    scheme_in(v, lo, hi, "https://") || scheme_in(v, lo, hi, "http://") || scheme_in(
        v,
        lo,
        hi,
        "ftp://",
    ) || scheme_in(v, lo, hi, "mailto:")
}

fn all_ascii_alpha(v: &Vec<char>, lo: usize, hi: usize) -> (b: bool)
    requires
        lo <= hi <= v@.len(),
    ensures
        b == forall|k: int| 0 <= k < hi - lo ==> is_ascii_alpha(
            #[trigger] v@.subrange(lo as int, hi as int)[k],
        ),
{
    let mut i = lo;
    while i < hi
        invariant
            lo <= i <= hi <= v@.len(),
            forall|k: int| lo <= k < i ==> is_ascii_alpha(#[trigger] v@[k]),
        decreases hi - i,
    {
        let c = v[i];
        if !(('a' <= c && c <= 'z') || ('A' <= c && c <= 'Z')) {
            assert(!is_ascii_alpha(v@.subrange(lo as int, hi as int)[i - lo]));
            return false;
        }
        i += 1;
    }
    assert forall|k: int| 0 <= k < hi - lo implies is_ascii_alpha(
        #[trigger] v@.subrange(lo as int, hi as int)[k],
    ) by {
        assert(v@.subrange(lo as int, hi as int)[k] == v@[lo + k]);
    }
    true
}

fn email_in(v: &Vec<char>, lo: usize, hi: usize) -> (b: bool)
    requires
        lo <= hi <= v@.len(),
    ensures
        b == spec_is_email(v@.subrange(lo as int, hi as int)),
{
    let ghost s = v@.subrange(lo as int, hi as int);
    if has_ws_in(v, lo, hi) {
        return false;
    }
    let at = find_char_in(v, lo, hi, '@');
    proof {
        lemma_find_char_exact(s, '@', at - lo);
    }
    if at == hi {
        return false;
    }
    let ghost domain = s.skip(at - lo + 1);
    assert(domain == v@.subrange(at + 1, hi as int));
    assert(s.take(at - lo) == v@.subrange(lo as int, at as int));
    if at == lo || at + 1 == hi {
        return false;
    }
    if has_char(v, at + 1, hi, '@') {
        return false;
    }
    let dot = rfind_char_in(v, at + 1, hi, '.');
    if dot == hi {
        return false;
    }
    assert(domain.skip(dot - (at + 1) + 1) == v@.subrange(dot + 1, hi as int));
    dot > at + 1 && hi - (dot + 1) >= 2 && all_ascii_alpha(v, dot + 1, hi)
}

fn hex_color_in(v: &Vec<char>, lo: usize, hi: usize) -> (b: bool)
    requires
        lo <= hi <= v@.len(),
    ensures
        b == spec_is_hex_color(v@.subrange(lo as int, hi as int)),
{
    let ghost s = v@.subrange(lo as int, hi as int);
    if hi == lo || v[lo] != '#' {
        return false;
    }
    let n = hi - lo - 1;
    if !(n == 3 || n == 4 || n == 6 || n == 8) {
        return false;
    }
    let mut i = lo + 1;
    while i < hi
        invariant
            lo < i <= hi <= v@.len(),
            s == v@.subrange(lo as int, hi as int),
            forall|k: int| lo < k < i ==> is_hex_digit(#[trigger] v@[k]),
        decreases hi - i,
    {
        let c = v[i];
        if !(('0' <= c && c <= '9') || ('a' <= c && c <= 'f') || ('A' <= c && c <= 'F')) {
            assert(!is_hex_digit(s[i - lo]));
            return false;
        }
        i += 1;
    }
    assert forall|k: int| 1 <= k < s.len() implies is_hex_digit(#[trigger] s[k]) by {
        assert(s[k] == v@[lo + k]);
    }
    true
}

fn path_in(v: &Vec<char>, lo: usize, hi: usize) -> (b: bool)
    requires
        lo <= hi <= v@.len(),
    ensures
        b == spec_is_path(v@.subrange(lo as int, hi as int)),
{
    let ghost s = v@.subrange(lo as int, hi as int);
    let n = hi - lo;
    let unc = if n >= 2 && v[lo] == '\\' && v[lo + 1] == '\\' {
        if n >= 4 {
            proof {
                lemma_utf8_len_ge(s);
            }
            true
        } else {
            let w0 = utf8_width(v[lo]);
            let w1 = utf8_width(v[lo + 1]);
            if n == 3 {
                let w2 = utf8_width(v[lo + 2]);
                proof {
                    assert(s == seq![s[0]] + seq![s[1]] + seq![s[2]]);
                    lemma_encode_utf8_concat(seq![s[0]], seq![s[1]]);
                    lemma_encode_utf8_concat(seq![s[0]] + seq![s[1]], seq![s[2]]);
                }
                w2 > 1
            } else {
                proof {
                    assert(s == seq![s[0]] + seq![s[1]]);
                    lemma_encode_utf8_concat(seq![s[0]], seq![s[1]]);
                }
                false
            }
        }
    } else {
        false
    };
    if unc {
        return true;
    }
    n >= 3 && (('a' <= v[lo] && v[lo] <= 'z') || ('A' <= v[lo] && v[lo] <= 'Z')) && v[lo + 1]
        == ':' && (v[lo + 2] == '\\' || v[lo + 2] == '/')
}

/// Classify a text clip's content. Whitespace at the edges is ignored.
pub fn classify_text(content: &str) -> (t: ContentType)
    ensures
        t == spec_classify(content@),
{
    let v = chars_of(content);
    let (a, b) = trim_range(&v, 0, v.len());
    assert(v@.subrange(0, v@.len() as int) == v@);
    let ghost s = v@.subrange(a as int, b as int);
    assert(trim(content@) == s);
    if a == b {
        return ContentType::Text;
    }
    if has_char(&v, a, b, '\n') {
        let mut p = a;
        let ghost mut done: Seq<Seq<char>> = seq![];
        while p < b
            invariant
                a <= p <= b <= v@.len(),
                a < b,
                s == v@.subrange(a as int, b as int),
                trim(content@) == s,
                s.contains('\n'),
                lines(s) == done + lines(v@.subrange(p as int, b as int)),
                all_lines_paths(done),
            decreases b - p,
        {
            let (e, q) = next_line(&v, p, b);
            let (ta, tb) = trim_range(&v, p, e);
            if ta < tb && !path_in(&v, ta, tb) {
                proof {
                    let ls = lines(s);
                    let line = v@.subrange(p as int, e as int);
                    let i = done.len() as int;
                    let rest = lines(v@.subrange(q as int, b as int));
                    assert(ls == done + (seq![line] + rest));
                    assert(ls[i] == line);
                    assert(trim(line) == v@.subrange(ta as int, tb as int));
                    let t = trim(ls[i]);
                    assert(!(t.len() == 0 || spec_is_path(t)));
                    assert(!all_lines_paths(ls));
                }
                return ContentType::Text;
            }
            proof {
                let line = v@.subrange(p as int, e as int);
                assert(done + seq![line] + lines(v@.subrange(q as int, b as int)) == done + (
                seq![line] + lines(v@.subrange(q as int, b as int))));
                let nd = done.push(line);
                assert forall|i: int| 0 <= i < nd.len() implies {
                    let t = trim(#[trigger] nd[i]);
                    t.len() == 0 || spec_is_path(t)
                } by {
                    if i < done.len() {
                        assert(nd[i] == done[i]);
                    } else {
                        assert(nd[i] == line);
                        assert(trim(line) == v@.subrange(ta as int, tb as int));
                    }
                }
                assert(done.push(line) == done + seq![line]);
                done = nd;
            }
            p = q;
        }
        assert(lines(v@.subrange(b as int, b as int)) == Seq::<Seq<char>>::empty());
        assert(done + Seq::<Seq<char>>::empty() == done);
        return ContentType::Files;
    }
    if url_in(&v, a, b) {
        ContentType::Url
    } else if email_in(&v, a, b) {
        ContentType::Email
    } else if hex_color_in(&v, a, b) {
        ContentType::Color
    } else if path_in(&v, a, b) {
        ContentType::Path
    } else {
        ContentType::Text
    }
}

/// A URL with a scheme we are willing to open (`https`, `http`, `ftp`, `mailto`).
pub fn is_url(s: &str) -> (b: bool)
    ensures
        b == spec_is_url(s@),
{
    let v = chars_of(s);
    assert(v@.subrange(0, v@.len() as int) == v@);
    url_in(&v, 0, v.len())
}

/// A plausible email address.
pub fn is_email(s: &str) -> (b: bool)
    ensures
        b == spec_is_email(s@),
{
    let v = chars_of(s);
    assert(v@.subrange(0, v@.len() as int) == v@);
    email_in(&v, 0, v.len())
}

/// A CSS hex color.
pub fn is_hex_color(s: &str) -> (b: bool)
    ensures
        b == spec_is_hex_color(s@),
{
    let v = chars_of(s);
    assert(v@.subrange(0, v@.len() as int) == v@);
    hex_color_in(&v, 0, v.len())
}

/// A single Windows path.
pub fn is_path(s: &str) -> (b: bool)
    ensures
        b == spec_is_path(s@),
{
    let v = chars_of(s);
    assert(v@.subrange(0, v@.len() as int) == v@);
    path_in(&v, 0, v.len())
}


/// Any address `local@host.tld` reads as an e-mail: a local part of any
/// chars but `@` and whitespace (dots and all), a non-empty host without `@`
/// or whitespace (dots allowed), and a top-level label of two or more ASCII
/// letters. As a clip it classifies as an e-mail unless it reads as a URL
/// (a `mailto:` or web scheme in front), which is checked first.
pub proof fn law_email_shape(local: Seq<char>, host: Seq<char>, tld: Seq<char>)
    requires
        local.len() > 0,
        host.len() > 0,
        tld.len() >= 2,
        !local.contains('@'),
        !host.contains('@'),
        !has_ws(local),
        !has_ws(host),
        forall|k: int| 0 <= k < tld.len() ==> is_ascii_alpha(#[trigger] tld[k]),
    ensures
        spec_is_email(local + seq!['@'] + host + seq!['.'] + tld),
        !spec_is_url(local + seq!['@'] + host + seq!['.'] + tld) ==> spec_classify(
            local + seq!['@'] + host + seq!['.'] + tld,
        ) == ContentType::Email,
{
    let s = local + seq!['@'] + host + seq!['.'] + tld;
    let at = local.len();
    assert(s[at as int] == '@');
    assert forall|j: int| 0 <= j < at implies s[j] != '@' by {
        assert(s[j] == local[j]);
        assert(local.contains(local[j]));
    }
    lemma_find_char_exact(s, '@', at as int);
    assert(s.take(at as int) =~= local);
    let domain = s.skip(at + 1int);
    assert(domain =~= host + seq!['.'] + tld);
    assert forall|j: int| 0 <= j < domain.len() implies domain[j] != '@' by {
        if j < host.len() {
            assert(domain[j] == host[j]);
            assert(host.contains(host[j]));
        } else if j > host.len() {
            assert(domain[j] == tld[j - host.len() - 1]);
            assert(is_ascii_alpha(tld[j - host.len() - 1]));
        }
    }
    let dot = host.len();
    assert(domain[dot as int] == '.');
    lemma_rfind_char(domain, '.');
    assert forall|j: int| dot < j < domain.len() implies domain[j] != '.' by {
        assert(domain[j] == tld[j - dot - 1]);
        assert(is_ascii_alpha(tld[j - dot - 1]));
    }
    if let Some(d) = rfind_char(domain, '.') {
        assert(d == dot);
    }
    assert(domain.skip(dot + 1int) =~= tld);
    assert forall|i: int| 0 <= i < s.len() implies !is_ws(#[trigger] s[i]) by {
        if i < at {
            assert(s[i] == local[i]);
        } else if at < i < at + 1 + host.len() {
            assert(s[i] == host[i - at - 1]);
        } else if i > at + 1 + host.len() {
            assert(s[i] == tld[i - at - 2 - host.len()]);
            assert(is_ascii_alpha(tld[i - at - 2 - host.len()]));
        }
    }
    assert(!has_ws(s));
    assert(trim_start(s) == s);
    assert(trim_end(s) == s);
    assert(trim(s) == s);
    assert(is_ws('\n'));
    assert(!s.contains('\n'));
}


/// A one-line text with no whitespace reads back unchanged as a clip's
/// single line: trimming leaves it, and it holds no line break.
proof fn lemma_plain_single_line(s: Seq<char>)
    requires
        s.len() > 0,
        forall|i: int| 0 <= i < s.len() ==> !is_ws(#[trigger] s[i]),
    ensures
        !has_ws(s),
        trim(s) == s,
        !s.contains('\n'),
{
    assert(trim_start(s) == s);
    assert(trim_end(s) == s);
    assert(is_ws('\n'));
}

/// A text with no whitespace that opens with `https://`, `http://`, `ftp://`
/// or `mailto:` and goes on after it classifies as a URL.
pub proof fn law_url_schemes(scheme: Seq<char>, rest: Seq<char>)
    requires
        scheme == "https://"@ || scheme == "http://"@ || scheme == "ftp://"@ || scheme == "mailto:"@,
        rest.len() > 0,
        !has_ws(rest),
    ensures
        spec_classify(scheme + rest) == ContentType::Url,
{
    reveal_strlit("https://");
    reveal_strlit("http://");
    reveal_strlit("ftp://");
    reveal_strlit("mailto:");
    let s = scheme + rest;
    assert forall|i: int| 0 <= i < s.len() implies !is_ws(#[trigger] s[i]) by {
        if i >= scheme.len() {
            assert(s[i] == rest[i - scheme.len()]);
        }
    }
    lemma_plain_single_line(s);
    assert(ascii_lower_seq(s).take(scheme.len() as int) =~= scheme);
    assert(starts_with(ascii_lower_seq(s), scheme));
}

/// `#` and 3, 4, 6 or 8 hex digits classifies as a color.
pub proof fn law_hex_color(ds: Seq<char>)
    requires
        ds.len() == 3 || ds.len() == 4 || ds.len() == 6 || ds.len() == 8,
        forall|k: int| 0 <= k < ds.len() ==> is_hex_digit(#[trigger] ds[k]),
    ensures
        spec_classify(seq!['#'] + ds) == ContentType::Color,
{
    let s = seq!['#'] + ds;
    assert forall|i: int| 0 <= i < s.len() implies !is_ws(#[trigger] s[i]) && s[i] != '@' by {
        if i > 0 {
            assert(s[i] == ds[i - 1]);
            assert(is_hex_digit(ds[i - 1]));
        }
    }
    lemma_plain_single_line(s);
    reveal_strlit("https://");
    reveal_strlit("http://");
    reveal_strlit("ftp://");
    reveal_strlit("mailto:");
    let l = ascii_lower_seq(s);
    assert(l[0] == '#');
    assert(!starts_with(l, "https://"@)) by { if starts_with(l, "https://"@) { assert(l.take(8)[0] == l[0]); } }
    assert(!starts_with(l, "http://"@)) by { if starts_with(l, "http://"@) { assert(l.take(7)[0] == l[0]); } }
    assert(!starts_with(l, "ftp://"@)) by { if starts_with(l, "ftp://"@) { assert(l.take(6)[0] == l[0]); } }
    assert(!starts_with(l, "mailto:"@)) by { if starts_with(l, "mailto:"@) { assert(l.take(7)[0] == l[0]); } }
    lemma_find_char(s, '@');
    assert(find_char(s, '@') is None);
    assert forall|k: int| 1 <= k < s.len() implies is_hex_digit(#[trigger] s[k]) by {
        assert(s[k] == ds[k - 1]);
    }
}

/// A drive path, `X:\` or `X:/` with `X` an ASCII letter, followed by any
/// text with no whitespace and no `@`, classifies as a path.
pub proof fn law_drive_path(letter: char, sep: char, rest: Seq<char>)
    requires
        is_ascii_alpha(letter),
        sep == '\\' || sep == '/',
        !has_ws(rest),
        !rest.contains('@'),
    ensures
        spec_classify(seq![letter, ':', sep] + rest) == ContentType::Path,
{
    let s = seq![letter, ':', sep] + rest;
    assert forall|i: int| 0 <= i < s.len() implies !is_ws(#[trigger] s[i]) && s[i] != '@' by {
        if i >= 3 {
            assert(s[i] == rest[i - 3]);
            assert(rest.contains(rest[i - 3]));
        }
    }
    lemma_plain_single_line(s);
    reveal_strlit("https://");
    reveal_strlit("http://");
    reveal_strlit("ftp://");
    reveal_strlit("mailto:");
    let l = ascii_lower_seq(s);
    assert(l[1] == ':');
    assert(!starts_with(l, "https://"@)) by { if starts_with(l, "https://"@) { assert(l.take(8)[1] == l[1]); } }
    assert(!starts_with(l, "http://"@)) by { if starts_with(l, "http://"@) { assert(l.take(7)[1] == l[1]); } }
    assert(!starts_with(l, "ftp://"@)) by { if starts_with(l, "ftp://"@) { assert(l.take(6)[1] == l[1]); } }
    assert(!starts_with(l, "mailto:"@)) by { if starts_with(l, "mailto:"@) { assert(l.take(7)[1] == l[1]); } }
    lemma_find_char(s, '@');
    assert(find_char(s, '@') is None);
    assert(!spec_is_hex_color(s));
}

} // verus!
