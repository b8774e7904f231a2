//! Character-level helpers shared by the parsers and formatters: whitespace,
//! trimming, line splitting, prefixes and substring search over `Seq<char>`.

use vstd::prelude::*;
use vstd::utf8::*;

verus! {

/// Appends `c` to `s` (`String::push`).
#[verifier::external_body]
pub(crate) fn push_char(s: &mut String, c: char)
    ensures
        final(s)@ == old(s)@.push(c),
{
    s.push(c);
}

/// The characters of `s`, in order.
pub fn chars_of(s: &str) -> (v: Vec<char>)
    ensures
        v@ == s@,
{
    let mut v: Vec<char> = Vec::new();
    for c in it: s.chars()
        invariant
            v@ == it.seq().take(it.index() as int),
    {
        v.push(c);
    }
    v
}

/// Appends `v[lo..hi]` to `out`.
pub(crate) fn push_range(out: &mut String, v: &Vec<char>, lo: usize, hi: usize)
    requires
        lo <= hi <= v@.len(),
    ensures
        final(out)@ == old(out)@ + v@.subrange(lo as int, hi as int),
{
    let mut i = lo;
    while i < hi
        invariant
            lo <= i <= hi <= v@.len(),
            out@ == old(out)@ + v@.subrange(lo as int, i as int),
        decreases hi - i,
    {
        push_char(out, v[i]);
        assert(v@.subrange(lo as int, i + 1) == v@.subrange(lo as int, i as int).push(v@[i as int]));
        i += 1;
    }
}

/// A `String` holding `v[lo..hi]`.
pub(crate) fn string_of_range(v: &Vec<char>, lo: usize, hi: usize) -> (s: String)
    requires
        lo <= hi <= v@.len(),
    ensures
        s@ == v@.subrange(lo as int, hi as int),
{
    let mut s = String::new();
    push_range(&mut s, v, lo, hi);
    assert(Seq::<char>::empty() + v@.subrange(lo as int, hi as int) == v@.subrange(lo as int, hi as int));
    s
}

/// Appends `v[lo..hi]` to `out`.
pub(crate) fn extend_range(out: &mut Vec<char>, v: &Vec<char>, lo: usize, hi: usize)
    requires
        lo <= hi <= v@.len(),
    ensures
        final(out)@ == old(out)@ + v@.subrange(lo as int, hi as int),
{
    let mut i = lo;
    while i < hi
        invariant
            lo <= i <= hi <= v@.len(),
            out@ == old(out)@ + v@.subrange(lo as int, i as int),
        decreases hi - i,
    {
        out.push(v[i]);
        assert(v@.subrange(lo as int, i + 1) == v@.subrange(lo as int, i as int).push(v@[i as int]));
        i += 1;
    }
}

/// `v[lo..hi]` as a vector of its own.
pub(crate) fn vec_of_range(v: &Vec<char>, lo: usize, hi: usize) -> (r: Vec<char>)
    requires
        lo <= hi <= v@.len(),
    ensures
        r@ == v@.subrange(lo as int, hi as int),
{
    let mut r: Vec<char> = Vec::new();
    let mut i = lo;
    while i < hi
        invariant
            lo <= i <= hi <= v@.len(),
            r@ == v@.subrange(lo as int, i as int),
        decreases hi - i,
    {
        r.push(v[i]);
        assert(v@.subrange(lo as int, i + 1) == v@.subrange(lo as int, i as int).push(v@[i as int]));
        i += 1;
    }
    r
}

/// A `String` holding all of `v`.
pub(crate) fn string_of(v: &Vec<char>) -> (s: String)
    ensures
        s@ == v@,
{
    let s = string_of_range(v, 0, v.len());
    assert(v@.subrange(0, v@.len() as int) == v@);
    s
}

/// Appends all of `t` to `out`.
pub(crate) fn push_str(out: &mut String, t: &str)
    ensures
        final(out)@ == old(out)@ + t@,
{
    let v = chars_of(t);
    push_range(out, &v, 0, v.len());
    assert(v@.subrange(0, v@.len() as int) == v@);
}

/// Unicode `White_Space`, the property `char::is_whitespace` and `str::trim` use.
pub open spec fn is_ws(c: char) -> bool {
    let u = c as u32;
    ||| 9 <= u <= 13
    ||| u == 32
    ||| u == 0x85
    ||| u == 0xa0
    ||| u == 0x1680
    ||| 0x2000 <= u <= 0x200a
    ||| u == 0x2028
    ||| u == 0x2029
    ||| u == 0x202f
    ||| u == 0x205f
    ||| u == 0x3000
}

/// `char::is_whitespace`.
pub fn is_whitespace(c: char) -> (b: bool)
    ensures
        b == is_ws(c),
{
    let u = c as u32;
    (9 <= u && u <= 13) || u == 32 || u == 0x85 || u == 0xa0 || u == 0x1680 || (0x2000 <= u && u
        <= 0x200a) || u == 0x2028 || u == 0x2029 || u == 0x202f || u == 0x205f || u == 0x3000
}

/// ASCII letters and digits.
pub open spec fn is_ascii_alpha(c: char) -> bool {
    ('a' <= c <= 'z') || ('A' <= c <= 'Z')
}

pub open spec fn is_ascii_digit(c: char) -> bool {
    '0' <= c <= '9'
}

pub open spec fn is_ascii_alnum(c: char) -> bool {
    is_ascii_alpha(c) || is_ascii_digit(c)
}

/// `char::to_ascii_lowercase`.
pub open spec fn ascii_lower(c: char) -> char {
    if 'A' <= c <= 'Z' {
        ((c as u32) + 32) as char
    } else {
        c
    }
}

pub fn to_ascii_lower(c: char) -> (r: char)
    ensures
        r == ascii_lower(c),
{
    if 'A' <= c && c <= 'Z' {
        ((c as u8) + 32) as char
    } else {
        c
    }
}

pub open spec fn ascii_lower_seq(s: Seq<char>) -> Seq<char> {
    s.map_values(|c: char| ascii_lower(c))
}

/// `str::trim_start`: drop leading whitespace.
pub open spec fn trim_start(s: Seq<char>) -> Seq<char>
    decreases s.len(),
{
    if s.len() > 0 && is_ws(s[0]) {
        trim_start(s.drop_first())
    } else {
        s
    }
}

/// `str::trim_end`: drop trailing whitespace.
pub open spec fn trim_end(s: Seq<char>) -> Seq<char>
    decreases s.len(),
{
    if s.len() > 0 && is_ws(s.last()) {
        trim_end(s.drop_last())
    } else {
        s
    }
}

/// `str::trim`.
pub open spec fn trim(s: Seq<char>) -> Seq<char> {
    trim_end(trim_start(s))
}

/// What `trim_start` keeps starts with a non-whitespace char.
pub proof fn lemma_trim_start_first(s: Seq<char>)
    ensures
        trim_start(s).len() <= s.len(),
        trim_start(s).len() > 0 ==> !is_ws(trim_start(s)[0]),
    decreases s.len(),
{
    if s.len() > 0 && is_ws(s[0]) {
        lemma_trim_start_first(s.drop_first());
    }
}

/// `trim_end` keeps a prefix.
pub proof fn lemma_trim_end_prefix(s: Seq<char>)
    ensures
        trim_end(s).len() <= s.len(),
        trim_end(s) == s.take(trim_end(s).len() as int),
        s.len() > 0 && !is_ws(s[0]) ==> trim_end(s).len() > 0,
    decreases s.len(),
{
    if s.len() > 0 && is_ws(s.last()) {
        lemma_trim_end_prefix(s.drop_last());
        assert(s.drop_last().take(trim_end(s).len() as int) == s.take(trim_end(s).len() as int));
    } else {
        assert(s.take(s.len() as int) == s);
    }
}

/// A trimmed text that is not empty starts with a non-whitespace char.
pub proof fn lemma_trim_first(s: Seq<char>)
    ensures
        trim(s).len() > 0 ==> !is_ws(trim(s)[0]),
{
    lemma_trim_start_first(s);
    lemma_trim_end_prefix(trim_start(s));
}

/// Trimming twice trims no more than once.
pub proof fn lemma_trim_idem(s: Seq<char>)
    ensures
        trim(trim(s)) == trim(s),
{
    let t = trim(s);
    lemma_trim_first(s);
    if t.len() > 0 {
        assert(trim_start(t) == t);
        let u = trim_start(s);
        assert(u.len() > 0 && is_ws(u.last()) ==> trim_end(u) == trim_end(u.drop_last()));
        lemma_trim_end_last(u);
        assert(trim_end(t) == t);
    }
}

/// What `trim_end` keeps ends with a non-whitespace char.
pub proof fn lemma_trim_end_last(s: Seq<char>)
    ensures
        trim_end(s).len() > 0 ==> !is_ws(trim_end(s).last()),
    decreases s.len(),
{
    if s.len() > 0 && is_ws(s.last()) {
        lemma_trim_end_last(s.drop_last());
    }
}

/// A text that starts with a non-whitespace char does not trim to nothing.
pub proof fn lemma_trim_filled(s: Seq<char>)
    requires
        s.len() > 0,
        !is_ws(s[0]),
    ensures
        trim(s).len() > 0,
{
    assert(trim_start(s) == s);
    lemma_trim_end_prefix(s);
}

/// Index of the first non-whitespace char of `v[lo..hi]` (or `hi`).
pub(crate) fn skip_ws_forward(v: &Vec<char>, lo: usize, hi: usize) -> (a: usize)
    requires
        lo <= hi <= v@.len(),
    ensures
        lo <= a <= hi,
        trim_start(v@.subrange(lo as int, hi as int)) == v@.subrange(a as int, hi as int),
        forall|k: int| lo <= k < a ==> is_ws(#[trigger] v@[k]),
        a < hi ==> !is_ws(v@[a as int]),
{
    let mut a = lo;
    while a < hi && is_whitespace(v[a])
        invariant
            lo <= a <= hi <= v@.len(),
            trim_start(v@.subrange(lo as int, hi as int)) == trim_start(
                v@.subrange(a as int, hi as int),
            ),
            forall|k: int| lo <= k < a ==> is_ws(#[trigger] v@[k]),
        decreases hi - a,
    {
        assert(v@.subrange(a as int, hi as int).drop_first() == v@.subrange(a + 1, hi as int));
        a += 1;
    }
    a
}

/// Index just past the last non-whitespace char of `v[lo..hi]` (or `lo`).
pub(crate) fn skip_ws_backward(v: &Vec<char>, lo: usize, hi: usize) -> (b: usize)
    requires
        lo <= hi <= v@.len(),
    ensures
        lo <= b <= hi,
        trim_end(v@.subrange(lo as int, hi as int)) == v@.subrange(lo as int, b as int),
        forall|k: int| b <= k < hi ==> is_ws(#[trigger] v@[k]),
        lo < b ==> !is_ws(v@[b - 1]),
{
    let mut b = hi;
    while b > lo && is_whitespace(v[b - 1])
        invariant
            lo <= b <= hi <= v@.len(),
            trim_end(v@.subrange(lo as int, hi as int)) == trim_end(
                v@.subrange(lo as int, b as int),
            ),
            forall|k: int| b <= k < hi ==> is_ws(#[trigger] v@[k]),
        decreases b - lo,
    {
        assert(v@.subrange(lo as int, b as int).drop_last() == v@.subrange(lo as int, b - 1));
        b -= 1;
    }
    b
}

/// Bounds of `trim(v[lo..hi])` within `v`.
pub(crate) fn trim_range(v: &Vec<char>, lo: usize, hi: usize) -> (r: (usize, usize))
    requires
        lo <= hi <= v@.len(),
    ensures
        lo <= r.0 <= r.1 <= hi,
        trim(v@.subrange(lo as int, hi as int)) == v@.subrange(r.0 as int, r.1 as int),
{
    let a = skip_ws_forward(v, lo, hi);
    let b = skip_ws_backward(v, a, hi);
    (a, b)
}

/// Index of the first `c` in `s`.
pub open spec fn find_char(s: Seq<char>, c: char) -> Option<nat>
    decreases s.len(),
{
    if s.len() == 0 {
        None
    } else if s[0] == c {
        Some(0)
    } else {
        match find_char(s.drop_first(), c) {
            Some(i) => Some(i + 1),
            None => None,
        }
    }
}

pub proof fn lemma_find_char(s: Seq<char>, c: char)
    ensures
        find_char(s, c) matches Some(i) ==> i < s.len() && s[i as int] == c && forall|j: int|
            0 <= j < i ==> s[j] != c,
        find_char(s, c) is None ==> forall|j: int| 0 <= j < s.len() ==> s[j] != c,
    decreases s.len(),
{
    if s.len() > 0 {
        lemma_find_char(s.drop_first(), c);
        if s[0] != c {
            assert forall|j: int| 0 < j < s.len() implies s[j] == s.drop_first()[j - 1] by {}
        }
    }
}

/// The first index `i` in `lo..hi` with `v[i] == c`, or `hi`.
pub(crate) fn find_char_in(v: &Vec<char>, lo: usize, hi: usize, c: char) -> (i: usize)
    requires
        lo <= hi <= v@.len(),
    ensures
        lo <= i <= hi,
        forall|j: int| lo <= j < i ==> v@[j] != c,
        i < hi ==> v@[i as int] == c,
{
    let mut i = lo;
    while i < hi && v[i] != c
        invariant
            lo <= i <= hi <= v@.len(),
            forall|j: int| lo <= j < i ==> v@[j] != c,
        decreases hi - i,
    {
        i += 1;
    }
    i
}

pub proof fn lemma_find_char_exact(s: Seq<char>, c: char, i: int)
    requires
        0 <= i <= s.len(),
        forall|j: int| 0 <= j < i ==> s[j] != c,
        i < s.len() ==> s[i] == c,
    ensures
        i < s.len() ==> find_char(s, c) == Some(i as nat),
        i == s.len() ==> find_char(s, c) is None,
{
    lemma_find_char(s, c);
}

/// Drop one trailing `'\r'`.
pub open spec fn strip_cr(s: Seq<char>) -> Seq<char> {
    if s.len() > 0 && s.last() == '\r' {
        s.drop_last()
    } else {
        s
    }
}

/// `str::lines`: split at `'\n'`, drop a `'\r'` that precedes a `'\n'`, and
/// yield no empty line after a final newline.
pub open spec fn lines(s: Seq<char>) -> Seq<Seq<char>>
    decreases s.len(),
{
    if s.len() == 0 {
        seq![]
    } else {
        match find_char(s, '\n') {
            None => seq![s],
            Some(i) => {
                if i < s.len() {
                    seq![strip_cr(s.take(i as int))] + lines(s.skip((i + 1) as int))
                } else {
                    seq![]
                }
            },
        }
    }
}

/// One step of line iteration over `v[p..hi]` (with `p < hi`): the current
/// line is `v[p..e]` and iteration resumes at `q`.
pub(crate) fn next_line(v: &Vec<char>, p: usize, hi: usize) -> (r: (usize, usize))
    requires
        p < hi <= v@.len(),
    ensures
        p <= r.0 <= r.1 <= hi,
        p < r.1,
        lines(v@.subrange(p as int, hi as int)) == seq![v@.subrange(p as int, r.0 as int)] + lines(
            v@.subrange(r.1 as int, hi as int),
        ),
{
    let ghost s = v@.subrange(p as int, hi as int);
    let i = find_char_in(v, p, hi, '\n');
    proof {
        lemma_find_char_exact(s, '\n', i - p);
    }
    if i == hi {
        assert(lines(v@.subrange(hi as int, hi as int)) == Seq::<Seq<char>>::empty());
        assert(lines(s) == seq![s]);
        (hi, hi)
    } else {
        let e = if i > p && v[i - 1] == '\r' {
            i - 1
        } else {
            i
        };
        assert(s.skip(i - p + 1) == v@.subrange(i + 1, hi as int));
        assert(strip_cr(s.take(i - p)) == v@.subrange(p as int, e as int));
        (e, i + 1)
    }
}

/// `s` starts with `p`.
pub open spec fn starts_with(s: Seq<char>, p: Seq<char>) -> bool {
    p.len() <= s.len() && s.take(p.len() as int) == p
}

/// `v[i..hi]` starts with `lit`.
pub(crate) fn matches_at(v: &Vec<char>, i: usize, hi: usize, lit: &Vec<char>) -> (b: bool)
    requires
        i <= hi <= v@.len(),
    ensures
        b == starts_with(v@.subrange(i as int, hi as int), lit@),
{
    if lit.len() > hi - i {
        return false;
    }
    let mut k: usize = 0;
    while k < lit.len()
        invariant
            i <= hi <= v@.len(),
            lit@.len() <= hi - i,
            0 <= k <= lit@.len(),
            forall|j: int| 0 <= j < k ==> v@[i + j] == lit@[j],
        decreases lit@.len() - k,
    {
        if v[i + k] != lit[k] {
            assert(v@.subrange(i as int, hi as int).take(lit@.len() as int)[k as int] != lit@[k as int]);
            return false;
        }
        k += 1;
    }
    assert(v@.subrange(i as int, hi as int).take(lit@.len() as int) == lit@);
    true
}

/// `needle` occurs in `s` at some index.
pub open spec fn contains_seq(s: Seq<char>, needle: Seq<char>) -> bool {
    exists|i: int| 0 <= i <= s.len() - needle.len() && #[trigger] s.subrange(i, i + needle.len()) == needle
}

/// `str::contains` for a pattern string.
pub(crate) fn contains_at_any(v: &Vec<char>, lit: &Vec<char>) -> (b: bool)
    ensures
        b == contains_seq(v@, lit@),
{
    if lit.len() > v.len() {
        return false;
    }
    if lit.len() == 0 {
        assert(v@.subrange(0int, 0int + lit@.len()) == lit@);
        return true;
    }
    let mut i: usize = 0;
    while i <= v.len() - lit.len()
        invariant
            1 <= lit@.len() <= v@.len(),
            0 <= i <= v@.len() - lit@.len() + 1,
            forall|j: int| 0 <= j < i ==> #[trigger] v@.subrange(j, j + lit@.len()) != lit@,
        decreases v@.len() - lit@.len() + 1 - i,
    {
        if matches_at(v, i, v.len(), lit) {
            assert(v@.subrange(i as int, v@.len() as int).take(lit@.len() as int) == v@.subrange(
                i as int,
                i + lit@.len(),
            ));
            return true;
        }
        assert(v@.subrange(i as int, v@.len() as int).take(lit@.len() as int) == v@.subrange(
            i as int,
            i + lit@.len(),
        ));
        i += 1;
    }
    false
}

/// `c` occurs in `s`.
pub(crate) fn has_char(v: &Vec<char>, lo: usize, hi: usize, c: char) -> (b: bool)
    requires
        lo <= hi <= v@.len(),
    ensures
        b == v@.subrange(lo as int, hi as int).contains(c),
{
    let i = find_char_in(v, lo, hi, c);
    if i < hi {
        assert(v@.subrange(lo as int, hi as int)[i - lo] == c);
        true
    } else {
        assert forall|j: int| 0 <= j < hi - lo implies v@.subrange(lo as int, hi as int)[j] != c by {
            assert(v@[lo + j] != c);
        }
        false
    }
}

/// Bytes in the UTF-8 encoding of `s`, as `str::len` counts them.
pub open spec fn utf8_len(s: Seq<char>) -> nat {
    encode_utf8(s).len()
}

pub proof fn lemma_encode_utf8_concat(a: Seq<char>, b: Seq<char>)
    ensures
        encode_utf8(a + b) == encode_utf8(a) + encode_utf8(b),
    decreases a.len(),
{
    if a.len() == 0 {
        assert(a + b == b);
    } else {
        lemma_encode_utf8_concat(a.drop_first(), b);
        assert((a + b).drop_first() == a.drop_first() + b);
    }
}

/// Width in bytes of the UTF-8 encoding of `c`.
pub fn utf8_width(c: char) -> (w: usize)
    ensures
        w == encode_utf8(seq![c]).len(),
        1 <= w <= 4,
        w == 1 <==> (c as u32) < 0x80,
{
    let u = c as u32;
    proof {
        reveal_with_fuel(encode_utf8, 2);
        assert(seq![c].drop_first() == Seq::<char>::empty());
    }
    if u < 0x80 {
        1
    } else if u < 0x800 {
        2
    } else if u < 0x10000 {
        3
    } else {
        4
    }
}

/// Bytes in the UTF-8 encoding of `v[lo..hi]`.
pub(crate) fn utf8_len_range(v: &Vec<char>, lo: usize, hi: usize) -> (r: u128)
    requires
        lo <= hi <= v@.len(),
    ensures
        r == utf8_len(v@.subrange(lo as int, hi as int)),
{
    let mut k = lo;
    let mut sum: u128 = 0;
    assert(v@.subrange(lo as int, lo as int) == Seq::<char>::empty());
    while k < hi
        invariant
            lo <= k <= hi <= v@.len(),
            sum == utf8_len(v@.subrange(lo as int, k as int)),
            sum <= 4 * (k - lo),
        decreases hi - k,
    {
        let w = utf8_width(v[k]);
        proof {
            lemma_encode_utf8_concat(v@.subrange(lo as int, k as int), seq![v@[k as int]]);
            assert(v@.subrange(lo as int, k + 1) == v@.subrange(lo as int, k as int) + seq![v@[k as int]]);
        }
        sum = sum + w as u128;
        k += 1;
    }
    sum
}

/// `a == b` for two strings.
pub fn str_eq(a: &str, b: &str) -> (r: bool)
    ensures
        r == (a@ == b@),
{
    let va = chars_of(a);
    let vb = chars_of(b);
    assert(va@.subrange(0, va@.len() as int) == va@);
    range_eq(&va, 0, va.len(), &vb)
}

/// `v[lo..hi] == w`.
pub(crate) fn range_eq(v: &Vec<char>, lo: usize, hi: usize, w: &Vec<char>) -> (r: bool)
    requires
        lo <= hi <= v@.len(),
    ensures
        r == (v@.subrange(lo as int, hi as int) == w@),
{
    if hi - lo != w.len() {
        return false;
    }
    let b = matches_at(v, lo, hi, w);
    assert(v@.subrange(lo as int, hi as int).take(w@.len() as int) == v@.subrange(lo as int, hi as int));
    b
}

/// `utf8_len(s) >= s.len()`: every char takes at least one byte.
pub proof fn lemma_utf8_len_ge(s: Seq<char>)
    ensures
        utf8_len(s) >= s.len(),
    decreases s.len(),
{
    if s.len() > 0 {
        lemma_utf8_len_ge(s.drop_first());
    }
}

/// The index of the last `c` in `s`.
pub open spec fn rfind_char(s: Seq<char>, c: char) -> Option<nat>
    decreases s.len(),
{
    if s.len() == 0 {
        None
    } else if s.last() == c {
        Some((s.len() - 1) as nat)
    } else {
        rfind_char(s.drop_last(), c)
    }
}

pub proof fn lemma_rfind_char(s: Seq<char>, c: char)
    ensures
        rfind_char(s, c) matches Some(i) ==> i < s.len() && s[i as int] == c && forall|j: int|
            i < j < s.len() ==> s[j] != c,
        rfind_char(s, c) is None ==> forall|j: int| 0 <= j < s.len() ==> s[j] != c,
    decreases s.len(),
{
    if s.len() > 0 {
        lemma_rfind_char(s.drop_last(), c);
        assert forall|j: int| 0 <= j < s.len() - 1 implies s[j] == s.drop_last()[j] by {}
    }
}

/// The last index `i` in `lo..hi` with `v[i] == c`, or `hi` when there is none.
pub(crate) fn rfind_char_in(v: &Vec<char>, lo: usize, hi: usize, c: char) -> (i: usize)
    requires
        lo <= hi <= v@.len(),
    ensures
        i <= hi,
        i == hi ==> rfind_char(v@.subrange(lo as int, hi as int), c) is None,
        i < hi ==> lo <= i && rfind_char(v@.subrange(lo as int, hi as int), c) == Some((i - lo) as nat),
{
    let mut k = hi;
    while k > lo
        invariant
            lo <= k <= hi <= v@.len(),
            rfind_char(v@.subrange(lo as int, hi as int), c) == rfind_char(v@.subrange(lo as int, k as int), c),
        decreases k - lo,
    {
        if v[k - 1] == c {
            return k - 1;
        }
        assert(v@.subrange(lo as int, k as int).drop_last() == v@.subrange(lo as int, k - 1));
        k -= 1;
    }
    hi
}

/// Unicode lowercase mapping of a string (`str::to_lowercase`), which maps
/// some chars to several and lowers a final sigma by its context.
pub uninterp spec fn lower_str(s: Seq<char>) -> Seq<char>;

/// Unicode uppercase mapping of a string (`str::to_uppercase`).
pub uninterp spec fn upper_str(s: Seq<char>) -> Seq<char>;

/// Unicode lowercase mapping of one char (`char::to_lowercase`).
pub uninterp spec fn lower_char(c: char) -> Seq<char>;

/// Unicode uppercase mapping of one char (`char::to_uppercase`).
pub uninterp spec fn upper_char(c: char) -> Seq<char>;

/// `str::to_lowercase`: its result is a function of the input alone, named
/// `lower_str`; the Unicode tables behind it are not restated here.
#[verifier::external_body]
pub(crate) fn str_to_lower(s: &str) -> (r: String)
    ensures
        r@ == lower_str(s@),
{
    s.to_lowercase()
}

/// `str::to_uppercase`, named `upper_str` (see `str_to_lower`).
#[verifier::external_body]
pub(crate) fn str_to_upper(s: &str) -> (r: String)
    ensures
        r@ == upper_str(s@),
{
    s.to_uppercase()
}

/// `char::to_lowercase`, collected; named `lower_char`.
#[verifier::external_body]
pub(crate) fn char_to_lower(c: char) -> (r: Vec<char>)
    ensures
        r@ == lower_char(c),
{
    c.to_lowercase().collect()
}

/// `char::to_uppercase`, collected; named `upper_char`.
#[verifier::external_body]
pub(crate) fn char_to_upper(c: char) -> (r: Vec<char>)
    ensures
        r@ == upper_char(c),
{
    c.to_uppercase().collect()
}

/// `String::from_utf8`: `Some` exactly when the bytes are valid UTF-8, and
/// then the decoded chars.
#[verifier::external_body]
pub(crate) fn string_from_utf8(bytes: Vec<u8>) -> (r: Option<String>)
    ensures
        r is Some <==> valid_utf8(bytes@),
        r matches Some(s) ==> s@ == decode_utf8(bytes@),
{
    String::from_utf8(bytes).ok()
}

/// `u8::is_ascii_whitespace` on a char's code (space, tab, LF, FF, CR).
pub open spec fn is_ascii_ws(c: char) -> bool {
    c == ' ' || c == '\t' || c == '\n' || c == '\x0C' || c == '\r'
}

} // verus!
