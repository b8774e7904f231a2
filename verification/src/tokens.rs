//! Dynamic token expansion for snippet bodies.
//!
//! Automatic tokens (single brace), resolved without user input:
//!   `{date}`, `{date+7d}` / `{date-3d}` (also `w`eeks, `m`onths as 30 days,
//!   `y`ears as 365 days), `{time}`, `{datetime}`, `{clipboard}`, `{uuid}`, and
//!   `{cursor}`, which emits nothing and marks where the caret should land
//!   (only the first one counts).
//!
//! Form variables (double square bracket): `[[key]]` and `[[key:Label]]` take
//! the value the user typed for `key`.
//!
//! Unknown single-brace tokens are left verbatim. `{{` and `}}` emit literal
//! braces. `[[` is only special when it closes with `]]`.

use vstd::prelude::*;
use crate::region::Region;
use crate::text::{
    chars_of, contains_seq, find_char, is_ws, lemma_trim_end_prefix, lemma_trim_idem, trim_end,
    trim_start, find_char_in, lemma_find_char, lemma_find_char_exact, push_char,
    range_eq, starts_with, string_of, trim, trim_range,
};

verus! {

// --- clock and calendar ----------------------------------------------------------

/// A local wall-clock reading, as plain numbers.
#[derive(Debug, Clone, Copy)]
pub struct Moment {
    pub year: i32,
    pub month: u8,
    pub day: u8,
    pub hour: u8,
    pub minute: u8,
}

/// The ranges a calendar reading stays within (years as the `time` crate
/// supports them without its large-dates feature).
pub open spec fn moment_ok(m: Moment) -> bool {
    &&& -9999 <= m.year <= 9999
    &&& 1 <= m.month <= 12
    &&& 1 <= m.day <= 31
    &&& m.hour < 24
    &&& m.minute < 60
}

/// The machine's local time (`OffsetDateTime::now_local`, falling back to
/// `now_utc` when the local offset can't be read). Only the ranges of its
/// fields are stated: the reading depends on the clock.
#[verifier::external_body]
pub(crate) fn local_now() -> (m: Moment)
    ensures
        moment_ok(m),
{
    let now = time::OffsetDateTime::now_local().unwrap_or_else(|_| time::OffsetDateTime::now_utc());
    Moment {
        year: now.year(),
        month: u8::from(now.month()),
        day: now.day(),
        hour: now.hour(),
        minute: now.minute(),
    }
}

/// The calendar date `days` days after (or before, when negative) the given
/// one, as `time::Date::checked_add` computes it; `None` when it leaves the
/// supported range or the given date isn't a real one.
pub uninterp spec fn date_plus_days(year: int, month: int, day: int, days: int) -> Option<(int, int, int)>;

pub open spec fn i64_fits(x: int) -> bool {
    i64::MIN <= x <= i64::MAX
}

/// `Date::from_calendar_date` then `checked_add(Duration::days(days))`. Its
/// result is named `date_plus_days`; the calendar arithmetic behind it is not
/// restated. A result is a valid date in the supported range.
#[verifier::external_body]
fn shift_date(year: i32, month: u8, day: u8, days: i64) -> (r: Option<(i32, u8, u8)>)
    requires
        i64_fits(days * 86400),
    ensures
        r matches Some(d) ==> date_plus_days(year as int, month as int, day as int, days as int)
            == Some((d.0 as int, d.1 as int, d.2 as int)),
        r is None ==> date_plus_days(year as int, month as int, day as int, days as int) is None,
        r matches Some(d) ==> -9999 <= d.0 <= 9999 && 1 <= d.1 <= 12 && 1 <= d.2 <= 31,
{
    let month = time::Month::try_from(month).ok()?;
    let date = time::Date::from_calendar_date(year, month, day).ok()?;
    let shifted = date.checked_add(time::Duration::days(days))?;
    Some((shifted.year(), u8::from(shifted.month()), shifted.day()))
}

/// A version-4 UUID in its hyphenated lowercase text form.
pub open spec fn is_uuid_text(s: Seq<char>) -> bool {
    &&& s.len() == 36
    &&& forall|k: int|
        0 <= k < 36 ==> (if k == 8 || k == 13 || k == 18 || k == 23 {
            #[trigger] s[k] == '-'
        } else {
            ('0' <= s[k] <= '9') || ('a' <= s[k] <= 'f')
        })
    &&& s[14] == '4'
    &&& (s[19] == '8' || s[19] == '9' || s[19] == 'a' || s[19] == 'b')
}

/// `Uuid::new_v4().to_string()`: random, so only its shape is stated.
#[verifier::external_body]
pub(crate) fn new_uuid() -> (s: String)
    ensures
        is_uuid_text(s@),
{
    uuid::Uuid::new_v4().to_string()
}

// --- formatting ------------------------------------------------------------------

pub open spec fn digit_char(n: int) -> char {
    ((48 + n) as u8) as char
}

/// `n` (below 100) as two zero-padded digits.
pub open spec fn two_digits(n: int) -> Seq<char> {
    seq![digit_char(n / 10), digit_char(n % 10)]
}

/// `n` (below 10000) as four zero-padded digits.
pub open spec fn four_digits(n: int) -> Seq<char> {
    seq![digit_char(n / 1000), digit_char((n / 100) % 10), digit_char((n / 10) % 10), digit_char(n % 10)]
}

/// A year as `[year]` formats it: a `-` for negative years, then four
/// zero-padded digits.
pub open spec fn year_text(y: int) -> Seq<char> {
    if y < 0 {
        seq!['-'] + four_digits(-y)
    } else {
        four_digits(y)
    }
}

/// A date in the region's order: US `mm/dd/yyyy`, Brazil `dd/mm/yyyy`.
pub open spec fn date_text(region: Region, y: int, m: int, d: int) -> Seq<char> {
    match region {
        Region::US => two_digits(m) + seq!['/'] + two_digits(d) + seq!['/'] + year_text(y),
        Region::BR => two_digits(d) + seq!['/'] + two_digits(m) + seq!['/'] + year_text(y),
    }
}

/// A 24-hour `HH:MM` time.
pub open spec fn time_text(h: int, mi: int) -> Seq<char> {
    two_digits(h) + seq![':'] + two_digits(mi)
}

fn push_digit(out: &mut Vec<char>, n: u32)
    requires
        n < 10,
    ensures
        final(out)@ == old(out)@.push(digit_char(n as int)),
{
    out.push(((48 + n) as u8) as char);
}

fn push_two(out: &mut Vec<char>, n: u32)
    requires
        n < 100,
    ensures
        final(out)@ == old(out)@ + two_digits(n as int),
{
    push_digit(out, n / 10);
    push_digit(out, n % 10);
}

fn push_year(out: &mut Vec<char>, y: i32)
    requires
        -9999 <= y <= 9999,
    ensures
        final(out)@ == old(out)@ + year_text(y as int),
{
    let a: u32 = if y < 0 {
        out.push('-');
        (-y) as u32
    } else {
        y as u32
    };
    push_digit(out, a / 1000);
    push_digit(out, (a / 100) % 10);
    push_digit(out, (a / 10) % 10);
    push_digit(out, a % 10);
}

fn format_date(region: Region, y: i32, m: u8, d: u8) -> (r: Vec<char>)
    requires
        -9999 <= y <= 9999,
        m < 100,
        d < 100,
    ensures
        r@ == date_text(region, y as int, m as int, d as int),
{
    let mut out: Vec<char> = Vec::new();
    match region {
        Region::US => {
            push_two(&mut out, m as u32);
            out.push('/');
            push_two(&mut out, d as u32);
        },
        Region::BR => {
            push_two(&mut out, d as u32);
            out.push('/');
            push_two(&mut out, m as u32);
        },
    }
    out.push('/');
    push_year(&mut out, y);
    out
}

fn format_time(h: u8, mi: u8) -> (r: Vec<char>)
    requires
        h < 100,
        mi < 100,
    ensures
        r@ == time_text(h as int, mi as int),
{
    let mut out: Vec<char> = Vec::new();
    push_two(&mut out, h as u32);
    out.push(':');
    push_two(&mut out, mi as u32);
    out
}

// --- lexing ----------------------------------------------------------------------

/// Value of a run of ASCII digits.
pub open spec fn digits_value(ds: Seq<char>) -> int
    decreases ds.len(),
{
    if ds.len() == 0 {
        0
    } else {
        digits_value(ds.drop_last()) * 10 + (ds.last() as int - 48)
    }
}

pub open spec fn all_digits(ds: Seq<char>) -> bool {
    forall|k: int| 0 <= k < ds.len() ==> '0' <= #[trigger] ds[k] <= '9'
}

/// `str::parse::<i64>`: an optional `+` or `-`, then one or more ASCII
/// digits, with a value that fits in an `i64`.
pub open spec fn parse_i64(s: Seq<char>) -> Option<int> {
    let neg = s.len() > 0 && s[0] == '-';
    let ds = if s.len() > 0 && (s[0] == '-' || s[0] == '+') {
        s.skip(1)
    } else {
        s
    };
    if ds.len() == 0 || !all_digits(ds) {
        None
    } else {
        let v = if neg {
            -digits_value(ds)
        } else {
            digits_value(ds)
        };
        if i64_fits(v) {
            Some(v)
        } else {
            None
        }
    }
}

/// How a `{date±N<unit>}` token reads: the signed number of days (weeks as 7
/// days, months as 30, years as 365); `None` if it isn't one, or if its day
/// count is too large to turn into a duration, so that it stays verbatim.
pub open spec fn date_offset(token: Seq<char>) -> Option<int> {
    if !starts_with(token, "date"@) {
        None
    } else {
        let r = token.skip(4);
        if r.len() == 0 || !(r[0] == '+' || r[0] == '-') {
            None
        } else {
            let sign: int = if r[0] == '+' {
                1
            } else {
                -1
            };
            let r2 = r.skip(1);
            if r2.len() == 0 {
                None
            } else {
                let unit = r2.last();
                let mult: int = if unit == 'd' {
                    1
                } else if unit == 'w' {
                    7
                } else if unit == 'm' {
                    30
                } else if unit == 'y' {
                    365
                } else {
                    0
                };
                match parse_i64(r2.drop_last()) {
                    None => None,
                    Some(n) => if mult == 0 {
                        None
                    } else if i64_fits(sign * (n * mult) * 86400) {
                        Some(sign * (n * mult))
                    } else {
                        None
                    },
                }
            }
        }
    }
}

/// The first index `e` with `s[e] == s[e + 1] == ']'`.
pub open spec fn find_close_brackets(s: Seq<char>) -> Option<nat>
    decreases s.len(),
{
    if s.len() < 2 {
        None
    } else if s[0] == ']' && s[1] == ']' {
        Some(0)
    } else {
        match find_close_brackets(s.drop_first()) {
            Some(e) => Some(e + 1),
            None => None,
        }
    }
}

proof fn lemma_find_close_brackets(s: Seq<char>)
    ensures
        find_close_brackets(s) matches Some(e) ==> e + 1 < s.len() && s[e as int] == ']' && s[e + 1int]
            == ']',
    decreases s.len(),
{
    if s.len() >= 2 && !(s[0] == ']' && s[1] == ']') {
        lemma_find_close_brackets(s.drop_first());
    }
}

/// The key of a form variable's inner text: what precedes the first `:`,
/// trimmed.
pub open spec fn var_key(inner: Seq<char>) -> Seq<char> {
    match find_char(inner, ':') {
        Some(c) => trim(inner.take(c as int)),
        None => trim(inner),
    }
}

/// One unit of a snippet body.
pub enum Lexeme {
    /// Emitted as is: a plain char, an escaped brace, a `[[` that opens no
    /// variable, or an unknown `{token}`.
    Text(Seq<char>),
    /// A form variable, by key.
    Variable(Seq<char>),
    Cursor,
    Date,
    Time,
    DateTime,
    Clipboard,
    Uuid,
    /// A `{date±N<unit>}` token: the signed day count and its own text.
    Shifted(int, Seq<char>),
    /// A `{` with no closing brace: the rest of the body, emitted as is.
    Tail(Seq<char>),
}

/// The unit starting at `i` and where the next one starts.
pub open spec fn lex(body: Seq<char>, i: int) -> (Lexeme, int) {
    let rest = body.skip(i);
    if starts_with(rest, "{{"@) {
        (Lexeme::Text(seq!['{']), i + 2)
    } else if starts_with(rest, "}}"@) {
        (Lexeme::Text(seq!['}']), i + 2)
    } else if starts_with(rest, "[["@) {
        match find_close_brackets(rest) {
            Some(e) => {
                let key = var_key(rest.subrange(2, e as int));
                if key.len() > 0 {
                    (Lexeme::Variable(key), i + e + 2)
                } else {
                    (Lexeme::Text("[["@), i + 2)
                }
            },
            None => (Lexeme::Text("[["@), i + 2),
        }
    } else if rest.len() > 0 && rest[0] == '{' {
        match find_char(rest, '}') {
            Some(c) => {
                let token = rest.subrange(1, c as int);
                let next = i + c + 1;
                if token == "cursor"@ {
                    (Lexeme::Cursor, next)
                } else if token == "date"@ {
                    (Lexeme::Date, next)
                } else if token == "time"@ {
                    (Lexeme::Time, next)
                } else if token == "datetime"@ {
                    (Lexeme::DateTime, next)
                } else if token == "clipboard"@ {
                    (Lexeme::Clipboard, next)
                } else if token == "uuid"@ {
                    (Lexeme::Uuid, next)
                } else {
                    match date_offset(token) {
                        None => (Lexeme::Text(rest.take(c + 1int)), next),
                        Some(days) => (Lexeme::Shifted(days, rest.take(c + 1int)), next),
                    }
                }
            },
            None => (Lexeme::Tail(rest), body.len() as int),
        }
    } else {
        (Lexeme::Text(seq![rest[0]]), i + 1)
    }
}

// --- lexing, executable ---------------------------------------------------------

proof fn lemma_digits_value_nonneg(ds: Seq<char>)
    requires
        all_digits(ds),
    ensures
        digits_value(ds) >= 0,
    decreases ds.len(),
{
    if ds.len() > 0 {
        assert(all_digits(ds.drop_last())) by {
            assert forall|k: int| 0 <= k < ds.drop_last().len() implies '0' <= #[trigger] ds.drop_last()[k] <= '9' by {
                assert(ds.drop_last()[k] == ds[k]);
            }
        }
        lemma_digits_value_nonneg(ds.drop_last());
    }
}

const I64_NEG_LIMIT: u128 = 9223372036854775808;

/// `parse_i64(v[lo..hi])`.
fn parse_i64_in(v: &Vec<char>, lo: usize, hi: usize) -> (r: Option<i64>)
    requires
        lo <= hi <= v@.len(),
    ensures
        r matches Some(n) ==> parse_i64(v@.subrange(lo as int, hi as int)) == Some(n as int),
        r is None ==> parse_i64(v@.subrange(lo as int, hi as int)) is None,
{
    let ghost s = v@.subrange(lo as int, hi as int);
    let neg = lo < hi && v[lo] == '-';
    let start = if lo < hi && (v[lo] == '-' || v[lo] == '+') {
        lo + 1
    } else {
        lo
    };
    let ghost ds = v@.subrange(start as int, hi as int);
    assert(ds == (if s.len() > 0 && (s[0] == '-' || s[0] == '+') { s.skip(1) } else { s }));
    if start == hi {
        return None;
    }
    let mut acc: u128 = 0;
    let mut k = start;
    while k < hi
        invariant
            lo <= start <= k <= hi <= v@.len(),
            s == v@.subrange(lo as int, hi as int),
            ds == v@.subrange(start as int, hi as int),
            ds == (if s.len() > 0 && (s[0] == '-' || s[0] == '+') { s.skip(1) } else { s }),
            start < hi,
            forall|m: int| start <= m < k ==> '0' <= #[trigger] v@[m] <= '9',
            acc <= I64_NEG_LIMIT ==> acc == digits_value(v@.subrange(start as int, k as int)),
            acc > I64_NEG_LIMIT ==> digits_value(v@.subrange(start as int, k as int)) > I64_NEG_LIMIT,
        decreases hi - k,
    {
        let c = v[k];
        if !('0' <= c && c <= '9') {
            assert(!all_digits(ds)) by {
                assert(ds[k - start] == c);
            }
            return None;
        }
        let ghost pre = v@.subrange(start as int, k as int);
        let ghost nxt = v@.subrange(start as int, k + 1);
        assert(nxt.drop_last() == pre);
        assert(nxt.last() == c);
        proof {
            assert(all_digits(pre)) by {
                assert forall|m: int| 0 <= m < pre.len() implies '0' <= #[trigger] pre[m] <= '9' by {
                    assert(pre[m] == v@[start + m]);
                }
            }
            lemma_digits_value_nonneg(pre);
        }
        if acc <= I64_NEG_LIMIT {
            acc = acc * 10 + ((c as u32) - 48) as u128;
        }
        k += 1;
    }
    assert(all_digits(ds)) by {
        assert forall|m: int| 0 <= m < ds.len() implies '0' <= #[trigger] ds[m] <= '9' by {
            assert(ds[m] == v@[start + m]);
        }
    }
    if acc > I64_NEG_LIMIT {
        return None;
    }
    if neg {
        let r: i128 = -(acc as i128);
        Some(r as i64)
    } else if acc < I64_NEG_LIMIT {
        Some(acc as i64)
    } else {
        None
    }
}

/// The index (absolute) of the first `]]` in `v[lo..hi]`, or `hi`.
fn find_close_brackets_in(v: &Vec<char>, lo: usize, hi: usize) -> (e: usize)
    requires
        lo <= hi <= v@.len(),
    ensures
        e <= hi,
        e == hi ==> find_close_brackets(v@.subrange(lo as int, hi as int)) is None,
        e < hi ==> lo <= e && e + 1 < hi && find_close_brackets(v@.subrange(lo as int, hi as int)) == Some(
            (e - lo) as nat,
        ),
{
    let mut k = lo;
    while k < hi
        invariant
            lo <= k <= hi <= v@.len(),
            find_close_brackets(v@.subrange(lo as int, hi as int)) == match find_close_brackets(
                v@.subrange(k as int, hi as int),
            ) {
                Some(e) => Some((e + (k - lo)) as nat),
                None => None,
            },
        decreases hi - k,
    {
        if k + 1 < hi && v[k] == ']' && v[k + 1] == ']' {
            return k;
        }
        assert(v@.subrange(k as int, hi as int).drop_first() == v@.subrange(k + 1, hi as int));
        k += 1;
    }
    hi
}

proof fn lemma_lex_progress(body: Seq<char>, i: int)
    requires
        0 <= i < body.len(),
    ensures
        i < lex(body, i).1 <= body.len(),
{
    let rest = body.skip(i);
    lemma_find_close_brackets(rest);
    lemma_find_char(rest, '}');
    reveal_strlit("{{");
    reveal_strlit("}}");
    reveal_strlit("[[");
    if starts_with(rest, "{{"@) || starts_with(rest, "}}"@) || starts_with(rest, "[["@) {
        assert(rest.len() >= 2);
    }
}

/// One unit of a body, located by indices into it.
enum Lex {
    /// `body[a..b]`, emitted as is.
    Text(usize, usize),
    /// A form variable with key `body[a..b]`.
    Variable(usize, usize),
    Cursor,
    Date,
    Time,
    DateTime,
    Clipboard,
    Uuid,
    /// A date offset of `days`, whose own text is `body[a..b]`.
    Shifted(i64, usize, usize),
    /// `body[a..]`.
    Tail(usize),
}

spec fn lex_view(body: Seq<char>, e: Lex) -> Lexeme {
    match e {
        Lex::Text(a, b) => Lexeme::Text(body.subrange(a as int, b as int)),
        Lex::Variable(a, b) => Lexeme::Variable(body.subrange(a as int, b as int)),
        Lex::Cursor => Lexeme::Cursor,
        Lex::Date => Lexeme::Date,
        Lex::Time => Lexeme::Time,
        Lex::DateTime => Lexeme::DateTime,
        Lex::Clipboard => Lexeme::Clipboard,
        Lex::Uuid => Lexeme::Uuid,
        Lex::Shifted(d, a, b) => Lexeme::Shifted(d as int, body.subrange(a as int, b as int)),
        Lex::Tail(a) => Lexeme::Tail(body.skip(a as int)),
    }
}

spec fn lex_in_bounds(body: Seq<char>, e: Lex) -> bool {
    match e {
        Lex::Text(a, b) => a <= b <= body.len(),
        Lex::Variable(a, b) => a <= b <= body.len(),
        Lex::Shifted(_, a, b) => a <= b <= body.len(),
        Lex::Tail(a) => a <= body.len(),
        _ => true,
    }
}

fn token_is(v: &Vec<char>, a: usize, b: usize, lit: &str) -> (r: bool)
    requires
        a <= b <= v@.len(),
    ensures
        r == (v@.subrange(a as int, b as int) == lit@),
{
    let w = chars_of(lit);
    range_eq(v, a, b, &w)
}

/// `date_offset(v[a..b])`.
fn date_offset_in(v: &Vec<char>, a: usize, b: usize) -> (r: Option<i64>)
    requires
        a <= b <= v@.len(),
    ensures
        r matches Some(d) ==> date_offset(v@.subrange(a as int, b as int)) == Some(d as int)
            && i64_fits(d * 86400),
        r is None ==> date_offset(v@.subrange(a as int, b as int)) is None,
{
    let ghost token = v@.subrange(a as int, b as int);
    proof {
        reveal_strlit("date");
    }
    if !(b - a >= 4 && v[a] == 'd' && v[a + 1] == 'a' && v[a + 2] == 't' && v[a + 3] == 'e') {
        assert(!starts_with(token, "date"@)) by {
            if starts_with(token, "date"@) {
                assert(token.take(4)[0] == 'd' && token.take(4)[1] == 'a');
                assert(token.take(4)[2] == 't' && token.take(4)[3] == 'e');
            }
        }
        return None;
    }
    assert(token.take(4) == "date"@);
    let r = a + 4;
    let ghost rs = token.skip(4);
    assert(rs == v@.subrange(r as int, b as int));
    if r == b || !(v[r] == '+' || v[r] == '-') {
        return None;
    }
    let plus = v[r] == '+';
    let ghost r2 = rs.skip(1);
    assert(r2 == v@.subrange(r + 1, b as int));
    if r + 1 == b {
        return None;
    }
    let unit = v[b - 1];
    assert(r2.last() == unit);
    assert(r2.drop_last() == v@.subrange(r + 1, b - 1));
    let mult: i128 = if unit == 'd' {
        1
    } else if unit == 'w' {
        7
    } else if unit == 'm' {
        30
    } else if unit == 'y' {
        365
    } else {
        0
    };
    match parse_i64_in(v, r + 1, b - 1) {
        None => None,
        Some(n) => {
            if mult == 0 {
                return None;
            }
            let sign: i128 = if plus {
                1
            } else {
                -1
            };
            let days: i128 = sign * ((n as i128) * mult);
            let secs: i128 = days * 86400;
            if secs < i64::MIN as i128 || secs > i64::MAX as i128 {
                return None;
            }
            Some(days as i64)
        },
    }
}

/// The unit of `body` starting at `i`.
fn lex_at(v: &Vec<char>, i: usize) -> (r: (Lex, usize))
    requires
        i < v@.len(),
    ensures
        lex_view(v@, r.0) == lex(v@, i as int).0,
        r.1 == lex(v@, i as int).1,
        lex_in_bounds(v@, r.0),
        i < r.1 <= v@.len(),
        r.0 matches Lex::Shifted(d, _, _) ==> i64_fits(d * 86400),
{
    let n = v.len();
    let ghost rest = v@.skip(i as int);
    proof {
        reveal_strlit("{{");
        reveal_strlit("}}");
        reveal_strlit("[[");
    }
    let two = i + 1 < n;
    if two && v[i] == '{' && v[i + 1] == '{' {
        assert(rest.take(2) == "{{"@);
        assert(v@.subrange(i as int, i + 1) == seq!['{']);
        return (Lex::Text(i, i + 1), i + 2);
    }
    assert(!starts_with(rest, "{{"@)) by {
        if starts_with(rest, "{{"@) {
            assert(rest.take(2)[0] == '{' && rest.take(2)[1] == '{');
        }
    }
    if two && v[i] == '}' && v[i + 1] == '}' {
        assert(rest.take(2) == "}}"@);
        assert(v@.subrange(i as int, i + 1) == seq!['}']);
        return (Lex::Text(i, i + 1), i + 2);
    }
    assert(!starts_with(rest, "}}"@)) by {
        if starts_with(rest, "}}"@) {
            assert(rest.take(2)[0] == '}' && rest.take(2)[1] == '}');
        }
    }
    if two && v[i] == '[' && v[i + 1] == '[' {
        assert(rest.take(2) == "[["@);
        assert(v@.subrange(i as int, i + 2) == "[["@);
        assert(rest == v@.subrange(i as int, n as int));
        let e = find_close_brackets_in(v, i, n);
        if e == n {
            return (Lex::Text(i, i + 2), i + 2);
        }
        let ghost rel = (e - i) as int;
        proof {
            lemma_find_close_brackets(rest);
        }
        // `[[` itself is no `]]`
        assert(e >= i + 2) by {
            if e < i + 2 {
                assert(rest[rel] == ']');
                assert(rest[0] == '[' && rest[1] == '[');
            }
        }
        assert(rest.subrange(2, rel) == v@.subrange(i + 2, e as int));
        let colon = find_char_in(v, i + 2, e, ':');
        proof {
            lemma_find_char_exact(v@.subrange(i + 2, e as int), ':', colon - (i + 2));
            if colon < e {
                assert(v@.subrange(i + 2, e as int).take(colon - (i + 2)) == v@.subrange(i + 2, colon as int));
            } else {
                assert(v@.subrange(i + 2, colon as int) == v@.subrange(i + 2, e as int));
            }
        }
        let (ka, kb) = trim_range(v, i + 2, colon);
        if ka < kb {
            return (Lex::Variable(ka, kb), e + 2);
        } else {
            return (Lex::Text(i, i + 2), i + 2);
        }
    }
    assert(!starts_with(rest, "[["@)) by {
        if starts_with(rest, "[["@) {
            assert(rest.take(2)[0] == '[' && rest.take(2)[1] == '[');
        }
    }
    if v[i] == '{' {
        let c = find_char_in(v, i, n, '}');
        proof {
            assert(rest == v@.subrange(i as int, n as int));
            lemma_find_char_exact(rest, '}', c - i);
        }
        if c == n {
            return (Lex::Tail(i), n);
        }
        let ghost token = rest.subrange(1, c - i);
        assert(token == v@.subrange(i + 1, c as int));
        assert(rest.take(c - i + 1) == v@.subrange(i as int, c + 1));
        let next = c + 1;
        if token_is(v, i + 1, c, "cursor") {
            return (Lex::Cursor, next);
        }
        if token_is(v, i + 1, c, "date") {
            return (Lex::Date, next);
        }
        if token_is(v, i + 1, c, "time") {
            return (Lex::Time, next);
        }
        if token_is(v, i + 1, c, "datetime") {
            return (Lex::DateTime, next);
        }
        if token_is(v, i + 1, c, "clipboard") {
            return (Lex::Clipboard, next);
        }
        if token_is(v, i + 1, c, "uuid") {
            return (Lex::Uuid, next);
        }
        match date_offset_in(v, i + 1, c) {
            None => (Lex::Text(i, c + 1), next),
            Some(d) => (Lex::Shifted(d, i, c + 1), next),
        }
    } else {
        assert(v@.subrange(i as int, i + 1) == seq![rest[0]]);
        (Lex::Text(i, i + 1), i + 1)
    }
}

// --- expansion ---------------------------------------------------------------------

/// Context supplied by the caller at insertion time.
pub struct TokenContext {
    /// Clipboard text to substitute for `{clipboard}`. None -> empty string.
    pub clipboard: Option<String>,
    /// Values the user filled in for `[[key]]` form variables, as `(key,
    /// value)` pairs, read as a map: for a key given twice the later pair
    /// counts. A key with no entry expands to an empty string.
    pub variables: Vec<(String, String)>,
}

impl Default for TokenContext {
    fn default() -> (c: TokenContext)
        ensures
            c.clipboard is None,
            c.variables@.len() == 0,
    {
        TokenContext { clipboard: None, variables: Vec::new() }
    }
}

/// A form variable discovered in a snippet body.
#[derive(Debug, Clone)]
pub struct Variable {
    pub key: String,
    pub label: String,
}

/// The result of expanding a body: the final `text` plus, when the body had a
/// `{cursor}`, how many chars after it the text runs on.
#[derive(Debug, Clone)]
pub struct Expanded {
    pub text: String,
    pub cursor_from_end: Option<usize>,
}

pub open spec fn clip_text(ctx: TokenContext) -> Seq<char> {
    match ctx.clipboard {
        Some(s) => s@,
        None => seq![],
    }
}

/// The value for `key`: the last pair with that key.
pub open spec fn var_lookup(vars: Seq<(String, String)>, key: Seq<char>) -> Option<Seq<char>>
    decreases vars.len(),
{
    if vars.len() == 0 {
        None
    } else if vars.last().0@ == key {
        Some(vars.last().1@)
    } else {
        var_lookup(vars.drop_last(), key)
    }
}

/// What a unit of the body expands to (uuids and the cursor aside).
pub open spec fn render(l: Lexeme, ctx: TokenContext, region: Region, now: Moment) -> Seq<char> {
    match l {
        Lexeme::Text(t) => t,
        Lexeme::Variable(k) => match var_lookup(ctx.variables@, k) {
            Some(v) => v,
            None => seq![],
        },
        Lexeme::Date => date_text(region, now.year as int, now.month as int, now.day as int),
        Lexeme::Time => time_text(now.hour as int, now.minute as int),
        Lexeme::DateTime => date_text(region, now.year as int, now.month as int, now.day as int)
            + seq![' '] + time_text(now.hour as int, now.minute as int),
        Lexeme::Clipboard => clip_text(ctx),
        Lexeme::Shifted(d, raw) => match date_plus_days(
            now.year as int,
            now.month as int,
            now.day as int,
            d,
        ) {
            Some(ymd) => date_text(region, ymd.0, ymd.1, ymd.2),
            None => raw,
        },
        Lexeme::Tail(t) => t,
        _ => seq![],
    }
}

/// `t` in front of an expansion, its cursor moved along.
pub open spec fn prepend_text(t: Seq<char>, r: Option<(Seq<char>, Option<int>)>) -> Option<(Seq<char>, Option<int>)> {
    match r {
        Some((x, c)) => Some((
            t + x,
            match c {
                Some(k) => Some(k + t.len()),
                None => None,
            },
        )),
        None => None,
    }
}

/// The expansion of `body` from index `i`: the text, and the offset in it of
/// the first `{cursor}`. Each `{uuid}` takes the next of `uuids`. (Never
/// `None`: see `lemma_expand_from_some`.)
pub open spec fn expand_from(
    body: Seq<char>,
    i: int,
    ctx: TokenContext,
    region: Region,
    now: Moment,
    uuids: Seq<Seq<char>>,
) -> Option<(Seq<char>, Option<int>)>
    decreases body.len() - i,
{
    if i < 0 || i >= body.len() {
        Some((seq![], None))
    } else {
        let (l, j) = lex(body, i);
        if j <= i || j > body.len() {
            None
        } else {
            match l {
                Lexeme::Tail(t) => Some((t, None)),
                Lexeme::Cursor => match expand_from(body, j, ctx, region, now, uuids) {
                    Some((x, _)) => Some((x, Some(0))),
                    None => None,
                },
                Lexeme::Uuid => prepend_text(
                    uuids[0],
                    expand_from(body, j, ctx, region, now, uuids.drop_first()),
                ),
                _ => prepend_text(
                    render(l, ctx, region, now),
                    expand_from(body, j, ctx, region, now, uuids),
                ),
            }
        }
    }
}

/// `e` is the text and caret distance of expansion `r`.
pub open spec fn expanded_is(e: Expanded, r: Option<(Seq<char>, Option<int>)>) -> bool {
    match r {
        Some((t, c)) => e.text@ == t && match c {
            Some(k) => e.cursor_from_end == Some((t.len() - k) as usize),
            None => e.cursor_from_end is None,
        },
        None => false,
    }
}

/// An expansion so far (`out`, with the first cursor at `cur`) followed by
/// the expansion `r` of the rest.
pub open spec fn combine(out: Seq<char>, cur: Option<int>, r: Option<(Seq<char>, Option<int>)>) -> Option<(Seq<char>, Option<int>)> {
    match r {
        None => None,
        Some((x, c)) => Some((
            out + x,
            match cur {
                Some(k) => Some(k),
                None => match c {
                    Some(k2) => Some(k2 + out.len()),
                    None => None,
                },
            },
        )),
    }
}

proof fn lemma_combine_prepend(out: Seq<char>, cur: Option<int>, t: Seq<char>, r: Option<(Seq<char>, Option<int>)>)
    ensures
        combine(out, cur, prepend_text(t, r)) == combine(out + t, cur, r),
{
    if let Some((x, c)) = r {
        assert(out + (t + x) == (out + t) + x);
    }
}

fn find_var(vars: &Vec<(String, String)>, v: &Vec<char>, a: usize, b: usize) -> (r: Option<usize>)
    requires
        a <= b <= v@.len(),
    ensures
        r matches Some(k) ==> k < vars@.len() && var_lookup(vars@, v@.subrange(a as int, b as int))
            == Some(vars@[k as int].1@),
        r is None ==> var_lookup(vars@, v@.subrange(a as int, b as int)) is None,
{
    let ghost key = v@.subrange(a as int, b as int);
    let mut k = vars.len();
    assert(vars@.take(k as int) == vars@);
    while k > 0
        invariant
            k <= vars@.len(),
            key == v@.subrange(a as int, b as int),
            a <= b <= v@.len(),
            var_lookup(vars@, key) == var_lookup(vars@.take(k as int), key),
        decreases k,
    {
        let name = chars_of(vars[k - 1].0.as_str());
        assert(name@.subrange(0, name@.len() as int) == name@);
        assert(vars@.take(k as int).last() == vars@[k - 1]);
        assert(vars@.take(k as int).drop_last() == vars@.take(k - 1));
        if range_eq(&name, 0, name.len(), &chars_of_range(v, a, b)) {
            return Some(k - 1);
        }
        k -= 1;
    }
    None
}

fn chars_of_range(v: &Vec<char>, a: usize, b: usize) -> (r: Vec<char>)
    requires
        a <= b <= v@.len(),
    ensures
        r@ == v@.subrange(a as int, b as int),
{
    let mut r: Vec<char> = Vec::new();
    let mut k = a;
    while k < b
        invariant
            a <= k <= b <= v@.len(),
            r@ == v@.subrange(a as int, k as int),
        decreases b - k,
    {
        r.push(v[k]);
        assert(v@.subrange(a as int, k + 1) == v@.subrange(a as int, k as int).push(v@[k as int]));
        k += 1;
    }
    r
}

fn push_vec(out: &mut Vec<char>, w: &Vec<char>, a: usize, b: usize)
    requires
        a <= b <= w@.len(),
    ensures
        final(out)@ == old(out)@ + w@.subrange(a as int, b as int),
{
    let mut k = a;
    while k < b
        invariant
            a <= k <= b <= w@.len(),
            out@ == old(out)@ + w@.subrange(a as int, k as int),
        decreases b - k,
    {
        out.push(w[k]);
        assert(w@.subrange(a as int, k + 1) == w@.subrange(a as int, k as int).push(w@[k as int]));
        k += 1;
    }
}

fn push_all(out: &mut Vec<char>, w: &Vec<char>)
    ensures
        final(out)@ == old(out)@ + w@,
{
    push_vec(out, w, 0, w.len());
    assert(w@.subrange(0, w@.len() as int) == w@);
}

/// Expand all tokens in `body` at the reading `now`. Each `{uuid}` gets a
/// fresh random UUID.
pub fn expand_full_at(body: &str, ctx: &TokenContext, region: Region, now: &Moment) -> (e: Expanded)
    requires
        moment_ok(*now),
    ensures
        exists|uuids: Seq<Seq<char>>|
            (forall|k: int| 0 <= k < uuids.len() ==> is_uuid_text(#[trigger] uuids[k])) && expanded_is(
                e,
                expand_from(body@, 0, *ctx, region, *now, uuids),
            ),
{
    let v = chars_of(body);
    let date = format_date(region, now.year, now.month, now.day);
    let time = format_time(now.hour, now.minute);
    let mut datetime = format_date(region, now.year, now.month, now.day);
    datetime.push(' ');
    push_all(&mut datetime, &time);
    let clip: Vec<char> = match &ctx.clipboard {
        Some(c) => chars_of(c.as_str()),
        None => Vec::new(),
    };
    let mut out: Vec<char> = Vec::new();
    let mut cursor_at: Option<usize> = None;
    let ghost mut gen: Seq<Seq<char>> = seq![];
    let ghost c0 = *ctx;
    let ghost n0 = *now;
    let mut i: usize = 0;
    proof {
        assert forall|fut: Seq<Seq<char>>| #[trigger] expand_from(v@, 0, c0, region, n0, gen + fut) == combine(
            out@,
            None,
            expand_from(v@, 0, c0, region, n0, fut),
        ) by {
            assert(gen + fut == fut);
            if let Some((x, c)) = expand_from(v@, 0, c0, region, n0, fut) {
                assert(out@ + x == x);
            }
        }
    }
    while i < v.len()
        invariant
            v@ == body@,
            c0 == *ctx,
            n0 == *now,
            moment_ok(n0),
            date@ == render(Lexeme::Date, c0, region, n0),
            time@ == render(Lexeme::Time, c0, region, n0),
            datetime@ == render(Lexeme::DateTime, c0, region, n0),
            clip@ == render(Lexeme::Clipboard, c0, region, n0),
            0 <= i <= v@.len(),
            forall|k: int| 0 <= k < gen.len() ==> is_uuid_text(#[trigger] gen[k]),
            cursor_at matches Some(k) ==> k <= out@.len(),
            forall|fut: Seq<Seq<char>>| #[trigger] expand_from(v@, 0, c0, region, n0, gen + fut) == combine(
                out@,
                match cursor_at {
                    Some(k) => Some(k as int),
                    None => None,
                },
                expand_from(v@, i as int, c0, region, n0, fut),
            ),
        decreases v@.len() - i,
    {
        let ghost old_out = out@;
        let ghost old_cur = match cursor_at {
            Some(k) => Some(k as int),
            None => None::<int>,
        };
        let ghost old_gen = gen;
        let ghost old_i = i as int;
        proof {
            lemma_lex_progress(v@, i as int);
        }
        let (lx, j) = lex_at(&v, i);
        let ghost l = lex(v@, i as int).0;
        match lx {
            Lex::Tail(a) => {
                push_vec(&mut out, &v, a, v.len());
                proof {
                    assert(v@.subrange(a as int, v@.len() as int) == v@.skip(a as int));
                    assert forall|fut: Seq<Seq<char>>| #[trigger] expand_from(v@, 0, c0, region, n0, gen + fut) == combine(
                        out@,
                        old_cur,
                        expand_from(v@, v@.len() as int, c0, region, n0, fut),
                    ) by {
                        assert(expand_from(v@, old_i, c0, region, n0, fut) == Some((v@.skip(a as int), None::<int>)));
                        assert(out@ + Seq::<char>::empty() == out@);
                    }
                }
                i = v.len();
            },
            Lex::Cursor => {
                if cursor_at.is_none() {
                    cursor_at = Some(out.len());
                }
                proof {
                    assert forall|fut: Seq<Seq<char>>| #[trigger] expand_from(v@, 0, c0, region, n0, gen + fut) == combine(
                        out@,
                        match cursor_at {
                            Some(k) => Some(k as int),
                            None => None,
                        },
                        expand_from(v@, j as int, c0, region, n0, fut),
                    ) by {
                        assert(expand_from(v@, 0, c0, region, n0, gen + fut) == combine(
                            old_out,
                            old_cur,
                            expand_from(v@, old_i, c0, region, n0, fut),
                        ));
                    }
                }
                i = j;
            },
            Lex::Uuid => {
                let u = new_uuid();
                let uc = chars_of(u.as_str());
                push_all(&mut out, &uc);
                proof {
                    gen = gen.push(uc@);
                    assert forall|fut: Seq<Seq<char>>| #[trigger] expand_from(v@, 0, c0, region, n0, gen + fut) == combine(
                        out@,
                        old_cur,
                        expand_from(v@, j as int, c0, region, n0, fut),
                    ) by {
                        let f0 = seq![uc@] + fut;
                        assert(old_gen + f0 == gen + fut);
                        assert(f0[0] == uc@);
                        assert(f0.drop_first() == fut);
                        assert(expand_from(v@, 0, c0, region, n0, old_gen + f0) == combine(
                            old_out,
                            old_cur,
                            expand_from(v@, old_i, c0, region, n0, f0),
                        ));
                        lemma_combine_prepend(old_out, old_cur, uc@, expand_from(v@, j as int, c0, region, n0, fut));
                    }
                    assert forall|k: int| 0 <= k < gen.len() implies is_uuid_text(#[trigger] gen[k]) by {
                        if k < old_gen.len() {
                            assert(gen[k] == old_gen[k]);
                        }
                    }
                }
                i = j;
            },
            _ => {
                match lx {
                    Lex::Text(a, b) => {
                        push_vec(&mut out, &v, a, b);
                    },
                    Lex::Variable(a, b) => {
                        match find_var(&ctx.variables, &v, a, b) {
                            Some(k) => {
                                let val = chars_of(ctx.variables[k].1.as_str());
                                push_all(&mut out, &val);
                            },
                            None => {
                                assert(out@ + Seq::<char>::empty() == out@);
                            },
                        }
                    },
                    Lex::Date => {
                        push_all(&mut out, &date);
                    },
                    Lex::Time => {
                        push_all(&mut out, &time);
                    },
                    Lex::DateTime => {
                        push_all(&mut out, &datetime);
                    },
                    Lex::Clipboard => {
                        push_all(&mut out, &clip);
                    },
                    Lex::Shifted(d, a, b) => {
                        match shift_date(now.year, now.month, now.day, d) {
                            Some((y, m, dd)) => {
                                let t = format_date(region, y, m, dd);
                                push_all(&mut out, &t);
                            },
                            None => {
                                push_vec(&mut out, &v, a, b);
                            },
                        }
                    },
                    _ => {},
                }
                proof {
                    let t = render(l, c0, region, n0);
                    assert(out@ == old_out + t);
                    assert forall|fut: Seq<Seq<char>>| #[trigger] expand_from(v@, 0, c0, region, n0, gen + fut) == combine(
                        out@,
                        old_cur,
                        expand_from(v@, j as int, c0, region, n0, fut),
                    ) by {
                        assert(expand_from(v@, 0, c0, region, n0, gen + fut) == combine(
                            old_out,
                            old_cur,
                            expand_from(v@, old_i, c0, region, n0, fut),
                        ));
                        lemma_combine_prepend(old_out, old_cur, t, expand_from(v@, j as int, c0, region, n0, fut));
                    }
                }
                i = j;
            },
        }
    }
    proof {
        assert(gen + Seq::<Seq<char>>::empty() == gen);
        assert(expand_from(v@, 0, c0, region, n0, gen) == combine(
            out@,
            match cursor_at {
                Some(k) => Some(k as int),
                None => None,
            },
            expand_from(v@, i as int, c0, region, n0, Seq::<Seq<char>>::empty()),
        ));
        assert(out@ + Seq::<char>::empty() == out@);
    }
    let text = string_of(&out);
    let cursor_from_end = match cursor_at {
        Some(k) => Some(out.len() - k),
        None => None,
    };
    Expanded { text, cursor_from_end }
}

/// Expand all tokens in `body` using `ctx`, formatting dates in the user's
/// `region` order, at the current local time. Returns the text plus where (if
/// anywhere) `{cursor}` asked the caret to land.
pub fn expand_full(body: &str, ctx: &TokenContext, region: Region) -> (e: Expanded)
    ensures
        exists|now: Moment, uuids: Seq<Seq<char>>|
            moment_ok(now) && (forall|k: int| 0 <= k < uuids.len() ==> is_uuid_text(#[trigger] uuids[k]))
                && expanded_is(e, #[trigger] expand_from(body@, 0, *ctx, region, now, uuids)),
{
    let now = local_now();
    expand_full_at(body, ctx, region, &now)
}

/// Expand all tokens in `body`, returning just the text.
pub fn expand(body: &str, ctx: &TokenContext, region: Region) -> (r: String)
    ensures
        exists|now: Moment, uuids: Seq<Seq<char>>|
            moment_ok(now) && (forall|k: int| 0 <= k < uuids.len() ==> is_uuid_text(#[trigger] uuids[k]))
                && match #[trigger] expand_from(body@, 0, *ctx, region, now, uuids) {
                Some((t, _)) => r@ == t,
                None => false,
            },
{
    let e = expand_full(body, ctx, region);
    e.text
}

/// True if a body contains any token opener `{`.
pub fn has_tokens(body: &str) -> (b: bool)
    ensures
        b == body@.contains('{'),
{
    let v = chars_of(body);
    assert(v@.subrange(0, v@.len() as int) == v@);
    crate::text::has_char(&v, 0, v.len(), '{')
}

// --- form variables -------------------------------------------------------------------

/// The caption of a variable: the trimmed text after its first `:` when that
/// isn't blank, else the key.
pub open spec fn label_of(inner: Seq<char>) -> Seq<char> {
    match find_char(inner, ':') {
        Some(c) => {
            let l = trim(inner.skip(c + 1int));
            if l.len() > 0 {
                l
            } else {
                var_key(inner)
            }
        },
        None => var_key(inner),
    }
}

pub open spec fn has_key(vs: Seq<(Seq<char>, Seq<char>)>, key: Seq<char>) -> bool {
    exists|k: int| 0 <= k < vs.len() && #[trigger] vs[k].0 == key
}

/// The form variables of `body` from index `i` on, after those in `acc`: each
/// `[[...]]` with a non-blank key adds `(key, label)` unless the key is
/// already there.
pub open spec fn vars_from(body: Seq<char>, i: int, acc: Seq<(Seq<char>, Seq<char>)>) -> Seq<(Seq<char>, Seq<char>)>
    decreases body.len() - i,
{
    if i < 0 || i >= body.len() {
        acc
    } else {
        let rest = body.skip(i);
        if starts_with(rest, "[["@) && find_close_brackets(rest) is Some {
            let e = find_close_brackets(rest).unwrap();
            let inner = rest.subrange(2, e as int);
            let key = var_key(inner);
            let acc2 = if key.len() > 0 && !has_key(acc, key) {
                acc.push((key, label_of(inner)))
            } else {
                acc
            };
            if e >= 2 && i + e + 2 <= body.len() {
                vars_from(body, i + e + 2, acc2)
            } else {
                acc2
            }
        } else {
            vars_from(body, i + 1, acc)
        }
    }
}

pub open spec fn variables_view(vs: Seq<Variable>) -> Seq<(Seq<char>, Seq<char>)> {
    vs.map_values(|v: Variable| (v.key@, v.label@))
}

/// Extract the ordered, de-duplicated list of `[[key]]` / `[[key:Label]]` form
/// variables in `body`, by first appearance; a repeated key keeps the first
/// label seen.
pub fn extract_variables(body: &str) -> (r: Vec<Variable>)
    ensures
        variables_view(r@) == vars_from(body@, 0, seq![]),
{
    let v = chars_of(body);
    let n = v.len();
    let mut vars: Vec<Variable> = Vec::new();
    let mut i: usize = 0;
    assert(variables_view(vars@) == Seq::<(Seq<char>, Seq<char>)>::empty());
    while i < n
        invariant
            v@ == body@,
            n == v@.len(),
            0 <= i <= n,
            vars_from(v@, 0, seq![]) == vars_from(v@, i as int, variables_view(vars@)),
        decreases n - i,
    {
        let ghost rest = v@.skip(i as int);
        let ghost acc = variables_view(vars@);
        proof {
            reveal_strlit("[[");
        }
        if i + 1 < n && v[i] == '[' && v[i + 1] == '[' {
            assert(rest.take(2) == "[["@);
            assert(rest == v@.subrange(i as int, n as int));
            let e = find_close_brackets_in(&v, i, n);
            if e < n {
                proof {
                    lemma_find_close_brackets(rest);
                    assert(e >= i + 2) by {
                        if e < i + 2 {
                            assert(rest[(e - i) as int] == ']');
                            assert(rest[0] == '[' && rest[1] == '[');
                        }
                    }
                    assert(rest.subrange(2, (e - i) as int) == v@.subrange(i + 2, e as int));
                }
                let ghost inner = v@.subrange(i + 2, e as int);
                let colon = find_char_in(&v, i + 2, e, ':');
                proof {
                    lemma_find_char_exact(inner, ':', colon - (i + 2));
                    if colon < e {
                        assert(inner.take(colon - (i + 2)) == v@.subrange(i + 2, colon as int));
                        assert(inner.skip(colon - (i + 2) + 1) == v@.subrange(colon + 1, e as int));
                    } else {
                        assert(v@.subrange(i + 2, colon as int) == inner);
                    }
                }
                let (ka, kb) = trim_range(&v, i + 2, colon);
                if ka < kb {
                    let key = chars_of_range(&v, ka, kb);
                    let mut found = false;
                    let mut k: usize = 0;
                    while k < vars.len()
                        invariant
                            0 <= k <= vars@.len(),
                            acc == variables_view(vars@),
                            ka <= kb <= v@.len(),
                            key@ == v@.subrange(ka as int, kb as int),
                            found == exists|m: int| 0 <= m < k && #[trigger] acc[m].0 == key@,
                        decreases vars@.len() - k,
                    {
                        let kc = chars_of(vars[k].key.as_str());
                        assert(kc@.subrange(0, kc@.len() as int) == kc@);
                        if range_eq(&kc, 0, kc.len(), &key) {
                            assert(acc[k as int].0 == key@);
                            found = true;
                        }
                        k += 1;
                    }
                    if !found {
                        let label = if colon < e {
                            let (la, lb) = trim_range(&v, colon + 1, e);
                            if la < lb {
                                string_of(&chars_of_range(&v, la, lb))
                            } else {
                                string_of(&key)
                            }
                        } else {
                            string_of(&key)
                        };
                        let keys = string_of(&key);
                        vars.push(Variable { key: keys, label });
                        assert(variables_view(vars@) == acc.push((key@, label_of(inner))));
                    }
                }
                i = e + 2;
                continue;
            }
        }
        proof {
            if starts_with(rest, "[["@) {
                assert(rest.take(2)[0] == '[' && rest.take(2)[1] == '[');
            }
        }
        i += 1;
    }
    assert(vars_from(v@, n as int, variables_view(vars@)) == variables_view(vars@));
    vars
}

pub open spec fn keys_distinct(vs: Seq<(Seq<char>, Seq<char>)>) -> bool {
    &&& forall|a: int, b: int| 0 <= a < b < vs.len() ==> #[trigger] vs[a].0 != #[trigger] vs[b].0
    &&& forall|a: int| 0 <= a < vs.len() ==> (#[trigger] vs[a]).0.len() > 0
}

proof fn lemma_vars_from_distinct(body: Seq<char>, i: int, acc: Seq<(Seq<char>, Seq<char>)>)
    requires
        keys_distinct(acc),
    ensures
        keys_distinct(vars_from(body, i, acc)),
    decreases body.len() - i,
{
    if 0 <= i < body.len() {
        let rest = body.skip(i);
        if starts_with(rest, "[["@) && find_close_brackets(rest) is Some {
            let e = find_close_brackets(rest).unwrap();
            let inner = rest.subrange(2, e as int);
            let key = var_key(inner);
            let acc2 = if key.len() > 0 && !has_key(acc, key) {
                acc.push((key, label_of(inner)))
            } else {
                acc
            };
            if key.len() > 0 && !has_key(acc, key) {
                assert forall|a: int, b: int| 0 <= a < b < acc2.len() implies #[trigger] acc2[a].0
                    != #[trigger] acc2[b].0 by {
                    if b == acc.len() {
                        assert(acc2[a] == acc[a]);
                        if acc[a].0 == key {
                            assert(has_key(acc, key));
                        }
                    } else {
                        assert(acc2[a] == acc[a] && acc2[b] == acc[b]);
                    }
                }
                assert forall|a: int| 0 <= a < acc2.len() implies (#[trigger] acc2[a]).0.len() > 0 by {
                    if a < acc.len() {
                        assert(acc2[a] == acc[a]);
                    }
                }
            }
            if e >= 2 && i + e + 2 <= body.len() {
                lemma_vars_from_distinct(body, i + e + 2, acc2);
            }
        } else {
            lemma_vars_from_distinct(body, i + 1, acc);
        }
    }
}

/// The form variables of a body have distinct, non-empty keys: each key is
/// asked for once, however often it appears.
pub proof fn law_variables_distinct(body: Seq<char>)
    ensures
        keys_distinct(vars_from(body, 0, seq![])),
{
    lemma_vars_from_distinct(body, 0, seq![]);
}

proof fn lemma_cursor_in_text(
    body: Seq<char>,
    i: int,
    ctx: TokenContext,
    region: Region,
    now: Moment,
    uuids: Seq<Seq<char>>,
)
    ensures
        expand_from(body, i, ctx, region, now, uuids) matches Some((t, Some(k))) ==> 0 <= k
            <= t.len(),
    decreases body.len() - i,
{
    if 0 <= i < body.len() {
        let (l, j) = lex(body, i);
        if i < j <= body.len() {
            match l {
                Lexeme::Cursor => {
                    lemma_cursor_in_text(body, j, ctx, region, now, uuids);
                },
                Lexeme::Uuid => {
                    lemma_cursor_in_text(body, j, ctx, region, now, uuids.drop_first());
                },
                _ => {
                    lemma_cursor_in_text(body, j, ctx, region, now, uuids);
                },
            }
        }
    }
}

/// The caret position an expansion reports lies within its text, so moving
/// the caret back by `cursor_from_end` never leaves the inserted text.
pub proof fn law_cursor_within_text(
    body: Seq<char>,
    ctx: TokenContext,
    region: Region,
    now: Moment,
    uuids: Seq<Seq<char>>,
)
    ensures
        expand_from(body, 0, ctx, region, now, uuids) matches Some((t, Some(k))) ==> 0 <= k
            <= t.len(),
{
    lemma_cursor_in_text(body, 0, ctx, region, now, uuids);
}


// --- laws on expansion ---------------------------------------------------------------

/// Expansion never fails: every body expands, from any index.
pub proof fn lemma_expand_from_some(
    body: Seq<char>,
    i: int,
    ctx: TokenContext,
    region: Region,
    now: Moment,
    uuids: Seq<Seq<char>>,
)
    ensures
        expand_from(body, i, ctx, region, now, uuids) is Some,
    decreases body.len() - i,
{
    if 0 <= i < body.len() {
        lemma_lex_progress(body, i);
        let (l, j) = lex(body, i);
        match l {
            Lexeme::Uuid => lemma_expand_from_some(body, j, ctx, region, now, uuids.drop_first()),
            _ => lemma_expand_from_some(body, j, ctx, region, now, uuids),
        }
    }
}

/// A caret position comes only from a `{cursor}` marker at or after `i`.
proof fn lemma_cursor_needs_marker(
    body: Seq<char>,
    i: int,
    ctx: TokenContext,
    region: Region,
    now: Moment,
    uuids: Seq<Seq<char>>,
)
    requires
        0 <= i,
    ensures
        expand_from(body, i, ctx, region, now, uuids) matches Some((_, Some(_))) ==> exists|p: int|
            i <= p && p + 8 <= body.len() && #[trigger] body.subrange(p, p + 8) == "{cursor}"@,
    decreases body.len() - i,
{
    if 0 <= i < body.len() {
        lemma_lex_progress(body, i);
        let (l, j) = lex(body, i);
        match l {
            Lexeme::Cursor => {
                let rest = body.skip(i);
                reveal_strlit("{{");
                reveal_strlit("}}");
                reveal_strlit("[[");
                reveal_strlit("cursor");
                reveal_strlit("{cursor}");
                lemma_find_char(rest, '}');
                let c = find_char(rest, '}')->0;
                assert(rest.subrange(1, c as int) == "cursor"@);
                assert(c == 7);
                assert(body.subrange(i, i + 8) =~= "{cursor}"@) by {
                    assert forall|k: int| 0 <= k < 8 implies body.subrange(i, i + 8)[k] == "{cursor}"@[k] by {
                        if 1 <= k < 7 {
                            assert(rest.subrange(1, c as int)[k - 1] == rest[k]);
                        }
                    }
                }
            },
            Lexeme::Uuid => lemma_cursor_needs_marker(body, j, ctx, region, now, uuids.drop_first()),
            _ => lemma_cursor_needs_marker(body, j, ctx, region, now, uuids),
        }
    }
}

/// A body with no `{cursor}` marker reports no caret position.
pub proof fn law_no_marker_no_cursor(
    body: Seq<char>,
    ctx: TokenContext,
    region: Region,
    now: Moment,
    uuids: Seq<Seq<char>>,
)
    requires
        !contains_seq(body, "{cursor}"@),
    ensures
        expand_from(body, 0, ctx, region, now, uuids) matches Some((_, c)) && c is None,
{
    lemma_expand_from_some(body, 0, ctx, region, now, uuids);
    lemma_cursor_needs_marker(body, 0, ctx, region, now, uuids);
    reveal_strlit("{cursor}");
    if let Some((_, Some(_))) = expand_from(body, 0, ctx, region, now, uuids) {
        let p = choose|p: int| 0 <= p && p + 8 <= body.len() && #[trigger] body.subrange(p, p + 8) == "{cursor}"@;
        assert(body.subrange(p, p + "{cursor}"@.len()) == "{cursor}"@);
    }
}

/// `{t}`, for a token `t` that holds no `}` and does not start with `{`, is
/// read as one unit whose token is `t`.
proof fn lemma_braced(t: Seq<char>)
    requires
        t.len() > 0,
        t[0] != '{',
        forall|k: int| 0 <= k < t.len() ==> t[k] != '}',
    ensures
        ({
            let b = seq!['{'] + t + seq!['}'];
            &&& !starts_with(b.skip(0), "{{"@)
            &&& !starts_with(b.skip(0), "}}"@)
            &&& !starts_with(b.skip(0), "[["@)
            &&& find_char(b.skip(0), '}') == Some((t.len() + 1int) as nat)
            &&& b.skip(0).subrange(1, t.len() + 1int) == t
            &&& b.skip(0).take(t.len() + 2int) == b
        }),
{
    let b = seq!['{'] + t + seq!['}'];
    reveal_strlit("{{");
    reveal_strlit("}}");
    reveal_strlit("[[");
    assert(b.skip(0) == b);
    if starts_with(b, "{{"@) {
        assert(b.take(2)[1] == b[1]);
    }
    if starts_with(b, "}}"@) {
        assert(b.take(2)[0] == b[0]);
    }
    if starts_with(b, "[["@) {
        assert(b.take(2)[0] == b[0]);
    }
    lemma_find_char_exact(b, '}', t.len() + 1int);
    assert(b.subrange(1, t.len() + 1int) =~= t);
    assert(b.take(t.len() + 2int) =~= b);
}

/// The token keywords are distinct texts.
proof fn lemma_keywords_distinct()
    ensures
        "date"@ != "cursor"@,
        "time"@ != "cursor"@ && "time"@ != "date"@,
        "datetime"@ != "cursor"@ && "datetime"@ != "date"@ && "datetime"@ != "time"@,
        "clipboard"@ != "cursor"@ && "clipboard"@ != "date"@ && "clipboard"@ != "time"@
            && "clipboard"@ != "datetime"@,
        "uuid"@ != "cursor"@ && "uuid"@ != "date"@ && "uuid"@ != "time"@ && "uuid"@ != "datetime"@
            && "uuid"@ != "clipboard"@,
{
    reveal_strlit("date");
    reveal_strlit("time");
    reveal_strlit("datetime");
    reveal_strlit("cursor");
    reveal_strlit("clipboard");
    reveal_strlit("uuid");
    assert("date"@.len() == 4 && "time"@.len() == 4 && "uuid"@.len() == 4);
    assert("cursor"@.len() == 6 && "datetime"@.len() == 8 && "clipboard"@.len() == 9);
    assert("date"@[0] != "time"@[0]);
    assert("uuid"@[0] != "date"@[0]);
    assert("uuid"@[0] != "time"@[0]);
}

/// A one-token body `{t}` (not a cursor nor a uuid) expands to what its unit
/// renders.
proof fn lemma_braced_renders(
    t: Seq<char>,
    ctx: TokenContext,
    region: Region,
    now: Moment,
    uuids: Seq<Seq<char>>,
)
    requires
        t.len() > 0,
        t[0] != '{',
        forall|k: int| 0 <= k < t.len() ==> t[k] != '}',
        t != "cursor"@,
        t != "uuid"@,
    ensures
        lex(seq!['{'] + t + seq!['}'], 0).1 == t.len() + 2,
        expand_from(seq!['{'] + t + seq!['}'], 0, ctx, region, now, uuids) == Some((
            render(lex(seq!['{'] + t + seq!['}'], 0).0, ctx, region, now),
            None::<int>,
        )),
{
    let b = seq!['{'] + t + seq!['}'];
    lemma_braced(t);
    lemma_keywords_distinct();
    assert(expand_from(b, b.len() as int, ctx, region, now, uuids) == Some((Seq::<char>::empty(), None::<int>)));
    let r = render(lex(b, 0).0, ctx, region, now);
    assert(r + Seq::<char>::empty() == r);
}

/// `{date}`, `{time}` and `{datetime}` all read the same moment: the date in
/// the region's order (US `mm/dd/yyyy`, Brazil `dd/mm/yyyy`), the time as
/// `HH:MM`, and the date-time as the two joined by a space.
pub proof fn law_date_and_time_tokens(ctx: TokenContext, region: Region, now: Moment, uuids: Seq<Seq<char>>)
    ensures
        expand_from("{date}"@, 0, ctx, region, now, uuids) == Some((
            date_text(region, now.year as int, now.month as int, now.day as int),
            None::<int>,
        )),
        expand_from("{time}"@, 0, ctx, region, now, uuids) == Some((
            time_text(now.hour as int, now.minute as int),
            None::<int>,
        )),
        expand_from("{datetime}"@, 0, ctx, region, now, uuids) == Some((
            date_text(region, now.year as int, now.month as int, now.day as int) + seq![' ']
                + time_text(now.hour as int, now.minute as int),
            None::<int>,
        )),
        date_text(Region::US, now.year as int, now.month as int, now.day as int) == two_digits(
            now.month as int,
        ) + seq!['/'] + two_digits(now.day as int) + seq!['/'] + year_text(now.year as int),
        date_text(Region::BR, now.year as int, now.month as int, now.day as int) == two_digits(
            now.day as int,
        ) + seq!['/'] + two_digits(now.month as int) + seq!['/'] + year_text(now.year as int),
{
    lemma_date_token(ctx, region, now, uuids);
    lemma_time_token(ctx, region, now, uuids);
    lemma_datetime_token(ctx, region, now, uuids);
}

proof fn lemma_date_token(ctx: TokenContext, region: Region, now: Moment, uuids: Seq<Seq<char>>)
    ensures
        expand_from("{date}"@, 0, ctx, region, now, uuids) == Some((
            date_text(region, now.year as int, now.month as int, now.day as int),
            None::<int>,
        )),
{
    reveal_strlit("{date}");
    reveal_strlit("date");
    lemma_keywords_distinct();
    let t = "date"@;
    assert("{date}"@ =~= seq!['{'] + t + seq!['}']);
    lemma_braced(t);
    lemma_braced_renders(t, ctx, region, now, uuids);
}

proof fn lemma_time_token(ctx: TokenContext, region: Region, now: Moment, uuids: Seq<Seq<char>>)
    ensures
        expand_from("{time}"@, 0, ctx, region, now, uuids) == Some((
            time_text(now.hour as int, now.minute as int),
            None::<int>,
        )),
{
    reveal_strlit("{time}");
    reveal_strlit("time");
    lemma_keywords_distinct();
    let t = "time"@;
    assert("{time}"@ =~= seq!['{'] + t + seq!['}']);
    lemma_braced(t);
    lemma_braced_renders(t, ctx, region, now, uuids);
}

proof fn lemma_datetime_token(ctx: TokenContext, region: Region, now: Moment, uuids: Seq<Seq<char>>)
    ensures
        expand_from("{datetime}"@, 0, ctx, region, now, uuids) == Some((
            date_text(region, now.year as int, now.month as int, now.day as int) + seq![' ']
                + time_text(now.hour as int, now.minute as int),
            None::<int>,
        )),
{
    reveal_strlit("{datetime}");
    reveal_strlit("datetime");
    lemma_keywords_distinct();
    let t = "datetime"@;
    assert("{datetime}"@ =~= seq!['{'] + t + seq!['}']);
    lemma_braced(t);
    lemma_braced_renders(t, ctx, region, now, uuids);
}

/// Each `{uuid}` renders the next generated UUID, in its lowercase,
/// hyphenated v4 form.
pub proof fn law_uuid_token(ctx: TokenContext, region: Region, now: Moment, uuids: Seq<Seq<char>>)
    requires
        uuids.len() > 0,
        is_uuid_text(uuids[0]),
    ensures
        expand_from("{uuid}"@, 0, ctx, region, now, uuids) == Some((uuids[0], None::<int>)),
        is_uuid_text(uuids[0]),
{
    reveal_strlit("{uuid}");
    reveal_strlit("uuid");
    lemma_keywords_distinct();
    let u = "uuid"@;
    lemma_braced(u);
    assert("{uuid}"@ =~= seq!['{'] + u + seq!['}']);
    assert(expand_from("{uuid}"@, 6, ctx, region, now, uuids.drop_first()) == Some((Seq::<char>::empty(), None::<int>)));
    assert(uuids[0] + Seq::<char>::empty() == uuids[0]);
}

/// A token that starts like a date offset (`date` then `+` or `-`).
pub open spec fn offset_shaped(t: Seq<char>) -> bool {
    &&& starts_with(t, "date"@)
    &&& t.len() > 4
    &&& (t[4] == '+' || t[4] == '-')
    &&& forall|k: int| 0 <= k < t.len() ==> t[k] != '}'
}

proof fn lemma_offset_shaped_not_keyword(t: Seq<char>)
    requires
        offset_shaped(t),
    ensures
        t.len() > 0 && t[0] != '{',
        t != "cursor"@ && t != "date"@ && t != "time"@ && t != "datetime"@ && t != "clipboard"@
            && t != "uuid"@,
{
    reveal_strlit("date");
    reveal_strlit("time");
    reveal_strlit("datetime");
    reveal_strlit("cursor");
    reveal_strlit("clipboard");
    reveal_strlit("uuid");
    assert(t.take(4)[0] == t[0]);
    assert(t.take(4) == "date"@);
    if t == "datetime"@ {
        assert(t[4] == 't');
    }
    if t == "date"@ {
        assert(t.len() == 4);
    }
}

/// A date offset renders the date that many days from today (weeks count 7
/// days, months 30, years 365, as `date_offset` reads them), in the region's
/// order; when that date cannot be represented, the token stays as written.
pub proof fn law_date_offset_token(
    t: Seq<char>,
    ctx: TokenContext,
    region: Region,
    now: Moment,
    uuids: Seq<Seq<char>>,
)
    requires
        offset_shaped(t),
        date_offset(t) is Some,
    ensures
        expand_from(seq!['{'] + t + seq!['}'], 0, ctx, region, now, uuids) == Some((
            match date_plus_days(now.year as int, now.month as int, now.day as int, date_offset(t)->0) {
                Some(ymd) => date_text(region, ymd.0, ymd.1, ymd.2),
                None => seq!['{'] + t + seq!['}'],
            },
            None::<int>,
        )),
{
    let b = seq!['{'] + t + seq!['}'];
    lemma_offset_shaped_not_keyword(t);
    lemma_braced(t);
    assert(expand_from(b, b.len() as int, ctx, region, now, uuids) == Some((Seq::<char>::empty(), None::<int>)));
    let r = render(lex(b, 0).0, ctx, region, now);
    assert(r + Seq::<char>::empty() == r);
}

/// A token shaped like a date offset that does not read as one (a bad unit,
/// a bad number, or a day count too large to represent) is kept as written:
/// expansion never fails on it.
pub proof fn law_bad_date_offset_verbatim(
    t: Seq<char>,
    ctx: TokenContext,
    region: Region,
    now: Moment,
    uuids: Seq<Seq<char>>,
)
    requires
        offset_shaped(t),
        date_offset(t) is None,
    ensures
        expand_from(seq!['{'] + t + seq!['}'], 0, ctx, region, now, uuids) == Some((
            seq!['{'] + t + seq!['}'],
            None::<int>,
        )),
{
    let b = seq!['{'] + t + seq!['}'];
    lemma_offset_shaped_not_keyword(t);
    lemma_braced(t);
    assert(expand_from(b, b.len() as int, ctx, region, now, uuids) == Some((Seq::<char>::empty(), None::<int>)));
    assert(b + Seq::<char>::empty() == b);
}


/// A key or label as the form shows it: not empty, and trimmed.
pub open spec fn is_clean_text(t: Seq<char>) -> bool {
    t.len() > 0 && trim(t) == t
}

/// Every variable has a clean key without `:` and a clean label.
pub open spec fn vars_clean(vs: Seq<(Seq<char>, Seq<char>)>) -> bool {
    forall|a: int|
        0 <= a < vs.len() ==> {
            &&& is_clean_text((#[trigger] vs[a]).0)
            &&& !vs[a].0.contains(':')
            &&& is_clean_text(vs[a].1)
        }
}

/// `trim_start` keeps a suffix.
proof fn lemma_trim_start_suffix(s: Seq<char>)
    ensures
        trim_start(s).len() <= s.len(),
        trim_start(s) == s.skip(s.len() - trim_start(s).len()),
    decreases s.len(),
{
    if s.len() > 0 && is_ws(s[0]) {
        lemma_trim_start_suffix(s.drop_first());
        assert(s.drop_first().skip(s.drop_first().len() - trim_start(s).len()) == s.skip(
            s.len() - trim_start(s).len(),
        ));
    } else {
        assert(s.skip(0) == s);
    }
}

/// Trimming adds no char: a text without `c` trims to one without `c`.
proof fn lemma_trim_keeps_out(s: Seq<char>, c: char)
    requires
        !s.contains(c),
    ensures
        !trim(s).contains(c),
{
    lemma_trim_start_suffix(s);
    let u = trim_start(s);
    lemma_trim_end_prefix(u);
    if trim(s).contains(c) {
        let k = choose|k: int| 0 <= k < trim(s).len() && trim(s)[k] == c;
        assert(trim(s)[k] == u[k]);
        assert(u[k] == s[s.len() - u.len() + k]);
    }
}

proof fn lemma_var_key_clean(inner: Seq<char>)
    ensures
        !var_key(inner).contains(':'),
        var_key(inner).len() > 0 ==> is_clean_text(var_key(inner)),
{
    lemma_find_char(inner, ':');
    match find_char(inner, ':') {
        Some(c) => {
            let p = inner.take(c as int);
            assert(!p.contains(':'));
            lemma_trim_keeps_out(p, ':');
            lemma_trim_idem(p);
        },
        None => {
            assert(!inner.contains(':'));
            lemma_trim_keeps_out(inner, ':');
            lemma_trim_idem(inner);
        },
    }
}

proof fn lemma_label_clean(inner: Seq<char>)
    requires
        var_key(inner).len() > 0,
    ensures
        is_clean_text(label_of(inner)),
{
    lemma_var_key_clean(inner);
    if let Some(c) = find_char(inner, ':') {
        lemma_trim_idem(inner.skip(c + 1int));
    }
}

proof fn lemma_vars_from_clean(body: Seq<char>, i: int, acc: Seq<(Seq<char>, Seq<char>)>)
    requires
        vars_clean(acc),
    ensures
        vars_clean(vars_from(body, i, acc)),
    decreases body.len() - i,
{
    if 0 <= i < body.len() {
        let rest = body.skip(i);
        if starts_with(rest, "[["@) && find_close_brackets(rest) is Some {
            let e = find_close_brackets(rest).unwrap();
            let inner = rest.subrange(2, e as int);
            let key = var_key(inner);
            let acc2 = if key.len() > 0 && !has_key(acc, key) {
                acc.push((key, label_of(inner)))
            } else {
                acc
            };
            if key.len() > 0 && !has_key(acc, key) {
                lemma_var_key_clean(inner);
                lemma_label_clean(inner);
                assert forall|a: int| 0 <= a < acc2.len() implies {
                    &&& is_clean_text((#[trigger] acc2[a]).0)
                    &&& !acc2[a].0.contains(':')
                    &&& is_clean_text(acc2[a].1)
                } by {
                    if a < acc.len() {
                        assert(acc2[a] == acc[a]);
                    }
                }
            }
            if e >= 2 && i + e + 2 <= body.len() {
                lemma_vars_from_clean(body, i + e + 2, acc2);
            }
        } else {
            lemma_vars_from_clean(body, i + 1, acc);
        }
    }
}

/// The form variables of a body have keys that are non-empty, trimmed and
/// free of `:`, and labels that are non-empty and trimmed (the label falls
/// back to the key when the first occurrence gives none).
pub proof fn law_variables_clean(body: Seq<char>)
    ensures
        vars_clean(vars_from(body, 0, seq![])),
{
    lemma_vars_from_clean(body, 0, seq![]);
}


/// Every form-variable occurrence of `body` from index `i` on, in reading
/// order and with repeats, as `(key, label)`.
pub open spec fn var_occurrences(body: Seq<char>, i: int) -> Seq<(Seq<char>, Seq<char>)>
    decreases body.len() - i,
{
    if i < 0 || i >= body.len() {
        seq![]
    } else {
        let rest = body.skip(i);
        if starts_with(rest, "[["@) && find_close_brackets(rest) is Some {
            let e = find_close_brackets(rest).unwrap();
            let inner = rest.subrange(2, e as int);
            let key = var_key(inner);
            let here: Seq<(Seq<char>, Seq<char>)> = if key.len() > 0 {
                seq![(key, label_of(inner))]
            } else {
                seq![]
            };
            if e >= 2 && i + e + 2 <= body.len() {
                here + var_occurrences(body, i + e + 2)
            } else {
                here
            }
        } else {
            var_occurrences(body, i + 1)
        }
    }
}

/// `acc` followed by the entries of `s` whose key is not yet present: the
/// first occurrence of each key, with its label, in order.
pub open spec fn first_of_each(acc: Seq<(Seq<char>, Seq<char>)>, s: Seq<(Seq<char>, Seq<char>)>) -> Seq<
    (Seq<char>, Seq<char>),
>
    decreases s.len(),
{
    if s.len() == 0 {
        acc
    } else {
        first_of_each(
            if has_key(acc, s[0].0) {
                acc
            } else {
                acc.push(s[0])
            },
            s.drop_first(),
        )
    }
}

proof fn lemma_vars_from_first(body: Seq<char>, i: int, acc: Seq<(Seq<char>, Seq<char>)>)
    ensures
        vars_from(body, i, acc) == first_of_each(acc, var_occurrences(body, i)),
    decreases body.len() - i,
{
    if 0 <= i < body.len() {
        let rest = body.skip(i);
        if starts_with(rest, "[["@) && find_close_brackets(rest) is Some {
            let e = find_close_brackets(rest).unwrap();
            let inner = rest.subrange(2, e as int);
            let key = var_key(inner);
            let acc2 = if key.len() > 0 && !has_key(acc, key) {
                acc.push((key, label_of(inner)))
            } else {
                acc
            };
            let tail = if e >= 2 && i + e + 2 <= body.len() {
                var_occurrences(body, i + e + 2)
            } else {
                seq![]
            };
            if e >= 2 && i + e + 2 <= body.len() {
                lemma_vars_from_first(body, i + e + 2, acc2);
            }
            if key.len() > 0 {
                let x = (key, label_of(inner));
                let all = seq![x] + tail;
                assert(all[0] == x);
                assert(all.drop_first() == tail);
                assert(first_of_each(acc2, Seq::<(Seq<char>, Seq<char>)>::empty()) == acc2);
            } else {
                assert(Seq::<(Seq<char>, Seq<char>)>::empty() + tail == tail);
            }
        } else {
            lemma_vars_from_first(body, i + 1, acc);
        }
    }
}

/// The form variables of a body are the first occurrence of each key, in
/// reading order, each with the label of that first occurrence: a later
/// `[[key:Other]]` neither adds a variable nor changes its label.
pub proof fn law_variables_first_occurrence(body: Seq<char>)
    ensures
        vars_from(body, 0, seq![]) == first_of_each(seq![], var_occurrences(body, 0)),
{
    lemma_vars_from_first(body, 0, seq![]);
}


/// Entry `a` of `r` is, among `s`, the first occurrence of its key, and that
/// key is not in `acc`.
pub open spec fn first_occurrence_in(
    r: Seq<(Seq<char>, Seq<char>)>,
    a: int,
    s: Seq<(Seq<char>, Seq<char>)>,
    acc: Seq<(Seq<char>, Seq<char>)>,
) -> bool {
    exists|j: int|
        0 <= j < s.len() && s[j] == r[a] && !has_key(acc, s[j].0) && forall|j2: int|
            0 <= j2 < j ==> (#[trigger] s[j2]).0 != s[j].0
}

proof fn lemma_has_key_prefix(acc: Seq<(Seq<char>, Seq<char>)>, r: Seq<(Seq<char>, Seq<char>)>, k: Seq<char>)
    requires
        acc.len() <= r.len(),
        r.take(acc.len() as int) == acc,
        has_key(acc, k),
    ensures
        has_key(r, k),
{
    let i = choose|i: int| 0 <= i < acc.len() && #[trigger] acc[i].0 == k;
    assert(r.take(acc.len() as int)[i] == r[i]);
    assert(r[i].0 == k);
}

proof fn lemma_first_of_each(acc: Seq<(Seq<char>, Seq<char>)>, s: Seq<(Seq<char>, Seq<char>)>)
    ensures
        ({
            let r = first_of_each(acc, s);
            &&& acc.len() <= r.len()
            &&& r.take(acc.len() as int) == acc
            &&& forall|a: int| acc.len() <= a < r.len() ==> #[trigger] first_occurrence_in(r, a, s, acc)
            &&& forall|j: int| 0 <= j < s.len() ==> has_key(r, (#[trigger] s[j]).0)
        }),
    decreases s.len(),
{
    if s.len() == 0 {
        assert(acc.take(acc.len() as int) == acc);
    } else {
        let x = s[0];
        let s1 = s.drop_first();
        let acc1 = if has_key(acc, x.0) {
            acc
        } else {
            acc.push(x)
        };
        lemma_first_of_each(acc1, s1);
        let r = first_of_each(acc, s);
        assert(r == first_of_each(acc1, s1));
        assert(acc1.take(acc.len() as int) == acc);
        assert(r.take(acc.len() as int) == r.take(acc1.len() as int).take(acc.len() as int));
        assert(has_key(acc1, x.0)) by {
            if !has_key(acc, x.0) {
                assert(acc1[acc.len() as int].0 == x.0);
            }
        }
        assert forall|k: Seq<char>| has_key(acc, k) implies has_key(acc1, k) by {
            let i = choose|i: int| 0 <= i < acc.len() && #[trigger] acc[i].0 == k;
            assert(acc1[i] == acc[i]);
        }
        assert forall|a: int| acc.len() <= a < r.len() implies #[trigger] first_occurrence_in(r, a, s, acc) by {
            if a < acc1.len() {
                assert(r.take(acc1.len() as int)[a] == r[a]);
                assert(r[a] == x);
                assert(s[0] == r[a]);
            } else {
                assert(first_occurrence_in(r, a, s1, acc1));
                let j1 = choose|j1: int|
                    0 <= j1 < s1.len() && s1[j1] == r[a] && !has_key(acc1, s1[j1].0) && forall|j2: int|
                        0 <= j2 < j1 ==> (#[trigger] s1[j2]).0 != s1[j1].0;
                let j = j1 + 1;
                assert(s[j] == s1[j1]);
                assert forall|j2: int| 0 <= j2 < j implies (#[trigger] s[j2]).0 != s[j].0 by {
                    if j2 == 0 {
                        assert(has_key(acc1, s[0].0));
                    } else {
                        assert(s[j2] == s1[j2 - 1]);
                    }
                }
            }
        }
        assert forall|j: int| 0 <= j < s.len() implies has_key(r, (#[trigger] s[j]).0) by {
            if j == 0 {
                lemma_has_key_prefix(acc1, r, x.0);
            } else {
                assert(s[j] == s1[j - 1]);
            }
        }
    }
}

/// `j` is the index of the first entry of `s` with key `k`.
pub open spec fn first_index(s: Seq<(Seq<char>, Seq<char>)>, k: Seq<char>, j: int) -> bool {
    0 <= j < s.len() && s[j].0 == k && forall|j2: int| 0 <= j2 < j ==> (#[trigger] s[j2]).0 != k
}

proof fn lemma_first_of_each_order(acc: Seq<(Seq<char>, Seq<char>)>, s: Seq<(Seq<char>, Seq<char>)>)
    ensures
        forall|a: int, b: int, ja: int, jb: int|
            acc.len() <= a < b < first_of_each(acc, s).len() && #[trigger] first_index(
                s,
                first_of_each(acc, s)[a].0,
                ja,
            ) && #[trigger] first_index(s, first_of_each(acc, s)[b].0, jb) ==> ja < jb,
    decreases s.len(),
{
    lemma_first_of_each(acc, s);
    if s.len() > 0 {
        let x = s[0];
        let s1 = s.drop_first();
        let acc1 = if has_key(acc, x.0) {
            acc
        } else {
            acc.push(x)
        };
        lemma_first_of_each(acc1, s1);
        lemma_first_of_each_order(acc1, s1);
        let r = first_of_each(acc, s);
        assert(r == first_of_each(acc1, s1));
        assert(has_key(acc1, x.0)) by {
            if !has_key(acc, x.0) {
                assert(acc1[acc.len() as int].0 == x.0);
            }
        }
        assert forall|a: int, b: int, ja: int, jb: int|
            acc.len() <= a < b < r.len() && #[trigger] first_index(s, r[a].0, ja) && #[trigger] first_index(
                s,
                r[b].0,
                jb,
            ) implies ja < jb by {
            assert(first_occurrence_in(r, b, s1, acc1));
            let wb = choose|j1: int|
                0 <= j1 < s1.len() && s1[j1] == r[b] && !has_key(acc1, s1[j1].0) && forall|j2: int|
                    0 <= j2 < j1 ==> (#[trigger] s1[j2]).0 != s1[j1].0;
            assert(r[b].0 != x.0);
            if jb == 0 {
                assert(s[0].0 == r[b].0);
            }
            if a < acc1.len() {
                assert(r.take(acc1.len() as int)[a] == r[a]);
                assert(acc1[a] == x);
                if ja > 0 {
                    assert(s[0].0 != r[a].0);
                }
            } else {
                assert(first_occurrence_in(r, a, s1, acc1));
                let wa = choose|j1: int|
                    0 <= j1 < s1.len() && s1[j1] == r[a] && !has_key(acc1, s1[j1].0) && forall|j2: int|
                        0 <= j2 < j1 ==> (#[trigger] s1[j2]).0 != s1[j1].0;
                assert(r[a].0 != x.0);
                if ja == 0 {
                    assert(s[0].0 == r[a].0);
                }
                assert forall|j2: int| 0 <= j2 < ja - 1 implies (#[trigger] s1[j2]).0 != r[a].0 by {
                    assert(s1[j2] == s[j2 + 1]);
                }
                assert forall|j2: int| 0 <= j2 < jb - 1 implies (#[trigger] s1[j2]).0 != r[b].0 by {
                    assert(s1[j2] == s[j2 + 1]);
                }
                assert(s1[ja - 1] == s[ja]);
                assert(s1[jb - 1] == s[jb]);
                assert(first_index(s1, r[a].0, ja - 1));
                assert(first_index(s1, r[b].0, jb - 1));
            }
        }
    }
}

/// Keeping the first of each key keeps every key, once, with the label of
/// its first occurrence, and in the order of those first occurrences.
pub proof fn law_first_of_each(s: Seq<(Seq<char>, Seq<char>)>)
    ensures
        forall|a: int|
            0 <= a < first_of_each(seq![], s).len() ==> #[trigger] first_occurrence_in(
                first_of_each(seq![], s),
                a,
                s,
                seq![],
            ),
        forall|j: int| 0 <= j < s.len() ==> has_key(first_of_each(seq![], s), (#[trigger] s[j]).0),
        forall|a: int, b: int, ja: int, jb: int|
            0 <= a < b < first_of_each(seq![], s).len() && #[trigger] first_index(
                s,
                first_of_each(seq![], s)[a].0,
                ja,
            ) && #[trigger] first_index(s, first_of_each(seq![], s)[b].0, jb) ==> ja < jb,
{
    lemma_first_of_each(seq![], s);
    lemma_first_of_each_order(seq![], s);
}


/// Lexing is the same at index `i` of `b` and at the matching index of
/// `p + b`.
proof fn lemma_lex_shift(p: Seq<char>, b: Seq<char>, i: int)
    requires
        0 <= i < b.len(),
    ensures
        lex(p + b, p.len() + i).0 == lex(b, i).0,
        lex(p + b, p.len() + i).1 == lex(b, i).1 + p.len(),
{
    assert((p + b).skip(p.len() + i) =~= b.skip(i));
}

/// Expanding `p + b` from past `p` is expanding `b`.
proof fn lemma_expand_shift(
    p: Seq<char>,
    b: Seq<char>,
    i: int,
    ctx: TokenContext,
    region: Region,
    now: Moment,
    uuids: Seq<Seq<char>>,
)
    requires
        0 <= i,
    ensures
        expand_from(p + b, p.len() + i, ctx, region, now, uuids) == expand_from(b, i, ctx, region, now, uuids),
    decreases b.len() - i,
{
    if i < b.len() {
        lemma_lex_shift(p, b, i);
        lemma_lex_progress(b, i);
        let (l, j) = lex(b, i);
        match l {
            Lexeme::Uuid => lemma_expand_shift(p, b, j, ctx, region, now, uuids.drop_first()),
            _ => lemma_expand_shift(p, b, j, ctx, region, now, uuids),
        }
    }
}

/// Text holding none of the chars that open or close markup.
pub open spec fn is_plain_text(p: Seq<char>) -> bool {
    forall|k: int| 0 <= k < p.len() ==> #[trigger] p[k] != '{' && p[k] != '}' && p[k] != '['
}

proof fn lemma_plain_prefix_from(
    p: Seq<char>,
    b: Seq<char>,
    k: int,
    ctx: TokenContext,
    region: Region,
    now: Moment,
    uuids: Seq<Seq<char>>,
)
    requires
        is_plain_text(p),
        0 <= k <= p.len(),
    ensures
        expand_from(p + b, k, ctx, region, now, uuids) == prepend_text(
            p.skip(k),
            expand_from(b, 0, ctx, region, now, uuids),
        ),
    decreases p.len() - k,
{
    lemma_expand_from_some(b, 0, ctx, region, now, uuids);
    if k == p.len() {
        lemma_expand_shift(p, b, 0, ctx, region, now, uuids);
        assert(p.skip(k) =~= Seq::<char>::empty());
        let (x, c) = expand_from(b, 0, ctx, region, now, uuids)->0;
        assert(Seq::<char>::empty() + x == x);
    } else {
        lemma_plain_prefix_from(p, b, k + 1, ctx, region, now, uuids);
        let body = p + b;
        let rest = body.skip(k);
        assert(rest[0] == p[k]);
        reveal_strlit("{{");
        reveal_strlit("}}");
        reveal_strlit("[[");
        if starts_with(rest, "{{"@) {
            assert(rest.take(2)[0] == rest[0]);
        }
        if starts_with(rest, "}}"@) {
            assert(rest.take(2)[0] == rest[0]);
        }
        if starts_with(rest, "[["@) {
            assert(rest.take(2)[0] == rest[0]);
        }
        assert(lex(body, k) == (Lexeme::Text(seq![p[k]]), k + 1));
        let (x, c) = expand_from(b, 0, ctx, region, now, uuids)->0;
        assert(p.skip(k) =~= seq![p[k]] + p.skip(k + 1));
        assert(seq![p[k]] + (p.skip(k + 1) + x) =~= p.skip(k) + x);
    }
}

/// Plain text in front of a body is kept as written, and the rest expands
/// as it would alone (a caret position moves along with it): `id={uuid}`
/// gives `id=` followed by the generated UUID.
pub proof fn law_plain_text_kept(
    p: Seq<char>,
    b: Seq<char>,
    ctx: TokenContext,
    region: Region,
    now: Moment,
    uuids: Seq<Seq<char>>,
)
    requires
        is_plain_text(p),
    ensures
        expand_from(p + b, 0, ctx, region, now, uuids) == prepend_text(
            p,
            expand_from(b, 0, ctx, region, now, uuids),
        ),
{
    lemma_plain_prefix_from(p, b, 0, ctx, region, now, uuids);
    assert(p.skip(0) == p);
}


proof fn lemma_var_lookup(vars: Seq<(String, String)>, key: Seq<char>)
    ensures
        var_lookup(vars, key) matches Some(v) ==> exists|j: int|
            0 <= j < vars.len() && (#[trigger] vars[j]).0@ == key && vars[j].1@ == v && forall|j2: int|
                j < j2 < vars.len() ==> (#[trigger] vars[j2]).0@ != key,
        var_lookup(vars, key) is None ==> forall|j: int| 0 <= j < vars.len() ==> (#[trigger] vars[j]).0@
            != key,
    decreases vars.len(),
{
    if vars.len() > 0 {
        let q = vars.drop_last();
        lemma_var_lookup(q, key);
        let n = vars.len() - 1;
        if vars.last().0@ == key {
            assert(vars[n].0@ == key);
        } else {
            if let Some(v) = var_lookup(q, key) {
                let j = choose|j: int|
                    0 <= j < q.len() && (#[trigger] q[j]).0@ == key && q[j].1@ == v && forall|j2: int|
                        j < j2 < q.len() ==> (#[trigger] q[j2]).0@ != key;
                assert(vars[j] == q[j]);
                assert forall|j2: int| j < j2 < vars.len() implies (#[trigger] vars[j2]).0@ != key by {
                    if j2 < n {
                        assert(vars[j2] == q[j2]);
                    }
                }
            } else {
                assert forall|j: int| 0 <= j < vars.len() implies (#[trigger] vars[j]).0@ != key by {
                    if j < n {
                        assert(vars[j] == q[j]);
                    }
                }
            }
        }
    }
}

proof fn lemma_find_close_after(inner: Seq<char>, s: Seq<char>, k: int)
    requires
        s == seq!['[', '['] + inner + seq![']', ']'],
        forall|i: int| 0 <= i < inner.len() ==> #[trigger] inner[i] != ']',
        0 <= k <= inner.len() + 2,
    ensures
        find_close_brackets(s.skip(k)) == Some((inner.len() + 2 - k) as nat),
    decreases inner.len() + 2 - k,
{
    let t = s.skip(k);
    if k == inner.len() + 2 {
        assert(t.len() == 2 && t[0] == ']' && t[1] == ']');
    } else {
        lemma_find_close_after(inner, s, k + 1);
        assert(t.drop_first() =~= s.skip(k + 1));
        if k >= 2 {
            assert(t[0] == inner[k - 2]);
        } else {
            assert(t[0] == '[');
        }
    }
}

/// A form variable expands to the value given for the very key that
/// `extract_variables` reports for it (its name trimmed, before any `:`):
/// the value of the last pair with that key, or nothing when no pair has it.
pub proof fn law_variable_uses_reported_key(
    inner: Seq<char>,
    ctx: TokenContext,
    region: Region,
    now: Moment,
    uuids: Seq<Seq<char>>,
)
    requires
        forall|i: int| 0 <= i < inner.len() ==> #[trigger] inner[i] != ']',
        var_key(inner).len() > 0,
    ensures
        ({
            let body = seq!['[', '['] + inner + seq![']', ']'];
            let vs = vars_from(body, 0, seq![]);
            let vars = ctx.variables@;
            &&& vs.len() == 1
            &&& expand_from(body, 0, ctx, region, now, uuids) matches Some((text, None))
            &&& (forall|j: int| 0 <= j < vars.len() ==> (#[trigger] vars[j]).0@ != vs[0].0) ==> text
                == Seq::<char>::empty()
            &&& (exists|j: int| 0 <= j < vars.len() && (#[trigger] vars[j]).0@ == vs[0].0) ==> exists|j: int|
                0 <= j < vars.len() && (#[trigger] vars[j]).0@ == vs[0].0 && text == vars[j].1@
                    && forall|j2: int| j < j2 < vars.len() ==> (#[trigger] vars[j2]).0@ != vs[0].0
        }),
{
    let body = seq!['[', '['] + inner + seq![']', ']'];
    let e: int = inner.len() + 2int;
    lemma_find_close_after(inner, body, 0);
    assert(body.skip(0) == body);
    let key = var_key(inner);
    assert(body.subrange(2, e) =~= inner);
    reveal_strlit("{{");
    reveal_strlit("}}");
    reveal_strlit("[[");
    assert(body.take(2) =~= "[["@);
    assert(!starts_with(body, "{{"@)) by {
        assert(body.take(2)[0] == '[');
    }
    assert(!starts_with(body, "}}"@)) by {
        assert(body.take(2)[0] == '[');
    }
    assert(lex(body, 0) == (Lexeme::Variable(key), e + 2));
    let empty: Seq<(Seq<char>, Seq<char>)> = seq![];
    assert(!has_key(empty, key));
    assert(empty.push((key, label_of(inner))) =~= seq![(key, label_of(inner))]);
    assert(vars_from(body, e + 2, seq![(key, label_of(inner))]) == seq![(key, label_of(inner))]);
    assert(vars_from(body, 0, seq![]) == seq![(key, label_of(inner))]);
    let r = render(Lexeme::Variable(key), ctx, region, now);
    assert(expand_from(body, e + 2, ctx, region, now, uuids) == Some((Seq::<char>::empty(), None::<int>)));
    assert(r + Seq::<char>::empty() == r);
    lemma_var_lookup(ctx.variables@, key);
}


/// The days a unit letter stands for in a date offset: `d` 1, `w` 7, `m` 30,
/// `y` 365.
pub open spec fn unit_days(u: char) -> int {
    if u == 'd' {
        1
    } else if u == 'w' {
        7
    } else if u == 'm' {
        30
    } else if u == 'y' {
        365
    } else {
        0
    }
}

/// `date`, a sign, a run of ASCII digits of value `n` and a unit letter
/// (`d`, `w`, `m` or `y`) read as `n` days, weeks (7 days), months (30 days)
/// or years (365 days) forward for `+` and back for `-`, as long as that many
/// days fit in a duration; a number too large to read or a count too large
/// for a duration makes the token no offset at all.
pub proof fn law_date_offset_reading(plus: bool, ds: Seq<char>, u: char)
    requires
        ds.len() > 0,
        all_digits(ds),
        u == 'd' || u == 'w' || u == 'm' || u == 'y',
    ensures
        ({
            let t = "date"@ + seq![if plus { '+' } else { '-' }] + ds + seq![u];
            let days = (if plus { 1int } else { -1int }) * (digits_value(ds) * unit_days(u));
            date_offset(t) == if i64_fits(digits_value(ds)) && i64_fits(days * 86400) {
                Some(days)
            } else {
                None::<int>
            }
        }),
{
    reveal_strlit("date");
    let sg = if plus { '+' } else { '-' };
    let t = "date"@ + seq![sg] + ds + seq![u];
    assert(t.take(4) =~= "date"@);
    let r = t.skip(4);
    assert(r =~= seq![sg] + ds + seq![u]);
    let r2 = r.skip(1);
    assert(r2 =~= ds + seq![u]);
    assert(r2.last() == u);
    assert(r2.drop_last() =~= ds);
    assert('0' <= ds[0] <= '9');
    assert(!(ds[0] == '-' || ds[0] == '+'));
    lemma_digits_value_nonneg(ds);
}

} // verus!
