//! The pure rules of the snippet, clip and settings stores: how fields are
//! normalized before they are written, how a search query becomes a
//! full-text match, how settings are read back, and the retention policy's
//! limits. The SQL itself runs with the caller.

use vstd::prelude::*;
use crate::error::CoreError;
use crate::import::{filled, filled_string, opt_view, replace_all, replace_chars};
use crate::json::{json_i64, json_string_list, parse_json_i64, parse_json_string_list};
use crate::text::{
    chars_of, extend_range, is_whitespace, is_ws, lemma_trim_start_first, skip_ws_forward,
    string_of, string_of_range, trim, trim_range, trim_start, push_str,
};

verus! {

/// A trigger as stored: trimmed, and none when blank, so blank triggers never
/// collide in the unique index.
pub fn clean_trigger(t: Option<String>) -> (r: Option<String>)
    ensures
        opt_view(r) == filled(opt_view(t)),
{
    filled_string(&t)
}

/// A rich body as stored: none when blank, so a plain snippet never carries a
/// phantom empty rich form; otherwise kept as it is.
pub fn clean_html(h: Option<String>) -> (r: Option<String>)
    ensures
        opt_view(r) == match opt_view(h) {
            Some(s) => if trim(s).len() > 0 {
                Some(s)
            } else {
                None
            },
            None => None,
        },
{
    match h {
        Some(s) => {
            let v = chars_of(s.as_str());
            assert(v@.subrange(0, v@.len() as int) == v@);
            let (a, b) = trim_range(&v, 0, v.len());
            if a < b {
                Some(s)
            } else {
                None
            }
        },
        None => None,
    }
}

/// A snippet's name as stored: trimmed; a blank name is refused.
pub fn checked_name(name: &str) -> (r: Result<String, CoreError>)
    ensures
        trim(name@).len() > 0 ==> (r matches Ok(n) && n@ == trim(name@)),
        trim(name@).len() == 0 ==> (r matches Err(CoreError::Invalid(m)) && m@
            == "snippet name is empty"@),
{
    let v = chars_of(name);
    assert(v@.subrange(0, v@.len() as int) == v@);
    let (a, b) = trim_range(&v, 0, v.len());
    if a < b {
        Ok(string_of_range(&v, a, b))
    } else {
        Err(CoreError::Invalid("snippet name is empty".to_owned()))
    }
}

/// A folder's name as stored: trimmed; a blank name is refused.
pub fn checked_folder_name(name: &str) -> (r: Result<String, CoreError>)
    ensures
        trim(name@).len() > 0 ==> (r matches Ok(n) && n@ == trim(name@)),
        trim(name@).len() == 0 ==> (r matches Err(CoreError::Invalid(m)) && m@
            == "folder name is empty"@),
{
    let v = chars_of(name);
    assert(v@.subrange(0, v@.len() as int) == v@);
    let (a, b) = trim_range(&v, 0, v.len());
    if a < b {
        Ok(string_of_range(&v, a, b))
    } else {
        Err(CoreError::Invalid("folder name is empty".to_owned()))
    }
}

// --- full-text search ---------------------------------------------------------

/// Index of the first whitespace char of `t` (its length when none).
pub open spec fn word_end(t: Seq<char>) -> nat
    decreases t.len(),
{
    if t.len() == 0 || is_ws(t[0]) {
        0
    } else {
        1 + word_end(t.drop_first())
    }
}

/// `str::split_whitespace`: the maximal runs of non-whitespace chars.
pub open spec fn words(s: Seq<char>) -> Seq<Seq<char>>
    decreases s.len(),
{
    let t = trim_start(s);
    proof {
        lemma_trim_start_first(s);
        lemma_word_end(t);
    }
    if t.len() == 0 {
        seq![]
    } else {
        seq![t.take(word_end(t) as int)] + words(t.skip(word_end(t) as int))
    }
}

pub proof fn lemma_word_end(t: Seq<char>)
    ensures
        word_end(t) <= t.len(),
        t.len() > 0 && !is_ws(t[0]) ==> word_end(t) >= 1,
        forall|k: int| 0 <= k < word_end(t) ==> !is_ws(#[trigger] t[k]),
        word_end(t) < t.len() ==> is_ws(t[word_end(t) as int]),
    decreases t.len(),
{
    if t.len() > 0 && !is_ws(t[0]) {
        lemma_word_end(t.drop_first());
        assert forall|k: int| 0 <= k < word_end(t) implies !is_ws(#[trigger] t[k]) by {
            if k > 0 {
                assert(t[k] == t.drop_first()[k - 1]);
            }
        }
    }
}

/// One search term as an FTS5 prefix query: quoted (inner quotes doubled, so
/// FTS operators typed by the user are neutralized) and starred.
pub open spec fn fts_term(w: Seq<char>) -> Seq<char> {
    seq!['"'] + replace_all(w, "\""@, "\"\""@) + seq!['"', '*']
}

pub open spec fn fts_join(ws: Seq<Seq<char>>) -> Seq<char>
    decreases ws.len(),
{
    if ws.len() == 0 {
        seq![]
    } else if ws.len() == 1 {
        fts_term(ws[0])
    } else {
        fts_join(ws.drop_last()) + seq![' '] + fts_term(ws.last())
    }
}

/// The FTS5 `MATCH` expression for a search query: each whitespace-separated
/// term of the trimmed query as a quoted prefix term, space-separated.
pub open spec fn spec_fts_match(query: Seq<char>) -> Seq<char> {
    fts_join(words(trim(query)))
}

fn word_end_at(v: &Vec<char>, a: usize, hi: usize) -> (e: usize)
    requires
        a <= hi <= v@.len(),
    ensures
        a <= e <= hi,
        e == a + word_end(v@.subrange(a as int, hi as int)),
{
    let mut e = a;
    while e < hi && !is_whitespace(v[e])
        invariant
            a <= e <= hi <= v@.len(),
            word_end(v@.subrange(a as int, hi as int)) == (e - a) + word_end(
                v@.subrange(e as int, hi as int),
            ),
        decreases hi - e,
    {
        assert(v@.subrange(e as int, hi as int).drop_first() == v@.subrange(e + 1, hi as int));
        e += 1;
    }
    e
}

pub fn fts_match_expr(query: &str) -> (r: String)
    ensures
        r@ == spec_fts_match(query@),
{
    let v = chars_of(query);
    assert(v@.subrange(0, v@.len() as int) == v@);
    let (lo, hi) = trim_range(&v, 0, v.len());
    let quote = chars_of("\"");
    let quote2 = chars_of("\"\"");
    proof {
        reveal_strlit("\"");
    }
    let mut out: Vec<char> = Vec::new();
    let ghost mut done: Seq<Seq<char>> = seq![];
    let mut any = false;
    let mut i = lo;
    while i < hi
        invariant
            lo <= i <= hi <= v@.len(),
            quote@ == "\""@,
            quote2@ == "\"\""@,
            quote@.len() == 1,
            words(trim(query@)) == done + words(v@.subrange(i as int, hi as int)),
            out@ == fts_join(done),
            any == (done.len() > 0),
            v@ == query@,
            trim(query@) == v@.subrange(lo as int, hi as int),
        decreases hi - i,
    {
        let a = skip_ws_forward(&v, i, hi);
        let ghost s = v@.subrange(i as int, hi as int);
        if a == hi {
            assert(words(s) == Seq::<Seq<char>>::empty());
            i = hi;
            assert(v@.subrange(hi as int, hi as int) == Seq::<char>::empty());
            assert(words(v@.subrange(hi as int, hi as int)) == Seq::<Seq<char>>::empty());
        } else {
            let e = word_end_at(&v, a, hi);
            let ghost t = v@.subrange(a as int, hi as int);
            proof {
                lemma_word_end(t);
            }
            assert(t.take(word_end(t) as int) == v@.subrange(a as int, e as int));
            assert(t.skip(word_end(t) as int) == v@.subrange(e as int, hi as int));
            let ghost w = v@.subrange(a as int, e as int);
            let word = crate::text::vec_of_range(&v, a, e);
            let esc = replace_chars(&word, &quote, &quote2);
            let ghost before = out@;
            if any {
                out.push(' ');
            }
            any = true;
            out.push('"');
            let el = esc.len();
            extend_range(&mut out, &esc, 0, el);
            assert(esc@.subrange(0, el as int) == esc@);
            out.push('"');
            out.push('*');
            proof {
                let nd = done.push(w);
                assert(nd.drop_last() == done);
                assert(nd.last() == w);
                if done.len() > 0 {
                    assert(out@ == before + seq![' '] + fts_term(w));
                } else {
                    assert(out@ == fts_term(w));
                }
                assert(done + (seq![w] + words(v@.subrange(e as int, hi as int))) == nd + words(
                    v@.subrange(e as int, hi as int),
                ));
                done = nd;
            }
            i = e;
        }
    }
    assert(v@.subrange(hi as int, hi as int) == Seq::<char>::empty());
    assert(words(Seq::<char>::empty()) == Seq::<Seq<char>>::empty());
    assert(done + Seq::<Seq<char>>::empty() == done);
    string_of(&out)
}

/// One `?` placeholder per bound value, comma-separated.
pub open spec fn placeholders_spec(n: nat) -> Seq<char>
    decreases n,
{
    if n == 0 {
        seq![]
    } else if n == 1 {
        seq!['?']
    } else {
        placeholders_spec((n - 1) as nat) + seq![',', ' ', '?']
    }
}

pub fn placeholders(n: usize) -> (r: String)
    ensures
        r@ == placeholders_spec(n as nat),
{
    let mut r = String::new();
    let mut k: usize = 0;
    while k < n
        invariant
            k <= n,
            r@ == placeholders_spec(k as nat),
        decreases n - k,
    {
        if k > 0 {
            push_str(&mut r, ", ");
            proof {
                reveal_strlit(", ");
            }
        }
        crate::text::push_char(&mut r, '?');
        k += 1;
    }
    r
}

/// The frecency (frequency × recency) score expression used to order
/// snippets: the use count times a weight by age of last use (100 within an
/// hour, 70 a day, 40 a week, 20 a month, 10 older, 0 never used). `col` is
/// the column prefix and `now` the bound parameter holding the current time.
pub open spec fn spec_frecency_expr(col: Seq<char>, now: Seq<char>) -> Seq<char> {
    "(COALESCE("@ + col + "use_count, 0) * (CASE WHEN "@ + col
        + "last_used_at IS NULL THEN 0 WHEN "@ + now + " - "@ + col
        + "last_used_at < 3600000 THEN 100 WHEN "@ + now + " - "@ + col
        + "last_used_at < 86400000 THEN 70 WHEN "@ + now + " - "@ + col
        + "last_used_at < 604800000 THEN 40 WHEN "@ + now + " - "@ + col
        + "last_used_at < 2592000000 THEN 20 ELSE 10 END))"@
}

pub fn frecency_expr(col: &str, now: &str) -> (r: String)
    ensures
        r@ == spec_frecency_expr(col@, now@),
{
    let mut r = String::new();
    push_str(&mut r, "(COALESCE(");
    push_str(&mut r, col);
    push_str(&mut r, "use_count, 0) * (CASE WHEN ");
    push_str(&mut r, col);
    push_str(&mut r, "last_used_at IS NULL THEN 0 WHEN ");
    push_str(&mut r, now);
    push_str(&mut r, " - ");
    push_str(&mut r, col);
    push_str(&mut r, "last_used_at < 3600000 THEN 100 WHEN ");
    push_str(&mut r, now);
    push_str(&mut r, " - ");
    push_str(&mut r, col);
    push_str(&mut r, "last_used_at < 86400000 THEN 70 WHEN ");
    push_str(&mut r, now);
    push_str(&mut r, " - ");
    push_str(&mut r, col);
    push_str(&mut r, "last_used_at < 604800000 THEN 40 WHEN ");
    push_str(&mut r, now);
    push_str(&mut r, " - ");
    push_str(&mut r, col);
    push_str(&mut r, "last_used_at < 2592000000 THEN 20 ELSE 10 END))");
    assert(r@ == spec_frecency_expr(col@, now@));
    r
}

// --- settings -----------------------------------------------------------------

pub const EXCLUDED_APPS_KEY: &'static str = "expansion.excludedApps";

/// The expansion-exclusion list from its raw setting: the JSON array of exe
/// names, or empty when unset or unreadable (expansion keeps working).
pub fn excluded_apps_from(raw: Option<String>) -> (r: Vec<String>)
    ensures
        r@.map_values(|s: String| s@) == match raw {
            Some(t) => match json_string_list(t@) {
                Some(l) => l,
                None => seq![],
            },
            None => seq![],
        },
{
    match raw {
        Some(t) => match parse_json_string_list(t.as_str()) {
            Some(l) => l,
            None => {
                let v: Vec<String> = Vec::new();
                assert(v@.map_values(|s: String| s@) =~= Seq::<Seq<char>>::empty());
                v
            },
        },
        None => {
            let v: Vec<String> = Vec::new();
            assert(v@.map_values(|s: String| s@) =~= Seq::<Seq<char>>::empty());
            v
        },
    }
}

pub const RETENTION_DAYS_KEY: &'static str = "clipboard.retentionDays";
pub const RETENTION_MAX_KEY: &'static str = "clipboard.retentionMax";
/// Default retention: 30 days or 500 items, whichever is hit first.
pub const DEFAULT_RETENTION_DAYS: i64 = 30;
pub const DEFAULT_RETENTION_MAX: i64 = 500;
pub const DAY_MS: i64 = 86400000;

/// An integer setting: its JSON value, or `default` when unset or not an
/// integer.
pub open spec fn setting_i64(raw: Option<Seq<char>>, default: i64) -> i64 {
    match raw {
        Some(t) => match json_i64(t) {
            Some(x) => x,
            None => default,
        },
        None => default,
    }
}

pub open spec fn saturate_i64(x: int) -> i64 {
    if x > i64::MAX {
        i64::MAX
    } else if x < i64::MIN {
        i64::MIN
    } else {
        x as i64
    }
}

fn setting_or(raw: &Option<String>, default: i64) -> (r: i64)
    ensures
        r == setting_i64(opt_view(*raw), default),
{
    match raw {
        Some(t) => match parse_json_i64(t.as_str()) {
            Some(x) => x,
            None => default,
        },
        None => default,
    }
}

/// The retention policy's limits from their raw settings: the maximum age in
/// milliseconds (days times a day, saturating) and the maximum item count.
pub fn retention_limits(days_raw: Option<String>, max_raw: Option<String>) -> (r: (i64, i64))
    ensures
        r.0 == saturate_i64(setting_i64(opt_view(days_raw), DEFAULT_RETENTION_DAYS) * DAY_MS),
        r.1 == setting_i64(opt_view(max_raw), DEFAULT_RETENTION_MAX),
{
    let days = setting_or(&days_raw, DEFAULT_RETENTION_DAYS);
    let max = setting_or(&max_raw, DEFAULT_RETENTION_MAX);
    let p: i128 = days as i128 * DAY_MS as i128;
    let age = if p > i64::MAX as i128 {
        i64::MAX
    } else if p < i64::MIN as i128 {
        i64::MIN
    } else {
        p as i64
    };
    (age, max)
}

} // verus!
