//! Import snippet libraries written for other expanders: espanso YAML, CSV and
//! JSON. Only the fields a person authored are carried over (trigger, body and
//! display name); everything else is assigned fresh when the snippet is
//! created. Parsing is pure; the database write lives with the caller.

use vstd::prelude::*;
use crate::text::{
    ascii_lower_seq, chars_of, contains_at_any, contains_seq, find_char_in, has_char,
    extend_range, lemma_find_char_exact, lines, push_str, str_eq, utf8_len_range, utf8_width, matches_at, next_line,
    range_eq, rfind_char, rfind_char_in, skip_ws_forward, starts_with, string_of,
    string_of_range, to_ascii_lower, trim, trim_range, trim_start, utf8_len, vec_of_range,
    lemma_trim_first, lemma_trim_filled, lemma_trim_idem,
};
use crate::models::NewSnippet;
use crate::error::{CoreError, CoreResult};
use crate::json::{json_document, parse_json_text, JsonValue};

verus! {

/// What an imported snippet carries: `(name, trigger, body)`.
pub type ImportFields = (Seq<char>, Option<Seq<char>>, Seq<char>);

pub open spec fn opt_view(o: Option<String>) -> Option<Seq<char>> {
    match o {
        Some(s) => Some(s@),
        None => None,
    }
}

/// `s` is the snippet built from `f`: those three fields, no rich body, no
/// folder, not a favorite.
pub open spec fn is_import(s: NewSnippet, f: ImportFields) -> bool {
    &&& s.name@ == f.0
    &&& opt_view(s.trigger) == f.1
    &&& s.body@ == f.2
    &&& s.body_html is None
    &&& s.folder_id is None
    &&& !s.is_favorite
}

pub open spec fn imports_are(out: Seq<NewSnippet>, fs: Seq<ImportFields>) -> bool {
    &&& out.len() == fs.len()
    &&& forall|i: int| 0 <= i < out.len() ==> is_import(#[trigger] out[i], fs[i])
}

/// `str::replace`: every non-overlapping occurrence of `pat`, scanning from the
/// left, replaced by `rep`.
pub open spec fn replace_all(s: Seq<char>, pat: Seq<char>, rep: Seq<char>) -> Seq<char>
    decreases s.len(),
{
    if s.len() == 0 || pat.len() == 0 {
        s
    } else if starts_with(s, pat) {
        rep + replace_all(s.skip(pat.len() as int), pat, rep)
    } else {
        seq![s[0]] + replace_all(s.drop_first(), pat, rep)
    }
}

/// `v` with every occurrence of `pat` replaced by `rep`.
pub(crate) fn replace_chars(v: &Vec<char>, pat: &Vec<char>, rep: &Vec<char>) -> (r: Vec<char>)
    requires
        pat@.len() > 0,
    ensures
        r@ == replace_all(v@, pat@, rep@),
{
    let mut out: Vec<char> = Vec::new();
    let mut i: usize = 0;
    assert(v@.skip(0) == v@);
    assert(out@ + replace_all(v@, pat@, rep@) == replace_all(v@, pat@, rep@));
    while i < v.len()
        invariant
            i <= v@.len(),
            pat@.len() > 0,
            out@ + replace_all(v@.skip(i as int), pat@, rep@) == replace_all(v@, pat@, rep@),
        decreases v@.len() - i,
    {
        let ghost rest = v@.skip(i as int);
        assert(v@.subrange(i as int, v@.len() as int) == rest);
        if matches_at(v, i, v.len(), pat) {
            let ghost before = out@;
            let mut k: usize = 0;
            while k < rep.len()
                invariant
                    k <= rep@.len(),
                    out@ == before + rep@.take(k as int),
                decreases rep@.len() - k,
            {
                out.push(rep[k]);
                assert(rep@.take(k + 1) == rep@.take(k as int).push(rep@[k as int]));
                k += 1;
            }
            assert(rep@.take(rep@.len() as int) == rep@);
            assert(rest.skip(pat@.len() as int) == v@.skip(i + pat@.len()));
            assert(before + (rep@ + replace_all(rest.skip(pat@.len() as int), pat@, rep@)) == (
            before + rep@) + replace_all(rest.skip(pat@.len() as int), pat@, rep@));
            i += pat.len();
        } else {
            let ghost before = out@;
            out.push(v[i]);
            assert(rest.drop_first() == v@.skip(i + 1));
            assert(rest[0] == v@[i as int]);
            assert(before + (seq![rest[0]] + replace_all(rest.drop_first(), pat@, rep@)) == before.push(
                rest[0],
            ) + replace_all(rest.drop_first(), pat@, rep@));
            i += 1;
        }
    }
    assert(v@.skip(i as int).len() == 0);
    assert(out@ + replace_all(v@.skip(i as int), pat@, rep@) == out@);
    out
}

/// `v` with every occurrence of the literal `pat` replaced by `rep`.
pub(crate) fn replace_lit(v: &Vec<char>, pat: &str, rep: &str) -> (r: Vec<char>)
    requires
        pat@.len() > 0,
    ensures
        r@ == replace_all(v@, pat@, rep@),
{
    let p = chars_of(pat);
    let q = chars_of(rep);
    replace_chars(v, &p, &q)
}

/// Foreign placeholders mapped to tokens: espanso's caret mark `$|$` becomes
/// `{cursor}`, and `{{clipboard}}` becomes `{clipboard}`.
pub open spec fn spec_normalize_body(body: Seq<char>) -> Seq<char> {
    replace_all(
        replace_all(body, "$|$"@, "{cursor}"@),
        "{{clipboard}}"@,
        "{clipboard}"@,
    )
}

pub fn normalize_body(body: &Vec<char>) -> (r: Vec<char>)
    ensures
        r@ == spec_normalize_body(body@),
{
    proof {
        reveal_strlit("$|$");
        reveal_strlit("{{clipboard}}");
    }
    let a = replace_lit(body, "$|$", "{cursor}");
    replace_lit(&a, "{{clipboard}}", "{clipboard}")
}

/// The first line of `ls` that is not blank, trimmed.
pub open spec fn first_filled(ls: Seq<Seq<char>>) -> Option<Seq<char>>
    decreases ls.len(),
{
    if ls.len() == 0 {
        None
    } else if trim(ls[0]).len() > 0 {
        Some(trim(ls[0]))
    } else {
        first_filled(ls.drop_first())
    }
}

/// Longest display name taken from a body, in chars.
pub const NAME_CAP: usize = 60;

/// Display name drawn from a body: its first non-blank line, trimmed and cut
/// to `NAME_CAP` chars, or `"Imported snippet"` when every line is blank.
pub open spec fn spec_first_line(body: Seq<char>) -> Seq<char> {
    match first_filled(lines(body)) {
        Some(l) => if l.len() <= NAME_CAP {
            l
        } else {
            l.take(NAME_CAP as int)
        },
        None => "Imported snippet"@,
    }
}

pub fn first_line(body: &Vec<char>) -> (r: String)
    ensures
        r@ == spec_first_line(body@),
{
    let n = body.len();
    let mut p: usize = 0;
    assert(body@.subrange(0, n as int) == body@);
    while p < n
        invariant
            p <= n == body@.len(),
            first_filled(lines(body@.subrange(p as int, n as int))) == first_filled(lines(body@)),
        decreases n - p,
    {
        let (e, q) = next_line(body, p, n);
        let (a, b) = trim_range(body, p, e);
        let ghost rest = lines(body@.subrange(q as int, n as int));
        let ghost cur = body@.subrange(p as int, e as int);
        assert((seq![cur] + rest)[0] == cur);
        assert((seq![cur] + rest).drop_first() == rest);
        if a < b {
            let end = if b - a > NAME_CAP {
                assert(body@.subrange(a as int, b as int).take(NAME_CAP as int) == body@.subrange(
                    a as int,
                    a + NAME_CAP,
                ));
                a + NAME_CAP
            } else {
                b
            };
            return string_of_range(body, a, end);
        }
        p = q;
    }
    assert(lines(body@.subrange(p as int, n as int)) == Seq::<Seq<char>>::empty());
    "Imported snippet".to_owned()
}

/// `t` trimmed, unless that leaves it empty.
pub open spec fn filled(t: Option<Seq<char>>) -> Option<Seq<char>> {
    match t {
        Some(s) => if trim(s).len() > 0 {
            Some(trim(s))
        } else {
            None
        },
        None => None,
    }
}

/// The snippet built from raw parts: the body with foreign placeholders
/// mapped; nothing when that body is blank. The trigger is trimmed (and
/// dropped when blank); the name falls back to the trigger, then to the body's
/// first line.
pub open spec fn spec_make_snippet(
    trigger: Option<Seq<char>>,
    body: Seq<char>,
    name: Option<Seq<char>>,
) -> Option<ImportFields> {
    let b = spec_normalize_body(body);
    if trim(b).len() == 0 {
        None
    } else {
        let t = filled(trigger);
        let n = match filled(name) {
            Some(n) => n,
            None => match t {
                Some(t) => t,
                None => spec_first_line(b),
            },
        };
        Some((n, t, b))
    }
}

/// `trim(s)` when it is not empty.
pub(crate) fn filled_string(s: &Option<String>) -> (r: Option<String>)
    ensures
        opt_view(r) == filled(opt_view(*s)),
{
    match s {
        Some(s) => {
            let v = chars_of(s.as_str());
            assert(v@.subrange(0, v@.len() as int) == v@);
            let (a, b) = trim_range(&v, 0, v.len());
            if a < b {
                Some(string_of_range(&v, a, b))
            } else {
                None
            }
        },
        None => None,
    }
}

/// Builds a snippet from raw trigger, body and name parts (see
/// [`spec_make_snippet`]).
pub fn make_snippet(trigger: Option<String>, body: String, name: Option<String>) -> (r: Option<
    NewSnippet,
>)
    ensures
        match spec_make_snippet(opt_view(trigger), body@, opt_view(name)) {
            Some(f) => r matches Some(s) && is_import(s, f),
            None => r is None,
        },
{
    let raw = chars_of(body.as_str());
    let b = normalize_body(&raw);
    assert(b@.subrange(0, b@.len() as int) == b@);
    let (x, y) = trim_range(&b, 0, b.len());
    if x == y {
        return None;
    }
    let t = filled_string(&trigger);
    let n = match filled_string(&name) {
        Some(n) => n,
        None => match &t {
            Some(t) => t.clone(),
            None => first_line(&b),
        },
    };
    Some(
        NewSnippet {
            name: n,
            trigger: t,
            body: string_of(&b),
            body_html: None,
            folder_id: None,
            is_favorite: false,
        },
    )
}

/// Matching surrounding quotes (both `"` or both `'`) removed.
pub open spec fn strip_quotes(t: Seq<char>) -> Seq<char> {
    if t.len() >= 2 && ((t[0] == '"' && t.last() == '"') || (t[0] == '\'' && t.last() == '\'')) {
        t.subrange(1, t.len() - 1)
    } else {
        t
    }
}

/// A one-line YAML scalar: trimmed, surrounding quotes removed, and the
/// escapes `\n`, `\t` and `\"` unescaped, in that order.
pub open spec fn spec_unquote(s: Seq<char>) -> Seq<char> {
    replace_all(
        replace_all(replace_all(strip_quotes(trim(s)), "\\n"@, "\n"@), "\\t"@, "\t"@),
        "\\\""@,
        "\""@,
    )
}

/// Unquotes `v[lo..hi]` (see [`spec_unquote`]).
fn unquote_range(v: &Vec<char>, lo: usize, hi: usize) -> (r: Vec<char>)
    requires
        lo <= hi <= v@.len(),
    ensures
        r@ == spec_unquote(v@.subrange(lo as int, hi as int)),
{
    let (a, b) = trim_range(v, lo, hi);
    let ghost t = v@.subrange(a as int, b as int);
    let inner = if b - a >= 2 && ((v[a] == '"' && v[b - 1] == '"') || (v[a] == '\'' && v[b - 1]
        == '\'')) {
        assert(t.subrange(1, t.len() - 1) == v@.subrange(a + 1, b - 1));
        vec_of_range(v, a + 1, b - 1)
    } else {
        vec_of_range(v, a, b)
    };
    proof {
        reveal_strlit("\\n");
        reveal_strlit("\\t");
        reveal_strlit("\\\"");
    }
    let x = replace_lit(&inner, "\\n", "\n");
    let y = replace_lit(&x, "\\t", "\t");
    replace_lit(&y, "\\\"", "\"")
}

/// Unquotes a one-line YAML scalar (see [`spec_unquote`]).
pub fn unquote(s: &str) -> (r: String)
    ensures
        r@ == spec_unquote(s@),
{
    let v = chars_of(s);
    assert(v@.subrange(0, v@.len() as int) == v@);
    let u = unquote_range(&v, 0, v.len());
    string_of(&u)
}

/// The source format of an import file.
#[derive(Debug, Clone, Copy, PartialEq, Eq, Structural)]
pub enum ImportFormat {
    /// espanso `match` YAML (`matches:` list of `trigger`/`replace`).
    Espanso,
    /// Comma-separated `abbreviation,expansion[,label]`.
    Csv,
    /// JSON array of `{ trigger, body/replace/expansion, name }`.
    Json,
}

/// The part of a file name after its last `.` (all of it when there is none).
pub open spec fn extension(name: Seq<char>) -> Seq<char> {
    match rfind_char(name, '.') {
        Some(i) => name.skip(i + 1int),
        None => name,
    }
}

pub open spec fn format_of_extension(name: Seq<char>) -> Option<ImportFormat> {
    let e = ascii_lower_seq(extension(name));
    if e == "yml"@ || e == "yaml"@ {
        Some(ImportFormat::Espanso)
    } else if e == "csv"@ || e == "tsv"@ {
        Some(ImportFormat::Csv)
    } else if e == "json"@ {
        Some(ImportFormat::Json)
    } else {
        None
    }
}

/// The format a file's content suggests: JSON when it opens with `[` or `{`,
/// espanso when it mentions `matches:` or `- trigger:`, CSV otherwise.
pub open spec fn sniffed_format(content: Seq<char>) -> ImportFormat {
    let t = trim_start(content);
    if t.len() > 0 && (t[0] == '[' || t[0] == '{') {
        ImportFormat::Json
    } else if contains_seq(content, "matches:"@) || contains_seq(content, "- trigger:"@) {
        ImportFormat::Espanso
    } else {
        ImportFormat::Csv
    }
}

impl ImportFormat {
    /// Best-guess format from a file name's extension, case-insensitively;
    /// `None` for an extension that names no known format.
    pub fn from_extension(name: &str) -> (r: Option<ImportFormat>)
        ensures
            r == format_of_extension(name@),
    {
        let v = chars_of(name);
        let n = v.len();
        let i = rfind_char_in(&v, 0, n, '.');
        assert(v@.subrange(0, n as int) == v@);
        let start = if i < n {
            i + 1
        } else {
            0
        };
        assert(extension(name@) == v@.subrange(start as int, n as int));
        let mut low: Vec<char> = Vec::new();
        let mut k = start;
        while k < n
            invariant
                start <= k <= n == v@.len(),
                low@ == ascii_lower_seq(v@.subrange(start as int, k as int)),
            decreases n - k,
        {
            low.push(to_ascii_lower(v[k]));
            assert(v@.subrange(start as int, k + 1) == v@.subrange(start as int, k as int).push(
                v@[k as int],
            ));
            assert(ascii_lower_seq(v@.subrange(start as int, k + 1)) == ascii_lower_seq(
                v@.subrange(start as int, k as int),
            ).push(crate::text::ascii_lower(v@[k as int])));
            k += 1;
        }
        let m = low.len();
        assert(low@.subrange(0, m as int) == low@);
        if range_eq(&low, 0, m, &chars_of("yml")) || range_eq(&low, 0, m, &chars_of("yaml")) {
            Some(ImportFormat::Espanso)
        } else if range_eq(&low, 0, m, &chars_of("csv")) || range_eq(&low, 0, m, &chars_of("tsv")) {
            Some(ImportFormat::Csv)
        } else if range_eq(&low, 0, m, &chars_of("json")) {
            Some(ImportFormat::Json)
        } else {
            None
        }
    }

    /// Format guessed from the content when the extension does not tell.
    pub fn sniff(content: &str) -> (r: ImportFormat)
        ensures
            r == sniffed_format(content@),
    {
        let v = chars_of(content);
        let n = v.len();
        let a = skip_ws_forward(&v, 0, n);
        assert(v@.subrange(0, n as int) == v@);
        if a < n && (v[a] == '[' || v[a] == '{') {
            assert(trim_start(content@)[0] == v@[a as int]);
            ImportFormat::Json
        } else if contains_at_any(&v, &chars_of("matches:")) || contains_at_any(
            &v,
            &chars_of("- trigger:"),
        ) {
            ImportFormat::Espanso
        } else {
            ImportFormat::Csv
        }
    }
}

// --- CSV -------------------------------------------------------------------

/// Scanner state of the CSV reader: finished rows, the row and field being
/// read, and whether the reader is inside a quoted field.
pub struct CsvScan {
    pub rows: Seq<Seq<Seq<char>>>,
    pub row: Seq<Seq<char>>,
    pub field: Seq<char>,
    pub quoted: bool,
}

/// The CSV reader run over `s` from state `st`. Inside quotes `""` is a quote
/// and `"` closes the field; outside, `"` opens quotes, `delim` ends a field,
/// `\n` ends a row and `\r` is dropped.
pub open spec fn csv_scan(s: Seq<char>, delim: char, st: CsvScan) -> CsvScan
    decreases s.len(),
{
    if s.len() == 0 {
        st
    } else {
        let c = s[0];
        if st.quoted {
            if c == '"' {
                if s.len() > 1 && s[1] == '"' {
                    csv_scan(
                        s.skip(2),
                        delim,
                        CsvScan { rows: st.rows, row: st.row, field: st.field.push('"'), quoted: true },
                    )
                } else {
                    csv_scan(
                        s.drop_first(),
                        delim,
                        CsvScan { rows: st.rows, row: st.row, field: st.field, quoted: false },
                    )
                }
            } else {
                csv_scan(
                    s.drop_first(),
                    delim,
                    CsvScan { rows: st.rows, row: st.row, field: st.field.push(c), quoted: true },
                )
            }
        } else if c == '"' {
            csv_scan(
                s.drop_first(),
                delim,
                CsvScan { rows: st.rows, row: st.row, field: st.field, quoted: true },
            )
        } else if c == delim {
            csv_scan(
                s.drop_first(),
                delim,
                CsvScan { rows: st.rows, row: st.row.push(st.field), field: seq![], quoted: false },
            )
        } else if c == '\n' {
            csv_scan(
                s.drop_first(),
                delim,
                CsvScan {
                    rows: st.rows.push(st.row.push(st.field)),
                    row: seq![],
                    field: seq![],
                    quoted: false,
                },
            )
        } else if c == '\r' {
            csv_scan(s.drop_first(), delim, st)
        } else {
            csv_scan(
                s.drop_first(),
                delim,
                CsvScan { rows: st.rows, row: st.row, field: st.field.push(c), quoted: false },
            )
        }
    }
}

/// The rows of a CSV text: the scan's rows, plus the last row when the text
/// does not end with a newline.
pub open spec fn csv_rows(s: Seq<char>, delim: char) -> Seq<Seq<Seq<char>>> {
    let st = csv_scan(s, delim, CsvScan { rows: seq![], row: seq![], field: seq![], quoted: false });
    if st.field.len() > 0 || st.row.len() > 0 {
        st.rows.push(st.row.push(st.field))
    } else {
        st.rows
    }
}

proof fn lemma_chars_deep_view(f: Vec<char>)
    ensures
        f.deep_view() == f@,
{
    assert(f.deep_view() =~= f@);
}

/// Quote-aware CSV reader: `""` escapes and newlines inside quoted fields.
pub fn parse_csv_rows(content: &str, delim: char) -> (r: Vec<Vec<Vec<char>>>)
    ensures
        r.deep_view() == csv_rows(content@, delim),
{
    let v = chars_of(content);
    let n = v.len();
    let mut rows: Vec<Vec<Vec<char>>> = Vec::new();
    let mut row: Vec<Vec<char>> = Vec::new();
    let mut field: Vec<char> = Vec::new();
    let mut quoted = false;
    let mut i: usize = 0;
    assert(v@.skip(0) == v@);
    assert(rows.deep_view() == Seq::<Seq<Seq<char>>>::empty());
    assert(row.deep_view() == Seq::<Seq<char>>::empty());
    while i < n
        invariant
            i <= n == v@.len(),
            v@ == content@,
            csv_scan(
                v@.skip(i as int),
                delim,
                CsvScan { rows: rows.deep_view(), row: row.deep_view(), field: field@, quoted },
            ) == csv_scan(
                content@,
                delim,
                CsvScan { rows: seq![], row: seq![], field: seq![], quoted: false },
            ),
        decreases n - i,
    {
        let ghost rest = v@.skip(i as int);
        let ghost rs = rows.deep_view();
        let ghost r0 = row.deep_view();
        assert(rest[0] == v@[i as int]);
        assert(rest.drop_first() == v@.skip(i + 1));
        let c = v[i];
        if quoted {
            if c == '"' {
                if i + 1 < n && v[i + 1] == '"' {
                    assert(rest[1] == v@[i + 1]);
                    assert(rest.skip(2) == v@.skip(i + 2));
                    field.push('"');
                    i += 2;
                } else {
                    quoted = false;
                    i += 1;
                }
            } else {
                field.push(c);
                i += 1;
            }
        } else if c == '"' {
            quoted = true;
            i += 1;
        } else if c == delim {
            let f = field;
            proof { lemma_chars_deep_view(f); }
            row.push(f);
            field = Vec::new();
            assert(row.deep_view() =~= r0.push(f@));
            i += 1;
        } else if c == '\n' {
            let f = field;
            proof { lemma_chars_deep_view(f); }
            let mut r = row;
            r.push(f);
            assert(r.deep_view() =~= r0.push(f@));
            rows.push(r);
            assert(rows.deep_view() =~= rs.push(r0.push(f@)));
            row = Vec::new();
            field = Vec::new();
            assert(row.deep_view() == Seq::<Seq<char>>::empty());
            i += 1;
        } else if c == '\r' {
            i += 1;
        } else {
            field.push(c);
            i += 1;
        }
    }
    assert(v@.skip(i as int) == Seq::<char>::empty());
    if field.len() > 0 || row.len() > 0 {
        let ghost rs = rows.deep_view();
        let ghost r0 = row.deep_view();
        let f = field;
        proof { lemma_chars_deep_view(f); }
        row.push(f);
        assert(row.deep_view() =~= r0.push(f@));
        rows.push(row);
        assert(rows.deep_view() =~= rs.push(r0.push(f@)));
    }
    rows
}

/// Every cell of `row` is blank.
pub open spec fn blank_row(row: Seq<Seq<char>>) -> bool {
    forall|k: int| 0 <= k < row.len() ==> trim(#[trigger] row[k]).len() == 0
}

/// A first cell that names a column rather than holding a trigger.
pub open spec fn is_header_cell(cell: Seq<char>) -> bool {
    let h = ascii_lower_seq(trim(cell));
    h == "trigger"@ || h == "abbreviation"@ || h == "shortcut"@ || h == "keyword"@ || h == "abbr"@
}

/// The snippet of one CSV row, `trigger,body[,name]`; blank rows and a header
/// in first place give none.
pub open spec fn csv_row_fields(row: Seq<Seq<char>>, first: bool) -> Option<ImportFields> {
    if blank_row(row) {
        None
    } else if first && is_header_cell(row[0]) {
        None
    } else {
        spec_make_snippet(
            Some(row[0]),
            if row.len() > 1 {
                row[1]
            } else {
                seq![]
            },
            if row.len() > 2 {
                Some(row[2])
            } else {
                None
            },
        )
    }
}

/// The snippets of all rows, in order.
pub open spec fn csv_fields(rows: Seq<Seq<Seq<char>>>) -> Seq<ImportFields>
    decreases rows.len(),
{
    if rows.len() == 0 {
        seq![]
    } else {
        let prev = csv_fields(rows.drop_last());
        match csv_row_fields(rows.last(), rows.len() == 1) {
            Some(f) => prev.push(f),
            None => prev,
        }
    }
}

/// A row that is neither blank nor a leading header, yet gives no snippet
/// (it carries no usable body).
pub open spec fn csv_row_dropped(row: Seq<Seq<char>>, first: bool) -> bool {
    &&& !blank_row(row)
    &&& !(first && is_header_cell(row[0]))
    &&& csv_row_fields(row, first) is None
}

/// How many rows were dropped for want of a usable body.
pub open spec fn csv_dropped(rows: Seq<Seq<Seq<char>>>) -> nat
    decreases rows.len(),
{
    if rows.len() == 0 {
        0
    } else {
        csv_dropped(rows.drop_last()) + if csv_row_dropped(rows.last(), rows.len() == 1) {
            1nat
        } else {
            0nat
        }
    }
}

proof fn lemma_csv_dropped_le(rows: Seq<Seq<Seq<char>>>)
    ensures
        csv_dropped(rows) <= rows.len(),
    decreases rows.len(),
{
    if rows.len() > 0 {
        lemma_csv_dropped_le(rows.drop_last());
    }
}

pub open spec fn spec_csv_dropped(content: Seq<char>) -> nat {
    csv_dropped(csv_rows(content, csv_delim(content)))
}

/// Tab-separated only when the text has tabs and no comma.
pub open spec fn csv_delim(content: Seq<char>) -> char {
    if content.contains('\t') && !content.contains(',') {
        '\t'
    } else {
        ','
    }
}

pub open spec fn spec_parse_csv(content: Seq<char>) -> Seq<ImportFields> {
    csv_fields(csv_rows(content, csv_delim(content)))
}

fn is_blank_row(row: &Vec<Vec<char>>) -> (b: bool)
    ensures
        b == blank_row(row.deep_view()),
{
    let mut k: usize = 0;
    while k < row.len()
        invariant
            k <= row@.len(),
            forall|j: int| 0 <= j < k ==> trim(#[trigger] row.deep_view()[j]).len() == 0,
        decreases row@.len() - k,
    {
        let cell = &row[k];
        proof { lemma_chars_deep_view(*cell); }
        assert(row.deep_view()[k as int] == cell@);
        assert(cell@.subrange(0, cell@.len() as int) == cell@);
        let (a, b) = trim_range(cell, 0, cell.len());
        if a < b {
            return false;
        }
        k += 1;
    }
    true
}

fn header_cell(cell: &Vec<char>) -> (b: bool)
    ensures
        b == is_header_cell(cell@),
{
    assert(cell@.subrange(0, cell@.len() as int) == cell@);
    let (a, b) = trim_range(cell, 0, cell.len());
    let mut low: Vec<char> = Vec::new();
    let mut k = a;
    while k < b
        invariant
            a <= k <= b <= cell@.len(),
            low@ == ascii_lower_seq(cell@.subrange(a as int, k as int)),
        decreases b - k,
    {
        low.push(to_ascii_lower(cell[k]));
        assert(cell@.subrange(a as int, k + 1) == cell@.subrange(a as int, k as int).push(
            cell@[k as int],
        ));
        assert(ascii_lower_seq(cell@.subrange(a as int, k + 1)) == ascii_lower_seq(
            cell@.subrange(a as int, k as int),
        ).push(crate::text::ascii_lower(cell@[k as int])));
        k += 1;
    }
    let m = low.len();
    assert(low@.subrange(0, m as int) == low@);
    range_eq(&low, 0, m, &chars_of("trigger")) || range_eq(&low, 0, m, &chars_of("abbreviation"))
        || range_eq(&low, 0, m, &chars_of("shortcut")) || range_eq(&low, 0, m, &chars_of("keyword"))
        || range_eq(&low, 0, m, &chars_of("abbr"))
}

/// The snippet of one parsed CSV row (see [`csv_row_fields`]).
fn csv_row_snippet(row: &Vec<Vec<char>>, first: bool) -> (r: Option<NewSnippet>)
    ensures
        match csv_row_fields(row.deep_view(), first) {
            Some(f) => r matches Some(s) && is_import(s, f),
            None => r is None,
        },
{
    if is_blank_row(row) {
        return None;
    }
    assert(row.deep_view().len() > 0);
    let head = &row[0];
    proof { lemma_chars_deep_view(*head); }
    assert(row.deep_view()[0] == head@);
    if first && header_cell(head) {
        return None;
    }
    let trigger = Some(string_of(head));
    let body = if row.len() > 1 {
        proof { lemma_chars_deep_view(row@[1]); }
        assert(row.deep_view()[1] == row@[1]@);
        string_of(&row[1])
    } else {
        String::new()
    };
    let label = if row.len() > 2 {
        proof { lemma_chars_deep_view(row@[2]); }
        assert(row.deep_view()[2] == row@[2]@);
        Some(string_of(&row[2]))
    } else {
        None
    };
    make_snippet(trigger, body, label)
}

/// Parses `abbreviation,expansion[,label]` rows (tab-separated when the text
/// has tabs and no comma). A header row is skipped when its first cell names
/// a column, blank rows are skipped, and a row without a usable body gives no
/// snippet.
pub fn parse_csv(content: &str) -> (r: Vec<NewSnippet>)
    ensures
        imports_are(r@, spec_parse_csv(content@)),
{
    parse_csv_counted(content).0
}

/// [`parse_csv`], with the number of rows dropped for want of a usable body.
pub fn parse_csv_counted(content: &str) -> (r: (Vec<NewSnippet>, usize))
    ensures
        imports_are(r.0@, spec_parse_csv(content@)),
        r.1 == spec_csv_dropped(content@),
{
    let v = chars_of(content);
    let n = v.len();
    assert(v@.subrange(0, n as int) == v@);
    let delim = if has_char(&v, 0, n, '\t') && !has_char(&v, 0, n, ',') {
        '\t'
    } else {
        ','
    };
    let rows = parse_csv_rows(content, delim);
    let ghost rv = rows.deep_view();
    let mut out: Vec<NewSnippet> = Vec::new();
    let mut dropped: usize = 0;
    let mut idx: usize = 0;
    while idx < rows.len()
        invariant
            idx <= rows@.len(),
            rv == rows.deep_view(),
            rv == csv_rows(content@, delim),
            delim == csv_delim(content@),
            imports_are(out@, csv_fields(rv.take(idx as int))),
            dropped == csv_dropped(rv.take(idx as int)),
        decreases rows@.len() - idx,
    {
        assert(rv.take(idx + 1).drop_last() == rv.take(idx as int));
        assert(rv.take(idx + 1).last() == rows@[idx as int].deep_view());
        proof {
            lemma_csv_dropped_le(rv.take(idx as int));
        }
        let ghost prev = out@;
        let blank = is_blank_row(&rows[idx]);
        let header = if idx == 0 && !blank {
            assert(rows@[idx as int].deep_view().len() > 0);
            proof { lemma_chars_deep_view(rows@[idx as int]@[0]); }
            assert(rows@[idx as int].deep_view()[0] == rows@[idx as int]@[0]@);
            header_cell(&rows[idx][0])
        } else {
            false
        };
        let snip = csv_row_snippet(&rows[idx], idx == 0);
        if !blank && !header && snip.is_none() {
            dropped += 1;
        }
        match snip {
            Some(s) => {
                out.push(s);
                assert forall|i: int| 0 <= i < out@.len() implies is_import(
                    #[trigger] out@[i],
                    csv_fields(rv.take(idx + 1))[i],
                ) by {
                    if i < prev.len() {
                        assert(out@[i] == prev[i]);
                    }
                }
            },
            None => {},
        }
        idx += 1;
    }
    assert(rv.take(rows@.len() as int) == rv);
    (out, dropped)
}

// --- espanso ---------------------------------------------------------------

/// Leading whitespace of a line, counted in UTF-8 bytes.
pub open spec fn indent(l: Seq<char>) -> nat {
    utf8_len(l.take(l.len() - trim_start(l).len()))
}

pub open spec fn is_blank(l: Seq<char>) -> bool {
    trim(l).len() == 0
}

/// `&l[m..]` for a byte offset `m`: `None` when `m` falls inside a char or
/// past the end, where slicing panics.
pub open spec fn byte_cut(l: Seq<char>, m: int) -> Option<Seq<char>>
    decreases l.len(),
{
    if m == 0 {
        Some(l)
    } else if m < 0 || l.len() == 0 {
        None
    } else {
        byte_cut(l.drop_first(), m - utf8_len(seq![l[0]]))
    }
}

/// Drop every trailing `c`.
pub open spec fn trim_end_char(s: Seq<char>, c: char) -> Seq<char>
    decreases s.len(),
{
    if s.len() > 0 && s.last() == c {
        trim_end_char(s.drop_last(), c)
    } else {
        s
    }
}

/// Drop every leading `c`.
pub open spec fn trim_start_char(s: Seq<char>, c: char) -> Seq<char>
    decreases s.len(),
{
    if s.len() > 0 && s[0] == c {
        trim_start_char(s.drop_first(), c)
    } else {
        s
    }
}

/// Where a block scalar that starts at line `j` ends: at the first line that
/// is not blank and is indented no deeper than `base` bytes (or at the end).
pub open spec fn block_end(ls: Seq<Seq<char>>, j: int, base: nat) -> int
    decreases ls.len() - j,
{
    if j < 0 || j >= ls.len() {
        j
    } else if is_blank(ls[j]) {
        block_end(ls, j + 1, base)
    } else if indent(ls[j]) <= base {
        j
    } else {
        block_end(ls, j + 1, base)
    }
}

pub proof fn lemma_block_end(ls: Seq<Seq<char>>, j: int, base: nat)
    requires
        0 <= j <= ls.len(),
    ensures
        j <= block_end(ls, j, base) <= ls.len(),
    decreases ls.len() - j,
{
    if j < ls.len() {
        lemma_block_end(ls, j + 1, base);
    }
}

/// Least indent among the non-blank lines of `cs`.
pub open spec fn min_indent(cs: Seq<Seq<char>>) -> Option<nat>
    decreases cs.len(),
{
    if cs.len() == 0 {
        None
    } else {
        let r = min_indent(cs.drop_last());
        let c = cs.last();
        if is_blank(c) {
            r
        } else {
            match r {
                Some(x) => Some(
                    if indent(c) < x {
                        indent(c)
                    } else {
                        x
                    },
                ),
                None => Some(indent(c)),
            }
        }
    }
}

/// One block line with `m` bytes of indent removed: blank lines become empty,
/// and a cut that falls inside a char panics (`None`).
pub open spec fn dedent(c: Seq<char>, m: nat) -> Option<Seq<char>> {
    if is_blank(c) {
        Some(seq![])
    } else if utf8_len(c) >= m {
        byte_cut(c, m as int)
    } else {
        Some(trim_start(c))
    }
}

/// The dedented lines of `cs` joined with `\n` (`None` when a cut panics).
pub open spec fn joined(cs: Seq<Seq<char>>, m: nat) -> Option<Seq<char>>
    decreases cs.len(),
{
    if cs.len() == 0 {
        Some(seq![])
    } else {
        match (joined(cs.drop_last(), m), dedent(cs.last(), m)) {
            (Some(a), Some(p)) => Some(
                if cs.len() == 1 {
                    p
                } else {
                    a + seq!['\n'] + p
                },
            ),
            _ => None,
        }
    }
}

/// A YAML block scalar's text from its lines: dedented by the least indent of
/// its non-blank lines, joined, with trailing newlines dropped.
pub open spec fn block_text(cs: Seq<Seq<char>>) -> Option<Seq<char>> {
    let m = match min_indent(cs) {
        Some(x) => x,
        None => 0,
    };
    match joined(cs, m) {
        Some(t) => Some(trim_end_char(t, '\n')),
        None => None,
    }
}

/// The first trigger of an inline list such as `[";a", ";b"]`, when not
/// empty.
pub open spec fn first_listed(v: Seq<char>) -> Option<Seq<char>> {
    let w = trim_start_char(trim(v), '[');
    let seg = match crate::text::find_char(w, ',') {
        Some(i) => w.take(i as int),
        None => w,
    };
    let u = spec_unquote(trim_end_char(trim(seg), ']'));
    if u.len() > 0 {
        Some(u)
    } else {
        None
    }
}

/// The match being assembled and the snippets finished so far.
pub struct EspState {
    pub trigger: Option<Seq<char>>,
    pub label: Option<Seq<char>>,
    pub replace: Option<Seq<char>>,
    pub out: Seq<ImportFields>,
}

/// Ends the pending match: a snippet when it had a `replace`, then all
/// pending fields cleared.
pub open spec fn esp_flush(st: EspState) -> EspState {
    EspState {
        trigger: None,
        label: None,
        replace: None,
        out: match st.replace {
            Some(b) => match spec_make_snippet(st.trigger, b, st.label) {
                Some(f) => st.out.push(f),
                None => st.out,
            },
            None => st.out,
        },
    }
}

/// A list item (`- ...`) starts a new match.
pub open spec fn esp_item_start(raw: Seq<char>) -> bool {
    starts_with(trim_start(raw), "- "@)
}

/// A line with its indent and list dash removed.
pub open spec fn esp_field(raw: Seq<char>) -> Seq<char> {
    let t = trim_start(raw);
    if starts_with(t, "- "@) {
        t.skip("- "@.len() as int)
    } else {
        t
    }
}

pub open spec fn is_block_marker(v: Seq<char>) -> bool {
    v == "|"@ || v == ">"@ || v == "|-"@ || v == ">-"@ || v.len() == 0
}

/// `replace:` followed by a block-scalar marker (or nothing).
pub open spec fn is_block_replace(f: Seq<char>) -> bool {
    starts_with(f, "replace:"@) && is_block_marker(trim(f.skip("replace:"@.len() as int)))
}

/// The pending match after a one-line field.
pub open spec fn esp_line(st: EspState, f: Seq<char>) -> EspState {
    if starts_with(f, "trigger:"@) {
        EspState {
            trigger: Some(spec_unquote(trim(f.skip("trigger:"@.len() as int)))),
            label: st.label,
            replace: st.replace,
            out: st.out,
        }
    } else if starts_with(f, "triggers:"@) {
        match first_listed(f.skip("triggers:"@.len() as int)) {
            Some(t) => EspState { trigger: Some(t), label: st.label, replace: st.replace, out: st.out },
            None => st,
        }
    } else if starts_with(f, "label:"@) {
        EspState {
            trigger: st.trigger,
            label: Some(spec_unquote(trim(f.skip("label:"@.len() as int)))),
            replace: st.replace,
            out: st.out,
        }
    } else if starts_with(f, "replace:"@) {
        EspState {
            trigger: st.trigger,
            label: st.label,
            replace: Some(spec_unquote(trim(f.skip("replace:"@.len() as int)))),
            out: st.out,
        }
    } else {
        st
    }
}

/// The espanso reader run over lines `i..` of `ls`. A block scalar that
/// cannot be dedented (its indent cut falls inside a char) is skipped: its
/// match gets no body, so it yields no snippet. (Never `None`: see
/// `lemma_esp_run_some`.)
pub open spec fn esp_run(ls: Seq<Seq<char>>, i: nat, st: EspState) -> Option<EspState>
    decreases ls.len() - i,
{
    if i >= ls.len() {
        Some(st)
    } else {
        let raw = ls[i as int];
        let st1 = if esp_item_start(raw) {
            esp_flush(st)
        } else {
            st
        };
        let f = esp_field(raw);
        if is_block_replace(f) {
            let start = i + 1int;
            let end = block_end(ls, start, indent(raw));
            proof {
                lemma_block_end(ls, start, indent(raw));
            }
            match block_text(ls.subrange(start, end)) {
                Some(t) => esp_run(
                    ls,
                    end as nat,
                    EspState { trigger: st1.trigger, label: st1.label, replace: Some(t), out: st1.out },
                ),
                None => esp_run(
                    ls,
                    end as nat,
                    EspState { trigger: st1.trigger, label: st1.label, replace: None, out: st1.out },
                ),
            }
        } else {
            esp_run(ls, i + 1, esp_line(st1, f))
        }
    }
}

/// Whether ending the pending match drops it: it had a `replace`, but that
/// body gives no snippet.
pub open spec fn flush_drops(st: EspState) -> nat {
    match st.replace {
        Some(b) => if spec_make_snippet(st.trigger, b, st.label) is None {
            1
        } else {
            0
        },
        None => 0,
    }
}

/// How many matches the espanso reader drops from line `i` on (the final
/// flush included): those whose body gives no snippet, and those whose block
/// scalar cannot be read.
pub open spec fn esp_drops(ls: Seq<Seq<char>>, i: nat, st: EspState) -> nat
    decreases ls.len() - i,
{
    if i >= ls.len() {
        flush_drops(st)
    } else {
        let raw = ls[i as int];
        let d1: nat = if esp_item_start(raw) {
            flush_drops(st)
        } else {
            0
        };
        let st1 = if esp_item_start(raw) {
            esp_flush(st)
        } else {
            st
        };
        let f = esp_field(raw);
        if is_block_replace(f) {
            let start = i + 1int;
            let end = block_end(ls, start, indent(raw));
            proof {
                lemma_block_end(ls, start, indent(raw));
            }
            match block_text(ls.subrange(start, end)) {
                Some(t) => d1 + esp_drops(
                    ls,
                    end as nat,
                    EspState { trigger: st1.trigger, label: st1.label, replace: Some(t), out: st1.out },
                ),
                None => d1 + 1 + esp_drops(
                    ls,
                    end as nat,
                    EspState { trigger: st1.trigger, label: st1.label, replace: None, out: st1.out },
                ),
            }
        } else {
            d1 + esp_drops(ls, i + 1, esp_line(st1, f))
        }
    }
}

pub open spec fn spec_espanso_dropped(content: Seq<char>) -> nat {
    esp_drops(lines(content), 0, esp_start())
}

pub open spec fn esp_start() -> EspState {
    EspState { trigger: None, label: None, replace: None, out: seq![] }
}

/// The snippets of an espanso match file.
pub open spec fn spec_parse_espanso(content: Seq<char>) -> Option<Seq<ImportFields>> {
    match esp_run(lines(content), 0, esp_start()) {
        Some(st) => Some(esp_flush(st).out),
        None => None,
    }
}

/// `bs[k]` bounds the chars of line `k` of `ls` within `v`.
pub open spec fn lines_at(v: Seq<char>, bs: Seq<(usize, usize)>, ls: Seq<Seq<char>>) -> bool {
    &&& bs.len() == ls.len()
    &&& forall|k: int|
        0 <= k < bs.len() ==> #[trigger] bs[k].0 <= bs[k].1 <= v.len() && v.subrange(
            bs[k].0 as int,
            bs[k].1 as int,
        ) == ls[k]
}

/// The bounds of each line of `v`.
fn line_bounds(v: &Vec<char>) -> (r: Vec<(usize, usize)>)
    ensures
        lines_at(v@, r@, lines(v@)),
{
    let n = v.len();
    let mut bs: Vec<(usize, usize)> = Vec::new();
    let ghost mut done: Seq<Seq<char>> = seq![];
    let mut p: usize = 0;
    assert(v@.subrange(0, n as int) == v@);
    while p < n
        invariant
            p <= n == v@.len(),
            lines(v@) == done + lines(v@.subrange(p as int, n as int)),
            lines_at(v@, bs@, done),
        decreases n - p,
    {
        let (e, q) = next_line(v, p, n);
        bs.push((p, e));
        proof {
            let cur = v@.subrange(p as int, e as int);
            assert(done + (seq![cur] + lines(v@.subrange(q as int, n as int))) == done.push(cur)
                + lines(v@.subrange(q as int, n as int)));
            done = done.push(cur);
        }
        p = q;
    }
    assert(lines(v@.subrange(n as int, n as int)) == Seq::<Seq<char>>::empty());
    assert(done + Seq::<Seq<char>>::empty() == done);
    bs
}

/// The indent of `v[lo..hi]` in bytes.
fn indent_at(v: &Vec<char>, lo: usize, hi: usize) -> (r: u128)
    requires
        lo <= hi <= v@.len(),
    ensures
        r == indent(v@.subrange(lo as int, hi as int)),
{
    let a = skip_ws_forward(v, lo, hi);
    let ghost l = v@.subrange(lo as int, hi as int);
    assert(l.take(l.len() - trim_start(l).len()) == v@.subrange(lo as int, a as int));
    utf8_len_range(v, lo, a)
}

/// Where `&v[lo..hi][m..]` starts, when `m` bytes end on a char boundary.
fn byte_cut_at(v: &Vec<char>, lo: usize, hi: usize, m: u128) -> (r: Option<usize>)
    requires
        lo <= hi <= v@.len(),
    ensures
        match byte_cut(v@.subrange(lo as int, hi as int), m as int) {
            Some(t) => r matches Some(j) && lo <= j <= hi && t == v@.subrange(j as int, hi as int),
            None => r is None,
        },
{
    let mut k = lo;
    let mut rem = m;
    while rem > 0 && k < hi
        invariant
            lo <= k <= hi <= v@.len(),
            byte_cut(v@.subrange(lo as int, hi as int), m as int) == byte_cut(
                v@.subrange(k as int, hi as int),
                rem as int,
            ),
        decreases hi - k,
    {
        let w = utf8_width(v[k]) as u128;
        let ghost l = v@.subrange(k as int, hi as int);
        assert(l[0] == v@[k as int]);
        assert(l.drop_first() == v@.subrange(k + 1, hi as int));
        if w > rem {
            assert(byte_cut(v@.subrange(k + 1, hi as int), rem - w) is None);
            return None;
        }
        rem = rem - w;
        k += 1;
    }
    if rem == 0 {
        Some(k)
    } else {
        assert(v@.subrange(k as int, hi as int).len() == 0);
        None
    }
}

/// Index just past the last char of `v[lo..hi]` that is not `c`.
fn trim_end_char_at(v: &Vec<char>, lo: usize, hi: usize, c: char) -> (r: usize)
    requires
        lo <= hi <= v@.len(),
    ensures
        lo <= r <= hi,
        trim_end_char(v@.subrange(lo as int, hi as int), c) == v@.subrange(lo as int, r as int),
{
    let mut k = hi;
    while k > lo && v[k - 1] == c
        invariant
            lo <= k <= hi <= v@.len(),
            trim_end_char(v@.subrange(lo as int, hi as int), c) == trim_end_char(
                v@.subrange(lo as int, k as int),
                c,
            ),
        decreases k - lo,
    {
        assert(v@.subrange(lo as int, k - 1) == v@.subrange(lo as int, k as int).drop_last());
        k -= 1;
    }
    k
}

/// Index of the first char of `v[lo..hi]` that is not `c`.
fn trim_start_char_at(v: &Vec<char>, lo: usize, hi: usize, c: char) -> (r: usize)
    requires
        lo <= hi <= v@.len(),
    ensures
        lo <= r <= hi,
        trim_start_char(v@.subrange(lo as int, hi as int), c) == v@.subrange(r as int, hi as int),
{
    let mut k = lo;
    while k < hi && v[k] == c
        invariant
            lo <= k <= hi <= v@.len(),
            trim_start_char(v@.subrange(lo as int, hi as int), c) == trim_start_char(
                v@.subrange(k as int, hi as int),
                c,
            ),
        decreases hi - k,
    {
        assert(v@.subrange(k + 1, hi as int) == v@.subrange(k as int, hi as int).drop_first());
        k += 1;
    }
    k
}

/// The first entry of an inline trigger list in `v[lo..hi]` (see
/// [`first_listed`]).
fn first_listed_at(v: &Vec<char>, lo: usize, hi: usize) -> (r: Option<Vec<char>>)
    requires
        lo <= hi <= v@.len(),
    ensures
        match first_listed(v@.subrange(lo as int, hi as int)) {
            Some(t) => r matches Some(u) && u@ == t,
            None => r is None,
        },
{
    let (a, b) = trim_range(v, lo, hi);
    let a2 = trim_start_char_at(v, a, b, '[');
    let comma = find_char_in(v, a2, b, ',');
    proof {
        lemma_find_char_exact(v@.subrange(a2 as int, b as int), ',', comma - a2);
        assert(v@.subrange(a2 as int, b as int).take(comma - a2) == v@.subrange(a2 as int, comma as int));
    }
    let (x, y) = trim_range(v, a2, comma);
    let y2 = trim_end_char_at(v, x, y, ']');
    let u = unquote_range(v, x, y2);
    if u.len() > 0 {
        Some(u)
    } else {
        None
    }
}

pub open spec fn opt_nat(o: Option<u128>) -> Option<nat> {
    match o {
        Some(x) => Some(x as nat),
        None => None,
    }
}

proof fn lemma_joined_none(cs: Seq<Seq<char>>, k: int, m: nat)
    requires
        0 <= k <= cs.len(),
        joined(cs.take(k), m) is None,
    ensures
        joined(cs, m) is None,
    decreases cs.len(),
{
    if k == cs.len() {
        assert(cs.take(k) == cs);
    } else {
        assert(cs.drop_last().take(k) == cs.take(k));
        lemma_joined_none(cs.drop_last(), k, m);
    }
}

/// Where the block starting at line `start` ends, and the least indent of
/// its non-blank lines.
fn block_extent(
    v: &Vec<char>,
    bs: &Vec<(usize, usize)>,
    start: usize,
    base: u128,
    Ghost(ls): Ghost<Seq<Seq<char>>>,
) -> (r: (usize, Option<u128>))
    requires
        lines_at(v@, bs@, ls),
        start <= ls.len(),
    ensures
        r.0 == block_end(ls, start as int, base as nat),
        start <= r.0 <= ls.len(),
        opt_nat(r.1) == min_indent(ls.subrange(start as int, r.0 as int)),
{
    let mut j = start;
    let mut mn: Option<u128> = None;
    assert(ls.subrange(start as int, start as int) == Seq::<Seq<char>>::empty());
    while j < bs.len()
        invariant
            start <= j <= ls.len(),
            lines_at(v@, bs@, ls),
            block_end(ls, start as int, base as nat) == block_end(ls, j as int, base as nat),
            opt_nat(mn) == min_indent(ls.subrange(start as int, j as int)),
        ensures
            start <= j <= ls.len(),
            block_end(ls, start as int, base as nat) == j,
            opt_nat(mn) == min_indent(ls.subrange(start as int, j as int)),
        decreases ls.len() - j,
    {
        let (lo, hi) = bs[j];
        assert(bs@[j as int].0 <= bs@[j as int].1 <= v@.len());
        let ghost l = ls[j as int];
        assert(v@.subrange(lo as int, hi as int) == l);
        let (a, b) = trim_range(v, lo, hi);
        let ghost cs = ls.subrange(start as int, j + 1);
        assert(cs.drop_last() == ls.subrange(start as int, j as int));
        assert(cs.last() == l);
        if a < b {
            let ind = indent_at(v, lo, hi);
            if ind <= base {
                break;
            }
            mn = match mn {
                Some(x) => Some(
                    if ind < x {
                        ind
                    } else {
                        x
                    },
                ),
                None => Some(ind),
            };
        }
        j += 1;
    }
    (j, mn)
}

/// Gathers the YAML block scalar that starts at line `start`: its text and
/// the line where it ends (`None` where dedenting would panic).
fn gather_block(
    v: &Vec<char>,
    bs: &Vec<(usize, usize)>,
    start: usize,
    base: u128,
    Ghost(ls): Ghost<Seq<Seq<char>>>,
) -> (r: Option<(Vec<char>, usize)>)
    requires
        lines_at(v@, bs@, ls),
        start <= ls.len(),
    ensures
        start <= block_end(ls, start as int, base as nat) <= ls.len(),
        match block_text(ls.subrange(start as int, block_end(ls, start as int, base as nat))) {
            Some(t) => r matches Some((u, e)) && u@ == t && e == block_end(
                ls,
                start as int,
                base as nat,
            ),
            None => r is None,
        },
{
    let (end, mn) = block_extent(v, bs, start, base, Ghost(ls));
    let ghost cs = ls.subrange(start as int, end as int);
    let m: u128 = match mn {
        Some(x) => x,
        None => 0,
    };
    let mut out: Vec<char> = Vec::new();
    let mut k = start;
    assert(cs.take(0) == Seq::<Seq<char>>::empty());
    while k < end
        invariant
            start <= k <= end <= ls.len(),
            lines_at(v@, bs@, ls),
            cs == ls.subrange(start as int, end as int),
            end == block_end(ls, start as int, base as nat),
            m as nat == (match min_indent(cs) {
                Some(x) => x,
                None => 0,
            }),
            joined(cs.take(k - start), m as nat) == Some(out@),
        decreases end - k,
    {
        let (lo, hi) = bs[k];
        assert(bs@[k as int].0 <= bs@[k as int].1 <= v@.len());
        let ghost l = ls[k as int];
        assert(v@.subrange(lo as int, hi as int) == l);
        let ghost pre = cs.take(k - start + 1);
        assert(pre.drop_last() == cs.take(k - start));
        assert(pre.last() == l);
        let ghost before = out@;
        if k > start {
            out.push('\n');
        }
        let (a, b) = trim_range(v, lo, hi);
        if a < b {
            let len = utf8_len_range(v, lo, hi);
            if len >= m {
                match byte_cut_at(v, lo, hi, m) {
                    Some(c) => {
                        extend_range(&mut out, v, c, hi);
                    },
                    None => {
                        proof {
                            lemma_joined_none(cs, k - start + 1, m as nat);
                        }
                        return None;
                    },
                }
            } else {
                let a0 = skip_ws_forward(v, lo, hi);
                extend_range(&mut out, v, a0, hi);
            }
        }
        proof {
            if k > start {
                assert(out@ == before + seq!['\n'] + dedent(l, m as nat)->0);
            } else {
                assert(before == Seq::<char>::empty());
                assert(out@ == dedent(l, m as nat)->0);
            }
        }
        k += 1;
    }
    assert(cs.take(end - start) == cs);
    let t = trim_end_char_at(&out, 0, out.len(), '\n');
    assert(out@.subrange(0, out@.len() as int) == out@);
    Some((vec_of_range(&out, 0, t), end))
}

fn block_marker_at(v: &Vec<char>, lo: usize, hi: usize) -> (b: bool)
    requires
        lo <= hi <= v@.len(),
    ensures
        b == is_block_marker(v@.subrange(lo as int, hi as int)),
{
    range_eq(v, lo, hi, &chars_of("|")) || range_eq(v, lo, hi, &chars_of(">")) || range_eq(
        v,
        lo,
        hi,
        &chars_of("|-"),
    ) || range_eq(v, lo, hi, &chars_of(">-")) || lo == hi
}

/// The snippet a pending match gives when it ends.
fn flush_snippet(trigger: Option<String>, label: Option<String>, replace: Option<String>) -> (r:
    Option<NewSnippet>)
    ensures
        ({
            let st = EspState {
                trigger: opt_view(trigger),
                label: opt_view(label),
                replace: opt_view(replace),
                out: seq![],
            };
            if esp_flush(st).out.len() == 0 {
                r is None
            } else {
                r matches Some(s) && is_import(s, esp_flush(st).out[0])
            }
        }),
{
    match replace {
        Some(b) => make_snippet(trigger, b, label),
        None => None,
    }
}

pub open spec fn esp_view(
    trigger: Option<String>,
    label: Option<String>,
    replace: Option<String>,
    fs: Seq<ImportFields>,
) -> EspState {
    EspState {
        trigger: opt_view(trigger),
        label: opt_view(label),
        replace: opt_view(replace),
        out: fs,
    }
}

proof fn lemma_flush_out(st: EspState)
    ensures
        esp_flush(st).out == st.out + esp_flush(
            EspState { trigger: st.trigger, label: st.label, replace: st.replace, out: seq![] },
        ).out,
{
    let e = EspState { trigger: st.trigger, label: st.label, replace: st.replace, out: seq![] };
    match st.replace {
        Some(b) => match spec_make_snippet(st.trigger, b, st.label) {
            Some(f) => {
                assert(esp_flush(e).out == seq![f]);
                assert(st.out.push(f) == st.out + seq![f]);
            },
            None => {
                assert(st.out + Seq::<ImportFields>::empty() == st.out);
            },
        },
        None => {
            assert(st.out + Seq::<ImportFields>::empty() == st.out);
        },
    }
}

/// A block scalar that cannot be read has at least one line.
proof fn lemma_block_text_none_nonempty(ls: Seq<Seq<char>>, start: int, end: int)
    requires
        0 <= start <= end <= ls.len(),
        block_text(ls.subrange(start, end)) is None,
    ensures
        end >= start + 1,
{
    if end == start {
        assert(ls.subrange(start, end).len() == 0);
    }
}

/// The espanso reader never stops short: it runs to the end of the lines.
pub proof fn lemma_esp_run_some(ls: Seq<Seq<char>>, i: nat, st: EspState)
    ensures
        esp_run(ls, i, st) is Some,
    decreases ls.len() - i,
{
    if i < ls.len() {
        let raw = ls[i as int];
        let st1 = if esp_item_start(raw) {
            esp_flush(st)
        } else {
            st
        };
        let f = esp_field(raw);
        if is_block_replace(f) {
            let start = i + 1int;
            let end = block_end(ls, start, indent(raw));
            lemma_block_end(ls, start, indent(raw));
            match block_text(ls.subrange(start, end)) {
                Some(t) => lemma_esp_run_some(
                    ls,
                    end as nat,
                    EspState { trigger: st1.trigger, label: st1.label, replace: Some(t), out: st1.out },
                ),
                None => lemma_esp_run_some(
                    ls,
                    end as nat,
                    EspState { trigger: st1.trigger, label: st1.label, replace: None, out: st1.out },
                ),
            }
        } else {
            lemma_esp_run_some(ls, i + 1, esp_line(st1, f));
        }
    }
}

/// Reading an espanso file always gives a list of snippets.
pub proof fn law_espanso_never_fails(content: Seq<char>)
    ensures
        spec_parse_espanso(content) is Some,
{
    lemma_esp_run_some(lines(content), 0, esp_start());
}

/// Reads an espanso match file: a `matches:` list whose items carry
/// `trigger` (or an inline `triggers` list, first entry), `label` and
/// `replace`, with `replace: |` / `>` block scalars gathered by indentation.
/// An item too exotic to read is skipped; the file as a whole always reads.
pub fn parse_espanso(content: &str) -> (r: Vec<NewSnippet>)
    ensures
        spec_parse_espanso(content@) is Some,
        imports_are(r@, spec_parse_espanso(content@)->0),
{
    parse_espanso_counted(content).0
}

/// [`parse_espanso`], with the number of matches dropped: those whose body
/// gives no snippet and those whose block scalar cannot be read.
#[verifier::spinoff_prover]
#[verifier::rlimit(60)]
pub fn parse_espanso_counted(content: &str) -> (r: (Vec<NewSnippet>, usize))
    ensures
        spec_parse_espanso(content@) is Some,
        imports_are(r.0@, spec_parse_espanso(content@)->0),
        r.1 == spec_espanso_dropped(content@),
{
    proof {
        law_espanso_never_fails(content@);
    }
    let v = chars_of(content);
    let bs = line_bounds(&v);
    let ghost ls = lines(v@);
    let n = bs.len();
    let dash = chars_of("- ");
    let k_trigger = chars_of("trigger:");
    let k_triggers = chars_of("triggers:");
    let k_label = chars_of("label:");
    let k_replace = chars_of("replace:");
    let mut trigger: Option<String> = None;
    let mut label: Option<String> = None;
    let mut replace: Option<String> = None;
    let mut out: Vec<NewSnippet> = Vec::new();
    let ghost mut fs: Seq<ImportFields> = seq![];
    let mut dropped: usize = 0;
    let mut i: usize = 0;
    while i < n
        invariant
            dropped + esp_drops(ls, i as nat, esp_view(trigger, label, replace, fs)) == esp_drops(
                ls,
                0,
                esp_start(),
            ),
            dropped + (if replace is Some {
                1int
            } else {
                0int
            }) <= i,
            i <= n == ls.len(),
            v@ == content@,
            ls == lines(v@),
            lines_at(v@, bs@, ls),
            dash@ == "- "@,
            k_trigger@ == "trigger:"@,
            k_triggers@ == "triggers:"@,
            k_label@ == "label:"@,
            k_replace@ == "replace:"@,
            imports_are(out@, fs),
            esp_run(ls, i as nat, esp_view(trigger, label, replace, fs)) == esp_run(
                ls,
                0,
                esp_start(),
            ),
        decreases n - i,
    {
        let (lo, hi) = bs[i];
        assert(bs@[i as int].0 <= bs@[i as int].1 <= v@.len());
        let ghost raw = ls[i as int];
        assert(v@.subrange(lo as int, hi as int) == raw);
        let a = skip_ws_forward(&v, lo, hi);
        let item = matches_at(&v, a, hi, &dash);
        let ghost st0 = esp_view(trigger, label, replace, fs);
        if item {
            let had_body = replace.is_some();
            let s = flush_snippet(trigger, label, replace);
            proof {
                lemma_flush_out(st0);
            }
            if had_body && s.is_none() {
                dropped += 1;
            }
            trigger = None;
            label = None;
            replace = None;
            match s {
                Some(s) => {
                    let ghost prev = out@;
                    out.push(s);
                    proof {
                        let e = EspState {
                            trigger: st0.trigger,
                            label: st0.label,
                            replace: st0.replace,
                            out: seq![],
                        };
                        fs = fs.push(esp_flush(e).out[0]);
                        assert forall|j: int| 0 <= j < out@.len() implies is_import(
                            #[trigger] out@[j],
                            fs[j],
                        ) by {
                            if j < prev.len() {
                                assert(out@[j] == prev[j]);
                            }
                        }
                    }
                },
                None => {},
            }
            assert(esp_view(trigger, label, replace, fs) == esp_flush(st0));
        }
        let ghost st1 = esp_view(trigger, label, replace, fs);
        assert(st1 == if esp_item_start(raw) {
            esp_flush(st0)
        } else {
            st0
        });
        let f0 = if item {
            a + dash.len()
        } else {
            a
        };
        let ghost f = esp_field(raw);
        assert(f == v@.subrange(f0 as int, hi as int));
        let is_rep = matches_at(&v, f0, hi, &k_replace);
        let mut block = false;
        if is_rep {
            assert(f.skip(k_replace@.len() as int) == v@.subrange(f0 + k_replace@.len(), hi as int));
            let (x, y) = trim_range(&v, f0 + k_replace.len(), hi);
            if block_marker_at(&v, x, y) {
                block = true;
                let base = indent_at(&v, lo, hi);
                match gather_block(&v, &bs, i + 1, base, Ghost(ls)) {
                    None => {
                        let (e, _) = block_extent(&v, &bs, i + 1, base, Ghost(ls));
                        proof {
                            lemma_block_text_none_nonempty(ls, i + 1, e as int);
                        }
                        replace = None;
                        dropped += 1;
                        i = e;
                    },
                    Some((t, e)) => {
                        replace = Some(string_of(&t));
                        i = e;
                    },
                }
            }
        }
        if !block {
            assert(!is_block_replace(f));
            if matches_at(&v, f0, hi, &k_trigger) {
                assert(f.skip(k_trigger@.len() as int) == v@.subrange(
                    f0 + k_trigger@.len(),
                    hi as int,
                ));
                let (x, y) = trim_range(&v, f0 + k_trigger.len(), hi);
                trigger = Some(string_of(&unquote_range(&v, x, y)));
            } else if matches_at(&v, f0, hi, &k_triggers) {
                assert(f.skip(k_triggers@.len() as int) == v@.subrange(
                    f0 + k_triggers@.len(),
                    hi as int,
                ));
                match first_listed_at(&v, f0 + k_triggers.len(), hi) {
                    Some(u) => {
                        trigger = Some(string_of(&u));
                    },
                    None => {},
                }
            } else if matches_at(&v, f0, hi, &k_label) {
                assert(f.skip(k_label@.len() as int) == v@.subrange(f0 + k_label@.len(), hi as int));
                let (x, y) = trim_range(&v, f0 + k_label.len(), hi);
                label = Some(string_of(&unquote_range(&v, x, y)));
            } else if is_rep {
                let (x, y) = trim_range(&v, f0 + k_replace.len(), hi);
                replace = Some(string_of(&unquote_range(&v, x, y)));
            }
            assert(esp_view(trigger, label, replace, fs) == esp_line(st1, f));
            i += 1;
        }
    }
    let had_body = replace.is_some();
    let s = flush_snippet(trigger, label, replace);
    let ghost st = esp_view(trigger, label, replace, fs);
    proof {
        lemma_flush_out(st);
    }
    if had_body && s.is_none() {
        dropped += 1;
    }
    match s {
        Some(s) => {
            let ghost prev = out@;
            out.push(s);
            assert forall|j: int| 0 <= j < out@.len() implies is_import(
                #[trigger] out@[j],
                esp_flush(st).out[j],
            ) by {
                if j < prev.len() {
                    assert(out@[j] == prev[j]);
                }
            }
        },
        None => {},
    }
    (out, dropped)
}

// --- JSON ------------------------------------------------------------------

/// The value of member `k`: the first member with that name.
pub open spec fn obj_get(o: Seq<(String, JsonValue)>, k: Seq<char>) -> Option<JsonValue>
    decreases o.len(),
{
    if o.len() == 0 {
        None
    } else if o[0].0@ == k {
        Some(o[0].1)
    } else {
        obj_get(o.drop_first(), k)
    }
}

/// The string value of the first of `keys` whose member is a string.
pub open spec fn pick(o: Seq<(String, JsonValue)>, keys: Seq<Seq<char>>) -> Option<Seq<char>>
    decreases keys.len(),
{
    if keys.len() == 0 {
        None
    } else {
        match obj_get(o, keys[0]) {
            Some(JsonValue::Str(s)) => Some(s@),
            _ => pick(o, keys.drop_first()),
        }
    }
}

pub open spec fn body_keys() -> Seq<Seq<char>> {
    seq!["body"@, "replace"@, "expansion"@, "text"@, "content"@]
}

pub open spec fn trigger_keys() -> Seq<Seq<char>> {
    seq!["trigger"@, "abbreviation"@, "shortcut"@, "keyword"@, "abbr"@]
}

pub open spec fn name_keys() -> Seq<Seq<char>> {
    seq!["name"@, "label"@, "title"@]
}

/// The snippet items of a document: a top-level array, or the array under
/// `matches` (else `snippets`) of a top-level object.
pub open spec fn json_items(doc: JsonValue) -> Option<Seq<JsonValue>> {
    match doc {
        JsonValue::Array(a) => Some(a@),
        JsonValue::Object(o) => {
            let w = match obj_get(o@, "matches"@) {
                Some(x) => Some(x),
                None => obj_get(o@, "snippets"@),
            };
            match w {
                Some(JsonValue::Array(a)) => Some(a@),
                _ => None,
            }
        },
        _ => None,
    }
}

/// The snippet of one item: an object with a string body under one of
/// [`body_keys`]; other items give none.
pub open spec fn json_item_fields(item: JsonValue) -> Option<ImportFields> {
    match item {
        JsonValue::Object(o) => match pick(o@, body_keys()) {
            Some(b) => spec_make_snippet(pick(o@, trigger_keys()), b, pick(o@, name_keys())),
            None => None,
        },
        _ => None,
    }
}

pub open spec fn json_fields(items: Seq<JsonValue>) -> Seq<ImportFields>
    decreases items.len(),
{
    if items.len() == 0 {
        seq![]
    } else {
        let prev = json_fields(items.drop_last());
        match json_item_fields(items.last()) {
            Some(f) => prev.push(f),
            None => prev,
        }
    }
}

/// How many items gave no snippet (not an object, or no usable body).
pub open spec fn json_dropped(items: Seq<JsonValue>) -> nat
    decreases items.len(),
{
    if items.len() == 0 {
        0
    } else {
        json_dropped(items.drop_last()) + if json_item_fields(items.last()) is None {
            1nat
        } else {
            0nat
        }
    }
}

proof fn lemma_json_dropped_le(items: Seq<JsonValue>)
    ensures
        json_dropped(items) <= items.len(),
    decreases items.len(),
{
    if items.len() > 0 {
        lemma_json_dropped_le(items.drop_last());
    }
}

/// What importing a document gives: its snippets, or the message of the
/// `Invalid` error for a document of the wrong shape.
pub open spec fn json_import(doc: JsonValue) -> Result<Seq<ImportFields>, Seq<char>> {
    match json_items(doc) {
        Some(items) => Ok(json_fields(items)),
        None => Err(
            if doc is Object {
                "JSON must be an array of snippets, or an object with a \"matches\"/\"snippets\" array"@
            } else {
                "JSON must be an array of snippets"@
            },
        ),
    }
}

pub open spec fn import_result_is(
    r: Result<Vec<NewSnippet>, CoreError>,
    e: Result<Seq<ImportFields>, Seq<char>>,
) -> bool {
    match e {
        Ok(fs) => r matches Ok(out) && imports_are(out@, fs),
        Err(m) => r matches Err(CoreError::Invalid(x)) && x@ == m,
    }
}

fn obj_lookup<'a>(o: &'a Vec<(String, JsonValue)>, k: &str) -> (r: Option<&'a JsonValue>)
    ensures
        match obj_get(o@, k@) {
            Some(x) => r matches Some(y) && *y == x,
            None => r is None,
        },
{
    let mut i: usize = 0;
    assert(o@.skip(0) == o@);
    while i < o.len()
        invariant
            i <= o@.len(),
            obj_get(o@, k@) == obj_get(o@.skip(i as int), k@),
        decreases o@.len() - i,
    {
        assert(o@.skip(i as int)[0] == o@[i as int]);
        assert(o@.skip(i as int).drop_first() == o@.skip(i + 1));
        if str_eq(o[i].0.as_str(), k) {
            return Some(&o[i].1);
        }
        i += 1;
    }
    None
}

fn pick_str(o: &Vec<(String, JsonValue)>, keys: &Vec<&str>) -> (r: Option<String>)
    ensures
        opt_view(r) == pick(o@, keys@.map_values(|k: &str| k@)),
{
    let ghost ks = keys@.map_values(|k: &str| k@);
    let mut i: usize = 0;
    assert(ks.skip(0) == ks);
    while i < keys.len()
        invariant
            i <= keys@.len(),
            ks == keys@.map_values(|k: &str| k@),
            pick(o@, ks) == pick(o@, ks.skip(i as int)),
        decreases keys@.len() - i,
    {
        assert(ks.skip(i as int)[0] == keys@[i as int]@);
        assert(ks.skip(i as int).drop_first() == ks.skip(i + 1));
        match obj_lookup(o, keys[i]) {
            Some(JsonValue::Str(s)) => {
                return Some(s.clone());
            },
            _ => {},
        }
        i += 1;
    }
    None
}

fn json_item_snippet(item: &JsonValue) -> (r: Option<NewSnippet>)
    ensures
        match json_item_fields(*item) {
            Some(f) => r matches Some(s) && is_import(s, f),
            None => r is None,
        },
{
    match item {
        JsonValue::Object(o) => {
            let bk = vec!["body", "replace", "expansion", "text", "content"];
            let tk = vec!["trigger", "abbreviation", "shortcut", "keyword", "abbr"];
            let nk = vec!["name", "label", "title"];
            assert(bk@.map_values(|k: &str| k@) =~= body_keys());
            assert(tk@.map_values(|k: &str| k@) =~= trigger_keys());
            assert(nk@.map_values(|k: &str| k@) =~= name_keys());
            match pick_str(o, &bk) {
                Some(b) => make_snippet(pick_str(o, &tk), b, pick_str(o, &nk)),
                None => None,
            }
        },
        _ => None,
    }
}

/// The snippets of a parsed JSON document (see [`json_import`]): an array of
/// snippet objects, or an object wrapping one under `matches`/`snippets`.
/// Items that are not objects or have no string body are skipped.
pub fn snippets_from_json(doc: &JsonValue) -> (r: CoreResult<Vec<NewSnippet>>)
    ensures
        import_result_is(r, json_import(*doc)),
{
    match snippets_from_json_counted(doc) {
        Ok((out, _)) => Ok(out),
        Err(e) => Err(e),
    }
}

/// [`snippets_from_json`], with the number of items that gave no snippet.
pub fn snippets_from_json_counted(doc: &JsonValue) -> (r: CoreResult<(Vec<NewSnippet>, usize)>)
    ensures
        match json_import(*doc) {
            Ok(fs) => r matches Ok((out, n)) && imports_are(out@, fs) && n == json_dropped(
                json_items(*doc)->0,
            ),
            Err(m) => r matches Err(CoreError::Invalid(x)) && x@ == m,
        },
{
    let items: &Vec<JsonValue> = match doc {
        JsonValue::Array(a) => a,
        JsonValue::Object(o) => {
            let w = match obj_lookup(o, "matches") {
                Some(x) => Some(x),
                None => obj_lookup(o, "snippets"),
            };
            match w {
                Some(JsonValue::Array(a)) => a,
                _ => {
                    return Err(
                        CoreError::Invalid(
                            "JSON must be an array of snippets, or an object with a \"matches\"/\"snippets\" array".to_owned(),
                        ),
                    );
                },
            }
        },
        _ => {
            return Err(CoreError::Invalid("JSON must be an array of snippets".to_owned()));
        },
    };
    let ghost iv = items@;
    assert(json_items(*doc) == Some(iv));
    let mut out: Vec<NewSnippet> = Vec::new();
    let mut dropped: usize = 0;
    let mut idx: usize = 0;
    while idx < items.len()
        invariant
            idx <= iv.len(),
            iv == items@,
            imports_are(out@, json_fields(iv.take(idx as int))),
            dropped == json_dropped(iv.take(idx as int)),
        decreases iv.len() - idx,
    {
        assert(iv.take(idx + 1).drop_last() == iv.take(idx as int));
        assert(iv.take(idx + 1).last() == iv[idx as int]);
        proof {
            lemma_json_dropped_le(iv.take(idx as int));
        }
        let ghost prev = out@;
        let snip = json_item_snippet(&items[idx]);
        if snip.is_none() {
            dropped += 1;
        }
        match snip {
            Some(s) => {
                out.push(s);
                assert forall|i: int| 0 <= i < out@.len() implies is_import(
                    #[trigger] out@[i],
                    json_fields(iv.take(idx + 1))[i],
                ) by {
                    if i < prev.len() {
                        assert(out@[i] == prev[i]);
                    }
                }
            },
            None => {},
        }
        idx += 1;
    }
    assert(iv.take(iv.len() as int) == iv);
    Ok((out, dropped))
}

/// Parses a JSON snippet file: invalid JSON is an `Invalid` error whose
/// message starts with `not valid JSON: `; a valid document gives what
/// [`snippets_from_json`] gives.
pub fn parse_json(content: &str) -> (r: CoreResult<Vec<NewSnippet>>)
    ensures
        match json_document(content@) {
            Some(doc) => import_result_is(r, json_import(doc)),
            None => r matches Err(CoreError::Invalid(m)) && starts_with(m@, "not valid JSON: "@),
        },
{
    match parse_json_counted(content) {
        Ok((out, _)) => Ok(out),
        Err(e) => Err(e),
    }
}

/// [`parse_json`], with the number of items that gave no snippet.
pub fn parse_json_counted(content: &str) -> (r: CoreResult<(Vec<NewSnippet>, usize)>)
    ensures
        match json_document(content@) {
            Some(doc) => match json_import(doc) {
                Ok(fs) => r matches Ok((out, n)) && imports_are(out@, fs) && n == json_dropped(
                    json_items(doc)->0,
                ),
                Err(m) => r matches Err(CoreError::Invalid(x)) && x@ == m,
            },
            None => r matches Err(CoreError::Invalid(m)) && starts_with(m@, "not valid JSON: "@),
        },
{
    match parse_json_text(content) {
        Ok(doc) => snippets_from_json_counted(&doc),
        Err(e) => {
            let mut m = "not valid JSON: ".to_owned();
            push_str(&mut m, e.as_str());
            assert((m@).take("not valid JSON: "@.len() as int) == "not valid JSON: "@);
            Err(CoreError::Invalid(m))
        },
    }
}

// --- dispatch and reporting -------------------------------------------------

/// Parses `content` in the given `format`. espanso and CSV never fail (bad
/// rows are dropped); JSON fails on invalid text or a document of the wrong
/// shape.
pub fn parse(content: &str, format: ImportFormat) -> (r: CoreResult<Vec<NewSnippet>>)
    ensures
        match format {
            ImportFormat::Espanso => r matches Ok(out) && imports_are(
                out@,
                spec_parse_espanso(content@)->0,
            ),
            ImportFormat::Csv => r matches Ok(out) && imports_are(out@, spec_parse_csv(content@)),
            ImportFormat::Json => match json_document(content@) {
                Some(doc) => import_result_is(r, json_import(doc)),
                None => r matches Err(CoreError::Invalid(m)) && starts_with(
                    m@,
                    "not valid JSON: "@,
                ),
            },
        },
{
    match parse_counted(content, format) {
        Ok((out, _)) => Ok(out),
        Err(e) => Err(e),
    }
}

/// The report an import starts from: nothing added yet, and `n` rows or
/// matches of the file skipped for want of a usable body.
pub open spec fn starting_report(rep: ForeignImportReport, n: nat) -> bool {
    rep.snippets_added == 0 && rep.triggers_dropped == 0 && rep.skipped == n
}

/// [`parse`], with the report the import starts from: rows or matches of the
/// file that carried no usable snippet are counted as skipped.
pub fn parse_counted(content: &str, format: ImportFormat) -> (r: CoreResult<(Vec<NewSnippet>, ForeignImportReport)>)
    ensures
        match format {
            ImportFormat::Espanso => spec_parse_espanso(content@) is Some && (r matches Ok((out, rep))
                && imports_are(out@, spec_parse_espanso(content@)->0) && starting_report(
                rep,
                spec_espanso_dropped(content@),
            )),
            ImportFormat::Csv => r matches Ok((out, rep)) && imports_are(out@, spec_parse_csv(content@))
                && starting_report(rep, spec_csv_dropped(content@)),
            ImportFormat::Json => match json_document(content@) {
                Some(doc) => match json_import(doc) {
                    Ok(fs) => r matches Ok((out, rep)) && imports_are(out@, fs) && starting_report(
                        rep,
                        json_dropped(json_items(doc)->0),
                    ),
                    Err(m) => r matches Err(CoreError::Invalid(x)) && x@ == m,
                },
                None => r matches Err(CoreError::Invalid(m)) && starts_with(
                    m@,
                    "not valid JSON: "@,
                ),
            },
        },
{
    let parsed = match format {
        ImportFormat::Espanso => Ok(parse_espanso_counted(content)),
        ImportFormat::Csv => Ok(parse_csv_counted(content)),
        ImportFormat::Json => parse_json_counted(content),
    };
    match parsed {
        Ok((out, n)) => Ok((out, ForeignImportReport { snippets_added: 0, triggers_dropped: 0, skipped: n })),
        Err(e) => Err(e),
    }
}

/// How creating one imported snippet went.
#[derive(Debug, Clone, Copy, PartialEq, Eq, Structural)]
pub enum ImportOutcome {
    Inserted,
    /// Inserted, but the trigger was dropped due to a conflict.
    InsertedTriggerDropped,
    /// Not inserted.
    Skipped,
}

/// What to do after creating an imported snippet failed.
#[derive(Debug, Clone, Copy, PartialEq, Eq, Structural)]
pub enum CreateFailure {
    /// The trigger is taken: create it again without one.
    RetryWithoutTrigger,
    /// The snippet is not valid: count it as skipped.
    Skip,
    /// Any other failure ends the import.
    Propagate,
}

pub open spec fn spec_after_create_error(e: CoreError, has_trigger: bool) -> CreateFailure {
    match e {
        CoreError::DuplicateTrigger(_) => if has_trigger {
            CreateFailure::RetryWithoutTrigger
        } else {
            CreateFailure::Propagate
        },
        CoreError::Invalid(_) => CreateFailure::Skip,
        _ => CreateFailure::Propagate,
    }
}

/// The next step after creating a snippet failed with `e`: a trigger clash
/// retries without the trigger, so the content is never lost to it.
pub fn after_create_error(e: &CoreError, has_trigger: bool) -> (r: CreateFailure)
    ensures
        r == spec_after_create_error(*e, has_trigger),
{
    match e {
        CoreError::DuplicateTrigger(_) => if has_trigger {
            CreateFailure::RetryWithoutTrigger
        } else {
            CreateFailure::Propagate
        },
        CoreError::Invalid(_) => CreateFailure::Skip,
        _ => CreateFailure::Propagate,
    }
}

/// What an import did, for the UI to report.
#[derive(Debug)]
pub struct ForeignImportReport {
    /// Snippets added to the library.
    pub snippets_added: usize,
    /// Added, but their shortcut collided with an existing one and was dropped.
    pub triggers_dropped: usize,
    /// Rows in the file that carried no usable snippet (see
    /// [`parse_counted`]), plus snippets that could not be created.
    pub skipped: usize,
}

impl Default for ForeignImportReport {
    fn default() -> (r: Self)
        ensures
            r.snippets_added == 0 && r.triggers_dropped == 0 && r.skipped == 0,
    {
        ForeignImportReport { snippets_added: 0, triggers_dropped: 0, skipped: 0 }
    }
}

impl ForeignImportReport {
    /// Counts one snippet's outcome: a dropped trigger still counts as added.
    pub fn record(&mut self, outcome: ImportOutcome)
        requires
            old(self).snippets_added < usize::MAX,
            old(self).triggers_dropped < usize::MAX,
            old(self).skipped < usize::MAX,
        ensures
            final(self).snippets_added == old(self).snippets_added + (if outcome
                == ImportOutcome::Skipped {
                0int
            } else {
                1int
            }),
            final(self).triggers_dropped == old(self).triggers_dropped + (if outcome
                == ImportOutcome::InsertedTriggerDropped {
                1int
            } else {
                0int
            }),
            final(self).skipped == old(self).skipped + (if outcome == ImportOutcome::Skipped {
                1int
            } else {
                0int
            }),
    {
        match outcome {
            ImportOutcome::Inserted => {
                self.snippets_added += 1;
            },
            ImportOutcome::InsertedTriggerDropped => {
                self.snippets_added += 1;
                self.triggers_dropped += 1;
            },
            ImportOutcome::Skipped => {
                self.skipped += 1;
            },
        }
    }
}

// --- laws ------------------------------------------------------------------

/// An imported snippet can be found and created: its name and body are not
/// blank, and a trigger, when it has one, is trimmed and not empty.
pub open spec fn well_formed_import(f: ImportFields) -> bool {
    &&& trim(f.0).len() > 0
    &&& trim(f.2).len() > 0
    &&& (f.1 matches Some(t) ==> t.len() > 0 && trim(t) == t)
}

proof fn lemma_first_filled(ls: Seq<Seq<char>>)
    ensures
        first_filled(ls) matches Some(l) ==> l.len() > 0 && !crate::text::is_ws(l[0]),
    decreases ls.len(),
{
    if ls.len() > 0 {
        lemma_trim_first(ls[0]);
        lemma_first_filled(ls.drop_first());
    }
}

proof fn lemma_first_line_filled(b: Seq<char>)
    ensures
        trim(spec_first_line(b)).len() > 0,
{
    lemma_first_filled(lines(b));
    match first_filled(lines(b)) {
        Some(l) => {
            if l.len() > NAME_CAP {
                assert(l.take(NAME_CAP as int)[0] == l[0]);
            }
            lemma_trim_filled(spec_first_line(b));
        },
        None => {
            reveal_strlit("Imported snippet");
            assert(!crate::text::is_ws("Imported snippet"@[0]));
            lemma_trim_filled("Imported snippet"@);
        },
    }
}

proof fn lemma_filled(t: Option<Seq<char>>)
    ensures
        filled(t) matches Some(x) ==> x.len() > 0 && trim(x) == x,
{
    if let Some(s) = t {
        lemma_trim_idem(s);
    }
}

/// Every snippet built from raw parts is well formed (see
/// [`well_formed_import`]): the name falls back far enough that it is never
/// blank.
pub proof fn law_make_snippet_well_formed(
    trigger: Option<Seq<char>>,
    body: Seq<char>,
    name: Option<Seq<char>>,
)
    ensures
        spec_make_snippet(trigger, body, name) matches Some(f) ==> well_formed_import(f),
{
    lemma_filled(trigger);
    lemma_filled(name);
    lemma_first_line_filled(spec_normalize_body(body));
}

pub open spec fn all_well_formed(fs: Seq<ImportFields>) -> bool {
    forall|i: int| 0 <= i < fs.len() ==> well_formed_import(#[trigger] fs[i])
}

proof fn lemma_push_well_formed(fs: Seq<ImportFields>, f: ImportFields)
    requires
        all_well_formed(fs),
        well_formed_import(f),
    ensures
        all_well_formed(fs.push(f)),
{
    assert forall|i: int| 0 <= i < fs.push(f).len() implies well_formed_import(
        #[trigger] fs.push(f)[i],
    ) by {
        if i < fs.len() {
            assert(fs.push(f)[i] == fs[i]);
        }
    }
}

/// Every snippet a CSV import gives is well formed.
pub proof fn law_csv_imports_well_formed(content: Seq<char>)
    ensures
        all_well_formed(spec_parse_csv(content)),
{
    lemma_csv_fields(csv_rows(content, csv_delim(content)));
}

proof fn lemma_csv_fields(rows: Seq<Seq<Seq<char>>>)
    ensures
        all_well_formed(csv_fields(rows)),
    decreases rows.len(),
{
    if rows.len() > 0 {
        lemma_csv_fields(rows.drop_last());
        let row = rows.last();
        if !blank_row(row) {
            law_make_snippet_well_formed(
                Some(row[0]),
                if row.len() > 1 {
                    row[1]
                } else {
                    seq![]
                },
                if row.len() > 2 {
                    Some(row[2])
                } else {
                    None
                },
            );
        }
        if let Some(f) = csv_row_fields(row, rows.len() == 1) {
            lemma_push_well_formed(csv_fields(rows.drop_last()), f);
        }
    }
}

proof fn lemma_json_fields(items: Seq<JsonValue>)
    ensures
        all_well_formed(json_fields(items)),
    decreases items.len(),
{
    if items.len() > 0 {
        lemma_json_fields(items.drop_last());
        if let JsonValue::Object(o) = items.last() {
            if let Some(b) = pick(o@, body_keys()) {
                law_make_snippet_well_formed(pick(o@, trigger_keys()), b, pick(o@, name_keys()));
            }
        }
        if let Some(f) = json_item_fields(items.last()) {
            lemma_push_well_formed(json_fields(items.drop_last()), f);
        }
    }
}

/// Every snippet a JSON import gives is well formed.
pub proof fn law_json_imports_well_formed(doc: JsonValue)
    ensures
        json_import(doc) matches Ok(fs) ==> all_well_formed(fs),
{
    if let Some(items) = json_items(doc) {
        lemma_json_fields(items);
    }
}

proof fn lemma_flush_well_formed(st: EspState)
    requires
        all_well_formed(st.out),
    ensures
        all_well_formed(esp_flush(st).out),
{
    if let Some(b) = st.replace {
        law_make_snippet_well_formed(st.trigger, b, st.label);
        if let Some(f) = spec_make_snippet(st.trigger, b, st.label) {
            lemma_push_well_formed(st.out, f);
        }
    }
}

proof fn lemma_esp_run_well_formed(ls: Seq<Seq<char>>, i: nat, st: EspState)
    requires
        all_well_formed(st.out),
    ensures
        esp_run(ls, i, st) matches Some(e) ==> all_well_formed(e.out),
    decreases ls.len() - i,
{
    if i < ls.len() {
        let raw = ls[i as int];
        lemma_flush_well_formed(st);
        let st1 = if esp_item_start(raw) {
            esp_flush(st)
        } else {
            st
        };
        let f = esp_field(raw);
        if is_block_replace(f) {
            let start = i + 1int;
            let end = block_end(ls, start, indent(raw));
            lemma_block_end(ls, start, indent(raw));
            match block_text(ls.subrange(start, end)) {
                Some(t) => lemma_esp_run_well_formed(
                    ls,
                    end as nat,
                    EspState { trigger: st1.trigger, label: st1.label, replace: Some(t), out: st1.out },
                ),
                None => lemma_esp_run_well_formed(
                    ls,
                    end as nat,
                    EspState { trigger: st1.trigger, label: st1.label, replace: None, out: st1.out },
                ),
            }
        } else {
            lemma_esp_run_well_formed(ls, i + 1, esp_line(st1, f));
        }
    }
}

/// Every snippet an espanso import gives is well formed.
pub proof fn law_espanso_imports_well_formed(content: Seq<char>)
    ensures
        spec_parse_espanso(content) matches Some(fs) ==> all_well_formed(fs),
{
    lemma_esp_run_well_formed(lines(content), 0, esp_start());
    if let Some(st) = esp_run(lines(content), 0, esp_start()) {
        lemma_flush_well_formed(st);
    }
}

/// Recording outcomes never counts more dropped triggers than added
/// snippets: a trigger clash drops the trigger, never the snippet.
pub proof fn law_report_drops_within_added(
    before: ForeignImportReport,
    after: ForeignImportReport,
    outcome: ImportOutcome,
)
    requires
        before.triggers_dropped <= before.snippets_added,
        after.snippets_added == before.snippets_added + (if outcome == ImportOutcome::Skipped {
            0int
        } else {
            1int
        }),
        after.triggers_dropped == before.triggers_dropped + (if outcome
            == ImportOutcome::InsertedTriggerDropped {
            1int
        } else {
            0int
        }),
    ensures
        after.triggers_dropped <= after.snippets_added,
{
}


/// The string value of member `k` of an object, when it is a string.
pub open spec fn str_member(o: Seq<(String, JsonValue)>, k: Seq<char>) -> Option<Seq<char>> {
    match obj_get(o, k) {
        Some(JsonValue::Str(x)) => Some(x@),
        _ => None,
    }
}

/// A JSON item's trigger comes from the first string member among
/// `trigger`, `abbreviation`, `shortcut`, `keyword` and `abbr`, trimmed (and
/// none when it is blank): an item that names its abbreviation under any of
/// these keys keeps it.
pub proof fn law_json_trigger_member(item: JsonValue)
    ensures
        item matches JsonValue::Object(o) ==> ({
            let o = o@;
            let t = match str_member(o, "trigger"@) {
                Some(x) => Some(x),
                None => match str_member(o, "abbreviation"@) {
                    Some(x) => Some(x),
                    None => match str_member(o, "shortcut"@) {
                        Some(x) => Some(x),
                        None => match str_member(o, "keyword"@) {
                            Some(x) => Some(x),
                            None => str_member(o, "abbr"@),
                        },
                    },
                },
            };
            json_item_fields(item) matches Some(f) ==> f.1 == filled(t)
        }),
{
    if let JsonValue::Object(ov) = item {
        let o = ov@;
        let tk = trigger_keys();
        assert(tk[0] == "trigger"@);
        assert(tk.drop_first() =~= seq!["abbreviation"@, "shortcut"@, "keyword"@, "abbr"@]);
        let t1 = tk.drop_first();
        assert(t1.drop_first() =~= seq!["shortcut"@, "keyword"@, "abbr"@]);
        let t2 = t1.drop_first();
        assert(t2.drop_first() =~= seq!["keyword"@, "abbr"@]);
        let t3 = t2.drop_first();
        assert(t3.drop_first() =~= seq!["abbr"@]);
        let t4 = t3.drop_first();
        assert(t4.drop_first() =~= Seq::<Seq<char>>::empty());
        assert(pick(o, t4.drop_first()) is None);
        assert(pick(o, t4) == str_member(o, "abbr"@));
        assert(pick(o, t3) == match str_member(o, "keyword"@) {
            Some(x) => Some(x),
            None => str_member(o, "abbr"@),
        });
        assert(t2[0] == "shortcut"@ && t1[0] == "abbreviation"@ && t3[0] == "keyword"@);
        assert(pick(o, t2) == match str_member(o, "shortcut"@) {
            Some(x) => Some(x),
            None => pick(o, t3),
        });
        assert(pick(o, t1) == match str_member(o, "abbreviation"@) {
            Some(x) => Some(x),
            None => pick(o, t2),
        });
        assert(pick(o, tk) == match str_member(o, "trigger"@) {
            Some(x) => Some(x),
            None => pick(o, t1),
        });
        if let Some(b) = pick(o, body_keys()) {
            if let Some(f) = spec_make_snippet(pick(o, tk), b, pick(o, name_keys())) {
                assert(f.1 == filled(pick(o, tk)));
            }
        }
    }
}


/// The first string member among five keys, in order.
pub open spec fn first_str5(o: Seq<(String, JsonValue)>, a: Seq<char>, b: Seq<char>, c: Seq<char>, d: Seq<char>, e: Seq<char>) -> Option<Seq<char>> {
    match str_member(o, a) {
        Some(x) => Some(x),
        None => match str_member(o, b) {
            Some(x) => Some(x),
            None => match str_member(o, c) {
                Some(x) => Some(x),
                None => match str_member(o, d) {
                    Some(x) => Some(x),
                    None => str_member(o, e),
                },
            },
        },
    }
}

proof fn lemma_pick5(o: Seq<(String, JsonValue)>, a: Seq<char>, b: Seq<char>, c: Seq<char>, d: Seq<char>, e: Seq<char>)
    ensures
        pick(o, seq![a, b, c, d, e]) == first_str5(o, a, b, c, d, e),
{
    let k0 = seq![a, b, c, d, e];
    let k1 = k0.drop_first();
    let k2 = k1.drop_first();
    let k3 = k2.drop_first();
    let k4 = k3.drop_first();
    assert(k1 =~= seq![b, c, d, e]);
    assert(k2 =~= seq![c, d, e]);
    assert(k3 =~= seq![d, e]);
    assert(k4 =~= seq![e]);
    assert(k4.drop_first() =~= Seq::<Seq<char>>::empty());
    assert(pick(o, k4.drop_first()) is None);
    assert(k0[0] == a && k1[0] == b && k2[0] == c && k3[0] == d && k4[0] == e);
    assert(pick(o, k4) == str_member(o, e));
    assert(pick(o, k3) == match str_member(o, d) {
        Some(x) => Some(x),
        None => pick(o, k4),
    });
    assert(pick(o, k2) == match str_member(o, c) {
        Some(x) => Some(x),
        None => pick(o, k3),
    });
    assert(pick(o, k1) == match str_member(o, b) {
        Some(x) => Some(x),
        None => pick(o, k2),
    });
    assert(pick(o, k0) == match str_member(o, a) {
        Some(x) => Some(x),
        None => pick(o, k1),
    });
}

proof fn lemma_pick3(o: Seq<(String, JsonValue)>, a: Seq<char>, b: Seq<char>, c: Seq<char>)
    ensures
        pick(o, seq![a, b, c]) == match str_member(o, a) {
            Some(x) => Some(x),
            None => match str_member(o, b) {
                Some(x) => Some(x),
                None => str_member(o, c),
            },
        },
{
    let k0 = seq![a, b, c];
    let k1 = k0.drop_first();
    let k2 = k1.drop_first();
    assert(k1 =~= seq![b, c]);
    assert(k2 =~= seq![c]);
    assert(k2.drop_first() =~= Seq::<Seq<char>>::empty());
    assert(pick(o, k2.drop_first()) is None);
    assert(k0[0] == a && k1[0] == b && k2[0] == c);
    assert(pick(o, k2) == str_member(o, c));
    assert(pick(o, k1) == match str_member(o, b) {
        Some(x) => Some(x),
        None => pick(o, k2),
    });
    assert(pick(o, k0) == match str_member(o, a) {
        Some(x) => Some(x),
        None => pick(o, k1),
    });
}

/// A JSON item gives a snippet only when it is an object with a string body
/// under `body`, `replace`, `expansion`, `text` or `content` (the first
/// present wins); its trigger comes from `trigger`, `abbreviation`,
/// `shortcut`, `keyword` or `abbr`, and its name from `name`, `label` or
/// `title`, each the first string member present in that order; the snippet
/// is then made from those as any imported snippet is.
pub proof fn law_json_item_members(item: JsonValue)
    ensures
        json_item_fields(item) == match item {
            JsonValue::Object(ov) => {
                let o = ov@;
                match first_str5(o, "body"@, "replace"@, "expansion"@, "text"@, "content"@) {
                    Some(b) => spec_make_snippet(
                        first_str5(o, "trigger"@, "abbreviation"@, "shortcut"@, "keyword"@, "abbr"@),
                        b,
                        match str_member(o, "name"@) {
                            Some(x) => Some(x),
                            None => match str_member(o, "label"@) {
                                Some(x) => Some(x),
                                None => str_member(o, "title"@),
                            },
                        },
                    ),
                    None => None,
                }
            },
            _ => None,
        },
{
    if let JsonValue::Object(ov) = item {
        let o = ov@;
        lemma_pick5(o, "body"@, "replace"@, "expansion"@, "text"@, "content"@);
        lemma_pick5(o, "trigger"@, "abbreviation"@, "shortcut"@, "keyword"@, "abbr"@);
        lemma_pick3(o, "name"@, "label"@, "title"@);
        assert(body_keys() == seq!["body"@, "replace"@, "expansion"@, "text"@, "content"@]);
        assert(trigger_keys() == seq!["trigger"@, "abbreviation"@, "shortcut"@, "keyword"@, "abbr"@]);
        assert(name_keys() == seq!["name"@, "label"@, "title"@]);
    }
}


/// A cell holding none of the chars CSV treats specially.
pub open spec fn plain_cell(a: Seq<char>, delim: char) -> bool {
    forall|k: int| 0 <= k < a.len() ==> #[trigger] a[k] != '"' && a[k] != delim && a[k] != '\n' && a[k] != '\r'
}

proof fn lemma_scan_plain(a: Seq<char>, rest: Seq<char>, delim: char, st: CsvScan)
    requires
        plain_cell(a, delim),
        !st.quoted,
    ensures
        csv_scan(a + rest, delim, st) == csv_scan(
            rest,
            delim,
            CsvScan { rows: st.rows, row: st.row, field: st.field + a, quoted: false },
        ),
    decreases a.len(),
{
    if a.len() == 0 {
        assert(a + rest =~= rest);
        assert(st.field + a =~= st.field);
    } else {
        let s = a + rest;
        assert(s[0] == a[0]);
        assert(s.drop_first() =~= a.drop_first() + rest);
        let st1 = CsvScan { rows: st.rows, row: st.row, field: st.field.push(a[0]), quoted: false };
        assert(plain_cell(a.drop_first(), delim)) by {
            assert forall|k: int| 0 <= k < a.drop_first().len() implies #[trigger] a.drop_first()[k] != '"'
                && a.drop_first()[k] != delim && a.drop_first()[k] != '\n' && a.drop_first()[k] != '\r' by {
                assert(a.drop_first()[k] == a[k + 1]);
            }
        }
        lemma_scan_plain(a.drop_first(), rest, delim, st1);
        assert(st.field.push(a[0]) + a.drop_first() =~= st.field + a);
    }
}

proof fn lemma_scan_quoted(q: Seq<char>, rest: Seq<char>, delim: char, st: CsvScan)
    requires
        forall|k: int| 0 <= k < q.len() ==> #[trigger] q[k] != '"',
        st.quoted,
    ensures
        csv_scan(q + rest, delim, st) == csv_scan(
            rest,
            delim,
            CsvScan { rows: st.rows, row: st.row, field: st.field + q, quoted: true },
        ),
    decreases q.len(),
{
    if q.len() == 0 {
        assert(q + rest =~= rest);
        assert(st.field + q =~= st.field);
    } else {
        let s = q + rest;
        assert(s[0] == q[0]);
        assert(s.drop_first() =~= q.drop_first() + rest);
        let st1 = CsvScan { rows: st.rows, row: st.row, field: st.field.push(q[0]), quoted: true };
        assert forall|k: int| 0 <= k < q.drop_first().len() implies #[trigger] q.drop_first()[k] != '"' by {
            assert(q.drop_first()[k] == q[k + 1]);
        }
        lemma_scan_quoted(q.drop_first(), rest, delim, st1);
        assert(st.field.push(q[0]) + q.drop_first() =~= st.field + q);
    }
}

/// Plain cells split at the delimiter, and lines at `\n`: `a,b\nc,d` reads as
/// the rows `[a, b]` and `[c, d]`.
pub proof fn law_csv_plain_rows(a: Seq<char>, b: Seq<char>, c: Seq<char>, d: Seq<char>, delim: char)
    requires
        plain_cell(a, delim),
        plain_cell(b, delim),
        plain_cell(c, delim),
        plain_cell(d, delim),
        delim != '"' && delim != '\n' && delim != '\r',
    ensures
        csv_rows(a + seq![delim] + b + seq!['\n'] + c + seq![delim] + d, delim) == seq![seq![a, b], seq![c, d]],
{
    let e = Seq::<char>::empty();
    let st0 = CsvScan { rows: seq![], row: seq![], field: seq![], quoted: false };
    let s = a + seq![delim] + b + seq!['\n'] + c + seq![delim] + d;
    let r1 = seq![delim] + b + seq!['\n'] + c + seq![delim] + d;
    assert(s =~= a + r1);
    lemma_scan_plain(a, r1, delim, st0);
    let st1 = CsvScan { rows: seq![], row: seq![], field: e + a, quoted: false };
    assert(r1[0] == delim);
    let r2 = b + seq!['\n'] + c + seq![delim] + d;
    assert(r1.drop_first() =~= r2);
    let st2 = CsvScan { rows: seq![], row: seq![e + a], field: seq![], quoted: false };
    let r3 = seq!['\n'] + c + seq![delim] + d;
    assert(r2 =~= b + r3);
    lemma_scan_plain(b, r3, delim, st2);
    let st3 = CsvScan { rows: seq![], row: seq![e + a], field: e + b, quoted: false };
    assert(r3[0] == '\n');
    let r4 = c + seq![delim] + d;
    assert(r3.drop_first() =~= r4);
    let st4 = CsvScan { rows: seq![seq![e + a].push(e + b)], row: seq![], field: seq![], quoted: false };
    let r5 = seq![delim] + d;
    assert(r4 =~= c + r5);
    lemma_scan_plain(c, r5, delim, st4);
    let st5 = CsvScan { rows: st4.rows, row: seq![], field: e + c, quoted: false };
    assert(r5[0] == delim);
    assert(r5.drop_first() =~= d);
    let st6 = CsvScan { rows: st4.rows, row: seq![e + c], field: seq![], quoted: false };
    assert(d =~= d + e);
    lemma_scan_plain(d, e, delim, st6);
    assert(csv_scan(e, delim, CsvScan { rows: st4.rows, row: seq![e + c], field: e + d, quoted: false })
        == CsvScan { rows: st4.rows, row: seq![e + c], field: e + d, quoted: false });
    assert(e + a =~= a);
    assert(e + b =~= b);
    assert(e + c =~= c);
    assert(e + d =~= d);
    assert(seq![a].push(b) =~= seq![a, b]);
    assert(seq![c].push(d) =~= seq![c, d]);
    assert(seq![seq![a, b]].push(seq![c, d]) =~= seq![seq![a, b], seq![c, d]]);
}

/// A quoted cell keeps delimiters, line breaks and carriage returns as text,
/// and `""` inside it stands for one quote: `"x""y"` reads as the single
/// cell `x"y`.
pub proof fn law_csv_quoted_cell(x: Seq<char>, y: Seq<char>, delim: char)
    requires
        forall|k: int| 0 <= k < x.len() ==> #[trigger] x[k] != '"',
        forall|k: int| 0 <= k < y.len() ==> #[trigger] y[k] != '"',
        delim != '"',
    ensures
        csv_rows(seq!['"'] + x + seq!['"', '"'] + y + seq!['"'], delim) == seq![
            seq![x + seq!['"'] + y],
        ],
{
    let e = Seq::<char>::empty();
    let s = seq!['"'] + x + seq!['"', '"'] + y + seq!['"'];
    let st0 = CsvScan { rows: seq![], row: seq![], field: seq![], quoted: false };
    assert(s[0] == '"');
    let r1 = x + seq!['"', '"'] + y + seq!['"'];
    assert(s.drop_first() =~= r1);
    let st1 = CsvScan { rows: seq![], row: seq![], field: seq![], quoted: true };
    let r2 = seq!['"', '"'] + y + seq!['"'];
    assert(r1 =~= x + r2);
    lemma_scan_quoted(x, r2, delim, st1);
    let st2 = CsvScan { rows: seq![], row: seq![], field: e + x, quoted: true };
    assert(r2[0] == '"' && r2.len() > 1 && r2[1] == '"');
    let r3 = y + seq!['"'];
    assert(r2.skip(2) =~= r3);
    let st3 = CsvScan { rows: seq![], row: seq![], field: (e + x).push('"'), quoted: true };
    lemma_scan_quoted(y, seq!['"'], delim, st3);
    let st4 = CsvScan { rows: seq![], row: seq![], field: (e + x).push('"') + y, quoted: true };
    let last = seq!['"'];
    assert(last[0] == '"');
    assert(last.drop_first() =~= e);
    let st5 = CsvScan { rows: seq![], row: seq![], field: (e + x).push('"') + y, quoted: false };
    assert(csv_scan(e, delim, st5) == st5);
    assert((e + x).push('"') + y =~= x + seq!['"'] + y);
    let row: Seq<Seq<char>> = seq![];
    assert(row.push(x + seq!['"'] + y) =~= seq![x + seq!['"'] + y]);
    assert((x + seq!['"'] + y).len() > 0);
}


proof fn lemma_replace_prefix(p: Seq<char>, r: Seq<char>, pat: Seq<char>, rep: Seq<char>)
    requires
        pat.len() > 0,
        forall|k: int| 0 <= k < p.len() ==> #[trigger] p[k] != pat[0],
    ensures
        replace_all(p + r, pat, rep) == p + replace_all(r, pat, rep),
    decreases p.len(),
{
    if p.len() > 0 {
        let s = p + r;
        assert(s[0] == p[0]);
        if starts_with(s, pat) {
            assert(s.take(pat.len() as int)[0] == s[0]);
        }
        assert(s.drop_first() =~= p.drop_first() + r);
        assert forall|k: int| 0 <= k < p.drop_first().len() implies #[trigger] p.drop_first()[k] != pat[0] by {
            assert(p.drop_first()[k] == p[k + 1]);
        }
        lemma_replace_prefix(p.drop_first(), r, pat, rep);
        assert(seq![p[0]] + (p.drop_first() + replace_all(r, pat, rep)) =~= p + replace_all(r, pat, rep));
    } else {
        assert(p + r =~= r);
        assert(p + replace_all(r, pat, rep) =~= replace_all(r, pat, rep));
    }
}

/// Text free of `$` and `{`.
pub open spec fn free_of_marks(p: Seq<char>) -> bool {
    forall|k: int| 0 <= k < p.len() ==> #[trigger] p[k] != '$' && p[k] != '{'
}

proof fn lemma_at(p: Seq<char>, lit: Seq<char>, q: Seq<char>, pat: Seq<char>, rep: Seq<char>)
    requires
        pat.len() > 0,
        lit.len() >= pat.len(),
        lit.take(pat.len() as int) == pat,
    ensures
        replace_all(lit + q, pat, rep) == rep + replace_all(lit.skip(pat.len() as int) + q, pat, rep),
{
    let s = lit + q;
    assert(s.take(pat.len() as int) =~= pat);
    assert(s.skip(pat.len() as int) =~= lit.skip(pat.len() as int) + q);
}

/// Importing maps espanso's caret mark: wherever `$|$` stands in a body
/// (after text free of `$` and `{`), the imported body has `{cursor}` there,
/// and the rest is mapped the same way.
pub proof fn law_import_maps_caret(p: Seq<char>, q: Seq<char>)
    requires
        free_of_marks(p),
    ensures
        spec_normalize_body(p + "$|$"@ + q) == p + "{cursor}"@ + spec_normalize_body(q),
{
    reveal_strlit("$|$");
    reveal_strlit("{cursor}");
    reveal_strlit("{{clipboard}}");
    let caret = "$|$"@;
    let cur = "{cursor}"@;
    let clip = "{{clipboard}}"@;
    assert(p + caret + q =~= p + (caret + q));
    lemma_replace_prefix(p, caret + q, caret, cur);
    assert(caret.take(3) =~= caret);
    lemma_at(caret, caret, q, caret, cur);
    assert(caret.skip(3) + q =~= q);
    let iq = replace_all(q, caret, cur);
    assert(p + (cur + iq) =~= p + (cur + iq));
    lemma_replace_prefix(p, cur + iq, clip, "{clipboard}"@);
    let s = cur + iq;
    assert(s[0] == '{' && s[1] == 'c');
    if starts_with(s, clip) {
        assert(s.take(13)[1] == s[1]);
    }
    let tail = cur.drop_first();
    assert(s.drop_first() =~= tail + iq);
    assert forall|k: int| 0 <= k < tail.len() implies #[trigger] tail[k] != clip[0] by {}
    lemma_replace_prefix(tail, iq, clip, "{clipboard}"@);
    assert(p + (seq!['{'] + (tail + replace_all(iq, clip, "{clipboard}"@))) =~= p + cur + replace_all(
        iq,
        clip,
        "{clipboard}"@,
    ));
}

/// Importing maps `{{clipboard}}` (wherever it stands after text free of `$`
/// and `{`) to the `{clipboard}` token, and the rest the same way.
pub proof fn law_import_maps_clipboard(p: Seq<char>, q: Seq<char>)
    requires
        free_of_marks(p),
    ensures
        spec_normalize_body(p + "{{clipboard}}"@ + q) == p + "{clipboard}"@ + spec_normalize_body(q),
{
    reveal_strlit("$|$");
    reveal_strlit("{cursor}");
    reveal_strlit("{{clipboard}}");
    reveal_strlit("{clipboard}");
    let caret = "$|$"@;
    let clip = "{{clipboard}}"@;
    let cl = "{clipboard}"@;
    let cur = "{cursor}"@;
    assert(p + clip + q =~= (p + clip) + q);
    assert forall|k: int| 0 <= k < (p + clip).len() implies #[trigger] (p + clip)[k] != caret[0] by {
        if k >= p.len() {
            assert((p + clip)[k] == clip[k - p.len()]);
        }
    }
    lemma_replace_prefix(p + clip, q, caret, cur);
    let iq = replace_all(q, caret, cur);
    assert((p + clip) + iq =~= p + (clip + iq));
    lemma_replace_prefix(p, clip + iq, clip, cl);
    assert(clip.take(13) =~= clip);
    lemma_at(clip, clip, iq, clip, cl);
    assert(clip.skip(13) + iq =~= iq);
    assert(p + (cl + replace_all(iq, clip, cl)) =~= p + cl + replace_all(iq, clip, cl));
}

} // verus!
