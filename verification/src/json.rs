//! A JSON document as plain values, for importers that read JSON.

use vstd::prelude::*;
use crate::tokens::{all_digits, digits_value, i64_fits};

verus! {

/// A JSON value. Numbers keep their text; an object keeps its members in the
/// order the parser hands them out.
#[derive(Debug)]
pub enum JsonValue {
    Null,
    Bool(bool),
    Number(String),
    Str(String),
    Array(Vec<JsonValue>),
    Object(Vec<(String, JsonValue)>),
}

/// `serde_json::Value`, read only through [`parse_json_text`].
#[verifier::external_type_specification]
#[verifier::external_body]
pub struct ExSerdeJsonValue(serde_json::Value);

/// The document `serde_json::from_str` reads from a text, when it is valid
/// JSON.
pub uninterp spec fn json_document(text: Seq<char>) -> Option<JsonValue>;

/// `serde_json::from_str::<serde_json::Value>`. Claimed: the result depends on
/// the text alone, and it is `Ok` exactly when the text is valid JSON (the
/// named document exists); the error's message is `serde_json`'s own and is
/// not stated.
#[verifier::external_body]
pub(crate) fn parse_json_text(text: &str) -> (r: Result<JsonValue, String>)
    ensures
        match r {
            Ok(d) => json_document(text@) == Some(d),
            Err(_) => json_document(text@) is None,
        },
{
    match serde_json::from_str::<serde_json::Value>(text) {
        Ok(v) => Ok(json_value_from(v)),
        Err(e) => Err(e.to_string()),
    }
}

/// Moves a `serde_json::Value` into a [`JsonValue`], variant by variant.
/// Nothing is claimed of it; only [`parse_json_text`] calls it.
#[verifier::external_body]
fn json_value_from(v: serde_json::Value) -> JsonValue {
    match v {
        serde_json::Value::Null => JsonValue::Null,
        serde_json::Value::Bool(b) => JsonValue::Bool(b),
        serde_json::Value::Number(n) => JsonValue::Number(n.to_string()),
        serde_json::Value::String(s) => JsonValue::Str(s),
        serde_json::Value::Array(a) => JsonValue::Array(a.into_iter().map(json_value_from).collect()),
        serde_json::Value::Object(o) => JsonValue::Object(
            o.into_iter().map(|(k, x)| (k, json_value_from(x))).collect(),
        ),
    }
}

/// JSON whitespace: space, tab, line feed and carriage return.
pub open spec fn is_json_ws(c: char) -> bool {
    c == ' ' || c == '\t' || c == '\n' || c == '\r'
}

/// `s` without JSON whitespace at its start.
pub open spec fn skip_json_ws(s: Seq<char>) -> Seq<char>
    decreases s.len(),
{
    if s.len() > 0 && is_json_ws(s[0]) {
        skip_json_ws(s.drop_first())
    } else {
        s
    }
}

/// `s` without JSON whitespace at its end.
pub open spec fn drop_json_ws(s: Seq<char>) -> Seq<char>
    decreases s.len(),
{
    if s.len() > 0 && is_json_ws(s.last()) {
        drop_json_ws(s.drop_last())
    } else {
        s
    }
}

/// The integer `serde_json::from_str::<i64>` reads from a text: between
/// optional JSON whitespace, an optional `-` and ASCII digits with no
/// leading zero, whose value fits in an `i64`; `-0` reads as a float and is
/// refused, as are fractions, exponents and anything else.
pub open spec fn json_i64(text: Seq<char>) -> Option<i64> {
    let t = drop_json_ws(skip_json_ws(text));
    let neg = t.len() > 0 && t[0] == '-';
    let ds = if neg {
        t.skip(1)
    } else {
        t
    };
    if ds.len() == 0 || !all_digits(ds) || (ds.len() > 1 && ds[0] == '0') {
        None
    } else {
        let v = if neg {
            -digits_value(ds)
        } else {
            digits_value(ds)
        };
        if neg && v == 0 {
            None
        } else if i64_fits(v) {
            Some(v as i64)
        } else {
            None
        }
    }
}

/// `serde_json::from_str::<i64>`. Claimed: it gives the integer `json_i64`
/// describes, and fails exactly where that gives none (serde_json's
/// `deserialize_number` and `parse_integer`: one leading zero at most, a
/// negative zero or a value past `i64` becomes a float and is refused).
#[verifier::external_body]
pub(crate) fn parse_json_i64(text: &str) -> (r: Option<i64>)
    ensures
        r == json_i64(text@),
{
    serde_json::from_str::<i64>(text).ok()
}

/// The strings `serde_json::from_str::<Vec<String>>` reads from a text, when
/// it reads a JSON array of strings.
pub uninterp spec fn json_string_list(text: Seq<char>) -> Option<Seq<Seq<char>>>;

/// `serde_json::from_str::<Vec<String>>`. Claimed: the result depends on the
/// text alone (named `json_string_list`).
#[verifier::external_body]
pub(crate) fn parse_json_string_list(text: &str) -> (r: Option<Vec<String>>)
    ensures
        match r {
            Some(v) => json_string_list(text@) == Some(v@.map_values(|s: String| s@)),
            None => json_string_list(text@) is None,
        },
{
    serde_json::from_str::<Vec<String>>(text).ok()
}

/// The string `serde_json::from_str::<String>` reads from a text, when it
/// reads a JSON string.
pub uninterp spec fn json_str(text: Seq<char>) -> Option<Seq<char>>;

/// `serde_json::from_str::<String>`. Claimed: the result depends on the text
/// alone (named `json_str`).
#[verifier::external_body]
pub(crate) fn parse_json_str(text: &str) -> (r: Option<String>)
    ensures
        match r {
            Some(s) => json_str(text@) == Some(s@),
            None => json_str(text@) is None,
        },
{
    serde_json::from_str::<String>(text).ok()
}

} // verus!
