//! Error type for the core (data + logic) layer.

use vstd::prelude::*;

use crate::text::push_str;

verus! {

/// `rusqlite::Error`, carried through as is.
#[verifier::external_type_specification]
#[verifier::external_body]
pub struct ExSqliteError(rusqlite::Error);

#[derive(Debug)]
pub enum CoreError {
    Sqlite(rusqlite::Error),
    Migration(String),
    NotFound,
    DuplicateTrigger(String),
    Invalid(String),
    Other(String),
}

pub type CoreResult<T> = Result<T, CoreError>;

/// A database error surfaces as `CoreError::Sqlite`, so `?` carries it along.
impl From<rusqlite::Error> for CoreError {
    fn from(e: rusqlite::Error) -> (r: Self) {
        CoreError::Sqlite(e)
    }
}

impl vstd::std_specs::convert::FromSpecImpl<rusqlite::Error> for CoreError {
    open spec fn obeys_from_spec() -> bool {
        true
    }

    open spec fn from_spec(e: rusqlite::Error) -> Self {
        CoreError::Sqlite(e)
    }
}

/// The text `{:?}` gives for a string: quoted, with `"`, `\\` and the chars
/// `char::escape_debug` escapes written as escapes.
pub uninterp spec fn str_debug(s: Seq<char>) -> Seq<char>;

/// `format!("{:?}", s)` for a `&str`. Its result is named `str_debug`; the
/// escaping rules are std's and are not restated.
#[verifier::external_body]
fn debug_quoted(s: &str) -> (r: String)
    ensures
        r@ == str_debug(s@),
{
    format!("{:?}", s)
}

/// `rusqlite::Error`'s `Display` text. It depends on the error only, whose
/// contents Verus does not see, so nothing is claimed of the text.
#[verifier::external_body]
fn sqlite_error_text(e: &rusqlite::Error) -> String {
    e.to_string()
}

/// The human-readable message of each error kind, apart from a database
/// error, whose text comes from `rusqlite`.
pub open spec fn error_message(e: CoreError) -> Option<Seq<char>> {
    match e {
        CoreError::Sqlite(_) => None,
        CoreError::Migration(m) => Some("migration error: "@ + m@),
        CoreError::NotFound => Some("not found"@),
        CoreError::DuplicateTrigger(t) => Some(
            "a snippet with trigger "@ + str_debug(t@) + " already exists"@,
        ),
        CoreError::Invalid(m) => Some("invalid input: "@ + m@),
        CoreError::Other(m) => Some(m@),
    }
}

/// The stable machine-readable tag of each error kind.
pub open spec fn error_kind_name(e: CoreError) -> Seq<char> {
    match e {
        CoreError::NotFound => "not_found"@,
        CoreError::DuplicateTrigger(_) => "duplicate_trigger"@,
        CoreError::Invalid(_) => "invalid"@,
        CoreError::Migration(_) => "migration"@,
        CoreError::Sqlite(_) => "sqlite"@,
        CoreError::Other(_) => "other"@,
    }
}

impl CoreError {
    /// Stable machine-readable tag so the frontend can branch on the error
    /// kind without parsing strings.
    pub fn kind(&self) -> (k: &'static str)
        ensures
            k@ == error_kind_name(*self),
    {
        match self {
            CoreError::NotFound => "not_found",
            CoreError::DuplicateTrigger(_) => "duplicate_trigger",
            CoreError::Invalid(_) => "invalid",
            CoreError::Migration(_) => "migration",
            CoreError::Sqlite(_) => "sqlite",
            CoreError::Other(_) => "other",
        }
    }

    /// The error as a sentence for people: what the kind of error is, then
    /// its detail (`database error: ...` for a database error).
    pub fn message(&self) -> (r: String)
        ensures
            error_message(*self) matches Some(m) ==> r@ == m,
            self is Sqlite ==> r@.len() >= 16 && r@.take(16) == "database error: "@,
    {
        let mut out = String::new();
        match self {
            CoreError::Sqlite(e) => {
                push_str(&mut out, "database error: ");
                let t = sqlite_error_text(e);
                push_str(&mut out, t.as_str());
                proof {
                    reveal_strlit("database error: ");
                }
                assert(out@.take(16) =~= "database error: "@);
            },
            CoreError::Migration(m) => {
                push_str(&mut out, "migration error: ");
                push_str(&mut out, m.as_str());
            },
            CoreError::NotFound => {
                push_str(&mut out, "not found");
            },
            CoreError::DuplicateTrigger(t) => {
                push_str(&mut out, "a snippet with trigger ");
                let q = debug_quoted(t.as_str());
                push_str(&mut out, q.as_str());
                push_str(&mut out, " already exists");
            },
            CoreError::Invalid(m) => {
                push_str(&mut out, "invalid input: ");
                push_str(&mut out, m.as_str());
            },
            CoreError::Other(m) => {
                push_str(&mut out, m.as_str());
            },
        }
        out
    }
}

} // verus!
