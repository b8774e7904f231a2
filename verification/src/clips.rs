//! What a clipboard-history entry hands to the actions on it: its text under an
//! optional transform, the snippet it becomes when promoted, and the target it
//! opens or reveals.

use vstd::prelude::*;

use crate::classify::ContentType;
use crate::error::CoreError;
use crate::import::{filled, filled_string, opt_view};
use crate::models::{ClipEntry, NewSnippet};
use crate::text::{chars_of, lines, matches_at, next_line, push_str, starts_with, string_of_range, trim, trim_range};
use crate::transform::{spec_apply, TransformKind};

verus! {

/// The text of a clip (nothing for an image clip), under `transform` if one is given.
pub open spec fn spec_transformed(content: Option<Seq<char>>, transform: Option<TransformKind>) -> Option<
    Seq<char>,
> {
    match content {
        Some(c) => Some(
            match transform {
                Some(k) => spec_apply(k, c),
                None => c,
            },
        ),
        None => None,
    }
}

/// Resolve the text a clip contributes, applying an optional transform; `None`
/// for an image clip, which has no text to act on.
pub fn transformed_text(entry: &ClipEntry, transform: Option<TransformKind>) -> (r: Option<String>)
    ensures
        opt_view(r) == spec_transformed(opt_view(entry.content), transform),
{
    match &entry.content {
        Some(text) => Some(
            match transform {
                Some(kind) => kind.apply(text.as_str()),
                None => text.clone(),
            },
        ),
        None => None,
    }
}

/// Longest default name a promoted clip takes from its first line, in chars.
pub const PROMOTED_NAME_CAP: usize = 40;

/// The first line of `s` (`str::lines().next()`), or nothing for an empty text.
pub open spec fn head_line(s: Seq<char>) -> Seq<char> {
    if lines(s).len() > 0 {
        lines(s)[0]
    } else {
        Seq::empty()
    }
}

/// The name a promoted clip gets: the caller's name trimmed, when it is not
/// blank; else the clip's first line trimmed and cut to `PROMOTED_NAME_CAP`
/// chars; and `"Sem título"` when that too is empty.
pub open spec fn spec_promoted_name(name: Option<Seq<char>>, body: Seq<char>) -> Seq<char> {
    let n = match filled(name) {
        Some(n) => n,
        None => {
            let f = trim(head_line(body));
            if f.len() <= PROMOTED_NAME_CAP {
                f
            } else {
                f.take(PROMOTED_NAME_CAP as int)
            }
        },
    };
    if n.len() == 0 {
        "Sem título"@
    } else {
        n
    }
}

/// A promoted clip always gets a name.
pub proof fn law_promoted_name_nonempty(name: Option<Seq<char>>, body: Seq<char>)
    ensures
        spec_promoted_name(name, body).len() > 0,
{
    reveal_strlit("Sem título");
}

/// Bounds of the first line of `v`.
fn head_line_end(v: &Vec<char>) -> (e: usize)
    ensures
        e <= v@.len(),
        head_line(v@) == v@.subrange(0, e as int),
{
    let n = v.len();
    assert(v@.subrange(0, n as int) == v@);
    if n == 0 {
        assert(lines(v@) == Seq::<Seq<char>>::empty());
        0
    } else {
        let (e, q) = next_line(v, 0, n);
        let ghost rest = lines(v@.subrange(q as int, n as int));
        assert((seq![v@.subrange(0, e as int)] + rest)[0] == v@.subrange(0, e as int));
        e
    }
}

/// The name a text clip gets when it is promoted to a snippet.
pub fn promoted_name(name: Option<String>, body: &str) -> (r: String)
    ensures
        r@ == spec_promoted_name(opt_view(name), body@),
{
    match filled_string(&name) {
        Some(n) => n,
        None => {
            let v = chars_of(body);
            let e = head_line_end(&v);
            let (a, b) = trim_range(&v, 0, e);
            let end = if b - a > PROMOTED_NAME_CAP {
                assert(v@.subrange(a as int, b as int).take(PROMOTED_NAME_CAP as int) == v@.subrange(
                    a as int,
                    a + PROMOTED_NAME_CAP,
                ));
                a + PROMOTED_NAME_CAP
            } else {
                b
            };
            if a == end {
                proof {
                    reveal_strlit("Sem título");
                }
                "Sem título".to_owned()
            } else {
                string_of_range(&v, a, end)
            }
        },
    }
}

/// The snippet a clip becomes: its text is the body, `name` (or the default of
/// `spec_promoted_name`) names it, and it has no trigger, no rich body and no
/// favourite mark. An image clip cannot be promoted.
pub fn snippet_from_clip(entry: &ClipEntry, name: Option<String>, folder_id: Option<String>) -> (r:
    Result<NewSnippet, CoreError>)
    ensures
        entry.content is None <==> r is Err,
        r matches Err(e) ==> (e matches CoreError::Invalid(m) && m@ == "cannot promote an image clip"@),
        r matches Ok(s) ==> {
            &&& s.body@ == entry.content->0@
            &&& s.name@ == spec_promoted_name(opt_view(name), entry.content->0@)
            &&& s.trigger is None
            &&& s.body_html is None
            &&& s.folder_id == folder_id
            &&& !s.is_favorite
        },
{
    match &entry.content {
        None => {
            proof {
                reveal_strlit("cannot promote an image clip");
            }
            Err(CoreError::Invalid("cannot promote an image clip".to_owned()))
        },
        Some(body) => {
            let name = promoted_name(name, body.as_str());
            Ok(
                NewSnippet {
                    name,
                    trigger: None,
                    body: body.clone(),
                    body_html: None,
                    folder_id,
                    is_favorite: false,
                },
            )
        },
    }
}

/// What opening a clip hands to the shell: its text trimmed, with `mailto:` put
/// in front of an e-mail clip that lacks it; nothing for an image clip.
pub open spec fn spec_open_target(content_type: ContentType, content: Option<Seq<char>>) -> Option<
    Seq<char>,
> {
    match content {
        Some(c) => {
            let t = trim(c);
            if content_type == ContentType::Email && !starts_with(t, "mailto:"@) {
                Some("mailto:"@ + t)
            } else {
                Some(t)
            }
        },
        None => None,
    }
}

/// The target a clip opens (a URL, or a `mailto:` address for an e-mail clip).
pub fn open_target(entry: &ClipEntry) -> (r: Option<String>)
    ensures
        opt_view(r) == spec_open_target(entry.content_type, opt_view(entry.content)),
{
    match &entry.content {
        None => None,
        Some(text) => {
            let v = chars_of(text.as_str());
            assert(v@.subrange(0, v@.len() as int) == v@);
            let (a, b) = trim_range(&v, 0, v.len());
            let ghost t = v@.subrange(a as int, b as int);
            let is_email = match entry.content_type {
                ContentType::Email => true,
                _ => false,
            };
            let lit = chars_of("mailto:");
            let prefixed = matches_at(&v, a, b, &lit);
            if is_email && !prefixed {
                let mut out = String::new();
                push_str(&mut out, "mailto:");
                let body = string_of_range(&v, a, b);
                push_str(&mut out, body.as_str());
                Some(out)
            } else {
                Some(string_of_range(&v, a, b))
            }
        },
    }
}

/// Opening an e-mail clip always hands the shell a `mailto:` target.
pub proof fn law_email_opens_as_mailto(content: Seq<char>)
    ensures
        spec_open_target(ContentType::Email, Some(content)) matches Some(t) && starts_with(t, "mailto:"@),
{
    let t = trim(content);
    if !starts_with(t, "mailto:"@) {
        reveal_strlit("mailto:");
        assert(("mailto:"@ + t).take(7) =~= "mailto:"@);
    }
}

/// What revealing a clip hands to the file manager: the first line of its text,
/// trimmed; nothing for an image clip or when that line is blank.
pub open spec fn spec_reveal_target(content: Option<Seq<char>>) -> Option<Seq<char>> {
    match content {
        Some(c) => if trim(head_line(c)).len() > 0 {
            Some(trim(head_line(c)))
        } else {
            None
        },
        None => None,
    }
}

/// The path a `path`/`files` clip reveals: the first of its lines.
pub fn reveal_target(entry: &ClipEntry) -> (r: Option<String>)
    ensures
        opt_view(r) == spec_reveal_target(opt_view(entry.content)),
{
    match &entry.content {
        None => None,
        Some(text) => {
            let v = chars_of(text.as_str());
            let e = head_line_end(&v);
            let (a, b) = trim_range(&v, 0, e);
            if a < b {
                Some(string_of_range(&v, a, b))
            } else {
                None
            }
        },
    }
}

} // verus!
