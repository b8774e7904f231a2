//! Domain models. Timestamps are unix milliseconds UTC.

use vstd::prelude::*;
use crate::classify::ContentType;
use crate::text::str_eq;

verus! {

pub type Timestamp = i64;

#[derive(Debug, Clone, Copy, PartialEq, Eq, Structural)]
pub enum FolderKind {
    Snippet,
    Clipboard,
}

pub open spec fn folder_kind_name(k: FolderKind) -> Seq<char> {
    match k {
        FolderKind::Snippet => "snippet"@,
        FolderKind::Clipboard => "clipboard"@,
    }
}

impl FolderKind {
    pub fn as_str(&self) -> (s: &'static str)
        ensures
            s@ == folder_kind_name(*self),
    {
        match self {
            FolderKind::Snippet => "snippet",
            FolderKind::Clipboard => "clipboard",
        }
    }

    /// `"clipboard"` names the clipboard tree; anything else is a snippet folder.
    pub fn from_str(s: &str) -> (k: FolderKind)
        ensures
            k == (if s@ == "clipboard"@ {
                FolderKind::Clipboard
            } else {
                FolderKind::Snippet
            }),
    {
        if str_eq(s, "clipboard") {
            FolderKind::Clipboard
        } else {
            FolderKind::Snippet
        }
    }
}

/// Reading back the stored name of a folder kind gives the same kind.
pub proof fn law_folder_kind_roundtrip(k: FolderKind)
    ensures
        (if folder_kind_name(k) == "clipboard"@ {
            FolderKind::Clipboard
        } else {
            FolderKind::Snippet
        }) == k,
{
    reveal_strlit("snippet");
    reveal_strlit("clipboard");
    assert("snippet"@[0] == 's' && "clipboard"@[0] == 'c');
    assert("snippet"@ != "clipboard"@);
}

#[derive(Debug, Clone)]
pub struct Folder {
    pub id: String,
    pub name: String,
    pub kind: FolderKind,
    pub parent_id: Option<String>,
    pub sort_order: i64,
    pub created_at: Timestamp,
    pub updated_at: Timestamp,
}

#[derive(Debug, Clone)]
pub struct Snippet {
    pub id: String,
    pub folder_id: Option<String>,
    pub name: String,
    pub trigger: Option<String>,
    pub body: String,
    /// Optional rich-text (HTML) form of the body. `None` -> plain snippet.
    pub body_html: Option<String>,
    pub is_favorite: bool,
    pub use_count: i64,
    pub last_used_at: Option<Timestamp>,
    pub sort_order: i64,
    pub created_at: Timestamp,
    pub updated_at: Timestamp,
}

/// Fields a client sends to create a snippet. The store assigns id/timestamps.
#[derive(Debug, Clone)]
pub struct NewSnippet {
    pub name: String,
    pub trigger: Option<String>,
    pub body: String,
    pub body_html: Option<String>,
    pub folder_id: Option<String>,
    pub is_favorite: bool,
}

/// Fields a client sends to update a snippet; they fully replace the stored ones.
#[derive(Debug, Clone)]
pub struct UpdateSnippet {
    pub id: String,
    pub name: String,
    pub trigger: Option<String>,
    pub body: String,
    pub body_html: Option<String>,
    pub folder_id: Option<String>,
    pub is_favorite: bool,
}

#[derive(Debug, Clone, Copy, PartialEq, Eq, Structural)]
pub enum ClipKind {
    Text,
    Image,
}

pub open spec fn clip_kind_name(k: ClipKind) -> Seq<char> {
    match k {
        ClipKind::Text => "text"@,
        ClipKind::Image => "image"@,
    }
}

impl ClipKind {
    pub fn as_str(&self) -> (s: &'static str)
        ensures
            s@ == clip_kind_name(*self),
    {
        match self {
            ClipKind::Text => "text",
            ClipKind::Image => "image",
        }
    }

    /// `"image"` names an image clip; anything else is text.
    pub fn from_str(s: &str) -> (k: ClipKind)
        ensures
            k == (if s@ == "image"@ {
                ClipKind::Image
            } else {
                ClipKind::Text
            }),
    {
        if str_eq(s, "image") {
            ClipKind::Image
        } else {
            ClipKind::Text
        }
    }
}

/// Reading back the stored name of a clip kind gives the same kind.
pub proof fn law_clip_kind_roundtrip(k: ClipKind)
    ensures
        (if clip_kind_name(k) == "image"@ {
            ClipKind::Image
        } else {
            ClipKind::Text
        }) == k,
{
    reveal_strlit("text");
    reveal_strlit("image");
    assert("text"@[0] == 't' && "image"@[0] == 'i');
    assert("text"@ != "image"@);
}

#[derive(Debug, Clone)]
pub struct ClipEntry {
    pub id: String,
    pub kind: ClipKind,
    /// Refined content classification driving the row's badge and action.
    pub content_type: ContentType,
    /// Text content (None for images).
    pub content: Option<String>,
    /// Absolute path to the PNG on disk (None for text).
    pub image_path: Option<String>,
    pub preview: String,
    pub is_pinned: bool,
    pub folder_id: Option<String>,
    /// Best-effort foreground process name at capture time.
    pub source_app: Option<String>,
    pub created_at: Timestamp,
    pub updated_at: Timestamp,
}

/// A newly captured clipboard item, pre-persistence.
#[derive(Debug, Clone)]
pub struct NewClip {
    pub kind: ClipKind,
    pub content_type: ContentType,
    pub content: Option<String>,
    pub image_path: Option<String>,
    pub preview: String,
    pub content_hash: String,
    pub source_app: Option<String>,
}

} // verus!
