//! Building clipboard-history entries from what the clipboard held: a file
//! list, a text, or an image. Each entry carries a SHA-256 content hash (in
//! lowercase hex) used to spot duplicates, and a short preview.

use vstd::prelude::*;
use vstd::utf8::*;
use crate::classify::{classify_text, spec_classify, ContentType};
use crate::clipboard::{decimal, decimal_vec};
use crate::models::{ClipKind, NewClip};
use crate::text::{chars_of, push_char, push_str, rfind_char, string_of_range};

verus! {

/// The SHA-256 digest of a byte string.
pub uninterp spec fn sha256_digest(bytes: Seq<u8>) -> Seq<u8>;

/// `sha2::Sha256::digest`. Claimed: the digest is named `sha256_digest` of
/// the input, and is 32 bytes long; the hash function itself is not restated.
#[verifier::external_body]
fn sha256(bytes: &[u8]) -> (d: Vec<u8>)
    ensures
        d@ == sha256_digest(bytes@),
        d@.len() == 32,
{
    <sha2::Sha256 as sha2::Digest>::digest(bytes).to_vec()
}

pub open spec fn hex_digit(x: int) -> char {
    if x < 10 {
        ((48 + x) as u8) as char
    } else {
        ((87 + x) as u8) as char
    }
}

/// Lowercase hex of a byte string, two digits per byte (`{:x}` of a digest).
pub open spec fn hex_lower(bytes: Seq<u8>) -> Seq<char>
    decreases bytes.len(),
{
    if bytes.len() == 0 {
        seq![]
    } else {
        hex_lower(bytes.drop_last()) + seq![
            hex_digit(bytes.last() as int / 16),
            hex_digit(bytes.last() as int % 16),
        ]
    }
}

fn hex_string(bytes: &Vec<u8>) -> (s: String)
    ensures
        s@ == hex_lower(bytes@),
{
    let mut s = String::new();
    let mut k: usize = 0;
    assert(bytes@.take(0) == Seq::<u8>::empty());
    while k < bytes.len()
        invariant
            k <= bytes@.len(),
            s@ == hex_lower(bytes@.take(k as int)),
        decreases bytes@.len() - k,
    {
        let b = bytes[k];
        let hi = b / 16;
        let lo = b % 16;
        push_char(&mut s, if hi < 10 { (48 + hi) as char } else { (87 + hi) as char });
        push_char(&mut s, if lo < 10 { (48 + lo) as char } else { (87 + lo) as char });
        assert(bytes@.take(k + 1).drop_last() == bytes@.take(k as int));
        assert(bytes@.take(k + 1).last() == b);
        k += 1;
    }
    assert(bytes@.take(bytes@.len() as int) == bytes@);
    s
}

/// The content hash of a byte string: its SHA-256 digest in lowercase hex.
pub open spec fn content_hash(bytes: Seq<u8>) -> Seq<char> {
    hex_lower(sha256_digest(bytes))
}

pub fn hash_bytes(bytes: &[u8]) -> (h: String)
    ensures
        h@ == content_hash(bytes@),
{
    let d = sha256(bytes);
    hex_string(&d)
}

/// The content hash of a text: that of its UTF-8 bytes.
pub fn hash_text(text: &str) -> (h: String)
    ensures
        h@ == content_hash(encode_utf8(text@)),
{
    hash_bytes(text.as_bytes())
}

/// `ss` joined with `\n` between consecutive items.
pub open spec fn join_lines(ss: Seq<Seq<char>>) -> Seq<char>
    decreases ss.len(),
{
    if ss.len() == 0 {
        seq![]
    } else if ss.len() == 1 {
        ss[0]
    } else {
        join_lines(ss.drop_last()) + seq!['\n'] + ss.last()
    }
}

pub open spec fn strings_view(ss: Seq<String>) -> Seq<Seq<char>> {
    ss.map_values(|s: String| s@)
}

/// The last component of a path: what follows its last `\` or `/`.
pub open spec fn file_name(path: Seq<char>) -> Seq<char>
    decreases path.len(),
{
    if path.len() == 0 {
        path
    } else if path.last() == '\\' || path.last() == '/' {
        seq![]
    } else {
        file_name(path.drop_last()).push(path.last())
    }
}

/// Preview of a file-list clip: the file's name for a single file, else
/// `"<n> arquivos"`.
pub open spec fn files_preview(files: Seq<Seq<char>>) -> Seq<char> {
    if files.len() == 1 {
        file_name(files[0])
    } else {
        decimal(files.len()) + " arquivos"@
    }
}

fn file_name_of(path: &str) -> (r: String)
    ensures
        r@ == file_name(path@),
{
    let v = chars_of(path);
    let n = v.len();
    let mut k = n;
    assert(v@.subrange(0, n as int) == v@);
    assert(file_name(v@) + v@.subrange(n as int, n as int) == file_name(v@));
    while k > 0 && v[k - 1] != '\\' && v[k - 1] != '/'
        invariant
            k <= n == v@.len(),
            file_name(v@) == file_name(v@.subrange(0, k as int)) + v@.subrange(k as int, n as int),
        decreases k,
    {
        assert(v@.subrange(0, k as int).drop_last() == v@.subrange(0, k - 1));
        assert(v@.subrange(k - 1, n as int) == seq![v@[k - 1]] + v@.subrange(k as int, n as int));
        assert(file_name(v@.subrange(0, k as int)) == file_name(v@.subrange(0, k - 1)).push(v@[k - 1]));
        k -= 1;
    }
    assert(v@.subrange(0, n as int) == v@);
    assert(file_name(v@.subrange(0, k as int)) == Seq::<char>::empty());
    string_of_range(&v, k, n)
}

/// A clipboard entry for a copied file list: the paths joined by newlines as
/// its text (so they are searchable and re-pastable), tagged as files.
pub fn clip_from_files(files: &Vec<String>, source_app: Option<String>) -> (c: NewClip)
    ensures
        c.kind == ClipKind::Text,
        c.content_type == ContentType::Files,
        c.content matches Some(t) && t@ == join_lines(strings_view(files@)),
        c.image_path is None,
        c.preview@ == files_preview(strings_view(files@)),
        c.content_hash@ == content_hash(encode_utf8(join_lines(strings_view(files@)))),
        c.source_app == source_app,
{
    let ghost fv = strings_view(files@);
    let mut joined = String::new();
    let mut k: usize = 0;
    assert(fv.take(0) =~= Seq::<Seq<char>>::empty());
    while k < files.len()
        invariant
            k <= files@.len(),
            fv == strings_view(files@),
            joined@ == join_lines(fv.take(k as int)),
        decreases files@.len() - k,
    {
        if k > 0 {
            push_char(&mut joined, '\n');
        }
        push_str(&mut joined, files[k].as_str());
        assert(fv.take(k + 1).drop_last() == fv.take(k as int));
        assert(fv.take(k + 1).last() == files@[k as int]@);
        k += 1;
    }
    assert(fv.take(files@.len() as int) == fv);
    let hash = hash_text(joined.as_str());
    let preview = if files.len() == 1 {
        file_name_of(files[0].as_str())
    } else {
        let d = decimal_vec(files.len());
        let mut p = String::new();
        let mut j: usize = 0;
        while j < d.len()
            invariant
                j <= d@.len(),
                p@ == d@.take(j as int),
            decreases d@.len() - j,
        {
            push_char(&mut p, d[j]);
            assert(d@.take(j + 1) == d@.take(j as int).push(d@[j as int]));
            j += 1;
        }
        assert(d@.take(d@.len() as int) == d@);
        push_str(&mut p, " arquivos");
        p
    };
    NewClip {
        kind: ClipKind::Text,
        content_type: ContentType::Files,
        content: Some(joined),
        image_path: None,
        preview,
        content_hash: hash,
        source_app,
    }
}

/// Longest text preview, in chars.
pub const TEXT_PREVIEW_CAP: usize = 200;

/// A clipboard entry for a copied text: none for an empty text; otherwise
/// its first `TEXT_PREVIEW_CAP` chars as preview and its content type as
/// [`classify_text`] decides.
pub fn clip_from_text(text: String, source_app: Option<String>) -> (c: Option<NewClip>)
    ensures
        text@.len() == 0 ==> c is None,
        text@.len() > 0 ==> (c matches Some(c) && {
            &&& c.kind == ClipKind::Text
            &&& c.content_type == spec_classify(text@)
            &&& c.content matches Some(t) && t@ == text@
            &&& c.image_path is None
            &&& c.preview@ == (if text@.len() <= TEXT_PREVIEW_CAP {
                text@
            } else {
                text@.take(TEXT_PREVIEW_CAP as int)
            })
            &&& c.content_hash@ == content_hash(encode_utf8(text@))
            &&& c.source_app == source_app
        }),
{
    let v = chars_of(text.as_str());
    if v.len() == 0 {
        return None;
    }
    let hash = hash_text(text.as_str());
    let end = if v.len() > TEXT_PREVIEW_CAP {
        TEXT_PREVIEW_CAP
    } else {
        v.len()
    };
    let preview = string_of_range(&v, 0, end);
    assert(v@.subrange(0, end as int) == (if text@.len() <= TEXT_PREVIEW_CAP {
        text@
    } else {
        text@.take(TEXT_PREVIEW_CAP as int)
    }));
    let content_type = classify_text(text.as_str());
    Some(
        NewClip {
            kind: ClipKind::Text,
            content_type,
            content: Some(text),
            image_path: None,
            preview,
            content_hash: hash,
            source_app,
        },
    )
}

/// Largest raw RGBA image captured, in bytes (64 MiB, so full-screen 4K
/// screenshots fit).
pub const MAX_IMAGE_BYTES: usize = 67108864;

/// An image is captured only up to `MAX_IMAGE_BYTES` of raw RGBA.
pub fn image_fits(raw_len: usize) -> (b: bool)
    ensures
        b == (raw_len <= MAX_IMAGE_BYTES),
{
    raw_len <= MAX_IMAGE_BYTES
}

/// The file an image clip is stored in: the first 16 hex digits of its hash
/// (all of it when shorter), then `.png`.
pub open spec fn image_file_name(hash: Seq<char>) -> Seq<char> {
    (if hash.len() <= 16 {
        hash
    } else {
        hash.take(16)
    }) + ".png"@
}

pub fn image_file_name_of(hash: &str) -> (r: String)
    ensures
        r@ == image_file_name(hash@),
{
    let v = chars_of(hash);
    let end = if v.len() > 16 {
        16
    } else {
        v.len()
    };
    let mut r = string_of_range(&v, 0, end);
    assert(v@.subrange(0, end as int) == (if hash@.len() <= 16 {
        hash@
    } else {
        hash@.take(16)
    }));
    push_str(&mut r, ".png");
    r
}

/// Preview of an image clip: `"Imagem <w>×<h>"`.
pub open spec fn image_preview(width: nat, height: nat) -> Seq<char> {
    "Imagem "@ + decimal(width) + "×"@ + decimal(height)
}

fn push_decimal(out: &mut String, n: usize)
    ensures
        final(out)@ == old(out)@ + decimal(n as nat),
{
    let d = decimal_vec(n);
    let ghost before = out@;
    let mut j: usize = 0;
    while j < d.len()
        invariant
            j <= d@.len(),
            out@ == before + d@.take(j as int),
        decreases d@.len() - j,
    {
        push_char(out, d[j]);
        assert(d@.take(j + 1) == d@.take(j as int).push(d@[j as int]));
        j += 1;
    }
    assert(d@.take(d@.len() as int) == d@);
}

/// A clipboard entry for a captured image stored at `path`, with the hash of
/// its raw pixels.
pub fn clip_from_image(hash: String, path: String, width: u32, height: u32, source_app: Option<
    String,
>) -> (c: NewClip)
    ensures
        c.kind == ClipKind::Image,
        c.content_type == ContentType::Image,
        c.content is None,
        c.image_path matches Some(p) && p@ == path@,
        c.preview@ == image_preview(width as nat, height as nat),
        c.content_hash@ == hash@,
        c.source_app == source_app,
{
    let mut preview = String::new();
    push_str(&mut preview, "Imagem ");
    push_decimal(&mut preview, width as usize);
    push_str(&mut preview, "×");
    push_decimal(&mut preview, height as usize);
    NewClip {
        kind: ClipKind::Image,
        content_type: ContentType::Image,
        content: None,
        image_path: Some(path),
        preview,
        content_hash: hash,
        source_app,
    }
}


/// Which clipboard content a capture keeps.
#[derive(Clone, Copy, Debug, PartialEq, Eq, Structural)]
pub enum CaptureChoice {
    /// The copied files (an Explorer copy is more specific than its text).
    Files,
    /// The clipboard text.
    Text,
    /// The clipboard image.
    Image,
    /// Nothing: no files, no text, and no image within the size cap.
    Nothing,
}

/// Files first, then non-empty text, then an image of at most
/// `MAX_IMAGE_BYTES` raw bytes.
pub open spec fn spec_capture_choice(has_files: bool, text: Option<Seq<char>>, image_len: Option<nat>) -> CaptureChoice {
    if has_files {
        CaptureChoice::Files
    } else if text matches Some(t) && t.len() > 0 {
        CaptureChoice::Text
    } else if image_len matches Some(n) && n <= MAX_IMAGE_BYTES {
        CaptureChoice::Image
    } else {
        CaptureChoice::Nothing
    }
}

/// Decides what a clipboard change captures from what the clipboard holds:
/// whether it has files, its text (if it could be read) and the raw length
/// of its image (if any).
pub fn capture_choice(has_files: bool, text: Option<&str>, image_len: Option<usize>) -> (c: CaptureChoice)
    ensures
        c == spec_capture_choice(
            has_files,
            match text {
                Some(t) => Some(t@),
                None => None,
            },
            match image_len {
                Some(n) => Some(n as nat),
                None => None,
            },
        ),
{
    if has_files {
        return CaptureChoice::Files;
    }
    if let Some(t) = text {
        let v = chars_of(t);
        if v.len() > 0 {
            return CaptureChoice::Text;
        }
    }
    match image_len {
        Some(n) => if image_fits(n) {
            CaptureChoice::Image
        } else {
            CaptureChoice::Nothing
        },
        None => CaptureChoice::Nothing,
    }
}

} // verus!
