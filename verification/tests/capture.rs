use carimbo::capture::{capture_choice, CaptureChoice};
use carimbo::capture::{
    clip_from_files, clip_from_image, clip_from_text, hash_bytes, hash_text, image_file_name_of,
    image_fits, MAX_IMAGE_BYTES,
};
use carimbo::classify::ContentType;
use carimbo::models::ClipKind;

#[test]
fn hash_matches_known_sha256_vectors() {
    assert_eq!(
        hash_text("abc"),
        "ba7816bf8f01cfea414140de5dae2223b00361a396177a9cb410ff61f20015ad"
    );
    assert_eq!(
        hash_bytes(&[]),
        "e3b0c44298fc1c149afbf4c8996fb92427ae41e4649b934ca495991b7852b855"
    );
}

#[test]
fn text_clip_previews_and_classifies() {
    let c = clip_from_text("https://example.com".to_string(), Some("chrome.exe".into())).unwrap();
    assert_eq!(c.kind, ClipKind::Text);
    assert_eq!(c.content_type, ContentType::Url);
    assert_eq!(c.preview, "https://example.com");
    assert_eq!(c.content_hash, hash_text("https://example.com"));
    assert_eq!(c.source_app.as_deref(), Some("chrome.exe"));
    let long = "é".repeat(250);
    let c = clip_from_text(long.clone(), None).unwrap();
    assert_eq!(c.preview.chars().count(), 200);
    assert_eq!(c.content.as_deref(), Some(long.as_str()));
    assert!(clip_from_text(String::new(), None).is_none());
}

#[test]
fn file_clip_joins_paths_and_names_one_file() {
    let one = vec!["C:\\Users\\me\\report.pdf".to_string()];
    let c = clip_from_files(&one, None);
    assert_eq!(c.content_type, ContentType::Files);
    assert_eq!(c.preview, "report.pdf");
    let many = vec!["C:\\a\\x.png".to_string(), "D:/b/y.png".to_string(), "z".to_string()];
    let c = clip_from_files(&many, None);
    assert_eq!(c.content.as_deref(), Some("C:\\a\\x.png\nD:/b/y.png\nz"));
    assert_eq!(c.preview, "3 arquivos");
    assert_eq!(c.content_hash, hash_text("C:\\a\\x.png\nD:/b/y.png\nz"));
    let dir = vec!["C:\\folder\\".to_string()];
    assert_eq!(clip_from_files(&dir, None).preview, "");
}

#[test]
fn image_clip_names_and_limits() {
    let h = hash_bytes(&[1, 2, 3, 4]);
    assert_eq!(image_file_name_of(&h), format!("{}.png", &h[..16]));
    assert_eq!(image_file_name_of("abc"), "abc.png");
    let c = clip_from_image(h.clone(), "C:\\clips\\x.png".into(), 1920, 1080, None);
    assert_eq!(c.kind, ClipKind::Image);
    assert_eq!(c.content_type, ContentType::Image);
    assert_eq!(c.preview, "Imagem 1920×1080");
    assert_eq!(c.image_path.as_deref(), Some("C:\\clips\\x.png"));
    assert!(c.content.is_none());
    assert!(image_fits(MAX_IMAGE_BYTES));
    assert!(!image_fits(MAX_IMAGE_BYTES + 1));
    assert_eq!(MAX_IMAGE_BYTES, 64 * 1024 * 1024);
}

#[test]
fn capture_prefers_files_then_text_then_image() {
    assert_eq!(capture_choice(true, Some("x"), Some(4)), CaptureChoice::Files);
    assert_eq!(capture_choice(false, Some("x"), Some(4)), CaptureChoice::Text);
    assert_eq!(capture_choice(false, Some(""), Some(4)), CaptureChoice::Image);
    assert_eq!(capture_choice(false, None, Some(64 * 1024 * 1024)), CaptureChoice::Image);
    assert_eq!(capture_choice(false, None, Some(64 * 1024 * 1024 + 1)), CaptureChoice::Nothing);
    assert_eq!(capture_choice(false, None, None), CaptureChoice::Nothing);
}
