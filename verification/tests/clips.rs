use carimbo::classify::ContentType;
use carimbo::clips::{open_target, promoted_name, reveal_target, snippet_from_clip, transformed_text};
use carimbo::error::CoreError;
use carimbo::models::{ClipEntry, ClipKind};
use carimbo::transform::TransformKind;

fn text_clip(content_type: ContentType, text: &str) -> ClipEntry {
    ClipEntry {
        id: "c1".to_string(),
        kind: ClipKind::Text,
        content_type,
        content: Some(text.to_string()),
        image_path: None,
        preview: text.to_string(),
        is_pinned: false,
        folder_id: None,
        source_app: None,
        created_at: 1,
        updated_at: 1,
    }
}

fn image_clip() -> ClipEntry {
    ClipEntry {
        id: "c2".to_string(),
        kind: ClipKind::Image,
        content_type: ContentType::Image,
        content: None,
        image_path: Some("C:\\clips\\a.png".to_string()),
        preview: "[imagem]".to_string(),
        is_pinned: false,
        folder_id: None,
        source_app: None,
        created_at: 1,
        updated_at: 1,
    }
}

#[test]
fn transformed_text_applies_the_transform() {
    let clip = text_clip(ContentType::Text, "hello world");
    assert_eq!(transformed_text(&clip, None), Some("hello world".to_string()));
    assert_eq!(
        transformed_text(&clip, Some(TransformKind::UpperCase)),
        Some("HELLO WORLD".to_string())
    );
    assert_eq!(transformed_text(&clip, Some(TransformKind::Slug)), Some("hello-world".to_string()));
    assert_eq!(transformed_text(&image_clip(), Some(TransformKind::UpperCase)), None);
}

#[test]
fn promoted_name_prefers_the_given_name() {
    assert_eq!(promoted_name(Some("  Meu nome ".to_string()), "corpo"), "Meu nome");
    assert_eq!(promoted_name(Some("   ".to_string()), "  first line \nsecond"), "first line");
    assert_eq!(promoted_name(None, "only"), "only");
    assert_eq!(promoted_name(None, ""), "Sem título");
    assert_eq!(promoted_name(None, "   \nsecond"), "Sem título");
    let long = "x".repeat(50);
    assert_eq!(promoted_name(None, &long), "x".repeat(40));
}

#[test]
fn image_clip_cannot_be_promoted() {
    match snippet_from_clip(&image_clip(), None, None) {
        Err(CoreError::Invalid(m)) => assert_eq!(m, "cannot promote an image clip"),
        _ => panic!("expected an invalid-input error"),
    }
}

#[test]
fn promoted_clip_keeps_its_body() {
    let clip = text_clip(ContentType::Text, "Olá\nmundo");
    let s = match snippet_from_clip(&clip, None, Some("f1".to_string())) {
        Ok(s) => s,
        Err(_) => panic!("text clip should promote"),
    };
    assert_eq!(s.name, "Olá");
    assert_eq!(s.body, "Olá\nmundo");
    assert_eq!(s.trigger, None);
    assert_eq!(s.body_html, None);
    assert_eq!(s.folder_id, Some("f1".to_string()));
    assert!(!s.is_favorite);
}

#[test]
fn open_target_adds_mailto_to_emails() {
    assert_eq!(
        open_target(&text_clip(ContentType::Email, " a@b.co ")),
        Some("mailto:a@b.co".to_string())
    );
    assert_eq!(
        open_target(&text_clip(ContentType::Email, "mailto:a@b.co")),
        Some("mailto:a@b.co".to_string())
    );
    assert_eq!(
        open_target(&text_clip(ContentType::Url, " https://x.y \n")),
        Some("https://x.y".to_string())
    );
    assert_eq!(open_target(&image_clip()), None);
}

#[test]
fn reveal_target_is_the_first_path() {
    assert_eq!(
        reveal_target(&text_clip(ContentType::Files, " C:\\a.txt \nC:\\b.txt")),
        Some("C:\\a.txt".to_string())
    );
    assert_eq!(reveal_target(&text_clip(ContentType::Path, "  \nC:\\b.txt")), None);
    assert_eq!(reveal_target(&image_clip()), None);
}
