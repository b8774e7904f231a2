use carimbo::classify::{classify_text, is_email, is_hex_color, is_path, is_url, ContentType};

#[test]
fn urls() {
    assert_eq!(classify_text("https://example.com/x"), ContentType::Url);
    assert_eq!(classify_text("  http://a.b\n"), ContentType::Url);
    assert_eq!(classify_text("https://"), ContentType::Text); // nothing after scheme
    assert_eq!(classify_text("not a url"), ContentType::Text);
}

#[test]
fn emails() {
    assert_eq!(classify_text("rubem@arvore.com.br"), ContentType::Email);
    assert_eq!(classify_text("a@b.co"), ContentType::Email);
    assert_eq!(classify_text("@nope.com"), ContentType::Text);
    assert_eq!(classify_text("a@b"), ContentType::Text); // no TLD
    assert_eq!(classify_text("two @ words.com"), ContentType::Text);
}

#[test]
fn colors() {
    assert_eq!(classify_text("#1a2b3c"), ContentType::Color);
    assert_eq!(classify_text("#FFF"), ContentType::Color);
    assert_eq!(classify_text("#12345678"), ContentType::Color);
    assert_eq!(classify_text("#12345"), ContentType::Text); // wrong length
    assert_eq!(classify_text("#gggggg"), ContentType::Text); // non-hex
}

#[test]
fn paths() {
    assert_eq!(classify_text("C:\\Users\\me\\file.txt"), ContentType::Path);
    assert_eq!(classify_text("D:/data/x"), ContentType::Path);
    assert_eq!(classify_text("\\\\server\\share\\f"), ContentType::Path);
    assert_eq!(classify_text("just text"), ContentType::Text);
}

#[test]
fn multi_line_files() {
    let drop = "C:\\a\\one.png\r\nC:\\a\\two.png";
    assert_eq!(classify_text(drop), ContentType::Files);
    // A path plus a non-path line is just text.
    assert_eq!(classify_text("C:\\a\\one.png\nhello"), ContentType::Text);
}

#[test]
fn plain_text() {
    assert_eq!(classify_text("hello world"), ContentType::Text);
    assert_eq!(classify_text(""), ContentType::Text);
}

#[test]
fn content_type_names_round_trip() {
    for t in [
        ContentType::Text,
        ContentType::Url,
        ContentType::Email,
        ContentType::Color,
        ContentType::Path,
        ContentType::Files,
        ContentType::Image,
    ] {
        assert_eq!(ContentType::from_str(t.as_str()), t);
    }
    assert_eq!(ContentType::Color.as_str(), "color");
    assert_eq!(ContentType::from_str("bogus"), ContentType::Text);
}

#[test]
fn shape_checks_on_trimmed_text() {
    assert!(is_url("http://x"));
    assert!(is_url("ftp://x"));
    assert!(!is_url("gopher://x"));
    assert!(!is_url("http://"));
    assert!(is_email("a@b.co"));
    assert!(!is_email("a@b."));
    assert!(is_hex_color("#abc"));
    assert!(!is_hex_color("abc"));
    assert!(is_path("C:\\x"));
    assert!(!is_path("relative\\x"));
}
