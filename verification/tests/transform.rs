use carimbo::transform::TransformKind;

#[test]
fn case_transforms() {
    assert_eq!(TransformKind::UpperCase.apply("Olá mundo"), "OLÁ MUNDO");
    assert_eq!(TransformKind::LowerCase.apply("Olá MUNDO"), "olá mundo");
    assert_eq!(TransformKind::TitleCase.apply("hello WORLD foo"), "Hello World Foo");
}

#[test]
fn whitespace_transforms() {
    assert_eq!(TransformKind::Trim.apply("  hi  "), "hi");
    assert_eq!(TransformKind::SingleLine.apply("a\n  b\t c  "), "a b c");
}

#[test]
fn slug_transform() {
    assert_eq!(TransformKind::Slug.apply("Hello, World! 123"), "hello-world-123");
    assert_eq!(TransformKind::Slug.apply("  --Trim-- "), "trim");
    assert_eq!(TransformKind::Slug.apply("já vou"), "j-vou");
}

#[test]
fn base64_roundtrip() {
    let s = "Carimbo ✓";
    let enc = TransformKind::Base64Encode.apply(s);
    assert_eq!(TransformKind::Base64Decode.apply(&enc), s);
}

#[test]
fn base64_known_vector() {
    assert_eq!(TransformKind::Base64Encode.apply("Man"), "TWFu");
    assert_eq!(TransformKind::Base64Encode.apply("Ma"), "TWE=");
    assert_eq!(TransformKind::Base64Encode.apply("M"), "TQ==");
}

#[test]
fn base64_decode_falls_back_on_non_base64() {
    let plain = "This is not base64!";
    assert_eq!(TransformKind::Base64Decode.apply(plain), plain);
}

#[test]
fn plain_is_identity() {
    assert_eq!(TransformKind::Plain.apply("as-is\ntext"), "as-is\ntext");
}

#[test]
fn base64_empty_and_invalid_utf8() {
    assert_eq!(TransformKind::Base64Encode.apply(""), "");
    assert_eq!(TransformKind::Base64Decode.apply(""), "");
    // "/w==" decodes to the single byte 0xFF, not UTF-8: input kept.
    assert_eq!(TransformKind::Base64Decode.apply("/w=="), "/w==");
}

#[test]
fn title_case_keeps_spacing() {
    assert_eq!(TransformKind::TitleCase.apply("  a  b "), "  A  B ");
}
