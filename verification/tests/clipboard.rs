use carimbo::clipboard::{build_cf_html, skip_clipboard, TextSnapshot};

#[test]
fn cf_html_offsets_point_at_the_fragment() {
    let payload = build_cf_html("<b>Hi</b>");
    let bytes = payload.as_bytes();

    let field = |key: &str| -> usize {
        let line = payload
            .lines()
            .find(|l| l.starts_with(key))
            .unwrap_or_else(|| panic!("missing {key}"));
        line[key.len() + 1..].trim().parse().unwrap()
    };
    let start_frag = field("StartFragment");
    let end_frag = field("EndFragment");
    let start_html = field("StartHTML");
    let end_html = field("EndHTML");

    assert_eq!(&bytes[start_frag..end_frag], b"<b>Hi</b>");
    assert!(payload[start_html..].starts_with("<html>"));
    assert_eq!(end_html, bytes.len());
}

#[test]
fn cf_html_offsets_count_bytes_not_chars() {
    let frag = "<i>ção ✓</i>";
    let payload = build_cf_html(frag);
    assert!(payload.starts_with("Version:0.9\r\nStartHTML:0000000105\r\n"));
    let start = payload.find("<!--StartFragment-->").unwrap() + "<!--StartFragment-->".len();
    assert_eq!(&payload.as_bytes()[start..start + frag.len()], frag.as_bytes());
    assert!(payload.contains(&format!("StartFragment:{:010}", start)));
    assert!(payload.contains(&format!("EndFragment:{:010}", start + frag.len())));
}

#[test]
fn skip_logic_honours_flag_semantics() {
    // Screenshots set the include flag to 1: captured.
    assert!(!skip_clipboard(false, Some(Some(1))));
    // Explicit opt-out.
    assert!(skip_clipboard(false, Some(Some(0))));
    // Presence-only markers always skip.
    assert!(skip_clipboard(true, Some(Some(1))));
    assert!(skip_clipboard(true, None));
    // Flag present but unreadable: err on the side of privacy.
    assert!(skip_clipboard(false, Some(None)));
    // Nothing special: captured.
    assert!(!skip_clipboard(false, None));
}

#[test]
fn snapshot_restores_what_it_saved() {
    let s = TextSnapshot::capture(Some("saved".to_string()));
    assert_eq!(s.restore().map(|t| t.as_str()), Some("saved"));
    assert!(TextSnapshot::capture(None).restore().is_none());
}
