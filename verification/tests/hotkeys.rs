use carimbo::error::CoreError;
use carimbo::hotkeys::{effective_secondary, hotkey_info, merge_hotkeys};

#[test]
fn info_uses_defaults_for_missing_settings() {
    let i = hotkey_info(None, None, None, None);
    assert_eq!(i.hotkey, "Control+Shift+Space");
    assert_eq!(i.hotkey2, "");
    assert_eq!(i.main_tab, "snippets");
    assert_eq!(i.color_hotkey, "Control+Shift+C");
    assert_eq!(i.default, "Control+Shift+Space");
    assert_eq!(i.color_default, "Control+Shift+C");
    let i = hotkey_info(
        Some("\"Alt+Space\"".into()),
        Some("\"Alt+V\"".into()),
        Some("\"clipboard\"".into()),
        Some("not json".into()),
    );
    assert_eq!(i.hotkey, "Alt+Space");
    assert_eq!(i.hotkey2, "Alt+V");
    assert_eq!(i.main_tab, "clipboard");
    assert_eq!(i.color_hotkey, "Control+Shift+C");
}

#[test]
fn merging_edits() {
    let cur = hotkey_info(None, Some("\"Alt+V\"".into()), None, None);
    let c = merge_hotkeys(&cur, Some("  Alt+X ".into()), Some("   ".into()), Some("weird".into()), None)
        .unwrap();
    assert_eq!(c.primary, "Alt+X");
    assert_eq!(c.secondary, "");
    assert_eq!(c.main_tab, "snippets");
    assert_eq!(c.color, "Control+Shift+C");
    let c = merge_hotkeys(&cur, None, None, None, Some("".into())).unwrap();
    assert_eq!(c.primary, "Control+Shift+Space");
    assert_eq!(c.secondary, "Alt+V");
    assert_eq!(c.color, "");
    match merge_hotkeys(&cur, Some("  ".into()), None, None, None) {
        Err(CoreError::Invalid(m)) => assert_eq!(m, "atalho vazio"),
        other => panic!("unexpected {other:?}"),
    }
}

#[test]
fn secondary_is_dropped_when_blank_or_same_as_primary() {
    assert_eq!(effective_secondary(Some(" Alt+V "), "Alt+X").as_deref(), Some("Alt+V"));
    assert_eq!(effective_secondary(Some("Alt+X"), "Alt+X"), None);
    assert_eq!(effective_secondary(Some("  "), "Alt+X"), None);
    assert_eq!(effective_secondary(None, "Alt+X"), None);
}
