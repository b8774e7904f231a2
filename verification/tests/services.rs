use carimbo::inject::InjectMethod;
use carimbo::services::{expansion_enabled_from, inject_method_from, tray_is_pt, tray_labels_for};

#[test]
fn inject_method_defaults_to_paste() {
    assert_eq!(inject_method_from(Some("\"type\"".to_string())), InjectMethod::Type);
    assert_eq!(inject_method_from(Some("\"paste\"".to_string())), InjectMethod::Paste);
    assert_eq!(inject_method_from(Some("type".to_string())), InjectMethod::Paste);
    assert_eq!(inject_method_from(None), InjectMethod::Paste);
}

#[test]
fn expansion_is_opt_in() {
    assert!(expansion_enabled_from(Some("true".to_string())));
    assert!(!expansion_enabled_from(Some("false".to_string())));
    assert!(!expansion_enabled_from(Some("\"true\"".to_string())));
    assert!(!expansion_enabled_from(None));
}

#[test]
fn tray_language_follows_the_setting() {
    assert!(tray_is_pt(Some("\"pt-BR\"".to_string())));
    assert!(tray_is_pt(Some("pt-BR".to_string())));
    assert!(tray_is_pt(Some("\"\"pt-BR\"".to_string())));
    assert!(!tray_is_pt(Some("\"en\"".to_string())));
    assert!(!tray_is_pt(Some(" \"pt-BR\"".to_string())));
    assert!(!tray_is_pt(None));
    assert_eq!(tray_labels_for(Some("\"pt-BR\"".to_string())).quit, "Sair");
    assert_eq!(tray_labels_for(Some("\"pt-BR\"".to_string())).open_palette, "Buscar snippet…");
    assert_eq!(tray_labels_for(None).open_manager, "Open Carimbo");
    assert_eq!(tray_labels_for(Some("\"en\"".to_string())).toggle_expansion, "Pause/resume expansion");
}
