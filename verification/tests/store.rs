use carimbo::error::CoreError;
use carimbo::store::{
    checked_name, clean_html, clean_trigger, excluded_apps_from, fts_match_expr, frecency_expr,
    placeholders, retention_limits,
};

#[test]
fn triggers_and_html_are_normalized() {
    assert_eq!(clean_trigger(Some("  ;x  ".into())).as_deref(), Some(";x"));
    assert_eq!(clean_trigger(Some("   ".into())), None);
    assert_eq!(clean_trigger(None), None);
    assert_eq!(clean_html(Some(" <b>x</b> ".into())).as_deref(), Some(" <b>x</b> "));
    assert_eq!(clean_html(Some(" \n ".into())), None);
}

#[test]
fn names_are_trimmed_and_required() {
    assert_eq!(checked_name("  Hi  ").unwrap(), "Hi");
    match checked_name("   ") {
        Err(CoreError::Invalid(m)) => assert_eq!(m, "snippet name is empty"),
        other => panic!("unexpected {other:?}"),
    }
}

#[test]
fn fts_expression_quotes_and_prefixes_terms() {
    assert_eq!(fts_match_expr("  hello  wor "), "\"hello\"* \"wor\"*");
    assert_eq!(fts_match_expr("say \"hi\""), "\"say\"* \"\"\"hi\"\"\"*");
    assert_eq!(fts_match_expr("ação\tOR"), "\"ação\"* \"OR\"*");
    assert_eq!(fts_match_expr("   "), "");
}

#[test]
fn placeholder_lists() {
    assert_eq!(placeholders(0), "");
    assert_eq!(placeholders(1), "?");
    assert_eq!(placeholders(3), "?, ?, ?");
}

#[test]
fn frecency_expression_text() {
    let e = frecency_expr("s.", "?2");
    assert!(e.starts_with("(COALESCE(s.use_count, 0) * (CASE WHEN s.last_used_at IS NULL THEN 0"));
    assert!(e.contains("WHEN ?2 - s.last_used_at < 3600000 THEN 100"));
    assert!(e.ends_with("ELSE 10 END))"));
    let plain = frecency_expr("", "?1");
    assert!(plain.contains("WHEN ?1 - last_used_at < 2592000000 THEN 20"));
}

#[test]
fn excluded_apps_setting() {
    assert_eq!(excluded_apps_from(Some("[\"KeePass.exe\",\"x\"]".into())), vec!["KeePass.exe", "x"]);
    assert!(excluded_apps_from(Some("not json".into())).is_empty());
    assert!(excluded_apps_from(Some("[1]".into())).is_empty());
    assert!(excluded_apps_from(None).is_empty());
}

#[test]
fn retention_defaults_and_saturation() {
    assert_eq!(retention_limits(None, None), (30 * 86_400_000, 500));
    assert_eq!(retention_limits(Some("7".into()), Some("100".into())), (7 * 86_400_000, 100));
    assert_eq!(retention_limits(Some("\"7\"".into()), Some("x".into())), (30 * 86_400_000, 500));
    assert_eq!(retention_limits(Some(i64::MAX.to_string()), None).0, i64::MAX);
    assert_eq!(retention_limits(Some(i64::MIN.to_string()), None).0, i64::MIN);
}

#[test]
fn integer_settings_read_as_json_integers() {
    assert_eq!(retention_limits(Some(" 7\n".into()), Some("\t-3 ".into())), (7 * 86_400_000, -3));
    assert_eq!(retention_limits(Some("007".into()), Some("-0".into())), (30 * 86_400_000, 500));
    assert_eq!(retention_limits(Some("1e3".into()), Some("2.0".into())), (30 * 86_400_000, 500));
    assert_eq!(retention_limits(Some("0".into()), Some("1 2".into())), (0, 500));
    assert_eq!(retention_limits(None, Some("9223372036854775808".into())).1, 500);
    assert_eq!(retention_limits(None, Some("-9223372036854775808".into())).1, i64::MIN);
}
