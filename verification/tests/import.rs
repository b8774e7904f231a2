use carimbo::import::{
    after_create_error, make_snippet, parse, parse_counted, parse_csv, parse_espanso, parse_json,
    snippets_from_json, unquote, CreateFailure, ForeignImportReport,
    ImportFormat, ImportOutcome,
};
use carimbo::error::CoreError;
use carimbo::json::JsonValue;

#[test]
fn espanso_simple_matches() {
    let yaml = "matches:\n  - trigger: \";br\"\n    replace: \"Best regards,\"\n  - trigger: \";cpf\"\n    replace: \"123.456.789-00\"\n";
    let s = parse_espanso(yaml);
    assert_eq!(s.len(), 2);
    assert_eq!(s[0].trigger.as_deref(), Some(";br"));
    assert_eq!(s[0].body, "Best regards,");
    assert_eq!(s[1].trigger.as_deref(), Some(";cpf"));
}

#[test]
fn espanso_multiline_block_and_cursor() {
    let yaml = "matches:\n  - trigger: \":sig\"\n    replace: |\n      Line one\n      Line two $|$\n";
    let s = parse_espanso(yaml);
    assert_eq!(s.len(), 1);
    assert_eq!(s[0].body, "Line one\nLine two {cursor}");
}

#[test]
fn espanso_label_becomes_name() {
    let yaml =
        "matches:\n  - trigger: \";addr\"\n    label: Home address\n    replace: 123 Main St\n";
    let s = parse_espanso(yaml);
    assert_eq!(s[0].name, "Home address");
}

#[test]
fn csv_with_header_and_quotes() {
    let csv = "abbreviation,expansion,label\n\";hi\",\"Hello, world\",Greeting\n\";x\",bye,\n";
    let s = parse_csv(csv);
    assert_eq!(s.len(), 2);
    assert_eq!(s[0].trigger.as_deref(), Some(";hi"));
    assert_eq!(s[0].body, "Hello, world");
    assert_eq!(s[0].name, "Greeting");
    assert_eq!(s[1].body, "bye");
}

#[test]
fn csv_no_header_two_columns() {
    let csv = ";ty,Thank you!\n";
    let s = parse_csv(csv);
    assert_eq!(s.len(), 1);
    assert_eq!(s[0].trigger.as_deref(), Some(";ty"));
    assert_eq!(s[0].name, ";ty");
}

#[test]
fn json_array_various_keys() {
    let json = r#"[
        {"trigger": ";a", "body": "Alpha"},
        {"abbreviation": ";b", "expansion": "Bravo", "name": "B"},
        {"replace": "no trigger ok"}
    ]"#;
    let s = parse_json(json).unwrap();
    assert_eq!(s.len(), 3);
    assert_eq!(s[0].body, "Alpha");
    assert_eq!(s[1].trigger.as_deref(), Some(";b"));
    assert_eq!(s[1].name, "B");
    assert_eq!(s[2].trigger, None);
}

#[test]
fn json_object_with_matches_wrapper() {
    let json = r#"{"matches": [{"trigger": ";z", "replace": "Zed"}]}"#;
    let s = parse_json(json).unwrap();
    assert_eq!(s.len(), 1);
    assert_eq!(s[0].body, "Zed");
}

#[test]
fn empty_body_rows_are_dropped() {
    let csv = ";empty,\n;good,has body\n";
    let s = parse_csv(csv);
    assert_eq!(s.len(), 1);
    assert_eq!(s[0].trigger.as_deref(), Some(";good"));
}

#[test]
fn format_detection() {
    assert_eq!(ImportFormat::from_extension("a.yml"), Some(ImportFormat::Espanso));
    assert_eq!(ImportFormat::from_extension("A.CSV"), Some(ImportFormat::Csv));
    assert_eq!(ImportFormat::from_extension("x.json"), Some(ImportFormat::Json));
    assert_eq!(ImportFormat::from_extension("x.txt"), None);
    assert_eq!(ImportFormat::sniff("[{\"a\":1}]"), ImportFormat::Json);
    assert_eq!(ImportFormat::sniff("matches:\n  - trigger: x"), ImportFormat::Espanso);
    assert_eq!(ImportFormat::sniff(";a,b\n"), ImportFormat::Csv);
}

// --- further cases ---------------------------------------------------------------

#[test]
fn espanso_inline_trigger_list_takes_first() {
    let yaml = "matches:\n  - triggers: [\";a\", \";b\"]\n    replace: both\n";
    let s = parse_espanso(yaml);
    assert_eq!(s.len(), 1);
    assert_eq!(s[0].trigger.as_deref(), Some(";a"));
    assert_eq!(s[0].name, ";a");
}

#[test]
fn espanso_block_dedents_and_keeps_inner_blank_lines() {
    let yaml = "matches:\n  - trigger: \";p\"\n    replace: >\n        a\n\n          b\n\n  - trigger: \";q\"\n    replace: q\n";
    let s = parse_espanso(yaml);
    assert_eq!(s.len(), 2);
    assert_eq!(s[0].body, "a\n\n  b");
    assert_eq!(s[1].body, "q");
}

#[test]
fn espanso_match_without_replace_is_dropped() {
    let yaml = "matches:\n  - trigger: \";none\"\n  - trigger: \";ok\"\n    replace: fine\n";
    let s = parse_espanso(yaml);
    assert_eq!(s.len(), 1);
    assert_eq!(s[0].trigger.as_deref(), Some(";ok"));
}

#[test]
fn espanso_indent_cut_inside_a_char_skips_the_item() {
    // The block's least indent is 2 bytes; the second line's indent is one
    // 3-byte ideographic space, so cutting 2 bytes would split it.
    // That item is skipped; the items around it still import.
    let yaml = "- trigger: a\n  replace: one\n- replace: |\n  x\n\u{3000}y\n- trigger: c\n  replace: three\n";
    let s = parse_espanso(yaml);
    assert_eq!(s.len(), 2);
    assert_eq!(s[0].body, "one");
    assert_eq!(s[1].body, "three");
    let fine = "- replace: |\n  x\n  y\n";
    let s = parse_espanso(fine);
    assert_eq!(s[0].body, "x\ny");
}

#[test]
fn unquote_strips_quotes_and_unescapes() {
    assert_eq!(unquote("  \"a\\nb\"  "), "a\nb");
    assert_eq!(unquote("'x'"), "x");
    assert_eq!(unquote("\"unbalanced'"), "\"unbalanced'");
    assert_eq!(unquote("tab\\there"), "tab\there");
    assert_eq!(unquote("say \\\"hi\\\""), "say \"hi\"");
}

#[test]
fn make_snippet_name_falls_back_to_first_line() {
    let s = make_snippet(None, "\n\n  First line here  \nsecond".to_string(), None).unwrap();
    assert_eq!(s.name, "First line here");
    assert_eq!(s.trigger, None);
    assert!(make_snippet(Some(";x".into()), "   \n ".to_string(), None).is_none());
    let long = "x".repeat(70);
    let s = make_snippet(Some("  ".into()), long.clone(), Some(" ".into())).unwrap();
    assert_eq!(s.name, "x".repeat(60));
    assert_eq!(s.trigger, None);
}

#[test]
fn make_snippet_maps_clipboard_placeholder() {
    let s = make_snippet(Some(";c".into()), "paste: {{clipboard}}".to_string(), None).unwrap();
    assert_eq!(s.body, "paste: {clipboard}");
    assert_eq!(s.name, ";c");
    assert!(!s.is_favorite);
    assert!(s.body_html.is_none() && s.folder_id.is_none());
}

#[test]
fn csv_tab_separated_and_header_variants() {
    let tsv = "shortcut\texpansion\n;t\ttabbed\n";
    let s = parse_csv(tsv);
    assert_eq!(s.len(), 1);
    assert_eq!(s[0].trigger.as_deref(), Some(";t"));
    assert_eq!(s[0].body, "tabbed");
    // A header-looking cell later than the first row is data.
    let csv = ";a,one\nkeyword,two\n";
    assert_eq!(parse_csv(csv).len(), 2);
}

#[test]
fn csv_quoted_newlines_and_escaped_quotes() {
    let csv = ";q,\"line1\nline2 \"\"quoted\"\"\"\r\n";
    let s = parse_csv(csv);
    assert_eq!(s.len(), 1);
    assert_eq!(s[0].body, "line1\nline2 \"quoted\"");
}

#[test]
fn json_errors_name_the_problem() {
    match parse_json("[1, 2") {
        Err(CoreError::Invalid(m)) => assert!(m.starts_with("not valid JSON: ")),
        other => panic!("unexpected {other:?}"),
    }
    match parse_json(r#"{"items": []}"#) {
        Err(CoreError::Invalid(m)) => assert_eq!(
            m,
            "JSON must be an array of snippets, or an object with a \"matches\"/\"snippets\" array"
        ),
        other => panic!("unexpected {other:?}"),
    }
    match parse_json("42") {
        Err(CoreError::Invalid(m)) => assert_eq!(m, "JSON must be an array of snippets"),
        other => panic!("unexpected {other:?}"),
    }
}

#[test]
fn json_matches_that_is_not_an_array_is_refused() {
    // `matches` present but not an array: `snippets` is not consulted.
    let r = parse_json(r#"{"matches": 1, "snippets": [{"body": "x"}]}"#);
    assert!(matches!(r, Err(CoreError::Invalid(_))));
    let s = parse_json(r#"{"snippets": [{"text": "x"}, 5, {"body": 7}]}"#).unwrap();
    assert_eq!(s.len(), 1);
    assert_eq!(s[0].body, "x");
}

#[test]
fn snippets_from_a_built_document() {
    let doc = JsonValue::Array(vec![JsonValue::Object(vec![
        ("trigger".to_string(), JsonValue::Str(";d".to_string())),
        ("body".to_string(), JsonValue::Number("3".to_string())),
        ("text".to_string(), JsonValue::Str("from text".to_string())),
    ])]);
    let s = snippets_from_json(&doc).unwrap();
    assert_eq!(s.len(), 1);
    assert_eq!(s[0].body, "from text");
    assert_eq!(s[0].trigger.as_deref(), Some(";d"));
}

#[test]
fn parse_dispatches_on_format() {
    assert_eq!(parse(";a,b\n", ImportFormat::Csv).unwrap().len(), 1);
    assert_eq!(parse("[]", ImportFormat::Json).unwrap().len(), 0);
    assert_eq!(parse("matches:\n  - trigger: x\n    replace: y\n", ImportFormat::Espanso).unwrap().len(), 1);
}

#[test]
fn report_counts_outcomes() {
    let mut r = ForeignImportReport::default();
    r.record(ImportOutcome::Inserted);
    r.record(ImportOutcome::InsertedTriggerDropped);
    r.record(ImportOutcome::Skipped);
    assert_eq!((r.snippets_added, r.triggers_dropped, r.skipped), (2, 1, 1));
}

#[test]
fn trigger_clash_retries_without_trigger() {
    let dup = CoreError::DuplicateTrigger(";a".into());
    assert_eq!(after_create_error(&dup, true), CreateFailure::RetryWithoutTrigger);
    assert_eq!(after_create_error(&dup, false), CreateFailure::Propagate);
    assert_eq!(after_create_error(&CoreError::Invalid("x".into()), true), CreateFailure::Skip);
    assert_eq!(after_create_error(&CoreError::NotFound, true), CreateFailure::Propagate);
}

#[test]
fn rows_without_a_body_are_counted() {
    let csv = "trigger,expansion\n;a,one\n;b,\n\n;c,   \n;d,four\n";
    let (s, report) = parse_counted(csv, ImportFormat::Csv).unwrap();
    assert_eq!(s.len(), 2);
    assert_eq!(report.skipped, 2);
    assert_eq!((report.snippets_added, report.triggers_dropped), (0, 0));

    let json = r#"[{"trigger":";a","body":"x"},{"trigger":";b"},3,{"body":"  "}]"#;
    let (s, report) = parse_counted(json, ImportFormat::Json).unwrap();
    assert_eq!(s.len(), 1);
    assert_eq!(report.skipped, 3);

    let yaml = "- trigger: a\n  replace: one\n- trigger: b\n  replace: \"  \"\n- replace: |\n  x\n\u{3000}y\n- trigger: c\n  replace: three\n";
    let (s, report) = parse_counted(yaml, ImportFormat::Espanso).unwrap();
    assert_eq!(s.len(), 2);
    assert_eq!(report.skipped, 2);
}
