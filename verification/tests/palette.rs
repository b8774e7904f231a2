use carimbo::models::Snippet;
use carimbo::palette::{
    candidate_for, expansion_routes, is_excluded_app, main_tab_for, needs_clipboard, other_tab,
    plan_insert, preview_of, rank_candidates, snippet_for_replacement, ExpansionRoute, InsertPlan, RadialCandidate,
};
use carimbo::tokens::Expanded;
use carimbo::transform::TransformKind;

#[test]
fn hotkey_tabs() {
    assert_eq!(main_tab_for("clipboard"), "clipboard");
    assert_eq!(main_tab_for("snippets"), "snippets");
    assert_eq!(main_tab_for("anything"), "snippets");
    for t in ["clipboard", "snippets", "", "x"] {
        assert_ne!(main_tab_for(t), other_tab(t));
    }
    assert_eq!(other_tab("clipboard"), "snippets");
}

#[test]
fn clipboard_is_read_only_when_asked_for() {
    assert!(needs_clipboard("a {clipboard}", None));
    assert!(needs_clipboard("a", Some("<b>{clipboard}</b>")));
    assert!(!needs_clipboard("a {clip}", Some("none")));
}

fn expanded(text: &str, cursor: Option<usize>) -> Expanded {
    Expanded { text: text.to_string(), cursor_from_end: cursor }
}

#[test]
fn insertion_plans() {
    match plan_insert(expanded("hello", Some(2)), Some("<b>x</b>".into()), Some(TransformKind::UpperCase)) {
        InsertPlan::Text { text, cursor_from_end } => {
            assert_eq!(text, "HELLO");
            assert_eq!(cursor_from_end, None);
        }
        other => panic!("unexpected {other:?}"),
    }
    match plan_insert(expanded("plain", Some(1)), Some("<i>rich</i>".into()), None) {
        InsertPlan::Html { html, plain } => {
            assert_eq!(html, "<i>rich</i>");
            assert_eq!(plain, "plain");
        }
        other => panic!("unexpected {other:?}"),
    }
    match plan_insert(expanded("plain", Some(1)), None, None) {
        InsertPlan::Text { text, cursor_from_end } => {
            assert_eq!(text, "plain");
            assert_eq!(cursor_from_end, Some(1));
        }
        other => panic!("unexpected {other:?}"),
    }
}

#[test]
fn expansion_route_order() {
    assert_eq!(expansion_routes(1, "plain"), vec![ExpansionRoute::Direct]);
    assert_eq!(
        expansion_routes(2, "Hi [[name]]"),
        vec![ExpansionRoute::Radial, ExpansionRoute::Form, ExpansionRoute::Direct]
    );
    assert_eq!(expansion_routes(0, "[[x:Label]]"), vec![ExpansionRoute::Form, ExpansionRoute::Direct]);
}

#[test]
fn previews() {
    assert_eq!(preview_of("\n   \n  First  \nsecond"), "First");
    assert_eq!(preview_of(""), "");
    let long = "y".repeat(60);
    assert_eq!(preview_of(&long), format!("{}…", "y".repeat(48)));
    assert_eq!(preview_of(&"z".repeat(48)), "z".repeat(48));
}

fn snippet(id: &str, name: &str, trigger: Option<&str>, body: &str) -> Snippet {
    Snippet {
        id: id.into(),
        folder_id: None,
        name: name.into(),
        trigger: trigger.map(|t| t.into()),
        body: body.into(),
        body_html: None,
        is_favorite: false,
        use_count: 0,
        last_used_at: None,
        sort_order: 0,
        created_at: 0,
        updated_at: 0,
    }
}

#[test]
fn radial_candidates_rank_by_distance_then_name() {
    let typed = ";cpf";
    let cands: Vec<RadialCandidate> = vec![
        snippet("2", "CPF cônjuge", Some(";Cpfs"), "987.654.321-11"),
        snippet("3", "b other", Some(";cpj"), "x"),
        snippet("1", "CPF", Some(";CPF"), "123.456.789-00"),
        snippet("4", "A other", Some(";cpx"), "y"),
    ]
    .iter()
    .map(|s| candidate_for(s, typed))
    .collect();
    assert_eq!(cands[2].distance, 0);
    assert_eq!(cands[0].distance, 1);
    assert_eq!(cands[0].preview, "987.654.321-11");
    let ranked = rank_candidates(cands);
    let ids: Vec<&str> = ranked.iter().map(|c| c.id.as_str()).collect();
    // Exact match first, then distance 1 by lowercased name.
    assert_eq!(ids, vec!["1", "4", "3", "2"]);
}

#[test]
fn ranking_keeps_ties_in_order() {
    let mk = |id: &str| RadialCandidate {
        id: id.into(),
        name: "Same".into(),
        trigger: ";s".into(),
        preview: String::new(),
        distance: 1,
    };
    let ranked = rank_candidates(vec![mk("a"), mk("b"), mk("c")]);
    let ids: Vec<&str> = ranked.iter().map(|c| c.id.as_str()).collect();
    assert_eq!(ids, vec!["a", "b", "c"]);
    assert!(rank_candidates(Vec::new()).is_empty());
}

#[test]
fn candidate_without_trigger_has_empty_trigger() {
    let c = candidate_for(&snippet("9", "N", None, "b"), ";x");
    assert_eq!(c.trigger, "");
    assert_eq!(c.distance, 2);
}

#[test]
fn excluded_apps_match_case_insensitively() {
    let list = vec!["KeePass.exe".to_string(), "cmd.exe".to_string()];
    assert!(is_excluded_app("keepass.EXE", &list));
    assert!(!is_excluded_app("notepad.exe", &list));
    assert!(!is_excluded_app("keepass.exe", &Vec::new()));
}

#[test]
fn direct_expansion_finds_its_snippet() {
    let list = vec![
        snippet("1", "No trigger", None, "same"),
        snippet("2", "Has trigger", Some(";a"), "same"),
        snippet("3", "Also", Some(";b"), "same"),
    ];
    assert_eq!(snippet_for_replacement(&list, "same"), Some(1));
    assert_eq!(snippet_for_replacement(&list, "other"), None);
}
