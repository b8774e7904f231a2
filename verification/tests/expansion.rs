use carimbo::expansion::{similar_distance, Expansion, Matcher};

fn feed(m: &mut Matcher, s: &str) -> Option<Expansion> {
    let mut last = None;
    for c in s.chars() {
        last = m.push_char(c);
    }
    last
}

#[test]
fn matches_simple_trigger() {
    let mut m = Matcher::new();
    m.set_triggers(&[(";cpf", "123.456.789-00")]);
    let e = feed(&mut m, ";cpf").unwrap();
    assert_eq!(e.delete_chars, 4);
    assert_eq!(e.replacement, "123.456.789-00");
}

#[test]
fn matching_is_case_insensitive() {
    let mut m = Matcher::new();
    m.set_triggers(&[(";CPF", "123.456.789-00")]);
    assert!(feed(&mut m, ";cpf").is_some(), "lowercase typed should match");
    assert!(feed(&mut m, ";CPF").is_some(), "exact case should match");
    assert!(feed(&mut m, ";Cpf").is_some(), "mixed case should match");
}

#[test]
fn matches_only_at_suffix_after_other_text() {
    let mut m = Matcher::new();
    m.set_triggers(&[(";oi", "Olá")]);
    assert!(feed(&mut m, "bom dia ").is_none());
    let e = feed(&mut m, ";oi").unwrap();
    assert_eq!(e.delete_chars, 3);
    assert_eq!(e.replacement, "Olá");
}

#[test]
fn backspace_shortens_buffer_and_prevents_match() {
    let mut m = Matcher::new();
    m.set_triggers(&[(";oi", "Olá")]);
    feed(&mut m, ";o");
    m.backspace(); // buffer now ";"
    assert!(m.push_char('i').is_none()); // ";i" is not a trigger
}

#[test]
fn reset_clears_partial_trigger() {
    let mut m = Matcher::new();
    m.set_triggers(&[(";oi", "Olá")]);
    feed(&mut m, ";o");
    m.clear_buffer();
    assert!(m.push_char('i').is_none());
}

#[test]
fn longest_trigger_wins_on_overlap() {
    let mut m = Matcher::new();
    m.set_triggers(&[(";a", "short"), ("x;a", "long")]);
    let e = feed(&mut m, "x;a").unwrap();
    assert_eq!(e.replacement, "long");
    assert_eq!(e.delete_chars, 3);
}

#[test]
fn no_double_fire_after_match() {
    let mut m = Matcher::new();
    m.set_triggers(&[(";oi", "Olá")]);
    feed(&mut m, ";oi");
    assert!(m.push_char('!').is_none());
}

#[test]
fn handles_unicode_trigger_chars() {
    let mut m = Matcher::new();
    m.set_triggers(&[("café", "coffee")]);
    let e = feed(&mut m, "café").unwrap();
    assert_eq!(e.delete_chars, 4);
}

#[test]
fn expansion_reports_matched_trigger() {
    let mut m = Matcher::new();
    m.set_triggers(&[(";CPF", "123")]);
    let e = feed(&mut m, ";cpf").unwrap();
    assert_eq!(e.matched_trigger, ";cpf");
}

#[test]
fn similar_distance_basics() {
    assert_eq!(similar_distance(";cpf", ";cpf", 2), 0);
    assert_eq!(similar_distance(";cpf", ";CPF", 2), 0); // case-only
    assert_eq!(similar_distance(";cpf", ";cpfs", 2), 1); // one insert
    assert_eq!(similar_distance(";cpf", ";cnpj", 2), 2);
    assert_eq!(similar_distance("abc", "xyz", 2), 3);
    assert_eq!(similar_distance("a", "abcd", 2), 3);
}

#[test]
fn similar_triggers_finds_confusable_set() {
    let mut m = Matcher::new();
    m.set_triggers(&[(";cpf", "a"), (";cpfs", "b"), (";cpj", "c"), (";endereco", "d")]);
    let mut got = m.similar_triggers(";cpf", 2);
    got.sort();
    assert_eq!(got, vec![";cpf", ";cpfs", ";cpj"]);
}

#[test]
fn typed_then_reset_key_never_fires() {
    let mut m = Matcher::new();
    m.set_triggers(&[(";oi", "Olá")]);
    feed(&mut m, ";o");
    m.clear_buffer();
    assert!(feed(&mut m, "i").is_none());
    assert!(feed(&mut m, ";oi").is_some());
}

#[test]
fn later_pair_for_same_trigger_wins() {
    let mut m = Matcher::new();
    m.set_triggers(&[(";x", "first"), (";X", "second")]);
    let e = feed(&mut m, ";x").unwrap();
    assert_eq!(e.replacement, "second");
}

#[test]
fn similar_distance_is_zero_on_itself() {
    for s in ["", "a", ";cpf", "café com leite"] {
        assert_eq!(similar_distance(s, s, 2), 0);
    }
}

#[test]
fn empty_trigger_never_fires() {
    let mut m = Matcher::new();
    m.set_triggers(&[("", "nothing")]);
    assert!(feed(&mut m, "abc").is_none());
}

/// The live triggered snippets of a library, as `(name, trigger, body)`.
const CPF_LIBRARY: [(&str, &str, &str); 3] = [
    ("CPF", ";CPF", "123.456.789-00"),
    ("CPF cônjuge", ";Cpfs", "987.654.321-11"),
    ("Endereço", ";end", "Rua X"),
];

#[test]
fn typing_lowercase_trigger_matches_and_offers_similar() {
    let pairs: Vec<(&str, &str)> = CPF_LIBRARY.iter().map(|(_, t, b)| (*t, *b)).collect();
    let mut matcher = Matcher::new();
    matcher.set_triggers(&pairs);

    let exp = feed(&mut matcher, ";cpf").expect("lowercase ;cpf must expand");
    assert_eq!(exp.matched_trigger, ";cpf");
    assert_eq!(exp.delete_chars, 4);

    let similar = matcher.similar_triggers(&exp.matched_trigger, 2);
    assert!(similar.len() >= 2, "expected an ambiguous set (>=2), got {similar:?}");
    assert!(similar.contains(&";cpf".to_string()));
    assert!(similar.contains(&";cpfs".to_string()));
    assert!(!similar.contains(&";end".to_string()), "far trigger must not be offered");

    // The snippets whose lowercased trigger is in the similar set, ranked by distance.
    let mut snippets: Vec<&(&str, &str, &str)> = CPF_LIBRARY
        .iter()
        .filter(|(_, t, _)| similar.contains(&t.to_lowercase()))
        .collect();
    assert_eq!(snippets.len(), 2, "both CPF snippets resolved");
    snippets.sort_by_key(|(_, t, _)| similar_distance(&exp.matched_trigger, &t.to_lowercase(), 2));
    assert_eq!(snippets[0].1, ";CPF");
    assert_eq!(snippets[1].1, ";Cpfs");
}

#[test]
fn unambiguous_trigger_does_not_trigger_radial() {
    let mut matcher = Matcher::new();
    matcher.set_triggers(&[(";oi", "Olá!"), (";endereco", "Rua X")]);
    let exp = feed(&mut matcher, ";oi").expect("must expand");
    let similar = matcher.similar_triggers(&exp.matched_trigger, 2);
    assert_eq!(similar, vec![";oi".to_string()], "only itself is similar");
}

#[test]
fn set_triggers_replaces_the_whole_table() {
    let mut m = Matcher::new();
    m.set_triggers(&[(";old", "x")]);
    m.set_triggers(&[(";NEW", "y"), ("", "z"), (";new", "w")]);
    assert_eq!(m.similar_triggers("", 100), vec![";new".to_string()]);
    assert_eq!(feed(&mut m, ";new").unwrap().replacement, "w");
    assert!(feed(&mut m, ";old").is_none());
}
