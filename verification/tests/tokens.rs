use carimbo::region::Region;
use carimbo::tokens::{
    expand, expand_full, expand_full_at, extract_variables, has_tokens, Moment,
    TokenContext,
};

fn ctx_with_vars(pairs: &[(&str, &str)]) -> TokenContext {
    TokenContext {
        variables: pairs
            .iter()
            .map(|(k, v)| (k.to_string(), v.to_string()))
            .collect(),
        ..Default::default()
    }
}

fn exp(body: &str, ctx: &TokenContext) -> String {
    expand(body, ctx, Region::US)
}

#[test]
fn expands_clipboard_token() {
    let ctx = TokenContext {
        clipboard: Some("copiado".into()),
        ..Default::default()
    };
    assert_eq!(exp("x {clipboard} y", &ctx), "x copiado y");
}

#[test]
fn expands_form_variable() {
    let ctx = ctx_with_vars(&[("nome_cliente", "Maria")]);
    assert_eq!(exp("Olá, [[nome_cliente]]!", &ctx), "Olá, Maria!");
}

#[test]
fn labeled_variable_uses_key_for_lookup() {
    let ctx = ctx_with_vars(&[("num", "42")]);
    assert_eq!(exp("Pedido [[num:Número do pedido]]", &ctx), "Pedido 42");
}

#[test]
fn missing_variable_becomes_empty() {
    let ctx = TokenContext::default();
    assert_eq!(exp("A[[x]]B", &ctx), "AB");
}

#[test]
fn same_variable_used_twice() {
    let ctx = ctx_with_vars(&[("n", "Ana")]);
    assert_eq!(exp("[[n]] & [[n]]", &ctx), "Ana & Ana");
}

#[test]
fn lone_open_bracket_is_verbatim() {
    let ctx = TokenContext::default();
    assert_eq!(exp("a [[ b", &ctx), "a [[ b");
    assert_eq!(exp("array[[i]] index", &ctx), "array index");
}

#[test]
fn extract_variables_ordered_and_deduped() {
    let vars = extract_variables("[[b]] [[a:Rótulo A]] [[b]] [[c]]");
    let keys: Vec<_> = vars.iter().map(|v| v.key.as_str()).collect();
    assert_eq!(keys, ["b", "a", "c"]);
    assert_eq!(vars[1].label, "Rótulo A");
    assert_eq!(vars[0].label, "b");
}

#[test]
fn extract_variables_none() {
    assert!(extract_variables("Olá {date}, sem variáveis").is_empty());
}

#[test]
fn missing_clipboard_becomes_empty() {
    let ctx = TokenContext::default();
    assert_eq!(exp("a{clipboard}b", &ctx), "ab");
}

#[test]
fn variables_and_tokens_coexist() {
    let ctx = ctx_with_vars(&[("nome", "João")]);
    let out = exp("Olá [[nome]], hoje é {date}.", &ctx);
    assert!(out.starts_with("Olá João, hoje é "));
    assert!(out.contains('/'));
}

#[test]
fn unknown_token_left_verbatim() {
    let ctx = TokenContext::default();
    assert_eq!(exp("hello {foo} world", &ctx), "hello {foo} world");
}

#[test]
fn escaped_braces() {
    let ctx = TokenContext::default();
    assert_eq!(exp("{{date}}", &ctx), "{date}");
}

#[test]
fn date_and_time_are_nonempty_and_formatted() {
    let ctx = TokenContext::default();
    let out = exp("{date} {time}", &ctx);
    assert!(out.contains('/'));
    assert!(out.contains(':'));
}

#[test]
fn date_order_follows_region() {
    let ctx = TokenContext::default();
    let us = expand("{date}", &ctx, Region::US);
    let br = expand("{date}", &ctx, Region::BR);
    for s in [&us, &br] {
        let parts: Vec<&str> = s.split('/').collect();
        assert_eq!(parts.len(), 3, "date has three /-separated parts");
    }
    let up: Vec<&str> = us.split('/').collect();
    let bp: Vec<&str> = br.split('/').collect();
    assert_eq!(up[2], bp[2], "year matches across regions");
    assert_eq!(up[0], bp[1], "US month == BR's second field");
    assert_eq!(up[1], bp[0], "US day == BR's first field");
}

#[test]
fn preserves_unicode_body() {
    let ctx = TokenContext::default();
    assert_eq!(exp("Olá, ção {foo}", &ctx), "Olá, ção {foo}");
}

#[test]
fn uuid_token_expands_to_a_uuid() {
    let ctx = TokenContext::default();
    let out = exp("id={uuid}", &ctx);
    let uuid_part = out.strip_prefix("id=").unwrap();
    assert_eq!(uuid_part.len(), 36);
    assert_eq!(uuid_part.matches('-').count(), 4);
    assert_ne!(exp("{uuid}", &ctx), exp("{uuid}", &ctx));
}

#[test]
fn cursor_token_emits_nothing_and_reports_offset() {
    let ctx = TokenContext::default();
    let e = expand_full("Dear {cursor},", &ctx, Region::US);
    assert_eq!(e.text, "Dear ,");
    assert_eq!(e.cursor_from_end, Some(1));
}

#[test]
fn cursor_absent_reports_none() {
    let ctx = TokenContext::default();
    assert_eq!(expand_full("no marker", &ctx, Region::US).cursor_from_end, None);
}

#[test]
fn only_first_cursor_is_honoured() {
    let ctx = TokenContext::default();
    let e = expand_full("a{cursor}b{cursor}c", &ctx, Region::US);
    assert_eq!(e.text, "abc");
    assert_eq!(e.cursor_from_end, Some(2));
}

#[test]
fn cursor_offset_counts_unicode_scalars() {
    let ctx = TokenContext::default();
    let e = expand_full("x{cursor}ção", &ctx, Region::US);
    assert_eq!(e.cursor_from_end, Some(3));
}

#[test]
fn date_offset_days_shape() {
    let ctx = TokenContext::default();
    let out = exp("{date+7d}", &ctx);
    assert_eq!(out.split('/').count(), 3, "shifted date is dd/mm/yyyy-shaped");
    assert!(!out.contains("date"));
}

#[test]
fn date_offset_negative_and_units() {
    let ctx = TokenContext::default();
    for tok in ["{date-3d}", "{date+2w}", "{date-1m}", "{date+1y}"] {
        let out = exp(tok, &ctx);
        assert_eq!(out.split('/').count(), 3, "{tok} -> date-shaped");
    }
}

#[test]
fn malformed_date_offset_left_verbatim() {
    let ctx = TokenContext::default();
    assert_eq!(exp("{date+7z}", &ctx), "{date+7z}");
    assert_eq!(exp("{date+d}", &ctx), "{date+d}");
}

#[test]
fn later_variable_pair_wins() {
    let ctx = ctx_with_vars(&[("k", "first"), ("k", "second")]);
    assert_eq!(exp("[[k]]", &ctx), "second");
}

#[test]
fn has_tokens_detects_markup() {
    assert!(has_tokens("a {date} b"));
    assert!(has_tokens("{"));
    // Only braces count: form variables alone don't.
    assert!(!has_tokens("[[x]]"));
    assert!(!has_tokens("plain text"));
}

#[test]
fn unrepresentable_date_offset_left_verbatim() {
    let ctx = TokenContext::default();
    let e = expand_full("{date+999999999999999d}", &ctx, Region::US);
    assert_eq!(e.text, "{date+999999999999999d}");
    assert_eq!(e.cursor_from_end, None);
    assert_eq!(exp("a {date-99999999999999999999d} b", &ctx), "a {date-99999999999999999999d} b");
}

#[test]
fn time_token_is_hh_mm() {
    let ctx = TokenContext::default();
    let out = exp("{time}", &ctx);
    assert_eq!(out.len(), 5);
    assert_eq!(&out[2..3], ":");
}

fn moment(year: i32, month: u8, day: u8, hour: u8, minute: u8) -> Moment {
    Moment { year, month, day, hour, minute }
}

#[test]
fn date_tokens_at_a_fixed_moment() {
    let ctx = TokenContext::default();
    let now = moment(2024, 1, 28, 9, 5);
    let at = |body: &str, region: Region| expand_full_at(body, &ctx, region, &now).text;
    assert_eq!(at("{date}", Region::US), "01/28/2024");
    assert_eq!(at("{date}", Region::BR), "28/01/2024");
    assert_eq!(at("{time}", Region::BR), "09:05");
    assert_eq!(at("{datetime}", Region::BR), "28/01/2024 09:05");
    assert_eq!(at("{date+7d}", Region::BR), "04/02/2024");
    assert_eq!(at("{date-28d}", Region::BR), "31/12/2023");
    assert_eq!(at("{date+1w}", Region::US), "02/04/2024");
    assert_eq!(at("{date+1m}", Region::BR), "27/02/2024");
    assert_eq!(at("{date+1y}", Region::BR), "27/01/2025");
}

#[test]
fn variable_keys_and_labels_are_trimmed() {
    let v = extract_variables("[[ k ]] [[k: L ]] [[ n : Nome ]] [[x:  ]]");
    assert_eq!(v.len(), 3);
    assert_eq!((v[0].key.as_str(), v[0].label.as_str()), ("k", "k"));
    assert_eq!((v[1].key.as_str(), v[1].label.as_str()), ("n", "Nome"));
    assert_eq!((v[2].key.as_str(), v[2].label.as_str()), ("x", "x"));
}

#[test]
fn text_before_a_uuid_is_kept() {
    let ctx = TokenContext::default();
    let u = exp("id={uuid}", &ctx);
    assert!(u.starts_with("id="));
    assert_eq!(u[3..].len(), 36);
    assert_eq!(u[3..].matches('-').count(), 4);
}
