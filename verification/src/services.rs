//! Settings that decide how the background services and the tray start: the
//! injection method, whether expansion runs, and the tray's label language.

use vstd::prelude::*;

use crate::import::opt_view;
use crate::inject::InjectMethod;
use crate::text::{chars_of, range_eq, str_eq};

verus! {

/// Setting that picks the injection method (a JSON string).
pub const INJECT_METHOD_KEY: &'static str = "expansion.injectMethod";

/// Setting that turns text expansion on.
pub const EXPANSION_ENABLED_KEY: &'static str = "expansion.enabled";

/// Setting that holds the interface language (a JSON string).
pub const UI_LANGUAGE_KEY: &'static str = "ui.language";

/// The injection method a stored setting selects: typing only for the exact
/// JSON string `"type"`, pasting otherwise (also when it is missing).
pub open spec fn spec_inject_method(raw: Option<Seq<char>>) -> InjectMethod {
    match raw {
        Some(r) => if r == "\"type\""@ {
            InjectMethod::Type
        } else {
            InjectMethod::Paste
        },
        None => InjectMethod::Paste,
    }
}

/// Read the configured injection method ("paste" by default, or "type").
pub fn inject_method_from(raw: Option<String>) -> (m: InjectMethod)
    ensures
        m == spec_inject_method(opt_view(raw)),
{
    match raw {
        Some(r) => if str_eq(r.as_str(), "\"type\"") {
            InjectMethod::Type
        } else {
            InjectMethod::Paste
        },
        None => InjectMethod::Paste,
    }
}

/// Whether expansion is enabled: only a stored `true` turns it on, so the
/// keyboard hook is never installed on a first run.
pub fn expansion_enabled_from(raw: Option<String>) -> (b: bool)
    ensures
        b == (opt_view(raw) == Some("true"@)),
{
    match raw {
        Some(r) => str_eq(r.as_str(), "true"),
        None => false,
    }
}

/// `s` without the `c` chars at its start.
pub open spec fn strip_start(s: Seq<char>, c: char) -> Seq<char>
    decreases s.len(),
{
    if s.len() > 0 && s[0] == c {
        strip_start(s.drop_first(), c)
    } else {
        s
    }
}

/// `s` without the `c` chars at its end.
pub open spec fn strip_end(s: Seq<char>, c: char) -> Seq<char>
    decreases s.len(),
{
    if s.len() > 0 && s.last() == c {
        strip_end(s.drop_last(), c)
    } else {
        s
    }
}

/// `str::trim_matches(c)`: every `c` removed from both ends.
pub open spec fn trim_matches(s: Seq<char>, c: char) -> Seq<char> {
    strip_end(strip_start(s, c), c)
}

/// Bounds of `trim_matches(v, c)` within `v`.
fn trim_matches_range(v: &Vec<char>, c: char) -> (r: (usize, usize))
    ensures
        r.0 <= r.1 <= v@.len(),
        trim_matches(v@, c) == v@.subrange(r.0 as int, r.1 as int),
{
    let n = v.len();
    let mut a: usize = 0;
    assert(v@.subrange(0, n as int) == v@);
    while a < n && v[a] == c
        invariant
            a <= n == v@.len(),
            strip_start(v@, c) == strip_start(v@.subrange(a as int, n as int), c),
        decreases n - a,
    {
        assert(v@.subrange(a as int, n as int).drop_first() == v@.subrange(a + 1, n as int));
        a += 1;
    }
    let mut b: usize = n;
    while b > a && v[b - 1] == c
        invariant
            a <= b <= n == v@.len(),
            strip_start(v@, c) == v@.subrange(a as int, n as int),
            trim_matches(v@, c) == strip_end(v@.subrange(a as int, b as int), c),
        decreases b - a,
    {
        assert(v@.subrange(a as int, b as int).drop_last() == v@.subrange(a as int, b - 1));
        b -= 1;
    }
    (a, b)
}

/// The tray shows Portuguese labels when the stored language, without its
/// quotes, is `pt-BR`; English otherwise (also when it is missing).
pub open spec fn spec_tray_is_pt(raw: Option<Seq<char>>) -> bool {
    match raw {
        Some(r) => trim_matches(r, '"') == "pt-BR"@,
        None => false,
    }
}

/// Labels of the tray menu.
#[derive(Clone, Copy, Debug)]
pub struct TrayLabels {
    pub open_manager: &'static str,
    pub open_palette: &'static str,
    pub toggle_expansion: &'static str,
    pub quit: &'static str,
}

/// `l` holds the English labels.
pub open spec fn is_tray_en(l: TrayLabels) -> bool {
    &&& l.open_manager@ == "Open Carimbo"@
    &&& l.open_palette@ == "Search snippet…"@
    &&& l.toggle_expansion@ == "Pause/resume expansion"@
    &&& l.quit@ == "Quit"@
}

/// `l` holds the Brazilian Portuguese labels.
pub open spec fn is_tray_pt_br(l: TrayLabels) -> bool {
    &&& l.open_manager@ == "Abrir Carimbo"@
    &&& l.open_palette@ == "Buscar snippet…"@
    &&& l.toggle_expansion@ == "Pausar/retomar expansão"@
    &&& l.quit@ == "Sair"@
}

/// The English tray labels.
pub fn tray_en() -> (l: TrayLabels)
    ensures
        is_tray_en(l),
{
    TrayLabels {
        open_manager: "Open Carimbo",
        open_palette: "Search snippet…",
        toggle_expansion: "Pause/resume expansion",
        quit: "Quit",
    }
}

/// The Brazilian Portuguese tray labels.
pub fn tray_pt_br() -> (l: TrayLabels)
    ensures
        is_tray_pt_br(l),
{
    TrayLabels {
        open_manager: "Abrir Carimbo",
        open_palette: "Buscar snippet…",
        toggle_expansion: "Pausar/retomar expansão",
        quit: "Sair",
    }
}

/// Whether the stored UI language selects the Portuguese tray labels.
pub fn tray_is_pt(raw: Option<String>) -> (b: bool)
    ensures
        b == spec_tray_is_pt(opt_view(raw)),
{
    match raw {
        Some(r) => {
            let v = chars_of(r.as_str());
            let (a, b) = trim_matches_range(&v, '"');
            let lit = chars_of("pt-BR");
            range_eq(&v, a, b, &lit)
        },
        None => false,
    }
}

/// The tray labels for the stored UI language (English by default).
pub fn tray_labels_for(raw: Option<String>) -> (l: TrayLabels)
    ensures
        spec_tray_is_pt(opt_view(raw)) ==> is_tray_pt_br(l),
        !spec_tray_is_pt(opt_view(raw)) ==> is_tray_en(l),
{
    if tray_is_pt(raw) {
        tray_pt_br()
    } else {
        tray_en()
    }
}

} // verus!
