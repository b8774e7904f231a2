//! Decisions of the palette and the expansion engine: which tab a hotkey
//! opens, when the clipboard must be read, how an expanded snippet is
//! inserted, which route a fired trigger takes, and what the radial picker
//! shows.

use vstd::prelude::*;
use crate::expansion::{similar_distance, spec_similar_distance};
use crate::import::first_filled;
use crate::models::Snippet;
use crate::text::{
    chars_of, contains_at_any, contains_seq, lines, lower_str, next_line, str_eq, str_to_lower,
    string_of_range, push_char, trim, trim_range,
};
use crate::tokens::{extract_variables, vars_from, Expanded};
use crate::transform::{spec_apply, TransformKind};

verus! {

pub const TAB_SNIPPETS: &'static str = "snippets";
pub const TAB_CLIPBOARD: &'static str = "clipboard";

/// The tab the primary hotkey opens: the clipboard when so configured, the
/// snippets otherwise.
pub open spec fn spec_main_tab(main_tab: Seq<char>) -> Seq<char> {
    if main_tab == "clipboard"@ {
        "clipboard"@
    } else {
        "snippets"@
    }
}

pub fn main_tab_for(main_tab: &str) -> (r: &'static str)
    ensures
        r@ == spec_main_tab(main_tab@),
{
    if str_eq(main_tab, TAB_CLIPBOARD) {
        TAB_CLIPBOARD
    } else {
        TAB_SNIPPETS
    }
}

/// The tab the secondary hotkey opens: whichever one the primary doesn't.
pub open spec fn spec_other_tab(main_tab: Seq<char>) -> Seq<char> {
    if spec_main_tab(main_tab) == "snippets"@ {
        "clipboard"@
    } else {
        "snippets"@
    }
}

pub fn other_tab(main_tab: &str) -> (r: &'static str)
    ensures
        r@ == spec_other_tab(main_tab@),
{
    if str_eq(main_tab_for(main_tab), TAB_SNIPPETS) {
        TAB_CLIPBOARD
    } else {
        TAB_SNIPPETS
    }
}

/// The two hotkeys always open the two different tabs.
pub proof fn law_hotkeys_open_both_tabs(main_tab: Seq<char>)
    ensures
        spec_other_tab(main_tab) != spec_main_tab(main_tab),
        spec_main_tab(main_tab) == "snippets"@ || spec_main_tab(main_tab) == "clipboard"@,
        spec_other_tab(main_tab) == "snippets"@ || spec_other_tab(main_tab) == "clipboard"@,
{
    reveal_strlit("snippets");
    reveal_strlit("clipboard");
    assert("snippets"@[0] != "clipboard"@[0]);
}

/// The clipboard is read only when the plain or the rich body asks for it.
pub open spec fn spec_needs_clipboard(body: Seq<char>, html: Option<Seq<char>>) -> bool {
    contains_seq(body, "{clipboard}"@) || (html matches Some(h) && contains_seq(
        h,
        "{clipboard}"@,
    ))
}

pub fn needs_clipboard(body: &str, html: Option<&str>) -> (b: bool)
    ensures
        b == spec_needs_clipboard(
            body@,
            match html {
                Some(h) => Some(h@),
                None => None,
            },
        ),
{
    let token = chars_of("{clipboard}");
    if contains_at_any(&chars_of(body), &token) {
        return true;
    }
    match html {
        Some(h) => contains_at_any(&chars_of(h), &token),
        None => false,
    }
}

/// How an expanded snippet goes into the target app.
#[derive(Debug)]
pub enum InsertPlan {
    /// Paste plain text, then move the caret back by `cursor_from_end`.
    Text { text: String, cursor_from_end: Option<usize> },
    /// Paste rich HTML with a plain-text fallback.
    Html { html: String, plain: String },
}

/// The palette's insertion: a transform applies to the plain expansion and
/// wins over the rich body (the caret is then left at the end); otherwise a
/// rich body is pasted with the plain expansion as fallback; otherwise the
/// plain expansion is pasted and the caret goes to its `{cursor}`.
pub fn plan_insert(expanded: Expanded, html_expanded: Option<String>, transform: Option<
    TransformKind,
>) -> (p: InsertPlan)
    ensures
        match transform {
            Some(k) => p matches InsertPlan::Text { text, cursor_from_end } && text@ == spec_apply(
                k,
                expanded.text@,
            ) && cursor_from_end is None,
            None => match html_expanded {
                Some(h) => p matches InsertPlan::Html { html, plain } && html@ == h@ && plain@
                    == expanded.text@,
                None => p matches InsertPlan::Text { text, cursor_from_end } && text@
                    == expanded.text@ && cursor_from_end == expanded.cursor_from_end,
            },
        },
{
    match transform {
        Some(k) => InsertPlan::Text { text: k.apply(expanded.text.as_str()), cursor_from_end: None },
        None => match html_expanded {
            Some(h) => InsertPlan::Html { html: h, plain: expanded.text },
            None => InsertPlan::Text {
                text: expanded.text,
                cursor_from_end: expanded.cursor_from_end,
            },
        },
    }
}

/// How a fired trigger is completed, tried in order until one succeeds.
#[derive(Debug, Clone, Copy, PartialEq, Eq, Structural)]
pub enum ExpansionRoute {
    /// Let the user pick among confusably similar triggers.
    Radial,
    /// Open the fill-in form for the snippet's `[[variables]]`.
    Form,
    /// Delete the trigger and insert the expansion.
    Direct,
}

pub open spec fn spec_routes(similar_count: nat, has_variables: bool) -> Seq<ExpansionRoute> {
    (if similar_count > 1 {
        seq![ExpansionRoute::Radial]
    } else {
        seq![]
    }) + (if has_variables {
        seq![ExpansionRoute::Form]
    } else {
        seq![]
    }) + seq![ExpansionRoute::Direct]
}

/// The routes to try for a fired trigger: the radial when more than one
/// trigger is similar to what was typed, the form when the replacement has
/// form variables, and always, last, a direct expansion.
pub fn expansion_routes(similar_count: usize, replacement: &str) -> (r: Vec<ExpansionRoute>)
    ensures
        r@ == spec_routes(similar_count as nat, vars_from(replacement@, 0, seq![]).len() > 0),
{
    let mut r: Vec<ExpansionRoute> = Vec::new();
    if similar_count > 1 {
        r.push(ExpansionRoute::Radial);
    }
    let vars = extract_variables(replacement);
    proof {
        assert(crate::tokens::variables_view(vars@).len() == vars@.len());
    }
    if vars.len() > 0 {
        r.push(ExpansionRoute::Form);
    }
    r.push(ExpansionRoute::Direct);
    assert(r@ =~= spec_routes(similar_count as nat, vars_from(replacement@, 0, seq![]).len() > 0));
    r
}

/// Longest radial preview, in chars, before it is cut with an ellipsis.
pub const PREVIEW_CAP: usize = 48;

/// A short label for a body: its first non-blank line, trimmed; cut to
/// `PREVIEW_CAP` chars plus `…` when longer.
pub open spec fn spec_preview(body: Seq<char>) -> Seq<char> {
    match first_filled(lines(body)) {
        Some(l) => if l.len() > PREVIEW_CAP {
            l.take(PREVIEW_CAP as int).push('…')
        } else {
            l
        },
        None => seq![],
    }
}

pub fn preview_of(body: &str) -> (r: String)
    ensures
        r@ == spec_preview(body@),
{
    let v = chars_of(body);
    let n = v.len();
    let mut p: usize = 0;
    assert(v@.subrange(0, n as int) == v@);
    while p < n
        invariant
            p <= n == v@.len(),
            v@ == body@,
            first_filled(lines(v@.subrange(p as int, n as int))) == first_filled(lines(v@)),
        decreases n - p,
    {
        let (e, q) = next_line(&v, p, n);
        let (a, b) = trim_range(&v, p, e);
        let ghost rest = lines(v@.subrange(q as int, n as int));
        let ghost cur = v@.subrange(p as int, e as int);
        assert((seq![cur] + rest)[0] == cur);
        assert((seq![cur] + rest).drop_first() == rest);
        if a < b {
            if b - a > PREVIEW_CAP {
                let mut s = string_of_range(&v, a, a + PREVIEW_CAP);
                push_char(&mut s, '…');
                assert(v@.subrange(a as int, b as int).take(PREVIEW_CAP as int) == v@.subrange(
                    a as int,
                    a + PREVIEW_CAP,
                ));
                return s;
            }
            return string_of_range(&v, a, b);
        }
        p = q;
    }
    assert(lines(v@.subrange(p as int, n as int)) == Seq::<Seq<char>>::empty());
    String::new()
}

/// The snippet a direct expansion came from (for its usage count and rich
/// body): the first listed one that has a trigger and whose body is the
/// replacement.
pub open spec fn is_source_of(s: Snippet, replacement: Seq<char>) -> bool {
    s.trigger is Some && s.body@ == replacement
}

pub fn snippet_for_replacement(list: &Vec<Snippet>, replacement: &str) -> (r: Option<usize>)
    ensures
        match r {
            Some(i) => i < list@.len() && is_source_of(list@[i as int], replacement@) && forall|j: int|
                0 <= j < i ==> !is_source_of(#[trigger] list@[j], replacement@),
            None => forall|j: int| 0 <= j < list@.len() ==> !is_source_of(#[trigger] list@[j], replacement@),
        },
{
    let mut i: usize = 0;
    while i < list.len()
        invariant
            i <= list@.len(),
            forall|j: int| 0 <= j < i ==> !is_source_of(#[trigger] list@[j], replacement@),
        decreases list@.len() - i,
    {
        if list[i].trigger.is_some() && str_eq(list[i].body.as_str(), replacement) {
            return Some(i);
        }
        i += 1;
    }
    None
}

/// Farthest edit distance at which a trigger is offered in the radial.
pub const RADIAL_MAX_DIST: usize = 2;

/// One choice offered in the radial picker.
#[derive(Clone, Debug)]
pub struct RadialCandidate {
    pub id: String,
    pub name: String,
    pub trigger: String,
    /// Short preview of the body (first line, trimmed) for the label.
    pub preview: String,
    /// Edit distance from what the user typed (0 = exact); drives ordering.
    pub distance: usize,
}

/// The radial choice for a snippet, given what the user typed: its trigger
/// (empty when it has none), a preview of its body, and the distance from
/// the typed trigger to its lowercased trigger.
pub fn candidate_for(s: &Snippet, typed: &str) -> (c: RadialCandidate)
    ensures
        c.id@ == s.id@,
        c.name@ == s.name@,
        c.trigger@ == (match s.trigger {
            Some(t) => t@,
            None => seq![],
        }),
        c.preview@ == spec_preview(s.body@),
        c.distance == spec_similar_distance(typed@, lower_str(c.trigger@), RADIAL_MAX_DIST as nat),
{
    let trig = match &s.trigger {
        Some(t) => t.clone(),
        None => String::new(),
    };
    let low = str_to_lower(trig.as_str());
    let distance = similar_distance(typed, low.as_str(), RADIAL_MAX_DIST);
    RadialCandidate {
        id: s.id.clone(),
        name: s.name.clone(),
        trigger: trig,
        preview: preview_of(s.body.as_str()),
        distance,
    }
}

/// The foreground app is on the exclusion list: its exe name equals an
/// entry, both lowercased.
pub open spec fn spec_is_excluded(exe: Seq<char>, excluded: Seq<String>) -> bool {
    exists|i: int| 0 <= i < excluded.len() && lower_str(#[trigger] excluded[i]@) == lower_str(exe)
}

pub fn is_excluded_app(exe: &str, excluded: &Vec<String>) -> (b: bool)
    ensures
        b == spec_is_excluded(exe@, excluded@),
{
    let exe_lc = str_to_lower(exe);
    let mut i: usize = 0;
    while i < excluded.len()
        invariant
            i <= excluded@.len(),
            exe_lc@ == lower_str(exe@),
            forall|j: int| 0 <= j < i ==> lower_str(#[trigger] excluded@[j]@) != lower_str(exe@),
        decreases excluded@.len() - i,
    {
        let e = str_to_lower(excluded[i].as_str());
        if str_eq(e.as_str(), exe_lc.as_str()) {
            return true;
        }
        i += 1;
    }
    false
}

// --- ranking the radial -------------------------------------------------------

/// `a` sorts strictly before `b`, comparing chars by code point (the order of
/// `String`'s comparison, since UTF-8 preserves it).
pub open spec fn lex_lt(a: Seq<char>, b: Seq<char>) -> bool
    decreases a.len(),
{
    if a.len() == 0 {
        b.len() > 0
    } else if b.len() == 0 {
        false
    } else if a[0] != b[0] {
        a[0] < b[0]
    } else {
        lex_lt(a.drop_first(), b.drop_first())
    }
}

/// `a` ranks no later than `b`: closer first, then by lowercased name.
pub open spec fn rank_le(a: RadialCandidate, b: RadialCandidate) -> bool {
    a.distance < b.distance || (a.distance == b.distance && !lex_lt(
        lower_str(b.name@),
        lower_str(a.name@),
    ))
}

/// `x` placed into the ranked `s`: after every candidate that ranks no later
/// than it (so equal candidates keep their order).
pub open spec fn insert_ranked(s: Seq<RadialCandidate>, x: RadialCandidate) -> Seq<RadialCandidate>
    decreases s.len(),
{
    if s.len() == 0 {
        seq![x]
    } else if rank_le(s.last(), x) {
        s.push(x)
    } else {
        insert_ranked(s.drop_last(), x).push(s.last())
    }
}

/// The stable ranking of candidates (`slice::sort_by` on distance, then
/// lowercased name).
pub open spec fn ranked(s: Seq<RadialCandidate>) -> Seq<RadialCandidate>
    decreases s.len(),
{
    if s.len() == 0 {
        s
    } else {
        insert_ranked(ranked(s.drop_last()), s.last())
    }
}

fn lex_less(a: &Vec<char>, b: &Vec<char>) -> (r: bool)
    ensures
        r == lex_lt(a@, b@),
{
    let mut i: usize = 0;
    assert(a@.skip(0) == a@);
    assert(b@.skip(0) == b@);
    while i < a.len() && i < b.len() && a[i] == b[i]
        invariant
            i <= a@.len(),
            i <= b@.len(),
            lex_lt(a@, b@) == lex_lt(a@.skip(i as int), b@.skip(i as int)),
        decreases a@.len() - i,
    {
        assert(a@.skip(i as int).drop_first() == a@.skip(i + 1));
        assert(b@.skip(i as int).drop_first() == b@.skip(i + 1));
        i += 1;
    }
    let ghost sa = a@.skip(i as int);
    let ghost sb = b@.skip(i as int);
    if i == a.len() {
        i < b.len()
    } else if i == b.len() {
        false
    } else {
        assert(sa[0] == a@[i as int] && sb[0] == b@[i as int]);
        a[i] < b[i]
    }
}

proof fn lemma_insert_ranked(s: Seq<RadialCandidate>, x: RadialCandidate, j: int)
    requires
        0 <= j <= s.len(),
        forall|k: int| j <= k < s.len() ==> !rank_le(#[trigger] s[k], x),
        j > 0 ==> rank_le(s[j - 1], x),
    ensures
        insert_ranked(s, x) == s.take(j).push(x) + s.skip(j),
    decreases s.len(),
{
    if s.len() == 0 {
        assert(s.take(j).push(x) + s.skip(j) =~= seq![x]);
    } else if j == s.len() {
        assert(s.take(j) == s);
        assert(s.skip(j) =~= Seq::<RadialCandidate>::empty());
        assert(s.push(x) + Seq::<RadialCandidate>::empty() == s.push(x));
    } else {
        assert(!rank_le(s.last(), x));
        lemma_insert_ranked(s.drop_last(), x, j);
        assert(s.drop_last().take(j) == s.take(j));
        assert(s.take(j).push(x) + s.skip(j) =~= (s.take(j).push(x) + s.drop_last().skip(j)).push(
            s.last(),
        ));
    }
}

/// Ranks the radial's candidates: closest to what was typed first, then by
/// lowercased name; candidates that rank alike keep their order.
pub fn rank_candidates(cands: Vec<RadialCandidate>) -> (r: Vec<RadialCandidate>)
    ensures
        r@ == ranked(cands@),
{
    let ghost input = cands@;
    let mut rest = cands;
    let mut out: Vec<RadialCandidate> = Vec::new();
    let mut out_names: Vec<Vec<char>> = Vec::new();
    let mut k: usize = 0;
    let n = rest.len();
    assert(input.take(0) =~= Seq::<RadialCandidate>::empty());
    while k < n
        invariant
            k <= n == input.len(),
            rest@ == input.skip(k as int),
            out@ == ranked(input.take(k as int)),
            out_names@.len() == out@.len(),
            forall|i: int| 0 <= i < out@.len() ==> (#[trigger] out_names@[i])@ == lower_str(
                out@[i].name@,
            ),
        decreases n - k,
    {
        let x = rest.remove(0);
        assert(input.skip(k as int)[0] == x);
        assert(input.skip(k as int).drop_first() == input.skip(k + 1));
        let low = str_to_lower(x.name.as_str());
        let xn = chars_of(low.as_str());
        let mut j = out.len();
        while j > 0 && !(out[j - 1].distance < x.distance || (out[j - 1].distance == x.distance
            && !lex_less(&xn, &out_names[j - 1])))
            invariant
                j <= out@.len(),
                out_names@.len() == out@.len(),
                xn@ == lower_str(x.name@),
                forall|i: int| 0 <= i < out@.len() ==> (#[trigger] out_names@[i])@ == lower_str(
                    out@[i].name@,
                ),
                forall|i: int| j <= i < out@.len() ==> !rank_le(#[trigger] out@[i], x),
            decreases j,
        {
            j -= 1;
        }
        proof {
            lemma_insert_ranked(out@, x, j as int);
            assert(input.take(k + 1).drop_last() == input.take(k as int));
            assert(input.take(k + 1).last() == x);
        }
        let ghost before = out@;
        let ghost before_names = out_names@;
        out.insert(j, x);
        out_names.insert(j, xn);
        proof {
            assert(out@ =~= before.take(j as int).push(x) + before.skip(j as int));
            assert forall|i: int| 0 <= i < out@.len() implies (#[trigger] out_names@[i])@
                == lower_str(out@[i].name@) by {
                if i < j {
                    assert(out_names@[i] == before_names[i]);
                    assert(out@[i] == before[i]);
                } else if i > j {
                    assert(out_names@[i] == before_names[i - 1]);
                    assert(out@[i] == before[i - 1]);
                }
            }
        }
        k += 1;
    }
    assert(input.take(n as int) == input);
    out
}

proof fn lemma_lex_total(a: Seq<char>, b: Seq<char>)
    ensures
        lex_lt(a, b) || lex_lt(b, a) || a == b,
        !(lex_lt(a, b) && lex_lt(b, a)),
    decreases a.len(),
{
    if a.len() > 0 && b.len() > 0 && a[0] == b[0] {
        lemma_lex_total(a.drop_first(), b.drop_first());
        if a.drop_first() == b.drop_first() {
            assert forall|k: int| 0 <= k < a.len() implies a[k] == b[k] by {
                if k > 0 {
                    assert(a[k] == a.drop_first()[k - 1]);
                    assert(b[k] == b.drop_first()[k - 1]);
                }
            }
            assert(a =~= b);
        }
    }
    if a.len() == 0 && b.len() == 0 {
        assert(a =~= b);
    }

}

proof fn lemma_lex_trans(a: Seq<char>, b: Seq<char>, c: Seq<char>)
    requires
        lex_lt(a, b),
        lex_lt(b, c),
    ensures
        lex_lt(a, c),
    decreases a.len(),
{
    if a.len() > 0 && b.len() > 0 && c.len() > 0 && a[0] == b[0] && b[0] == c[0] {
        lemma_lex_trans(a.drop_first(), b.drop_first(), c.drop_first());
    }
}

proof fn lemma_rank_total(a: RadialCandidate, b: RadialCandidate)
    ensures
        rank_le(a, b) || rank_le(b, a),
{
    lemma_lex_total(lower_str(a.name@), lower_str(b.name@));
}

proof fn lemma_rank_trans(a: RadialCandidate, b: RadialCandidate, c: RadialCandidate)
    requires
        rank_le(a, b),
        rank_le(b, c),
    ensures
        rank_le(a, c),
{
    let la = lower_str(a.name@);
    let lb = lower_str(b.name@);
    let lc = lower_str(c.name@);
    if a.distance == b.distance && b.distance == c.distance && lex_lt(lc, la) {
        lemma_lex_total(lb, la);
        if lex_lt(la, lb) {
            lemma_lex_trans(lc, la, lb);
        }
    }
}

pub open spec fn ranks_in_order(s: Seq<RadialCandidate>) -> bool {
    forall|i: int, j: int| 0 <= i < j < s.len() ==> rank_le(#[trigger] s[i], #[trigger] s[j])
}

proof fn lemma_insert_ranked_props(s: Seq<RadialCandidate>, x: RadialCandidate)
    requires
        ranks_in_order(s),
    ensures
        ranks_in_order(insert_ranked(s, x)),
        insert_ranked(s, x).to_multiset() == s.to_multiset().insert(x),
        insert_ranked(s, x).len() == s.len() + 1,
        forall|k: int|
            0 <= k < insert_ranked(s, x).len() ==> #[trigger] insert_ranked(s, x)[k] == x
                || s.contains(insert_ranked(s, x)[k]),
    decreases s.len(),
{
    broadcast use vstd::seq_lib::group_to_multiset_ensures;

    if s.len() == 0 {
        assert(seq![x] == Seq::<RadialCandidate>::empty().push(x));
    } else if rank_le(s.last(), x) {
        let r = s.push(x);
        assert forall|i: int, j: int| 0 <= i < j < r.len() implies rank_le(
            #[trigger] r[i],
            #[trigger] r[j],
        ) by {
            if j == s.len() {
                if i < s.len() - 1 {
                    lemma_rank_trans(s[i], s.last(), x);
                }
            }
        }
        assert forall|k: int| 0 <= k < r.len() implies #[trigger] r[k] == x || s.contains(r[k]) by {
            if k < s.len() {
                assert(s[k] == r[k]);
            }
        }
    } else {
        let t = s.drop_last();
        assert(ranks_in_order(t)) by {
            assert forall|i: int, j: int| 0 <= i < j < t.len() implies rank_le(
                #[trigger] t[i],
                #[trigger] t[j],
            ) by {
                assert(t[i] == s[i] && t[j] == s[j]);
            }
        }
        lemma_insert_ranked_props(t, x);
        let u = insert_ranked(t, x);
        let r = u.push(s.last());
        lemma_rank_total(s.last(), x);
        assert forall|i: int, j: int| 0 <= i < j < r.len() implies rank_le(
            #[trigger] r[i],
            #[trigger] r[j],
        ) by {
            if j == u.len() {
                assert(r[i] == u[i]);
                if u[i] == x {
                } else {
                    assert(t.contains(u[i]));
                    let m = choose|m: int| 0 <= m < t.len() && t[m] == u[i];
                    assert(s[m] == t[m]);
                    assert(rank_le(s[m], s[s.len() - 1]));
                }
            } else {
                assert(r[i] == u[i] && r[j] == u[j]);
            }
        }
        assert(t.push(s.last()) == s);
        assert forall|k: int| 0 <= k < r.len() implies #[trigger] r[k] == x || s.contains(r[k]) by {
            if k < u.len() {
                assert(r[k] == u[k]);
                if u[k] != x {
                    let m = choose|m: int| 0 <= m < t.len() && t[m] == u[k];
                    assert(s[m] == t[m]);
                }
            } else {
                assert(s[s.len() - 1] == r[k]);
            }
        }
    }
}

/// The radial's ranking is a reordering of its candidates (none lost, none
/// added) in which each ranks no later than those after it.
pub proof fn law_ranking_sorted_permutation(s: Seq<RadialCandidate>)
    ensures
        ranks_in_order(ranked(s)),
        ranked(s).to_multiset() == s.to_multiset(),
    decreases s.len(),
{
    broadcast use vstd::seq_lib::group_to_multiset_ensures;

    if s.len() == 0 {
    } else {
        law_ranking_sorted_permutation(s.drop_last());
        lemma_insert_ranked_props(ranked(s.drop_last()), s.last());
        assert(s.drop_last().push(s.last()) == s);
    }
}

} // verus!
