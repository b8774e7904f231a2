//! OS-agnostic abbreviation matcher.
//!
//! Consumes a stream of typed characters plus edit signals (backspace / reset),
//! maintains a rolling buffer of recent input, and reports when the buffer's
//! suffix matches a known trigger.

use vstd::prelude::*;
use crate::text::{
    ascii_lower, chars_of, lower_char, lower_str, range_eq, str_to_lower, string_of,
    string_of_range, to_ascii_lower, char_to_lower,
};

verus! {

/// Maximum characters kept in the rolling buffer.
pub const MAX_BUFFER: usize = 64;

// --- edit distance -------------------------------------------------------------

/// Two chars are the same letter when they agree after ASCII case folding or
/// after full Unicode lowercasing.
pub open spec fn chars_match(x: char, y: char) -> bool {
    ascii_lower(x) == ascii_lower(y) || lower_char(x) == lower_char(y)
}

pub open spec fn min3(x: nat, y: nat, z: nat) -> nat {
    if x <= y && x <= z {
        x
    } else if y <= z {
        y
    } else {
        z
    }
}

/// Case-insensitive Levenshtein distance: the fewest single-char insertions,
/// deletions and substitutions turning `a` into `b`, where matching chars
/// (see `chars_match`) cost nothing to keep.
pub open spec fn lev(a: Seq<char>, b: Seq<char>) -> nat
    decreases a.len() + b.len(),
{
    if a.len() == 0 {
        b.len()
    } else if b.len() == 0 {
        a.len()
    } else {
        min3(
            lev(a.drop_last(), b) + 1,
            lev(a, b.drop_last()) + 1,
            lev(a.drop_last(), b.drop_last()) + (if chars_match(a.last(), b.last()) {
                0nat
            } else {
                1nat
            }),
        )
    }
}

/// Every entry in row `i` of the distance table (the distances from the first
/// `i` chars of `a` to each prefix of `b`) exceeds `max`.
pub open spec fn row_exceeds(a: Seq<char>, b: Seq<char>, i: int, max: nat) -> bool {
    forall|j: int| 0 <= j <= b.len() ==> #[trigger] lev(a.take(i), b.take(j)) > max
}

pub open spec fn abs_diff(x: nat, y: nat) -> nat {
    if x >= y {
        (x - y) as nat
    } else {
        (y - x) as nat
    }
}

/// What `similar_distance` returns: `max + 1` as soon as the lengths differ by
/// more than `max` or some row of the table exceeds `max` everywhere (no later
/// row can come back under it); otherwise the exact distance.
pub open spec fn spec_similar_distance(a: Seq<char>, b: Seq<char>, max: nat) -> nat {
    if abs_diff(a.len(), b.len()) > max {
        max + 1
    } else if exists|i: int| 1 <= i <= a.len() && row_exceeds(a, b, i, max) {
        max + 1
    } else {
        lev(a, b)
    }
}

proof fn lemma_lev_le_len(a: Seq<char>, b: Seq<char>)
    ensures
        lev(a, b) <= (if a.len() >= b.len() { a.len() } else { b.len() }),
    decreases a.len() + b.len(),
{
    if a.len() > 0 && b.len() > 0 {
        lemma_lev_le_len(a.drop_last(), b.drop_last());
    }
}

proof fn lemma_lev_ge_diff(a: Seq<char>, b: Seq<char>)
    ensures
        lev(a, b) >= abs_diff(a.len(), b.len()),
    decreases a.len() + b.len(),
{
    if a.len() > 0 && b.len() > 0 {
        lemma_lev_ge_diff(a.drop_last(), b);
        lemma_lev_ge_diff(a, b.drop_last());
        lemma_lev_ge_diff(a.drop_last(), b.drop_last());
    }
}

/// A row of the table that exceeds `max` bounds every later entry below it.
proof fn lemma_row_bound(a: Seq<char>, b: Seq<char>, i: int, ip: int, jp: int, max: nat)
    requires
        0 <= i <= ip <= a.len(),
        0 <= jp <= b.len(),
        forall|j: int| 0 <= j <= jp ==> #[trigger] lev(a.take(i), b.take(j)) > max,
    ensures
        lev(a.take(ip), b.take(jp)) > max,
    decreases ip + jp,
{
    if ip == i {
        assert(lev(a.take(i), b.take(jp)) > max);
    } else if jp == 0 {
        assert(lev(a.take(i), b.take(0)) > max);
        assert(b.take(0).len() == 0);
    } else {
        assert(a.take(ip).drop_last() == a.take(ip - 1));
        assert(b.take(jp).drop_last() == b.take(jp - 1));
        lemma_row_bound(a, b, i, ip - 1, jp, max);
        lemma_row_bound(a, b, i, ip, jp - 1, max);
        lemma_row_bound(a, b, i, ip - 1, jp - 1, max);
    }
}

/// `similar_distance` is within `max` exactly when the true distance is, and
/// then it is the true distance.
pub proof fn law_similar_distance_exact_within_max(a: Seq<char>, b: Seq<char>, max: nat)
    ensures
        (spec_similar_distance(a, b, max) <= max) == (lev(a, b) <= max),
        lev(a, b) <= max ==> spec_similar_distance(a, b, max) == lev(a, b),
{
    lemma_lev_ge_diff(a, b);
    if exists|i: int| 1 <= i <= a.len() && row_exceeds(a, b, i, max) {
        let i = choose|i: int| 1 <= i <= a.len() && row_exceeds(a, b, i, max);
        assert forall|j: int| 0 <= j <= b.len() implies #[trigger] lev(a.take(i), b.take(j)) > max by {}
        lemma_row_bound(a, b, i, a.len() as int, b.len() as int, max);
        assert(a.take(a.len() as int) == a);
        assert(b.take(b.len() as int) == b);
    }
}

/// Every string is at distance zero from itself.
pub proof fn law_similar_distance_self_zero(a: Seq<char>, max: nat)
    ensures
        spec_similar_distance(a, a, max) == 0,
{
    lemma_lev_self(a);
    law_similar_distance_exact_within_max(a, a, max);
}

proof fn lemma_lev_self(a: Seq<char>)
    ensures
        lev(a, a) == 0,
    decreases a.len(),
{
    if a.len() > 0 {
        lemma_lev_self(a.drop_last());
    }
}

fn chars_equal_fold(x: char, y: char) -> (r: bool)
    ensures
        r == chars_match(x, y),
{
    if to_ascii_lower(x) == to_ascii_lower(y) {
        return true;
    }
    let lx = char_to_lower(x);
    let ly = char_to_lower(y);
    if lx.len() != ly.len() {
        return false;
    }
    let mut k: usize = 0;
    while k < lx.len()
        invariant
            lx@.len() == ly@.len(),
            lx@ == lower_char(x),
            ly@ == lower_char(y),
            ascii_lower(x) != ascii_lower(y),
            0 <= k <= lx@.len(),
            forall|j: int| 0 <= j < k ==> lx@[j] == ly@[j],
        decreases lx@.len() - k,
    {
        if lx[k] != ly[k] {
            assert(lx@[k as int] != ly@[k as int]);
            return false;
        }
        k += 1;
    }
    assert(lx@ == ly@);
    true
}

fn min_u128(x: u128, y: u128) -> (r: u128)
    ensures
        r == (if x <= y { x } else { y }),
{
    if x <= y {
        x
    } else {
        y
    }
}

/// Case-insensitive Levenshtein edit distance between two strings, with an
/// early exit once the distance is known to exceed `max` (returns `max + 1`).
pub fn similar_distance(a: &str, b: &str, max: usize) -> (d: usize)
    ensures
        d == spec_similar_distance(a@, b@, max as nat),
{
    let av = chars_of(a);
    let bv = chars_of(b);
    let la = av.len();
    let lb = bv.len();
    let diff = if la >= lb {
        la - lb
    } else {
        lb - la
    };
    if diff > max {
        return max + 1;
    }
    let ghost sa = a@;
    let ghost sb = b@;
    let ghost mx = max as nat;
    // prev[k] == lev(a[..i], b[..k]); curr is the row being filled.
    let mut prev: Vec<u128> = Vec::new();
    let mut j: usize = 0;
    loop
        invariant_except_break
            lb == sb.len(),
            0 <= j <= lb,
            prev@.len() == j,
            forall|k: int| 0 <= k < j ==> #[trigger] prev@[k] == lev(sa.take(0), sb.take(k)),
            forall|k: int| 0 <= k < j ==> #[trigger] prev@[k] <= usize::MAX,
        ensures
            prev@.len() == lb + 1,
            forall|k: int| 0 <= k <= lb ==> #[trigger] prev@[k] == lev(sa.take(0), sb.take(k)),
            forall|k: int| 0 <= k <= lb ==> #[trigger] prev@[k] <= usize::MAX,
        decreases lb - j,
    {
        proof {
            assert(sa.take(0).len() == 0);
            assert(sb.take(j as int).len() == j);
        }
        prev.push(j as u128);
        if j == lb {
            break;
        }
        j += 1;
    }
    let mut i: usize = 0;
    while i < la
        invariant
            la == sa.len(),
            lb == sb.len(),
            av@ == sa,
            bv@ == sb,
            a@ == sa,
            b@ == sb,
            mx == max,
            abs_diff(sa.len(), sb.len()) <= mx,
            0 <= i <= la,
            prev@.len() == lb + 1,
            forall|k: int| 0 <= k <= lb ==> #[trigger] prev@[k] == lev(sa.take(i as int), sb.take(k)),
            forall|k: int| 0 <= k <= lb ==> #[trigger] prev@[k] <= usize::MAX,
            forall|r: int| 1 <= r <= i ==> !row_exceeds(sa, sb, r, mx),
        decreases la - i,
    {
        let ii = i + 1;
        let ghost ai = sa.take(ii as int);
        proof {
            assert(ai.drop_last() == sa.take(i as int));
            assert(ai.last() == sa[i as int]);
            assert(sb.take(0).len() == 0);
        }
        let mut curr: Vec<u128> = Vec::new();
        curr.push(ii as u128);
        let mut row_min: u128 = ii as u128;
        let ghost mut min_at: int = 0;
        let mut k: usize = 0;
        while k < lb
            invariant
                la == sa.len(),
                lb == sb.len(),
                av@ == sa,
                bv@ == sb,
                0 <= i < la,
                ii == i + 1,
                ai == sa.take(ii as int),
                ai.drop_last() == sa.take(i as int),
                ai.last() == sa[i as int],
                prev@.len() == lb + 1,
                forall|m: int| 0 <= m <= lb ==> #[trigger] prev@[m] == lev(sa.take(i as int), sb.take(m)),
                forall|m: int| 0 <= m <= lb ==> #[trigger] prev@[m] <= usize::MAX,
                0 <= k <= lb,
                curr@.len() == k + 1,
                forall|m: int| 0 <= m <= k ==> #[trigger] curr@[m] == lev(ai, sb.take(m)),
                forall|m: int| 0 <= m <= k ==> #[trigger] curr@[m] <= usize::MAX,
                forall|m: int| 0 <= m <= k ==> #[trigger] curr@[m] >= row_min,
                0 <= min_at <= k,
                curr@[min_at] == row_min,
            decreases lb - k,
        {
            let cost: u128 = if chars_equal_fold(av[i], bv[k]) {
                0
            } else {
                1
            };
            let x = prev[k + 1] + 1;
            let y = curr[k] + 1;
            let z = prev[k] + cost;
            let v = min_u128(min_u128(x, y), z);
            proof {
                let bk = sb.take(k + 1);
                assert(bk.drop_last() == sb.take(k as int));
                assert(bk.last() == sb[k as int]);
                assert(v == lev(ai, bk));
                lemma_lev_le_len(ai, bk);
            }
            curr.push(v);
            if v < row_min {
                row_min = v;
                proof {
                    min_at = k + 1;
                }
            }
            k += 1;
        }
        if row_min > max as u128 {
            proof {
                assert forall|m: int| 0 <= m <= sb.len() implies #[trigger] lev(sa.take(ii as int), sb.take(m)) > mx by {
                    assert(curr@[m] >= row_min);
                }
                assert(row_exceeds(sa, sb, ii as int, mx));
                assert(1 <= ii <= sa.len());
                assert(exists|r: int| 1 <= r <= sa.len() && row_exceeds(sa, sb, r, mx));
            }
            return max + 1;
        }
        proof {
            assert(!row_exceeds(sa, sb, ii as int, mx)) by {
                assert(lev(sa.take(ii as int), sb.take(min_at)) <= mx);
            }
        }
        prev = curr;
        i += 1;
    }
    proof {
        assert(sa.take(la as int) == sa);
        assert(sb.take(lb as int) == sb);
    }
    prev[lb] as usize
}

// --- matcher --------------------------------------------------------------------

/// A resolved expansion: how many characters to delete (the trigger length in
/// characters) and the replacement text to inject.
#[derive(Clone, Debug)]
pub struct Expansion {
    pub delete_chars: usize,
    pub replacement: String,
    /// The trigger that fired, lowercased (the key it matched on).
    pub matched_trigger: String,
}

/// The trigger table `set_triggers` builds from its pairs, in order: every
/// non-empty trigger, lowercased, maps to its replacement; a later pair with
/// the same lowercased trigger replaces an earlier one.
pub open spec fn trigger_map_of(ps: Seq<(Seq<char>, Seq<char>)>) -> Map<Seq<char>, Seq<char>>
    decreases ps.len(),
{
    if ps.len() == 0 {
        Map::empty()
    } else {
        let m = trigger_map_of(ps.drop_last());
        let t = ps.last().0;
        if t.len() == 0 {
            m
        } else {
            m.insert(lower_str(t), ps.last().1)
        }
    }
}

/// The length in chars of the longest non-empty trigger among the pairs.
pub open spec fn max_trigger_len_of(ps: Seq<(Seq<char>, Seq<char>)>) -> nat
    decreases ps.len(),
{
    if ps.len() == 0 {
        0
    } else {
        let m = max_trigger_len_of(ps.drop_last());
        let n = ps.last().0.len();
        if n > m {
            n
        } else {
            m
        }
    }
}

pub open spec fn pairs_view(ps: Seq<(&str, &str)>) -> Seq<(Seq<char>, Seq<char>)> {
    ps.map_values(|p: (&str, &str)| (p.0@, p.1@))
}

/// The buffer after a char is typed: the last `MAX_BUFFER` chars.
pub open spec fn bounded(s: Seq<char>) -> Seq<char> {
    if s.len() > MAX_BUFFER {
        s.skip(s.len() - MAX_BUFFER)
    } else {
        s
    }
}

/// The trigger key the last `n` chars of `buf` stand for.
pub open spec fn suffix_key(buf: Seq<char>, n: nat) -> Seq<char> {
    lower_str(buf.skip(buf.len() - n))
}

/// The longest suffix of `buf`, of at most `lim` chars, whose lowercasing is
/// a trigger.
pub open spec fn match_len(buf: Seq<char>, m: Map<Seq<char>, Seq<char>>, lim: nat) -> Option<nat>
    decreases lim,
{
    if lim == 0 {
        None
    } else if m.contains_key(suffix_key(buf, lim)) {
        Some(lim)
    } else {
        match_len(buf, m, (lim - 1) as nat)
    }
}

/// The longest trigger wins: a match of `n` chars is a trigger and no longer
/// suffix within the limit is one.
pub proof fn law_match_is_longest(buf: Seq<char>, m: Map<Seq<char>, Seq<char>>, lim: nat)
    ensures
        match match_len(buf, m, lim) {
            Some(n) => 1 <= n <= lim && m.contains_key(suffix_key(buf, n)) && forall|k: nat|
                n < k <= lim ==> !m.contains_key(#[trigger] suffix_key(buf, k)),
            None => forall|k: nat| 1 <= k <= lim ==> !m.contains_key(#[trigger] suffix_key(buf, k)),
        },
    decreases lim,
{
    if lim > 0 {
        law_match_is_longest(buf, m, (lim - 1) as nat);
    }
}

/// Matcher over a set of triggers. Triggers are matched, ignoring case, as a
/// suffix of the buffer of recently typed chars. The trigger table maps each
/// lowercased trigger to its replacement: `keys[k]` maps to
/// `replacements[k]`, and `table` is that map.
pub struct Matcher {
    buffer: Vec<char>,
    /// Lowercased triggers, each once, and their replacements.
    keys: Vec<Vec<char>>,
    replacements: Vec<String>,
    /// Length in characters of the longest trigger, to bound suffix checks.
    max_trigger_chars: usize,
    table: Ghost<Map<Seq<char>, Seq<char>>>,
}

impl Matcher {
    pub closed spec fn wf(&self) -> bool {
        &&& self.keys@.len() == self.replacements@.len()
        &&& self.buffer@.len() <= MAX_BUFFER
        &&& forall|i: int, j: int|
            0 <= i < j < self.keys@.len() ==> #[trigger] self.keys@[i]@ != #[trigger] self.keys@[j]@
        &&& forall|i: int|
            0 <= i < self.keys@.len() ==> self.table@.contains_key(#[trigger] self.keys@[i]@)
                && self.table@[self.keys@[i]@] == self.replacements@[i]@
        &&& forall|k: Seq<char>|
            #[trigger] self.table@.contains_key(k) ==> exists|i: int|
                0 <= i < self.keys@.len() && #[trigger] self.keys@[i]@ == k
    }

    /// The recently typed chars.
    pub closed spec fn buffer(&self) -> Seq<char> {
        self.buffer@
    }

    /// Lowercased trigger -> replacement.
    pub closed spec fn triggers(&self) -> Map<Seq<char>, Seq<char>> {
        self.table@
    }

    pub closed spec fn max_trigger_chars(&self) -> nat {
        self.max_trigger_chars as nat
    }

    pub fn new() -> (m: Matcher)
        ensures
            m.wf(),
            m.buffer() == Seq::<char>::empty(),
            m.triggers() == Map::<Seq<char>, Seq<char>>::empty(),
            m.max_trigger_chars() == 0,
    {
        Matcher {
            buffer: Vec::new(),
            keys: Vec::new(),
            replacements: Vec::new(),
            max_trigger_chars: 0,
            table: Ghost(Map::empty()),
        }
    }

    /// The index of `key` among the trigger keys, if present.
    fn find_key(&self, key: &Vec<char>) -> (r: Option<usize>)
        requires
            self.wf(),
        ensures
            r matches Some(i) ==> i < self.keys@.len() && self.keys@[i as int]@ == key@,
            r is None ==> !self.table@.contains_key(key@),
    {
        let mut i: usize = 0;
        while i < self.keys.len()
            invariant
                self.wf(),
                0 <= i <= self.keys@.len(),
                forall|j: int| 0 <= j < i ==> self.keys@[j]@ != key@,
            decreases self.keys@.len() - i,
        {
            let k = &self.keys[i];
            assert(k@.subrange(0, k@.len() as int) == k@);
            if range_eq(k, 0, k.len(), key) {
                return Some(i);
            }
            i += 1;
        }
        None
    }

    /// Replace the full trigger set (called on startup and when snippets
    /// change). Empty triggers are ignored; the typing buffer is kept.
    pub fn set_triggers(&mut self, triggers: &[(&str, &str)])
        requires
            old(self).wf(),
        ensures
            final(self).wf(),
            final(self).buffer() == old(self).buffer(),
            final(self).triggers() == trigger_map_of(pairs_view(triggers@)),
            final(self).max_trigger_chars() == max_trigger_len_of(pairs_view(triggers@)),
    {
        self.keys = Vec::new();
        self.replacements = Vec::new();
        self.max_trigger_chars = 0;
        self.table = Ghost(Map::empty());
        let ghost ps = pairs_view(triggers@);
        let mut i: usize = 0;
        while i < triggers.len()
            invariant
                self.wf(),
                self.buffer@ == old(self).buffer@,
                ps == pairs_view(triggers@),
                0 <= i <= triggers@.len(),
                self.table@ == trigger_map_of(ps.take(i as int)),
                self.max_trigger_chars == max_trigger_len_of(ps.take(i as int)),
            decreases triggers@.len() - i,
        {
            let (t, repl) = triggers[i];
            proof {
                assert(ps.take(i + 1).drop_last() == ps.take(i as int));
                assert(ps.take(i + 1).last() == (t@, repl@));
            }
            let tv = chars_of(t);
            if tv.len() > 0 {
                if tv.len() > self.max_trigger_chars {
                    self.max_trigger_chars = tv.len();
                }
                let lowered = str_to_lower(t);
                let key = chars_of(lowered.as_str());
                let rv = chars_of(repl);
                let r = string_of(&rv);
                assert(key@ == lower_str(t@));
                let ghost old_keys = self.keys@;
                let ghost old_reps = self.replacements@;
                let ghost old_table = self.table@;
                match self.find_key(&key) {
                    Some(j) => {
                        self.replacements.set(j, r);
                        proof {
                            self.table@ = self.table@.insert(key@, repl@);
                            assert forall|q: int| 0 <= q < self.keys@.len() implies self.table@.contains_key(
                                #[trigger] self.keys@[q]@,
                            ) && self.table@[self.keys@[q]@] == self.replacements@[q]@ by {
                                if q != j {
                                    assert(old_keys[q]@ != old_keys[j as int]@);
                                }
                            }
                            assert forall|k: Seq<char>| #[trigger] self.table@.contains_key(k) implies exists|q: int|
                                0 <= q < self.keys@.len() && #[trigger] self.keys@[q]@ == k by {
                                assert(self.keys@ == old_keys);
                                if k == key@ {
                                    assert(self.keys@[j as int]@ == k);
                                } else {
                                    assert(old_table.contains_key(k));
                                    let q = choose|q: int| 0 <= q < old_keys.len() && #[trigger] old_keys[q]@ == k;
                                    assert(self.keys@[q]@ == k);
                                }
                            }
                        }
                    },
                    None => {
                        self.keys.push(key);
                        self.replacements.push(r);
                        proof {
                            self.table@ = self.table@.insert(key@, repl@);
                            let last = old_keys.len() as int;
                            assert(self.keys@[last]@ == key@);
                            assert forall|q: int| 0 <= q < last implies #[trigger] old_keys[q]@ != key@ by {
                                assert(old_table.contains_key(old_keys[q]@));
                            }
                            assert forall|a: int, b: int| 0 <= a < b < self.keys@.len() implies #[trigger] self.keys@[a]@ != #[trigger] self.keys@[b]@ by {
                                if b == last {
                                    assert(old_keys[a]@ != key@);
                                } else {
                                    assert(old_keys[a]@ != old_keys[b]@);
                                }
                            }
                            assert forall|q: int| 0 <= q < self.keys@.len() implies self.table@.contains_key(
                                #[trigger] self.keys@[q]@,
                            ) && self.table@[self.keys@[q]@] == self.replacements@[q]@ by {
                                if q < last {
                                    assert(old_keys[q]@ != key@);
                                    assert(self.keys@[q] == old_keys[q]);
                                }
                            }
                            assert forall|k: Seq<char>| #[trigger] self.table@.contains_key(k) implies exists|q: int|
                                0 <= q < self.keys@.len() && #[trigger] self.keys@[q]@ == k by {
                                if k == key@ {
                                    assert(self.keys@[last]@ == k);
                                } else {
                                    assert(old_table.contains_key(k));
                                    let q = choose|q: int| 0 <= q < old_keys.len() && #[trigger] old_keys[q]@ == k;
                                    assert(self.keys@[q] == old_keys[q]);
                                }
                            }
                        }
                    },
                }
            }
            i += 1;
        }
        proof {
            assert(ps.take(triggers@.len() as int) == ps);
        }
    }

    pub fn clear_buffer(&mut self)
        requires
            old(self).wf(),
        ensures
            final(self).wf(),
            final(self).buffer() == Seq::<char>::empty(),
            final(self).triggers() == old(self).triggers(),
            final(self).max_trigger_chars() == old(self).max_trigger_chars(),
    {
        self.buffer.clear();
    }

    /// Drop the last typed char, if any.
    pub fn backspace(&mut self)
        requires
            old(self).wf(),
        ensures
            final(self).wf(),
            final(self).buffer() == (if old(self).buffer().len() == 0 {
                old(self).buffer()
            } else {
                old(self).buffer().drop_last()
            }),
            final(self).triggers() == old(self).triggers(),
            final(self).max_trigger_chars() == old(self).max_trigger_chars(),
    {
        let ghost before = self.buffer@;
        let ghost keys = self.keys@;
        let ghost table = self.table@;
        self.buffer.pop();
        assert(self.buffer@.len() <= before.len());
        assert(self.keys@ == keys);
        assert(self.table@ == table);
        assert forall|k: Seq<char>| #[trigger] self.table@.contains_key(k) implies exists|i: int|
            0 <= i < self.keys@.len() && #[trigger] self.keys@[i]@ == k by {
            assert(table.contains_key(k));
        }
    }

    /// Feed one typed character. Returns the expansion for the longest suffix
    /// of the buffer that is a trigger; on a match the buffer is cleared so the
    /// same trigger can't double-fire.
    pub fn push_char(&mut self, c: char) -> (r: Option<Expansion>)
        requires
            old(self).wf(),
        ensures
            final(self).wf(),
            final(self).triggers() == old(self).triggers(),
            final(self).max_trigger_chars() == old(self).max_trigger_chars(),
            ({
                let buf = bounded(old(self).buffer().push(c));
                let lim = if old(self).max_trigger_chars() <= buf.len() {
                    old(self).max_trigger_chars()
                } else {
                    buf.len()
                };
                match match_len(buf, old(self).triggers(), lim) {
                    None => r is None && final(self).buffer() == buf,
                    Some(n) => r matches Some(e) && e.delete_chars == n && e.matched_trigger@
                        == suffix_key(buf, n) && e.replacement@ == old(self).triggers()[suffix_key(
                        buf,
                        n,
                    )] && final(self).buffer() == Seq::<char>::empty(),
                }
            }),
    {
        let ghost before = self.buffer@.push(c);
        self.buffer.push(c);
        if self.buffer.len() > MAX_BUFFER {
            self.buffer.remove(0);
            assert(self.buffer@ == before.skip(1));
        }
        let ghost buf = self.buffer@;
        assert(buf == bounded(before));
        if self.keys.len() == 0 {
            proof {
                assert forall|k: Seq<char>| !self.table@.contains_key(k) by {
                    if self.table@.contains_key(k) {
                        let i = choose|i: int| 0 <= i < self.keys@.len() && #[trigger] self.keys@[i]@ == k;
                    }
                }
                let lim = if self.max_trigger_chars as nat <= buf.len() {
                    self.max_trigger_chars as nat
                } else {
                    buf.len()
                };
                law_match_is_longest(buf, self.table@, lim);
                assert(match_len(buf, self.table@, lim) is None) by {
                    if let Some(n) = match_len(buf, self.table@, lim) {
                        assert(self.table@.contains_key(suffix_key(buf, n)));
                    }
                }
            }
            return None;
        }
        let n = self.buffer.len();
        let max = if self.max_trigger_chars <= n {
            self.max_trigger_chars
        } else {
            n
        };
        let mut len = max;
        while len >= 1
            invariant
                self.wf(),
                self.buffer@ == buf,
                buf == bounded(old(self).buffer@.push(c)),
                self.table@ == old(self).table@,
                self.max_trigger_chars == old(self).max_trigger_chars,
                n == buf.len(),
                max == (if self.max_trigger_chars <= n { self.max_trigger_chars } else { n }),
                0 <= len <= max <= n,
                match_len(buf, self.table@, max as nat) == match_len(buf, self.table@, len as nat),
            decreases len,
        {
            let start = n - len;
            let suffix = string_of_range(&self.buffer, start, n);
            let lowered = str_to_lower(suffix.as_str());
            let candidate = chars_of(lowered.as_str());
            assert(buf.skip(buf.len() - len) == buf.subrange(start as int, n as int));
            assert(candidate@ == suffix_key(buf, len as nat));
            match self.find_key(&candidate) {
                Some(j) => {
                    let matched = string_of(&candidate);
                    let replacement = self.replacements[j].clone();
                    self.buffer.clear();
                    assert(self.keys@[j as int]@ == candidate@);
                    assert(self.table@.contains_key(suffix_key(buf, len as nat)));
                    assert(match_len(buf, self.table@, len as nat) == Some(len as nat));
                    assert(replacement@ == self.table@[suffix_key(buf, len as nat)]);
                    assert(matched@ == suffix_key(buf, len as nat));
                    assert(self.buffer@ == Seq::<char>::empty());
                    assert(buf == bounded(old(self).buffer@.push(c)));
                    return Some(Expansion { delete_chars: len, replacement, matched_trigger: matched });
                },
                None => {},
            }
            len -= 1;
        }
        None
    }

    /// All trigger keys within `max_dist` case-insensitive edits of `trigger`
    /// (lowercased), each once.
    pub fn similar_triggers(&self, trigger: &str, max_dist: usize) -> (r: Vec<String>)
        requires
            self.wf(),
        ensures
            forall|i: int, j: int| 0 <= i < j < r@.len() ==> #[trigger] r@[i]@ != #[trigger] r@[j]@,
            forall|i: int| 0 <= i < r@.len() ==> self.triggers().contains_key(#[trigger] r@[i]@)
                && spec_similar_distance(lower_str(trigger@), r@[i]@, max_dist as nat)
                <= max_dist,
            forall|k: Seq<char>|
                #[trigger] self.triggers().contains_key(k) && spec_similar_distance(
                    lower_str(trigger@),
                    k,
                    max_dist as nat,
                ) <= max_dist ==> exists|i: int| 0 <= i < r@.len() && #[trigger] r@[i]@ == k,
    {
        let needle = str_to_lower(trigger);
        let mut out: Vec<String> = Vec::new();
        let mut i: usize = 0;
        let ghost mut idx: Seq<int> = seq![];
        while i < self.keys.len()
            invariant
                self.wf(),
                needle@ == lower_str(trigger@),
                0 <= i <= self.keys@.len(),
                out@.len() == idx.len(),
                forall|m: int| 0 <= m < idx.len() ==> 0 <= #[trigger] idx[m] < i,
                forall|m: int, p: int| 0 <= m < p < idx.len() ==> #[trigger] idx[m] < #[trigger] idx[p],
                forall|m: int| 0 <= m < idx.len() ==> #[trigger] out@[m]@ == self.keys@[idx[m]]@,
                forall|m: int| 0 <= m < idx.len() ==> spec_similar_distance(
                    lower_str(trigger@),
                    self.keys@[#[trigger] idx[m]]@,
                    max_dist as nat,
                ) <= max_dist,
                forall|q: int| 0 <= q < i && spec_similar_distance(
                    lower_str(trigger@),
                    #[trigger] self.keys@[q]@,
                    max_dist as nat,
                ) <= max_dist ==> exists|m: int| 0 <= m < idx.len() && idx[m] == q,
            decreases self.keys@.len() - i,
        {
            let key = string_of(&self.keys[i]);
            let ghost old_idx = idx;
            let ghost old_out = out@;
            if similar_distance(needle.as_str(), key.as_str(), max_dist) <= max_dist {
                out.push(key);
                proof {
                    idx = idx.push(i as int);
                    assert forall|m: int| 0 <= m < idx.len() implies #[trigger] out@[m]@ == self.keys@[idx[m]]@ by {
                        if m < old_idx.len() {
                            assert(out@[m] == old_out[m]);
                        }
                    }
                }
            }
            proof {
                assert forall|q: int| 0 <= q < i + 1 && spec_similar_distance(
                    lower_str(trigger@),
                    #[trigger] self.keys@[q]@,
                    max_dist as nat,
                ) <= max_dist implies exists|m: int| 0 <= m < idx.len() && idx[m] == q by {
                    if q < i {
                        let m = choose|m: int| 0 <= m < old_idx.len() && old_idx[m] == q;
                        assert(idx[m] == q);
                    } else {
                        assert(idx[old_idx.len() as int] == q);
                    }
                }
            }
            i += 1;
        }
        proof {
            assert forall|a: int, b: int| 0 <= a < b < out@.len() implies #[trigger] out@[a]@ != #[trigger] out@[b]@ by {
                assert(idx[a] < idx[b]);
            }
            assert forall|k: Seq<char>|
                #[trigger] self.triggers().contains_key(k) && spec_similar_distance(
                    lower_str(trigger@),
                    k,
                    max_dist as nat,
                ) <= max_dist implies exists|m: int| 0 <= m < out@.len() && #[trigger] out@[m]@ == k by {
                let q = choose|q: int| 0 <= q < self.keys@.len() && #[trigger] self.keys@[q]@ == k;
                let m = choose|m: int| 0 <= m < idx.len() && idx[m] == q;
                assert(out@[m]@ == k);
            }
        }
        out
    }
}

impl Default for Matcher {
    fn default() -> (m: Matcher)
        ensures
            m.wf(),
            m.buffer() == Seq::<char>::empty(),
            m.triggers() == Map::<Seq<char>, Seq<char>>::empty(),
            m.max_trigger_chars() == 0,
    {
        Matcher::new()
    }
}


/// Pair `j` of `ps` has a non-empty trigger whose lowercasing is `k`.
pub open spec fn keyed(ps: Seq<(Seq<char>, Seq<char>)>, j: int, k: Seq<char>) -> bool {
    0 <= j < ps.len() && ps[j].0.len() > 0 && lower_str(ps[j].0) == k
}

/// The trigger table built from a list of pairs holds exactly the lowercased
/// non-empty triggers of the list (earlier triggers are gone, empty ones are
/// ignored), and each maps to the replacement of the last pair with that
/// lowercased trigger.
pub proof fn law_trigger_table(ps: Seq<(Seq<char>, Seq<char>)>)
    ensures
        forall|k: Seq<char>| #[trigger]
            trigger_map_of(ps).contains_key(k) <==> exists|j: int| #[trigger] keyed(ps, j, k),
        forall|k: Seq<char>, j: int|
            #[trigger] keyed(ps, j, k) && (forall|j2: int| j < j2 < ps.len() ==> !#[trigger] keyed(
                ps,
                j2,
                k,
            )) ==> trigger_map_of(ps)[k] == ps[j].1,
    decreases ps.len(),
{
    if ps.len() > 0 {
        let q = ps.drop_last();
        let n = ps.len() - 1;
        law_trigger_table(q);
        assert forall|k: Seq<char>, j: int| #[trigger] keyed(q, j, k) implies keyed(ps, j, k) by {
            assert(q[j] == ps[j]);
        }
        assert forall|k: Seq<char>, j: int| 0 <= j < n && #[trigger] keyed(ps, j, k) implies keyed(q, j, k) by {
            assert(q[j] == ps[j]);
        }
        assert forall|k: Seq<char>| #[trigger]
            trigger_map_of(ps).contains_key(k) <==> exists|j: int| #[trigger] keyed(ps, j, k) by {
            if trigger_map_of(ps).contains_key(k) {
                if keyed(ps, n, k) {
                } else {
                    assert(trigger_map_of(q).contains_key(k));
                    let j = choose|j: int| #[trigger] keyed(q, j, k);
                    assert(keyed(ps, j, k));
                }
            }
            if exists|j: int| #[trigger] keyed(ps, j, k) {
                let j = choose|j: int| #[trigger] keyed(ps, j, k);
                if j < n {
                    assert(keyed(q, j, k));
                    assert(trigger_map_of(q).contains_key(k));
                }
            }
        }
        assert forall|k: Seq<char>, j: int|
            #[trigger] keyed(ps, j, k) && (forall|j2: int| j < j2 < ps.len() ==> !#[trigger] keyed(
                ps,
                j2,
                k,
            )) implies trigger_map_of(ps)[k] == ps[j].1 by {
            if j < n {
                assert(!keyed(ps, n, k));
                assert(keyed(q, j, k));
                assert forall|j2: int| j < j2 < q.len() implies !#[trigger] keyed(q, j2, k) by {
                    if keyed(q, j2, k) {
                        assert(keyed(ps, j2, k));
                    }
                }
            }
        }
    }
}


proof fn lemma_max_trigger_len(ps: Seq<(Seq<char>, Seq<char>)>, j: int)
    requires
        0 <= j < ps.len(),
    ensures
        ps[j].0.len() <= max_trigger_len_of(ps),
    decreases ps.len(),
{
    if j < ps.len() - 1 {
        lemma_max_trigger_len(ps.drop_last(), j);
        assert(ps.drop_last()[j] == ps[j]);
    }
}

/// Every trigger given fires when typed in full: whatever was typed before
/// it, once the buffer (within its `MAX_BUFFER` chars) ends with a non-empty
/// trigger `t` of the list, the suffix check, bounded by the longest trigger
/// and the buffer, finds a trigger at least as long as `t`; typed into an
/// empty buffer, it finds `t` itself, whose replacement is that of the last
/// pair with `t`'s lowercasing.
pub proof fn law_every_trigger_fires(ps: Seq<(Seq<char>, Seq<char>)>, j: int, pre: Seq<char>)
    requires
        0 <= j < ps.len(),
        ps[j].0.len() > 0,
        pre.len() + ps[j].0.len() <= MAX_BUFFER,
    ensures
        ps[j].0.len() <= max_trigger_len_of(ps),
        ({
            let t = ps[j].0;
            let buf = pre + t;
            let lim = if max_trigger_len_of(ps) <= buf.len() {
                max_trigger_len_of(ps)
            } else {
                buf.len()
            };
            &&& bounded(buf) == buf
            &&& match_len(buf, trigger_map_of(ps), lim) matches Some(n) && n >= t.len()
            &&& pre.len() == 0 ==> {
                &&& match_len(buf, trigger_map_of(ps), lim) == Some(t.len())
                &&& suffix_key(buf, t.len()) == lower_str(t)
                &&& (forall|j2: int| j < j2 < ps.len() ==> !#[trigger] keyed(ps, j2, lower_str(t)))
                    ==> trigger_map_of(ps)[lower_str(t)] == ps[j].1
            }
        }),
{
    let t = ps[j].0;
    let buf = pre + t;
    let m = trigger_map_of(ps);
    let mx = max_trigger_len_of(ps);
    lemma_max_trigger_len(ps, j);
    let lim = if mx <= buf.len() {
        mx
    } else {
        buf.len()
    };
    assert(buf.skip(buf.len() - t.len()) =~= t);
    assert(suffix_key(buf, t.len()) == lower_str(t));
    law_trigger_table(ps);
    assert(keyed(ps, j, lower_str(t)));
    assert(m.contains_key(lower_str(t)));
    law_match_is_longest(buf, m, lim);
    if match_len(buf, m, lim) is None {
        assert(m.contains_key(suffix_key(buf, t.len())));
    }
}

} // verus!
