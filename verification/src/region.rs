//! User region. Drives locale-sensitive formatting (the `{date}` token's
//! order). The default is the United States.

use vstd::prelude::*;
use crate::text::{ascii_lower_seq, chars_of, to_ascii_lower};

verus! {

/// Where the user is. Determines conventions like date ordering.
#[derive(Debug, Clone, Copy, PartialEq, Eq, Structural)]
pub enum Region {
    /// United States — month/day/year, the default.
    US,
    /// Brazil — day/month/year.
    BR,
}

impl Default for Region {
    fn default() -> (r: Region)
        ensures
            r == Region::US,
    {
        Region::US
    }
}

/// Drop leading `"` chars.
pub open spec fn trim_quotes_start(s: Seq<char>) -> Seq<char>
    decreases s.len(),
{
    if s.len() > 0 && s[0] == '"' {
        trim_quotes_start(s.drop_first())
    } else {
        s
    }
}

/// Drop trailing `"` chars.
pub open spec fn trim_quotes_end(s: Seq<char>) -> Seq<char>
    decreases s.len(),
{
    if s.len() > 0 && s.last() == '"' {
        trim_quotes_end(s.drop_last())
    } else {
        s
    }
}

/// `str::trim_matches('"')`.
pub open spec fn trim_quotes(s: Seq<char>) -> Seq<char> {
    trim_quotes_end(trim_quotes_start(s))
}

/// The region a stored setting names: `br` in any ASCII case, with any
/// surrounding double quotes, is Brazil; anything else (or nothing) is the US.
pub open spec fn region_of_setting(raw: Option<Seq<char>>) -> Region {
    match raw {
        Some(s) => if ascii_lower_seq(trim_quotes(s)) == "br"@ {
            Region::BR
        } else {
            Region::US
        },
        None => Region::US,
    }
}

impl Region {
    /// Parse the JSON-string value stored under `format.region` (e.g. `"us"` /
    /// `"br"`). Unknown or missing values fall back to the default (US).
    pub fn from_setting(raw: Option<&str>) -> (r: Region)
        ensures
            r == region_of_setting(match raw {
                Some(s) => Some(s@),
                None => None,
            }),
    {
        match raw {
            None => Region::US,
            Some(s) => {
                let v = chars_of(s);
                let mut a: usize = 0;
                assert(v@.subrange(0, v@.len() as int) == v@);
                while a < v.len() && v[a] == '"'
                    invariant
                        0 <= a <= v@.len(),
                        trim_quotes_start(v@) == trim_quotes_start(v@.subrange(a as int, v@.len() as int)),
                    decreases v@.len() - a,
                {
                    assert(v@.subrange(a as int, v@.len() as int).drop_first() == v@.subrange(
                        a + 1,
                        v@.len() as int,
                    ));
                    a += 1;
                }
                assert(trim_quotes_start(v@) == v@.subrange(a as int, v@.len() as int));
                let mut b: usize = v.len();
                while b > a && v[b - 1] == '"'
                    invariant
                        0 <= a <= b <= v@.len(),
                        trim_quotes(v@) == trim_quotes_end(v@.subrange(a as int, b as int)),
                    decreases b - a,
                {
                    assert(v@.subrange(a as int, b as int).drop_last() == v@.subrange(
                        a as int,
                        b - 1,
                    ));
                    b -= 1;
                }
                assert(trim_quotes(v@) == v@.subrange(a as int, b as int));
                let ghost t = v@.subrange(a as int, b as int);
                proof {
                    reveal_strlit("br");
                }
                if b - a == 2 && to_ascii_lower(v[a]) == 'b' && to_ascii_lower(v[a + 1]) == 'r' {
                    assert(ascii_lower_seq(t) == "br"@);
                    Region::BR
                } else {
                    assert(ascii_lower_seq(t).len() == t.len());
                    if b - a == 2 {
                        assert(ascii_lower_seq(t)[0] != 'b' || ascii_lower_seq(t)[1] != 'r');
                    }
                    Region::US
                }
            },
        }
    }

    /// The settings key the region is persisted under.
    pub fn setting_key() -> (k: &'static str)
        ensures
            k@ == "format.region"@,
    {
        "format.region"
    }
}

/// The name a region is stored under (lowercase), as the settings UI writes
/// it.
pub open spec fn region_name(r: Region) -> Seq<char> {
    match r {
        Region::US => "us"@,
        Region::BR => "br"@,
    }
}

/// A region stored as its JSON string (`"us"` / `"br"`) reads back as itself.
pub proof fn law_region_setting_roundtrip(r: Region)
    ensures
        region_of_setting(Some(seq!['"'] + region_name(r) + seq!['"'])) == r,
{
    reveal_strlit("us");
    reveal_strlit("br");
    let n = region_name(r);
    let s = seq!['"'] + n + seq!['"'];
    assert(s.drop_first() == n + seq!['"']);
    assert(trim_quotes_start(n + seq!['"']) == n + seq!['"']);
    assert((n + seq!['"']).drop_last() == n);
    assert(trim_quotes_end(n) == n);
    assert(trim_quotes(s) == n);
    assert(ascii_lower_seq(n) =~= n);
    if r == Region::US {
        assert(n[0] != "br"@[0]);
    }
}

} // verus!
