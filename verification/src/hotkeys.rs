//! The palette's global shortcuts: the primary opens the main tab, an
//! optional secondary opens the other one, and a third opens the screen color
//! picker. Stored settings are JSON strings; registering with the OS is the
//! caller's.

use vstd::prelude::*;
use crate::error::CoreError;
use crate::import::{filled, opt_view};
use crate::json::{json_str, parse_json_str};
use crate::palette::{main_tab_for, spec_main_tab, TAB_SNIPPETS};
use crate::text::{chars_of, str_eq, string_of_range, trim, trim_range};

verus! {

pub const DEFAULT_HOTKEY: &'static str = "Control+Shift+Space";
pub const DEFAULT_COLOR_HOTKEY: &'static str = "Control+Shift+C";

/// The shortcuts in effect, as the settings UI shows them.
#[derive(Debug)]
pub struct HotkeyInfo {
    /// The primary accelerator currently in effect.
    pub hotkey: String,
    /// The secondary accelerator, or empty string when none is set.
    pub hotkey2: String,
    /// Which tab the primary opens: "snippets" | "clipboard".
    pub main_tab: String,
    /// The screen-color-picker accelerator, or empty string when none is set.
    pub color_hotkey: String,
    /// The built-in default primary, so the UI can offer "restore default".
    pub default: String,
    /// The built-in default color-picker accelerator.
    pub color_default: String,
}

/// A stored string setting: its raw JSON value read as a string.
pub open spec fn setting_str(raw: Option<Seq<char>>) -> Option<Seq<char>> {
    match raw {
        Some(t) => json_str(t),
        None => None,
    }
}

fn read_setting(raw: &Option<String>) -> (r: Option<String>)
    ensures
        opt_view(r) == setting_str(opt_view(*raw)),
{
    match raw {
        Some(t) => parse_json_str(t.as_str()),
        None => None,
    }
}

pub open spec fn or_else(o: Option<Seq<char>>, d: Seq<char>) -> Seq<char> {
    match o {
        Some(x) => x,
        None => d,
    }
}

/// The shortcuts from their raw stored settings (`palette.hotkey`,
/// `palette.hotkey2`, `palette.mainTab`, `color.hotkey`), with the defaults
/// where a setting is missing or unreadable.
pub fn hotkey_info(
    hotkey_raw: Option<String>,
    hotkey2_raw: Option<String>,
    main_tab_raw: Option<String>,
    color_raw: Option<String>,
) -> (i: HotkeyInfo)
    ensures
        i.hotkey@ == or_else(setting_str(opt_view(hotkey_raw)), "Control+Shift+Space"@),
        i.hotkey2@ == or_else(setting_str(opt_view(hotkey2_raw)), seq![]),
        i.main_tab@ == match setting_str(opt_view(main_tab_raw)) {
            Some(t) => spec_main_tab(t),
            None => "snippets"@,
        },
        i.color_hotkey@ == or_else(setting_str(opt_view(color_raw)), "Control+Shift+C"@),
        i.default@ == "Control+Shift+Space"@,
        i.color_default@ == "Control+Shift+C"@,
{
    let hotkey = match read_setting(&hotkey_raw) {
        Some(h) => h,
        None => DEFAULT_HOTKEY.to_owned(),
    };
    let hotkey2 = match read_setting(&hotkey2_raw) {
        Some(h) => h,
        None => String::new(),
    };
    let main_tab = match read_setting(&main_tab_raw) {
        Some(t) => main_tab_for(t.as_str()).to_owned(),
        None => TAB_SNIPPETS.to_owned(),
    };
    let color_hotkey = match read_setting(&color_raw) {
        Some(h) => h,
        None => DEFAULT_COLOR_HOTKEY.to_owned(),
    };
    HotkeyInfo {
        hotkey,
        hotkey2,
        main_tab,
        color_hotkey,
        default: DEFAULT_HOTKEY.to_owned(),
        color_default: DEFAULT_COLOR_HOTKEY.to_owned(),
    }
}

/// The shortcuts to register and persist after an edit.
#[derive(Debug)]
pub struct HotkeyChoice {
    pub primary: String,
    /// Empty when cleared.
    pub secondary: String,
    pub main_tab: String,
    /// Empty when cleared.
    pub color: String,
}

fn trimmed(s: &String) -> (r: String)
    ensures
        r@ == trim(s@),
{
    let v = chars_of(s.as_str());
    assert(v@.subrange(0, v@.len() as int) == v@);
    let (a, b) = trim_range(&v, 0, v.len());
    string_of_range(&v, a, b)
}

/// An edit applied over the current shortcuts: a given accelerator is
/// trimmed (a blank secondary or color shortcut clears it), a given tab is
/// normalized, and what is not given stays. A blank primary is refused.
pub fn merge_hotkeys(
    cur: &HotkeyInfo,
    hotkey: Option<String>,
    hotkey2: Option<String>,
    main_tab: Option<String>,
    color_hotkey: Option<String>,
) -> (r: Result<HotkeyChoice, CoreError>)
    ensures
        ({
            let primary = match opt_view(hotkey) {
                Some(h) => trim(h),
                None => cur.hotkey@,
            };
            &&& primary.len() == 0 ==> (r matches Err(CoreError::Invalid(m)) && m@
                == "atalho vazio"@)
            &&& primary.len() > 0 ==> (r matches Ok(c) && {
                &&& c.primary@ == primary
                &&& c.secondary@ == match opt_view(hotkey2) {
                    Some(h) => trim(h),
                    None => cur.hotkey2@,
                }
                &&& c.main_tab@ == match opt_view(main_tab) {
                    Some(t) => spec_main_tab(t),
                    None => cur.main_tab@,
                }
                &&& c.color@ == match opt_view(color_hotkey) {
                    Some(h) => trim(h),
                    None => cur.color_hotkey@,
                }
            })
        }),
{
    let primary = match &hotkey {
        Some(h) => trimmed(h),
        None => cur.hotkey.clone(),
    };
    if primary.as_str().is_empty() {
        return Err(CoreError::Invalid("atalho vazio".to_owned()));
    }
    let secondary = match &hotkey2 {
        Some(h) => trimmed(h),
        None => cur.hotkey2.clone(),
    };
    let main = match &main_tab {
        Some(t) => main_tab_for(t.as_str()).to_owned(),
        None => cur.main_tab.clone(),
    };
    let color = match &color_hotkey {
        Some(h) => trimmed(h),
        None => cur.color_hotkey.clone(),
    };
    Ok(HotkeyChoice { primary, secondary, main_tab: main, color })
}

/// The secondary shortcut actually registered: trimmed, and none when blank
/// or equal to the primary (one accelerator can't open two tabs).
pub fn effective_secondary(secondary: Option<&str>, primary: &str) -> (r: Option<String>)
    ensures
        opt_view(r) == match secondary {
            Some(s) => if trim(s@).len() > 0 && trim(s@) != primary@ {
                Some(trim(s@))
            } else {
                None
            },
            None => None,
        },
{
    match secondary {
        Some(s) => {
            let v = chars_of(s);
            assert(v@.subrange(0, v@.len() as int) == v@);
            let (a, b) = trim_range(&v, 0, v.len());
            let t = string_of_range(&v, a, b);
            if a < b && !str_eq(t.as_str(), primary) {
                Some(t)
            } else {
                None
            }
        },
        None => None,
    }
}

} // verus!
