//! Text injection, as data: the synthetic keystrokes for backspaces, caret
//! moves, Ctrl+V and unicode typing; the keys that reset the expansion
//! buffer; and the log of clipboard writes Carimbo made itself, so the
//! clipboard monitor can ignore them. Sending the keystrokes is the caller's.

use std::collections::HashSet;
use vstd::prelude::*;

verus! {

/// Windows virtual-key codes used here.
pub const VK_BACK: u16 = 0x08;
pub const VK_TAB: u16 = 0x09;
pub const VK_RETURN: u16 = 0x0D;
pub const VK_CONTROL: u16 = 0x11;
pub const VK_ESCAPE: u16 = 0x1B;
pub const VK_PRIOR: u16 = 0x21;
pub const VK_NEXT: u16 = 0x22;
pub const VK_END: u16 = 0x23;
pub const VK_HOME: u16 = 0x24;
pub const VK_LEFT: u16 = 0x25;
pub const VK_UP: u16 = 0x26;
pub const VK_RIGHT: u16 = 0x27;
pub const VK_DOWN: u16 = 0x28;
pub const VK_DELETE: u16 = 0x2E;
pub const VK_V: u16 = 0x56;

/// Keys that move the caret or commit, voiding any partial trigger typed
/// before them. The hook's key code is read as a 16-bit virtual key.
pub open spec fn resets_buffer(vk: u32) -> bool {
    let v = vk as u16;
    v == VK_RETURN || v == VK_TAB || v == VK_ESCAPE || v == VK_LEFT || v == VK_RIGHT || v == VK_UP
        || v == VK_DOWN || v == VK_HOME || v == VK_END || v == VK_PRIOR || v == VK_NEXT || v
        == VK_DELETE
}

/// Virtual-key codes that should reset the expansion buffer.
pub fn is_buffer_resetting_key(vk: u32) -> (b: bool)
    ensures
        b == resets_buffer(vk),
{
    let v = vk as u16;
    v == VK_RETURN || v == VK_TAB || v == VK_ESCAPE || v == VK_LEFT || v == VK_RIGHT || v == VK_UP
        || v == VK_DOWN || v == VK_HOME || v == VK_END || v == VK_PRIOR || v == VK_NEXT || v
        == VK_DELETE
}

/// True for the Backspace key (the matcher shortens its buffer by one).
pub fn is_backspace(vk: u32) -> (b: bool)
    ensures
        b == (vk as u16 == VK_BACK),
{
    vk as u16 == VK_BACK
}

/// What a key press does to the expansion buffer.
#[derive(Debug, Clone, Copy, PartialEq, Eq, Structural)]
pub enum KeyAction {
    /// Shorten the buffer by one.
    Backspace,
    /// Clear the buffer.
    Reset,
    /// Append the char the key produced.
    Type(char),
    /// Dead keys and modifiers leave the buffer as it is.
    Ignore,
}

pub open spec fn spec_key_action(vk: u32, produced: Option<char>) -> KeyAction {
    if vk as u16 == VK_BACK {
        KeyAction::Backspace
    } else if resets_buffer(vk) {
        KeyAction::Reset
    } else {
        match produced {
            Some(c) => KeyAction::Type(c),
            None => KeyAction::Ignore,
        }
    }
}

/// The buffer action for a key press, given the char the keyboard layout
/// translates it to (if exactly one). Backspace wins over everything, then
/// the resetting keys.
pub fn key_action(vk: u32, produced: Option<char>) -> (a: KeyAction)
    ensures
        a == spec_key_action(vk, produced),
{
    if is_backspace(vk) {
        KeyAction::Backspace
    } else if is_buffer_resetting_key(vk) {
        KeyAction::Reset
    } else {
        match produced {
            Some(c) => KeyAction::Type(c),
            None => KeyAction::Ignore,
        }
    }
}

/// A key-down event observed by the hook. `vk` is the virtual-key code,
/// `scan` the hardware scan code, `injected` true if it carried our tag.
#[derive(Clone, Copy, Debug)]
pub struct KeyEvent {
    pub vk: u32,
    pub scan: u32,
    pub injected: bool,
}

/// One synthetic keyboard event: a virtual key, or a UTF-16 unit when
/// `unicode`, pressed or released.
#[derive(Debug, Clone, Copy, PartialEq, Eq, Structural)]
pub struct KeyStroke {
    pub vk: u16,
    pub scan: u16,
    pub unicode: bool,
    pub key_up: bool,
}

pub open spec fn press(vk: u16, up: bool) -> KeyStroke {
    KeyStroke { vk, scan: 0, unicode: false, key_up: up }
}

/// `count` presses of `vk`, each a down then an up.
pub open spec fn taps(vk: u16, count: nat) -> Seq<KeyStroke> {
    Seq::new(2 * count, |i: int| press(vk, i % 2 == 1))
}

fn tap_strokes(vk: u16, count: usize) -> (r: Vec<KeyStroke>)
    requires
        2 * count <= usize::MAX,
    ensures
        r@ == taps(vk, count as nat),
{
    let mut v: Vec<KeyStroke> = Vec::new();
    let mut k: usize = 0;
    while k < count
        invariant
            k <= count,
            2 * count <= usize::MAX,
            v@ == taps(vk, k as nat),
        decreases count - k,
    {
        v.push(KeyStroke { vk, scan: 0, unicode: false, key_up: false });
        v.push(KeyStroke { vk, scan: 0, unicode: false, key_up: true });
        assert(v@ =~= taps(vk, (k + 1) as nat));
        k += 1;
    }
    v
}

/// The keystrokes of `count` Backspace presses.
pub fn backspace_strokes(count: usize) -> (r: Vec<KeyStroke>)
    requires
        2 * count <= usize::MAX,
    ensures
        r@ == taps(VK_BACK, count as nat),
{
    tap_strokes(VK_BACK, count)
}

/// The keystrokes of `count` Left-arrow presses, which move the caret back to
/// a `{cursor}` marker after an insertion.
pub fn left_arrow_strokes(count: usize) -> (r: Vec<KeyStroke>)
    requires
        2 * count <= usize::MAX,
    ensures
        r@ == taps(VK_LEFT, count as nat),
{
    tap_strokes(VK_LEFT, count)
}

/// Ctrl+V: Control down, V down, V up, Control up.
pub open spec fn paste_chord() -> Seq<KeyStroke> {
    seq![press(VK_CONTROL, false), press(VK_V, false), press(VK_V, true), press(VK_CONTROL, true)]
}

pub fn paste_strokes() -> (r: Vec<KeyStroke>)
    ensures
        r@ == paste_chord(),
{
    let mut v: Vec<KeyStroke> = Vec::new();
    v.push(KeyStroke { vk: VK_CONTROL, scan: 0, unicode: false, key_up: false });
    v.push(KeyStroke { vk: VK_V, scan: 0, unicode: false, key_up: false });
    v.push(KeyStroke { vk: VK_V, scan: 0, unicode: false, key_up: true });
    v.push(KeyStroke { vk: VK_CONTROL, scan: 0, unicode: false, key_up: true });
    assert(v@ =~= paste_chord());
    v
}

/// The UTF-16 code units of `c` (`char::encode_utf16`).
pub open spec fn utf16_units(c: char) -> Seq<u16> {
    let u = c as u32;
    if u < 0x10000 {
        seq![u as u16]
    } else {
        let x = (u - 0x10000) as u32;
        seq![(0xD800 + x / 0x400) as u16, (0xDC00 + x % 0x400) as u16]
    }
}

/// The UTF-16 encoding of a text (`str::encode_utf16`).
pub open spec fn utf16_of(s: Seq<char>) -> Seq<u16>
    decreases s.len(),
{
    if s.len() == 0 {
        seq![]
    } else {
        utf16_of(s.drop_last()) + utf16_units(s.last())
    }
}

/// Each UTF-16 unit typed as a unicode key down then up.
pub open spec fn unicode_taps(units: Seq<u16>) -> Seq<KeyStroke> {
    Seq::new(
        2 * units.len(),
        |i: int| KeyStroke { vk: 0, scan: units[i / 2], unicode: true, key_up: i % 2 == 1 },
    )
}

fn push_unit(v: &mut Vec<KeyStroke>, unit: u16, Ghost(units): Ghost<Seq<u16>>)
    requires
        old(v)@ == unicode_taps(units),
    ensures
        final(v)@ == unicode_taps(units.push(unit)),
{
    v.push(KeyStroke { vk: 0, scan: unit, unicode: true, key_up: false });
    v.push(KeyStroke { vk: 0, scan: unit, unicode: true, key_up: true });
    let ghost w = units.push(unit);
    assert forall|i: int| 0 <= i < 2 * w.len() implies v@[i] == (KeyStroke {
        vk: 0,
        scan: w[i / 2],
        unicode: true,
        key_up: i % 2 == 1,
    }) by {
        if i < 2 * units.len() {
            assert(w[i / 2] == units[i / 2]);
        }
    }
    assert(v@ =~= unicode_taps(w));
}

/// The keystrokes that type `text` as unicode key events, each UTF-16 unit a
/// down then an up, so chars outside the BMP go as surrogate pairs.
pub fn unicode_strokes(text: &str) -> (r: Vec<KeyStroke>)
    ensures
        r@ == unicode_taps(utf16_of(text@)),
{
    let chars = crate::text::chars_of(text);
    let mut v: Vec<KeyStroke> = Vec::new();
    let mut k: usize = 0;
    assert(chars@.take(0) == Seq::<char>::empty());
    assert(v@ =~= unicode_taps(seq![]));
    while k < chars.len()
        invariant
            k <= chars@.len(),
            chars@ == text@,
            v@ == unicode_taps(utf16_of(chars@.take(k as int))),
        decreases chars@.len() - k,
    {
        let c = chars[k];
        let ghost before = utf16_of(chars@.take(k as int));
        assert(chars@.take(k + 1).drop_last() == chars@.take(k as int));
        assert(chars@.take(k + 1).last() == c);
        let u = c as u32;
        if u < 0x10000 {
            push_unit(&mut v, u as u16, Ghost(before));
            assert(before.push(u as u16) == before + utf16_units(c));
        } else {
            let x = u - 0x10000;
            let hi = (0xD800 + x / 0x400) as u16;
            let lo = (0xDC00 + x % 0x400) as u16;
            push_unit(&mut v, hi, Ghost(before));
            push_unit(&mut v, lo, Ghost(before.push(hi)));
            assert(before.push(hi).push(lo) == before + utf16_units(c));
        }
        k += 1;
    }
    assert(chars@.take(chars@.len() as int) == chars@);
    v
}

/// Keystrokes per `SendInput` batch when typing (20 chars, down and up), so
/// slow apps can keep up.
pub const TYPE_BATCH: usize = 40;

/// `strokes` cut into batches of `TYPE_BATCH` (the last may be shorter).
pub open spec fn batched(strokes: Seq<KeyStroke>, batches: Seq<Seq<KeyStroke>>) -> bool {
    &&& batches.len() == (strokes.len() + TYPE_BATCH - 1) / (TYPE_BATCH as int)
    &&& forall|b: int|
        0 <= b < batches.len() ==> #[trigger] batches[b] == strokes.subrange(
            b * TYPE_BATCH,
            if (b + 1) * TYPE_BATCH <= strokes.len() {
                (b + 1) * TYPE_BATCH
            } else {
                strokes.len() as int
            },
        )
}

pub open spec fn batches_view(v: Seq<Vec<KeyStroke>>) -> Seq<Seq<KeyStroke>> {
    v.map_values(|b: Vec<KeyStroke>| b@)
}

proof fn lemma_batch_bounds(b: int, start: int, n: int)
    by (nonlinear_arith)
    requires
        0 <= b,
        0 <= start,
        start % 40 == 0,
    ensures
        b < start / 40 ==> (b + 1) * 40 <= start,
        b == start / 40 ==> b * 40 == start,
        start < n <= start + 40 ==> (n + 39) / 40 == start / 40 + 1,
        n == start ==> (n + 39) / 40 == start / 40,
{
}

/// Splits keystrokes into `SendInput` batches (`slice::chunks`).
pub fn stroke_batches(strokes: &Vec<KeyStroke>) -> (r: Vec<Vec<KeyStroke>>)
    ensures
        batched(strokes@, batches_view(r@)),
{
    let n = strokes.len();
    let mut out: Vec<Vec<KeyStroke>> = Vec::new();
    let mut start: usize = 0;
    while start < n
        invariant
            start <= n == strokes@.len(),
            start % TYPE_BATCH == 0,
            out@.len() == start / TYPE_BATCH,
            forall|b: int|
                0 <= b < out@.len() ==> #[trigger] out@[b]@ == strokes@.subrange(
                    b * TYPE_BATCH,
                    (b + 1) * TYPE_BATCH,
                ),
        decreases n - start,
    {
        let end = if n - start > TYPE_BATCH {
            start + TYPE_BATCH
        } else {
            n
        };
        let mut batch: Vec<KeyStroke> = Vec::new();
        let mut k = start;
        while k < end
            invariant
                start <= k <= end <= n == strokes@.len(),
                batch@ == strokes@.subrange(start as int, k as int),
            decreases end - k,
        {
            batch.push(strokes[k]);
            assert(strokes@.subrange(start as int, k + 1) == strokes@.subrange(
                start as int,
                k as int,
            ).push(strokes@[k as int]));
            k += 1;
        }
        let ghost prev = out@;
        out.push(batch);
        proof {
            lemma_batch_bounds(prev.len() as int, start as int, n as int);
            assert forall|b: int| 0 <= b < prev.len() implies #[trigger] out@[b]@ == prev[b]@ by {}
        }
        if end == n && n - start < TYPE_BATCH {
            proof {
                let bv = batches_view(out@);
                assert forall|b: int| 0 <= b < bv.len() implies #[trigger] bv[b] == strokes@.subrange(
                    b * TYPE_BATCH,
                    if (b + 1) * TYPE_BATCH <= n {
                        (b + 1) * TYPE_BATCH
                    } else {
                        n as int
                    },
                ) by {
                    lemma_batch_bounds(b, start as int, n as int);
                    if b < prev.len() {
                        assert(out@[b]@ == prev[b]@);
                    }
                }
            }
            return out;
        }
        proof {
            assert forall|b: int| 0 <= b < out@.len() implies #[trigger] out@[b]@ == strokes@.subrange(
                b * TYPE_BATCH,
                (b + 1) * TYPE_BATCH,
            ) by {
                lemma_batch_bounds(b, start as int, n as int);
            }
            assert(end == start + TYPE_BATCH);
            assert((end as int) % 40 == 0 && (end as int) / 40 == (start as int) / 40 + 1);
        }
        start = end;
    }
    proof {
        let bv = batches_view(out@);
        lemma_batch_bounds(0, n as int, n as int);
        assert forall|b: int| 0 <= b < bv.len() implies #[trigger] bv[b] == strokes@.subrange(
            b * TYPE_BATCH,
            if (b + 1) * TYPE_BATCH <= n {
                (b + 1) * TYPE_BATCH
            } else {
                n as int
            },
        ) by {
            lemma_batch_bounds(b, n as int, n as int);
            assert(out@[b]@ == strokes@.subrange(b * TYPE_BATCH, (b + 1) * TYPE_BATCH));
        }
    }
    out
}

/// Which strategy places text into the target app.
#[derive(Clone, Copy, Debug, PartialEq, Eq, Structural)]
pub enum InjectMethod {
    /// Save clipboard, set text, Ctrl+V, restore clipboard.
    Paste,
    /// Type the text as unicode key events; never touches the clipboard.
    Type,
}

/// Outcome of an insertion attempt.
#[derive(Clone, Copy, Debug, PartialEq, Eq, Structural)]
pub enum InsertResult {
    Success,
    /// The target could not be brought back to the foreground; nothing was
    /// pasted (never paste into the wrong window).
    FocusLost,
    /// The target is an elevated window an unelevated app cannot inject into.
    Elevated,
    /// Setting the clipboard failed (only for the Paste method).
    ClipboardFailed,
}

pub open spec fn insert_result_name(r: InsertResult) -> Seq<char> {
    match r {
        InsertResult::Success => "ok"@,
        InsertResult::FocusLost => "focus-lost"@,
        InsertResult::Elevated => "elevated"@,
        InsertResult::ClipboardFailed => "clipboard-failed"@,
    }
}

impl InsertResult {
    /// The word the palette reports for this outcome.
    pub fn as_str(&self) -> (s: &'static str)
        ensures
            s@ == insert_result_name(*self),
    {
        match self {
            InsertResult::Success => "ok",
            InsertResult::FocusLost => "focus-lost",
            InsertResult::Elevated => "elevated",
            InsertResult::ClipboardFailed => "clipboard-failed",
        }
    }
}

/// Left-arrow presses after an insertion: back to the `{cursor}` marker, and
/// only when the insertion landed.
pub fn caret_moves(result: InsertResult, cursor_from_end: Option<usize>) -> (n: usize)
    ensures
        n == (if result == InsertResult::Success {
            match cursor_from_end {
                Some(b) => b,
                None => 0,
            }
        } else {
            0
        }),
{
    if result == InsertResult::Success {
        match cursor_from_end {
            Some(b) => b,
            None => 0,
        }
    } else {
        0
    }
}

// --- insertion sequence ------------------------------------------------------------

/// What an insertion asks for: the method, how many typed chars to delete
/// first (the trigger), and where the caret goes afterwards.
#[derive(Clone, Copy, Debug)]
pub struct InsertRequest {
    pub method: InjectMethod,
    pub delete_before: usize,
    pub cursor_from_end: Option<usize>,
}

/// Which answer an insertion waits for.
#[derive(Clone, Copy, Debug, PartialEq, Eq, Structural)]
pub enum InsertPhase {
    /// Nothing done yet.
    Start,
    /// Whether the target window is elevated.
    Elevation,
    /// Whether the target came back to the foreground.
    Focus,
    /// The backspaces deleting the trigger were sent.
    Deleted,
    /// The text was typed.
    Typed,
    /// Whether the text could be put on the clipboard (a snapshot of the
    /// user's clipboard is taken first).
    Clipboard,
    /// The paste was sent and the user's clipboard put back.
    Pasted,
    /// The caret was moved.
    Caret,
    /// The insertion is over.
    Finished,
}

/// What the outside world reports back.
#[derive(Clone, Copy, Debug, PartialEq, Eq, Structural)]
pub enum InsertEvent {
    /// The insertion is asked for.
    Begin,
    /// Whether the target is elevated relative to Carimbo.
    Elevated(bool),
    /// Whether the target came back to the foreground.
    Focused(bool),
    /// Whether the clipboard write succeeded.
    ClipboardSet(bool),
    /// The last action was carried out.
    Done,
}

/// What to do next.
#[derive(Clone, Copy, Debug, PartialEq, Eq, Structural)]
pub enum InsertAction {
    CheckElevation,
    RestoreFocus,
    SendBackspaces(usize),
    TypeText,
    /// Snapshot the user's clipboard, then put the text on it.
    WriteClipboard,
    /// Record the self-write, send Ctrl+V, restore the snapshot, record again.
    PasteAndRestore,
    MoveCaretLeft(usize),
    Finish(InsertResult),
    /// The event does not answer the pending step: wait on.
    Wait,
}

/// After focus is back: delete the trigger if asked, else place the text.
pub open spec fn after_focus(req: InsertRequest) -> (InsertPhase, InsertAction) {
    if req.delete_before > 0 {
        (InsertPhase::Deleted, InsertAction::SendBackspaces(req.delete_before))
    } else {
        place_text(req)
    }
}

/// Place the text: type it, or write it to the clipboard to paste.
pub open spec fn place_text(req: InsertRequest) -> (InsertPhase, InsertAction) {
    match req.method {
        InjectMethod::Type => (InsertPhase::Typed, InsertAction::TypeText),
        InjectMethod::Paste => (InsertPhase::Clipboard, InsertAction::WriteClipboard),
    }
}

/// Once the text has landed: move the caret back to a `{cursor}` marker,
/// else finish.
pub open spec fn after_landing(req: InsertRequest) -> (InsertPhase, InsertAction) {
    match req.cursor_from_end {
        Some(b) => if b > 0 {
            (InsertPhase::Caret, InsertAction::MoveCaretLeft(b))
        } else {
            (InsertPhase::Finished, InsertAction::Finish(InsertResult::Success))
        },
        None => (InsertPhase::Finished, InsertAction::Finish(InsertResult::Success)),
    }
}

/// The insertion sequence, one step at a time: refuse an elevated target,
/// restore the target's focus (and give up with `FocusLost` if that fails,
/// before any input is sent), delete the trigger, place the text (typing, or
/// a clipboard write that aborts with `ClipboardFailed`, then the paste), and
/// move the caret only once the text has landed.
pub open spec fn spec_insert_step(req: InsertRequest, phase: InsertPhase, ev: InsertEvent) -> (
    InsertPhase,
    InsertAction,
) {
    match (phase, ev) {
        (InsertPhase::Start, InsertEvent::Begin) => (InsertPhase::Elevation, InsertAction::CheckElevation),
        (InsertPhase::Elevation, InsertEvent::Elevated(true)) => (
            InsertPhase::Finished,
            InsertAction::Finish(InsertResult::Elevated),
        ),
        (InsertPhase::Elevation, InsertEvent::Elevated(false)) => (InsertPhase::Focus, InsertAction::RestoreFocus),
        (InsertPhase::Focus, InsertEvent::Focused(false)) => (
            InsertPhase::Finished,
            InsertAction::Finish(InsertResult::FocusLost),
        ),
        (InsertPhase::Focus, InsertEvent::Focused(true)) => after_focus(req),
        (InsertPhase::Deleted, InsertEvent::Done) => place_text(req),
        (InsertPhase::Clipboard, InsertEvent::ClipboardSet(false)) => (
            InsertPhase::Finished,
            InsertAction::Finish(InsertResult::ClipboardFailed),
        ),
        (InsertPhase::Clipboard, InsertEvent::ClipboardSet(true)) => (InsertPhase::Pasted, InsertAction::PasteAndRestore),
        (InsertPhase::Typed, InsertEvent::Done) => after_landing(req),
        (InsertPhase::Pasted, InsertEvent::Done) => after_landing(req),
        (InsertPhase::Caret, InsertEvent::Done) => (
            InsertPhase::Finished,
            InsertAction::Finish(InsertResult::Success),
        ),
        _ => (phase, InsertAction::Wait),
    }
}

/// The next phase and action of an insertion, from its phase and what the
/// outside world reported (see [`spec_insert_step`]).
pub fn insert_step(req: &InsertRequest, phase: InsertPhase, ev: InsertEvent) -> (r: (InsertPhase, InsertAction))
    ensures
        r == spec_insert_step(*req, phase, ev),
{
    let placed = match req.method {
        InjectMethod::Type => (InsertPhase::Typed, InsertAction::TypeText),
        InjectMethod::Paste => (InsertPhase::Clipboard, InsertAction::WriteClipboard),
    };
    let focused = if req.delete_before > 0 {
        (InsertPhase::Deleted, InsertAction::SendBackspaces(req.delete_before))
    } else {
        placed
    };
    let landed = match req.cursor_from_end {
        Some(b) => if b > 0 {
            (InsertPhase::Caret, InsertAction::MoveCaretLeft(b))
        } else {
            (InsertPhase::Finished, InsertAction::Finish(InsertResult::Success))
        },
        None => (InsertPhase::Finished, InsertAction::Finish(InsertResult::Success)),
    };
    match (phase, ev) {
        (InsertPhase::Start, InsertEvent::Begin) => (InsertPhase::Elevation, InsertAction::CheckElevation),
        (InsertPhase::Elevation, InsertEvent::Elevated(true)) => (
            InsertPhase::Finished,
            InsertAction::Finish(InsertResult::Elevated),
        ),
        (InsertPhase::Elevation, InsertEvent::Elevated(false)) => (InsertPhase::Focus, InsertAction::RestoreFocus),
        (InsertPhase::Focus, InsertEvent::Focused(false)) => (
            InsertPhase::Finished,
            InsertAction::Finish(InsertResult::FocusLost),
        ),
        (InsertPhase::Focus, InsertEvent::Focused(true)) => focused,
        (InsertPhase::Deleted, InsertEvent::Done) => placed,
        (InsertPhase::Clipboard, InsertEvent::ClipboardSet(false)) => (
            InsertPhase::Finished,
            InsertAction::Finish(InsertResult::ClipboardFailed),
        ),
        (InsertPhase::Clipboard, InsertEvent::ClipboardSet(true)) => (InsertPhase::Pasted, InsertAction::PasteAndRestore),
        (InsertPhase::Typed, InsertEvent::Done) => landed,
        (InsertPhase::Pasted, InsertEvent::Done) => landed,
        (InsertPhase::Caret, InsertEvent::Done) => (
            InsertPhase::Finished,
            InsertAction::Finish(InsertResult::Success),
        ),
        _ => (phase, InsertAction::Wait),
    }
}

/// The phases reached only once the target has its focus back.
pub open spec fn focus_restored(p: InsertPhase) -> bool {
    p == InsertPhase::Deleted || p == InsertPhase::Typed || p == InsertPhase::Clipboard || p
        == InsertPhase::Pasted || p == InsertPhase::Caret
}

/// An action that sends input to the target or touches the clipboard.
pub open spec fn is_input(a: InsertAction) -> bool {
    match a {
        InsertAction::SendBackspaces(_) | InsertAction::TypeText | InsertAction::WriteClipboard
        | InsertAction::PasteAndRestore | InsertAction::MoveCaretLeft(_) => true,
        _ => false,
    }
}

/// Never into the wrong window: input is sent only once the target reported
/// its focus restored, and the steps that follow keep that; a target that
/// is elevated or cannot get focus back ends the insertion before any
/// input. The caret moves only after the text has landed, and a failed
/// clipboard write ends the insertion without pasting.
pub proof fn law_input_only_after_focus(req: InsertRequest, phase: InsertPhase, ev: InsertEvent)
    ensures
        ({
            let (next, act) = spec_insert_step(req, phase, ev);
            &&& is_input(act) ==> focus_restored(next) && (focus_restored(phase) || (phase
                == InsertPhase::Focus && ev == InsertEvent::Focused(true)))
            &&& focus_restored(next) ==> focus_restored(phase) || (phase == InsertPhase::Focus && ev
                == InsertEvent::Focused(true))
            &&& (phase == InsertPhase::Elevation && ev == InsertEvent::Elevated(true)) ==> act
                == InsertAction::Finish(InsertResult::Elevated)
            &&& (phase == InsertPhase::Focus && ev == InsertEvent::Focused(false)) ==> act
                == InsertAction::Finish(InsertResult::FocusLost)
            &&& act is MoveCaretLeft ==> (phase == InsertPhase::Typed || phase == InsertPhase::Pasted)
                && ev == InsertEvent::Done
            &&& act == InsertAction::PasteAndRestore ==> phase == InsertPhase::Clipboard && ev
                == InsertEvent::ClipboardSet(true)
        }),
{
}

// --- self-write log ------------------------------------------------------------

/// Most clipboard sequence numbers remembered at once.
pub const SELF_WRITE_CAP: usize = 64;

/// Clipboard sequence numbers of Carimbo's own recent writes. The clipboard
/// monitor consults it to ignore updates Carimbo caused, so pasting never
/// pollutes the clipboard history.
pub struct SelfWriteLog {
    seqs: HashSet<u32>,
}

/// The log after recording `seq`: added, unless that makes more than
/// `SELF_WRITE_CAP` entries, in which case only `seq` is kept.
pub open spec fn after_record(s: Set<u32>, seq: u32) -> Set<u32> {
    if s.insert(seq).len() > SELF_WRITE_CAP {
        set![seq]
    } else {
        s.insert(seq)
    }
}

impl SelfWriteLog {
    pub closed spec fn wf(&self) -> bool {
        &&& self.seqs@.finite()
        &&& self.seqs@.len() <= SELF_WRITE_CAP
    }

    pub closed spec fn view(&self) -> Set<u32> {
        self.seqs@
    }

    pub fn new() -> (r: SelfWriteLog)
        ensures
            r.wf(),
            r.view() == Set::<u32>::empty(),
    {
        SelfWriteLog { seqs: HashSet::new() }
    }

    /// Records a write Carimbo made, by its clipboard sequence number.
    pub fn record(&mut self, seq: u32)
        requires
            old(self).wf(),
        ensures
            final(self).wf(),
            final(self).view() == after_record(old(self).view(), seq),
    {
        broadcast use vstd::std_specs::hash::group_hash_axioms;

        self.seqs.insert(seq);
        if self.seqs.len() > SELF_WRITE_CAP {
            self.seqs.clear();
            self.seqs.insert(seq);
            assert(self.seqs@ =~= set![seq]);
        }
    }

    /// True if `seq` is a write Carimbo made recently; the entry is consumed,
    /// so it suppresses only one notification.
    pub fn was_recent(&mut self, seq: u32) -> (b: bool)
        requires
            old(self).wf(),
        ensures
            final(self).wf(),
            b == old(self).view().contains(seq),
            final(self).view() == old(self).view().remove(seq),
    {
        broadcast use vstd::std_specs::hash::group_hash_axioms;

        self.seqs.remove(&seq)
    }
}

/// A write that was just recorded is recognised once, and only once.
pub proof fn law_self_write_seen_once(s: Set<u32>, seq: u32)
    requires
        s.finite(),
    ensures
        after_record(s, seq).contains(seq),
        !after_record(s, seq).remove(seq).contains(seq),
{
}

} // verus!
