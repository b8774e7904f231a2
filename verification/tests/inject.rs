use carimbo::inject::InsertAction::{
    CheckElevation, Finish, MoveCaretLeft, PasteAndRestore, RestoreFocus, SendBackspaces, TypeText,
    Wait, WriteClipboard,
};
use carimbo::inject::InsertEvent::{Begin, ClipboardSet, Done, Elevated, Focused};
use carimbo::inject::{
    backspace_strokes, caret_moves, insert_step, InjectMethod, InsertAction, InsertEvent,
    InsertPhase, InsertRequest, is_backspace, is_buffer_resetting_key, key_action,
    left_arrow_strokes, paste_strokes, stroke_batches, unicode_strokes, InsertResult, KeyAction,
    SelfWriteLog, SELF_WRITE_CAP, TYPE_BATCH, VK_BACK, VK_CONTROL, VK_LEFT, VK_V,
};

#[test]
fn resetting_keys_and_backspace() {
    for vk in [0x0D, 0x09, 0x1B, 0x25, 0x26, 0x27, 0x28, 0x24, 0x23, 0x21, 0x22, 0x2E] {
        assert!(is_buffer_resetting_key(vk), "{vk:#x}");
    }
    assert!(!is_buffer_resetting_key(0x41));
    assert!(!is_buffer_resetting_key(0x08));
    // The key code is read as a 16-bit virtual key.
    assert!(is_buffer_resetting_key(0x1_000D));
    assert!(is_backspace(0x08));
    assert!(!is_backspace(0x09));
}

#[test]
fn key_actions() {
    assert_eq!(key_action(0x08, Some('x')), KeyAction::Backspace);
    assert_eq!(key_action(0x0D, Some('\r')), KeyAction::Reset);
    assert_eq!(key_action(0x41, Some('a')), KeyAction::Type('a'));
    assert_eq!(key_action(0x10, None), KeyAction::Ignore);
}

#[test]
fn tap_sequences() {
    let b = backspace_strokes(2);
    assert_eq!(b.len(), 4);
    assert!(b.iter().all(|k| k.vk == VK_BACK && !k.unicode));
    assert_eq!(b.iter().map(|k| k.key_up).collect::<Vec<_>>(), vec![false, true, false, true]);
    assert!(left_arrow_strokes(0).is_empty());
    assert!(left_arrow_strokes(3).iter().all(|k| k.vk == VK_LEFT));
    let p = paste_strokes();
    let seq: Vec<(u16, bool)> = p.iter().map(|k| (k.vk, k.key_up)).collect();
    assert_eq!(seq, vec![(VK_CONTROL, false), (VK_V, false), (VK_V, true), (VK_CONTROL, true)]);
}

#[test]
fn unicode_typing_uses_utf16_units() {
    let s = unicode_strokes("a😀");
    let units: Vec<u16> = "a😀".encode_utf16().collect();
    assert_eq!(s.len(), 2 * units.len());
    for (i, k) in s.iter().enumerate() {
        assert!(k.unicode);
        assert_eq!(k.scan, units[i / 2]);
        assert_eq!(k.key_up, i % 2 == 1);
    }
}

#[test]
fn typing_is_sent_in_batches() {
    let s = unicode_strokes(&"x".repeat(45));
    assert_eq!(s.len(), 90);
    let b = stroke_batches(&s);
    assert_eq!(b.iter().map(|x| x.len()).collect::<Vec<_>>(), vec![TYPE_BATCH, TYPE_BATCH, 10]);
    let flat: Vec<_> = b.concat();
    assert_eq!(flat, s);
    assert!(stroke_batches(&Vec::new()).is_empty());
}

#[test]
fn caret_moves_only_after_success() {
    assert_eq!(caret_moves(InsertResult::Success, Some(3)), 3);
    assert_eq!(caret_moves(InsertResult::Success, None), 0);
    assert_eq!(caret_moves(InsertResult::FocusLost, Some(3)), 0);
    assert_eq!(InsertResult::Success.as_str(), "ok");
    assert_eq!(InsertResult::FocusLost.as_str(), "focus-lost");
    assert_eq!(InsertResult::Elevated.as_str(), "elevated");
    assert_eq!(InsertResult::ClipboardFailed.as_str(), "clipboard-failed");
}

#[test]
fn self_writes_are_recognised_once() {
    let mut log = SelfWriteLog::new();
    log.record(7);
    log.record(8);
    assert!(log.was_recent(7));
    assert!(!log.was_recent(7));
    assert!(log.was_recent(8));
    assert!(!log.was_recent(9));
}

#[test]
fn self_write_log_is_bounded() {
    let mut log = SelfWriteLog::new();
    for s in 0..SELF_WRITE_CAP as u32 {
        log.record(s);
    }
    // Recording the same number again keeps everything.
    log.record(0);
    assert!(log.was_recent(SELF_WRITE_CAP as u32 - 1));
    log.record(SELF_WRITE_CAP as u32 - 1);
    // One more than the cap: only the newest is kept.
    log.record(1000);
    assert!(log.was_recent(1000));
    assert!(!log.was_recent(0));
}

fn run(req: InsertRequest, events: &[InsertEvent]) -> Vec<InsertAction> {
    let mut phase = InsertPhase::Start;
    let mut out = Vec::new();
    for ev in events {
        let (next, act) = insert_step(&req, phase, *ev);
        phase = next;
        out.push(act);
    }
    out
}

#[test]
fn paste_insertion_sequence() {
    let req = InsertRequest { method: InjectMethod::Paste, delete_before: 4, cursor_from_end: Some(2) };
    let acts = run(
        req,
        &[Begin, Elevated(false), Focused(true), Done, ClipboardSet(true), Done, Done],
    );
    assert_eq!(
        acts,
        vec![
            CheckElevation,
            RestoreFocus,
            SendBackspaces(4),
            WriteClipboard,
            PasteAndRestore,
            MoveCaretLeft(2),
            Finish(InsertResult::Success)
        ]
    );
}

#[test]
fn insertion_refusals_come_before_any_input() {
    let req = InsertRequest { method: InjectMethod::Type, delete_before: 0, cursor_from_end: None };
    assert_eq!(run(req, &[Begin, Elevated(true)]), vec![CheckElevation, Finish(InsertResult::Elevated)]);
    assert_eq!(
        run(req, &[Begin, Elevated(false), Focused(false)]),
        vec![CheckElevation, RestoreFocus, Finish(InsertResult::FocusLost)]
    );
    assert_eq!(
        run(req, &[Begin, Elevated(false), Focused(true), Done]),
        vec![CheckElevation, RestoreFocus, TypeText, Finish(InsertResult::Success)]
    );
    let paste = InsertRequest { method: InjectMethod::Paste, delete_before: 0, cursor_from_end: Some(3) };
    assert_eq!(
        run(paste, &[Begin, Elevated(false), Focused(true), ClipboardSet(false)]),
        vec![CheckElevation, RestoreFocus, WriteClipboard, Finish(InsertResult::ClipboardFailed)]
    );
    // An event that answers nothing waits.
    assert_eq!(run(req, &[Begin, Done]), vec![CheckElevation, Wait]);
}
