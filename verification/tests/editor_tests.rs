use rusk::editor::{Key, KeyOutcome, LineEditor, TextTone, Validator};

fn ghost_editor(prefill: &str) -> LineEditor {
    LineEditor::new(prefill, true, true, Validator::NoCheck, true)
}

#[test]
fn test_editor_ghost_type_jump_accept() {
    // prefill "hello world", ghost active
    let mut ed = ghost_editor("hello world");
    assert!(ed.ghost_active);
    assert_eq!(ed.buffer, Vec::<char>::new());
    assert_eq!(ed.cursor, 0);

    // press x: the ghost is dismissed and the buffer becomes "x"
    let r = ed.apply_key(Key::Char('x'));
    assert_eq!(r, KeyOutcome::Pending);
    assert_eq!(ed.buffer, vec!['x']);
    assert_eq!(ed.cursor, 1);
    assert!(!ed.ghost_active);

    // Ctrl+Left jumps to the start
    let r = ed.apply_key(Key::CtrlLeft);
    assert_eq!(r, KeyOutcome::Pending);
    assert_eq!(ed.cursor, 0);

    // Tab accepts the prefill: buffer becomes "hello world", cursor at end
    let r = ed.apply_key(Key::Tab);
    assert_eq!(r, KeyOutcome::Pending);
    assert_eq!(ed.buffer.iter().collect::<String>(), "hello world");
    assert_eq!(ed.cursor, 11);
    assert!(!ed.ghost_active);
}

#[test]
fn test_editor_prefill_modes() {
    // without ghost mode the prefill loads into the buffer
    let ed = LineEditor::new("abc", false, false, Validator::NoCheck, false);
    assert_eq!(ed.buffer, vec!['a', 'b', 'c']);
    assert_eq!(ed.cursor, 3);
    assert!(!ed.ghost_active);

    let ed = LineEditor::new("abc", true, false, Validator::NoCheck, false);
    assert_eq!(ed.cursor, 0);

    // the prefill is cut to its first line
    let ed = LineEditor::new("one\ntwo", false, false, Validator::NoCheck, false);
    assert_eq!(ed.buffer.iter().collect::<String>(), "one");

    let ed = LineEditor::new("one\r\ntwo", false, false, Validator::NoCheck, false);
    assert_eq!(ed.buffer.iter().collect::<String>(), "one");

    // an empty prefill keeps the ghost off
    let ed = ghost_editor("");
    assert!(!ed.ghost_active);
}

#[test]
fn test_editor_motion_and_deletion() {
    let mut ed = LineEditor::new("hello world", false, false, Validator::NoCheck, false);
    assert_eq!(ed.cursor, 11);

    ed.apply_key(Key::Home);
    assert_eq!(ed.cursor, 0);
    ed.apply_key(Key::End);
    assert_eq!(ed.cursor, 11);
    ed.apply_key(Key::Left);
    assert_eq!(ed.cursor, 10);
    ed.apply_key(Key::Right);
    assert_eq!(ed.cursor, 11);

    // Backspace removes the character left of the cursor
    ed.apply_key(Key::Backspace);
    assert_eq!(ed.buffer.iter().collect::<String>(), "hello worl");
    assert_eq!(ed.cursor, 10);

    // Delete at the end does nothing
    ed.apply_key(Key::Delete);
    assert_eq!(ed.buffer.iter().collect::<String>(), "hello worl");

    // Delete at the start removes the first character
    ed.apply_key(Key::Home);
    ed.apply_key(Key::Delete);
    assert_eq!(ed.buffer.iter().collect::<String>(), "ello worl");
    assert_eq!(ed.cursor, 0);

    // Ctrl+W from the end skips the trailing word and the separators,
    // then lands at the start of the word so reached
    ed.apply_key(Key::End);
    ed.apply_key(Key::CtrlW);
    assert_eq!(ed.buffer.iter().collect::<String>(), "");
}

#[test]
fn test_editor_insert_in_middle() {
    let mut ed = LineEditor::new("ac", false, false, Validator::NoCheck, false);
    ed.apply_key(Key::Left);
    ed.apply_key(Key::Char('b'));
    assert_eq!(ed.buffer.iter().collect::<String>(), "abc");
    assert_eq!(ed.cursor, 2);
}

#[test]
fn test_editor_backspace_keeps_ghost() {
    let mut ed = ghost_editor("keep me");
    let r = ed.apply_key(Key::Backspace);
    assert_eq!(r, KeyOutcome::Pending);
    assert!(ed.ghost_active);
    assert!(ed.buffer.is_empty());
}

#[test]
fn test_editor_submit_and_cancel() {
    let mut ed = LineEditor::new("done", false, false, Validator::NoCheck, false);
    let r = ed.apply_key(Key::Enter);
    assert_eq!(r, KeyOutcome::Submit("done".to_string()));

    // Esc skips when skipping is allowed, else ends the run quietly
    let mut ed = LineEditor::new("x", false, false, Validator::NoCheck, true);
    assert_eq!(ed.apply_key(Key::Esc), KeyOutcome::Skip);
    let mut ed = LineEditor::new("x", false, false, Validator::NoCheck, false);
    assert_eq!(ed.apply_key(Key::Esc), KeyOutcome::ExitNothingChanged);

    let mut ed = LineEditor::new("x", false, false, Validator::NoCheck, false);
    assert_eq!(ed.apply_key(Key::CtrlC), KeyOutcome::ExitInterrupt);
    assert_eq!(ed.apply_key(Key::CtrlD), KeyOutcome::ExitEof);
}

#[test]
fn test_editor_date_validator_bell() {
    // an invalid non-blank date is refused at Enter with a bell
    let mut ed = LineEditor::new("", false, false, Validator::DateCheck, false);
    for c in "30-02-2025".chars() {
        ed.apply_key(Key::Char(c));
    }
    assert_eq!(ed.apply_key(Key::Enter), KeyOutcome::Bell);

    // a valid date goes through
    let mut ed = LineEditor::new("", false, false, Validator::DateCheck, false);
    for c in "29-02-2024".chars() {
        ed.apply_key(Key::Char(c));
    }
    assert_eq!(ed.apply_key(Key::Enter), KeyOutcome::Submit("29-02-2024".to_string()));

    // a blank buffer is always accepted
    let mut ed = LineEditor::new("", false, false, Validator::DateCheck, false);
    ed.apply_key(Key::Char(' '));
    assert_eq!(ed.apply_key(Key::Enter), KeyOutcome::Submit(" ".to_string()));
}

#[test]
fn test_editor_render_plan() {
    let mut ed = ghost_editor("hello");
    let plan = ed.render(2);
    assert_eq!(plan.text, "");
    assert_eq!(plan.ghost_text, Some("hello".to_string()));
    assert_eq!(plan.cursor_col, 2);
    assert_eq!(plan.clear_len, 2 + 5 + 16);
    assert_eq!(plan.tone, TextTone::Plain);

    ed.apply_key(Key::Char('x'));
    let plan = ed.render(2);
    assert_eq!(plan.text, "x");
    assert_eq!(plan.ghost_text, None);
    assert_eq!(plan.cursor_col, 3);

    // with the date validator the tone tracks validity
    let mut ed = LineEditor::new("", false, false, Validator::DateCheck, false);
    for c in "15-01-2025".chars() {
        ed.apply_key(Key::Char(c));
    }
    assert_eq!(ed.render(0).tone, TextTone::Valid);
    ed.apply_key(Key::Char('x'));
    assert_eq!(ed.render(0).tone, TextTone::Invalid);
}

#[test]
fn test_editor_ghost_render_mid_cursor() {
    let mut ed = ghost_editor("hello world");
    // accept the ghost, then walk back: the suggestion is gone for good
    ed.apply_key(Key::Tab);
    ed.apply_key(Key::Left);
    assert_eq!(ed.cursor, 10);
    let plan = ed.render(0);
    assert_eq!(plan.ghost_text, None);
}
