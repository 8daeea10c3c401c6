use flash_tmux::tmux::{
    calculate_popup_position, capture_pane, copy_mode_line_range, delete_buffers,
    get_pane_dimensions, get_tmux_pane_id, is_in_copy_mode, popup_command, read_pane_content_buffer, read_pick, read_result_buffer,
    scroll_and_height, tmux_output_trim, tmux_run_quiet, write_pane_content_buffer, write_result_buffer, Clipboard,
    CommandOutcome, ExitAction, ForwardKey, PaneDimensions, TmuxError, TrimMode,
};

fn ok(s: &str) -> Result<String, TmuxError> {
    Ok(s.to_string())
}

#[test]
fn exit_codes_round_trip() {
    for a in [ExitAction::Paste, ExitAction::PasteAndEnter, ExitAction::PasteAndSpace, ExitAction::CopyOnly] {
        assert_eq!(ExitAction::from_exit_code(Some(a.exit_code())), a);
    }
    assert_eq!(ExitAction::from_exit_code(Some(ExitAction::Cancel.exit_code())), ExitAction::CopyOnly);
    assert_eq!(ExitAction::from_exit_code(None), ExitAction::CopyOnly);
    assert_eq!(ExitAction::from_exit_code(Some(1)), ExitAction::CopyOnly);
    assert_eq!(ExitAction::Paste.exit_code(), 10);
    assert_eq!(ExitAction::PasteAndEnter.exit_code(), 11);
    assert_eq!(ExitAction::PasteAndSpace.exit_code(), 12);
}

#[test]
fn paste_and_forward_keys() {
    assert!(!ExitAction::Cancel.should_paste());
    assert!(!ExitAction::CopyOnly.should_paste());
    assert!(ExitAction::Paste.should_paste());
    assert_eq!(ExitAction::PasteAndEnter.forward_key(), Some(ForwardKey::Enter));
    assert_eq!(ExitAction::PasteAndSpace.forward_key(), Some(ForwardKey::Space));
    assert_eq!(ExitAction::Paste.forward_key(), None);
}

#[test]
fn popup_position() {
    let top = PaneDimensions { left: 3, top: 0, bottom: 20, width: 80, height: 21 };
    assert_eq!(calculate_popup_position(&top), (3, 0, 80, 21));
    let lower = PaneDimensions { left: 0, top: 22, bottom: 40, width: 80, height: 19 };
    assert_eq!(calculate_popup_position(&lower), (0, 41, 80, 19));
    let c = popup_command(&lower, "/bin/flash", "%1");
    assert_eq!(
        c.args,
        vec!["display-popup", "-E", "-B", "-x", "0", "-y", "41", "-w", "80", "-h", "19", "/bin/flash", "--interactive", "--pane-id", "%1"]
    );
    let neg = PaneDimensions { left: -5, top: 0, bottom: 0, width: 1234, height: -7 };
    let c = popup_command(&neg, "e", "%2");
    assert_eq!(c.args[4], "-5");
    assert_eq!(c.args[10], "-7");
    assert_eq!(c.args[8], "1234");
}

#[test]
fn output_trimming() {
    let out = CommandOutcome::Exited { success: true, stdout: b"  %3 \n".to_vec() };
    assert_eq!(tmux_output_trim(TrimMode::Trim, &out), Ok("%3".to_string()));
    assert_eq!(tmux_output_trim(TrimMode::Untrimmed, &out), Ok("  %3 \n".to_string()));
    let out = CommandOutcome::Exited { success: true, stdout: b"text \r\n\n".to_vec() };
    assert_eq!(tmux_output_trim(TrimMode::TrimNewlines, &out), Ok("text ".to_string()));
    let out = CommandOutcome::Exited { success: false, stdout: b"x".to_vec() };
    assert_eq!(tmux_output_trim(TrimMode::Trim, &out), Err(TmuxError::CommandFailed));
    assert_eq!(tmux_output_trim(TrimMode::Trim, &CommandOutcome::SpawnFailed), Err(TmuxError::Io));
    let out = CommandOutcome::Exited { success: true, stdout: vec![b'a', 0xff, b'b'] };
    assert_eq!(tmux_output_trim(TrimMode::Untrimmed, &out), Ok("a\u{fffd}b".to_string()));
}

#[test]
fn run_quiet_reports_success() {
    assert!(tmux_run_quiet(&CommandOutcome::Exited { success: true, stdout: vec![] }));
    assert!(!tmux_run_quiet(&CommandOutcome::Exited { success: false, stdout: vec![] }));
    assert!(!tmux_run_quiet(&CommandOutcome::SpawnFailed));
}

#[test]
fn pane_dimensions_parse() {
    let d = get_pane_dimensions(&ok("0 1 79 23 80 23")).expect("six numbers");
    assert_eq!((d.left, d.top, d.bottom, d.width, d.height), (0, 1, 23, 80, 23));
    assert!(get_pane_dimensions(&ok("0 1 79 23 80")).is_none());
    let d = get_pane_dimensions(&ok("0 x 1 79 23 80 23")).expect("skips non-numbers");
    assert_eq!((d.left, d.top, d.bottom), (0, 1, 23));
    assert!(get_pane_dimensions(&Err(TmuxError::CommandFailed)).is_none());
    assert!(get_pane_dimensions(&ok("0 1 79 23 80 99999999999")).is_none());
}

#[test]
fn copy_mode_range() {
    assert_eq!(scroll_and_height(&ok("5 20")), Some((5, 20)));
    assert_eq!(
        copy_mode_line_range(&ok("5 20 extra")),
        Some(("-5".to_string(), "14".to_string()))
    );
    assert_eq!(copy_mode_line_range(&ok("0 10")), Some(("0".to_string(), "9".to_string())));
    assert_eq!(copy_mode_line_range(&ok("+3 -1")), Some(("-3".to_string(), "-5".to_string())));
    assert_eq!(copy_mode_line_range(&ok("5")), None);
    assert_eq!(copy_mode_line_range(&ok("a 5")), None);
    assert_eq!(copy_mode_line_range(&ok("-")), None);
}

#[test]
fn copy_mode_detection() {
    assert!(is_in_copy_mode(&ok("copy-mode")));
    assert!(!is_in_copy_mode(&ok("copy-mode2")));
    assert!(!is_in_copy_mode(&ok("")));
    assert!(!is_in_copy_mode(&Err(TmuxError::Io)));
}

#[test]
fn command_arguments() {
    let q = get_tmux_pane_id();
    assert_eq!(q.command.args, vec!["display-message", "-p", "#{pane_id}"]);
    assert_eq!(q.trim, TrimMode::Trim);
    let q = capture_pane("%1", true, Some(("-5".to_string(), "14".to_string())));
    assert_eq!(q.command.args, vec!["capture-pane", "-p", "-J", "-S", "-5", "-E", "14", "-t", "%1"]);
    let q = capture_pane("%1", false, Some(("-5".to_string(), "14".to_string())));
    assert_eq!(q.command.args, vec!["capture-pane", "-p", "-J", "-t", "%1"]);
    let c = write_pane_content_buffer("%1", "hi");
    assert_eq!(c.args, vec!["set-buffer", "-b", "__flash_copy_pane_content_%1__", "--", "hi"]);
    let q = read_result_buffer("%1");
    assert_eq!(q.command.args, vec!["show-buffer", "-b", "__flash_copy_result_%1__"]);
    assert_eq!(q.trim, TrimMode::TrimNewlines);
    let (a, b) = delete_buffers("%2");
    assert_eq!(a.args, vec!["delete-buffer", "-b", "__flash_copy_result_%2__"]);
    assert_eq!(b.args, vec!["delete-buffer", "-b", "__flash_copy_pane_content_%2__"]);
}

#[test]
fn clipboard_plan() {
    assert_eq!(Clipboard::copy("x").args, vec!["set-buffer", "-w", "--", "x"]);
    assert!(Clipboard::copy_and_paste("x", "%1", true, None, false).is_empty());
    assert!(Clipboard::copy_and_paste("x", "%1", false, Some(ForwardKey::Enter), true).is_empty());
    let plan = Clipboard::copy_and_paste("x", "%1", true, Some(ForwardKey::Space), true);
    assert_eq!(plan.len(), 3);
    assert_eq!(plan[0].args, vec!["set-buffer", "-b", "flash-paste", "--", "x"]);
    assert_eq!(plan[1].args, vec!["paste-buffer", "-b", "flash-paste", "-t", "%1"]);
    assert_eq!(plan[2].args, vec!["send-keys", "-t", "%1", "Space"]);
}

#[test]
fn pick_read_back_after_popup() {
    let p = read_pick(&ok("foo"), Some(11), true).expect("text was picked");
    assert_eq!(p.text, "foo");
    assert_eq!(p.action, ExitAction::PasteAndEnter);
    assert!(p.leave_copy_mode);
    let p = read_pick(&ok("foo"), Some(0), true).expect("text was picked");
    assert_eq!(p.action, ExitAction::CopyOnly);
    assert!(!p.leave_copy_mode);
    let p = read_pick(&ok("foo"), Some(10), false).expect("text was picked");
    assert_eq!(p.action, ExitAction::Paste);
    assert!(!p.leave_copy_mode);
    assert!(read_pick(&ok(""), Some(10), true).is_none());
    assert!(read_pick(&Err(TmuxError::CommandFailed), Some(10), true).is_none());
}

#[test]
fn buffers_give_back_what_was_written() {
    use_buffer_round_trip("%4", "  line one\nline two  \n\n");
}

fn use_buffer_round_trip(pane: &str, text: &str) {
    let write = write_pane_content_buffer(pane, text);
    let read = read_pane_content_buffer(pane);
    assert_eq!(write.args[2], read.command.args[2]);
    assert_eq!(write.args[4], text);
    let shown = CommandOutcome::Exited { success: true, stdout: text.as_bytes().to_vec() };
    assert_eq!(tmux_output_trim(read.trim, &shown), Ok(text.to_string()));

    let write = write_result_buffer(pane, text);
    let read = read_result_buffer(pane);
    assert_eq!(write.args[2], read.command.args[2]);
    assert_eq!(tmux_output_trim(read.trim, &shown), Ok("  line one\nline two  ".to_string()));
}
