use flash_tmux::config::Config;
use flash_tmux::search::SearchMatch;
use flash_tmux::tmux::ExitAction;
use flash_tmux::ui::{render_line_with_matches, InteractiveUI, KeyInput, UiEvent, UiStep};

fn cfg() -> Config {
    Config::defaults()
}

/// The expected string for base-styled text (no matches).
fn base(text: &str, config: &Config) -> String {
    format!("{}{}{}", config.style_sequences.base, text, config.style_sequences.reset)
}

/// Text in the highlight style with the surrounding reset/base.
fn highlight(text: &str, config: &Config) -> String {
    format!(
        "{}{}{}{}",
        config.style_sequences.reset,
        config.highlight_style.apply(text),
        config.style_sequences.reset,
        config.style_sequences.base,
    )
}

/// Text in the current-match style with the surrounding reset/base.
fn current_style(text: &str, config: &Config) -> String {
    format!(
        "{}{}{}{}",
        config.style_sequences.reset,
        config.current_style.apply(text),
        config.style_sequences.reset,
        config.style_sequences.base,
    )
}

/// A label character in the label style with the surrounding reset/base.
fn label(ch: char, config: &Config) -> String {
    format!(
        "{}{}{}{}",
        config.style_sequences.reset,
        config.label_style.apply(&ch.to_string()),
        config.style_sequences.reset,
        config.style_sequences.base,
    )
}

fn make_match(
    text: &str,
    line: usize,
    col: usize,
    match_start: usize,
    match_end: usize,
    lbl: Option<char>,
) -> SearchMatch {
    SearchMatch { text: text.to_string(), line, col, label: lbl, match_start, match_end }
}

fn key(code: KeyInput) -> UiEvent {
    UiEvent::Key { code, ctrl: false, release: false }
}

fn ctrl(c: char) -> UiEvent {
    UiEvent::Key { code: KeyInput::Char(c), ctrl: true, release: false }
}

fn type_text(ui: &mut InteractiveUI, text: &str) {
    for c in text.chars() {
        let step = ui.handle_event(key(KeyInput::Char(c)), 100);
        assert!(matches!(step, UiStep::Redraw));
    }
}

fn finished(step: UiStep) -> (String, ExitAction) {
    match step {
        UiStep::Finish { text, action } => (text, action),
        _ => panic!("the picker did not finish"),
    }
}

// --- render_line_with_matches ---

#[test]
fn empty_line_no_matches() {
    let c = cfg();
    let result = render_line_with_matches("", &[], &c, None);
    let expected = format!("{}{}", c.style_sequences.base, c.style_sequences.reset);
    assert_eq!(result, expected);
}

#[test]
fn non_empty_line_no_matches() {
    let c = cfg();
    let result = render_line_with_matches("hello world", &[], &c, None);
    assert_eq!(result, base("hello world", &c));
}

#[test]
fn single_highlight_match() {
    let c = cfg();
    let m = make_match("foo", 0, 0, 0, 3, None);
    let matches = vec![&m];
    let result = render_line_with_matches("foo bar", &matches, &c, None);

    let expected = format!(
        "{}{}{}{}",
        c.style_sequences.base,
        highlight("foo", &c),
        " bar",
        c.style_sequences.reset,
    );
    assert_eq!(result, expected);
}

#[test]
fn single_current_match() {
    let c = cfg();
    let m = make_match("foo", 0, 0, 0, 3, None);
    let matches = vec![&m];
    let current = Some((0, 0, 3));
    let result = render_line_with_matches("foo bar", &matches, &c, current);

    let expected = format!(
        "{}{}{}{}",
        c.style_sequences.base,
        current_style("foo", &c),
        " bar",
        c.style_sequences.reset,
    );
    assert_eq!(result, expected);
}

#[test]
fn label_inserted_after_match() {
    let c = cfg();
    let m = make_match("foo", 0, 0, 0, 3, Some('a'));
    let matches = vec![&m];
    let result = render_line_with_matches("foo bar", &matches, &c, None);

    let expected = format!(
        "{}{}{}{}{}",
        c.style_sequences.base,
        highlight("foo", &c),
        label('a', &c),
        "bar",
        c.style_sequences.reset,
    );
    assert_eq!(result, expected);
}

#[test]
fn label_at_end_of_line() {
    let c = cfg();
    let m = make_match("foo", 0, 0, 0, 3, Some('a'));
    let matches = vec![&m];
    let result = render_line_with_matches("foo", &matches, &c, None);

    let expected = format!(
        "{}{}{}{}",
        c.style_sequences.base,
        highlight("foo", &c),
        label('a', &c),
        c.style_sequences.reset,
    );
    assert_eq!(result, expected);
}

#[test]
fn match_in_middle_of_line() {
    let c = cfg();
    let m = make_match("world", 0, 6, 0, 5, None);
    let matches = vec![&m];
    let result = render_line_with_matches("hello world end", &matches, &c, None);

    let expected = format!(
        "{}{}{}{}{}",
        c.style_sequences.base,
        "hello ",
        highlight("world", &c),
        " end",
        c.style_sequences.reset,
    );
    assert_eq!(result, expected);
}

#[test]
fn multiple_matches_same_line() {
    let c = cfg();
    let m1 = make_match("foo", 0, 0, 0, 3, Some('a'));
    let m2 = make_match("foo", 0, 8, 0, 3, Some('s'));
    let matches = vec![&m1, &m2];
    let result = render_line_with_matches("foo bar foo", &matches, &c, None);

    let expected = format!(
        "{}{}{}{}{}{}{}",
        c.style_sequences.base,
        highlight("foo", &c),
        label('a', &c),
        "bar ",
        highlight("foo", &c),
        label('s', &c),
        c.style_sequences.reset,
    );
    assert_eq!(result, expected);
}

#[test]
fn one_current_one_highlight() {
    let c = cfg();
    let m1 = make_match("foo", 0, 0, 0, 3, Some('a'));
    let m2 = make_match("foo", 0, 8, 0, 3, Some('s'));
    let matches = vec![&m1, &m2];
    let current = Some((0, 0, 3));
    let result = render_line_with_matches("foo bar foo", &matches, &c, current);

    let expected = format!(
        "{}{}{}{}{}{}{}",
        c.style_sequences.base,
        current_style("foo", &c),
        label('a', &c),
        "bar ",
        highlight("foo", &c),
        label('s', &c),
        c.style_sequences.reset,
    );
    assert_eq!(result, expected);
}

#[test]
fn match_without_label() {
    let c = cfg();
    let m = make_match("bar", 0, 4, 0, 3, None);
    let matches = vec![&m];
    let result = render_line_with_matches("foo bar baz", &matches, &c, None);

    let expected = format!(
        "{}{}{}{}{}",
        c.style_sequences.base,
        "foo ",
        highlight("bar", &c),
        " baz",
        c.style_sequences.reset,
    );
    assert_eq!(result, expected);
}

#[test]
fn partial_match_within_token() {
    let c = cfg();
    let m = make_match("foobar", 0, 0, 1, 3, Some('a'));
    let matches = vec![&m];
    let result = render_line_with_matches("foobar", &matches, &c, None);

    let expected = format!(
        "{}{}{}{}{}{}",
        c.style_sequences.base,
        "f",
        highlight("oo", &c),
        label('a', &c),
        "ar",
        c.style_sequences.reset,
    );
    assert_eq!(result, expected);
}

#[test]
fn current_priority_over_highlight() {
    let c = cfg();
    let m1 = make_match("abcabc", 0, 0, 0, 3, None);
    let m2 = make_match("abcabc", 0, 0, 1, 3, None);
    let matches = vec![&m1, &m2];
    let current = Some((0, 1, 3));
    let result = render_line_with_matches("abcabc", &matches, &c, current);

    let expected = format!(
        "{}{}{}{}{}",
        c.style_sequences.base,
        highlight("a", &c),
        current_style("bc", &c),
        "abc",
        c.style_sequences.reset,
    );
    assert_eq!(result, expected);
}

#[test]
fn duplicate_label_positions_deduplicated() {
    let c = cfg();
    let m1 = make_match("foo", 0, 0, 0, 3, Some('a'));
    let m2 = make_match("foo", 0, 0, 0, 3, Some('s'));
    let matches = vec![&m1, &m2];
    let result = render_line_with_matches("foo bar", &matches, &c, None);

    let expected = format!(
        "{}{}{}{}{}",
        c.style_sequences.base,
        highlight("foo", &c),
        label('a', &c),
        "bar",
        c.style_sequences.reset,
    );
    assert_eq!(result, expected);
}

// --- build_search_bar_output ---

#[test]
fn search_bar_empty_query() {
    let c = cfg();
    let ui = InteractiveUI::new(String::new(), "", c.clone());

    let result = ui.build_search_bar_output();
    let expected = format!(
        "{} {}",
        c.prompt_style.apply(&c.prompt_indicator),
        c.base_style.apply(&c.prompt_placeholder_text),
    );
    assert_eq!(result, expected);
}

#[test]
fn search_bar_with_query() {
    let c = cfg();
    let mut ui = InteractiveUI::new(String::new(), "", c.clone());
    type_text(&mut ui, "hello");

    let result = ui.build_search_bar_output();
    let expected = format!("{} hello", c.prompt_style.apply(&c.prompt_indicator),);
    assert_eq!(result, expected);
}

// --- more rendering ---

#[test]
fn label_past_end_of_line_is_dropped() {
    let c = cfg();
    let m = make_match("foo", 0, 0, 0, 3, Some('a'));
    let matches = vec![&m];
    let result = render_line_with_matches("fo", &matches, &c, None);
    let expected = format!("{}{}{}", c.style_sequences.base, highlight("fo", &c), c.style_sequences.reset);
    assert_eq!(result, expected);
}

#[test]
fn multibyte_line_keeps_byte_offsets() {
    let c = cfg();
    // "é" is two bytes, so "ab" starts at byte 3.
    let m = make_match("ab", 0, 3, 0, 2, Some('k'));
    let matches = vec![&m];
    let result = render_line_with_matches("é ab c", &matches, &c, None);
    let expected = format!(
        "{}{}{}{}{}{}",
        c.style_sequences.base,
        "é ",
        highlight("ab", &c),
        label('k', &c),
        "c",
        c.style_sequences.reset,
    );
    assert_eq!(result, expected);
}

// --- the picker's key handling ---

#[test]
fn escape_cancels_with_empty_text() {
    let mut ui = InteractiveUI::new("%1".to_string(), "foo bar", cfg());
    let (text, action) = finished(ui.handle_event(key(KeyInput::Esc), 10));
    assert_eq!(text, "");
    assert_eq!(action, ExitAction::Cancel);
}

#[test]
fn ctrl_c_and_ctrl_d_cancel() {
    let mut ui = InteractiveUI::new("%1".to_string(), "foo bar", cfg());
    let (_, action) = finished(ui.handle_event(ctrl('c'), 10));
    assert_eq!(action, ExitAction::Cancel);
    let (_, action) = finished(ui.handle_event(ctrl('d'), 10));
    assert_eq!(action, ExitAction::Cancel);
}

#[test]
fn releases_and_other_events_are_ignored() {
    let mut ui = InteractiveUI::new("%1".to_string(), "foo bar", cfg());
    let release = UiEvent::Key { code: KeyInput::Char('f'), ctrl: false, release: true };
    assert!(matches!(ui.handle_event(release, 10), UiStep::Ignore));
    assert!(matches!(ui.handle_event(UiEvent::Other, 10), UiStep::Ignore));
    assert!(matches!(ui.handle_event(UiEvent::Resize, 10), UiStep::Redraw));
    assert_eq!(ui.cursor_column(), Some(2));
}

#[test]
fn enter_picks_first_visible_match() {
    let mut ui = InteractiveUI::new("%1".to_string(), "foo bar\nbaz foo", cfg());
    type_text(&mut ui, "foo");
    let (text, action) = finished(ui.handle_event(key(KeyInput::Enter), 10));
    assert_eq!(text, "foo");
    assert_eq!(action, ExitAction::PasteAndEnter);
}

#[test]
fn space_and_tab_pick_with_their_actions() {
    let mut ui = InteractiveUI::new("%1".to_string(), "(foo) bar", cfg());
    type_text(&mut ui, "fo");
    let (text, action) = finished(ui.handle_event(key(KeyInput::Tab), 10));
    assert_eq!(text, "foo");
    assert_eq!(action, ExitAction::Paste);
    let (_, action) = finished(ui.handle_event(key(KeyInput::Char(' ')), 10));
    assert_eq!(action, ExitAction::PasteAndSpace);
}

#[test]
fn enter_without_visible_match_is_ignored() {
    let mut ui = InteractiveUI::new("%1".to_string(), "one\ntwo\nfoo", cfg());
    type_text(&mut ui, "foo");
    // Only the first two lines are on screen.
    assert!(matches!(ui.handle_event(key(KeyInput::Enter), 2), UiStep::Ignore));
}

#[test]
fn label_key_picks_its_match() {
    let mut ui = InteractiveUI::new("%1".to_string(), "bar\nbaz", cfg());
    type_text(&mut ui, "ba");
    // "baz" comes first (bottom line) and gets 'j'; "bar" gets 'k'.
    let (text, action) = finished(ui.handle_event(key(KeyInput::Char('j')), 10));
    assert_eq!(text, "baz");
    assert_eq!(action, ExitAction::Paste);
    let (text, action) = finished(ui.handle_event(key(KeyInput::Char('K')), 10));
    assert_eq!(text, "bar");
    assert_eq!(action, ExitAction::CopyOnly);
}

#[test]
fn label_keys_type_while_query_is_empty() {
    let mut ui = InteractiveUI::new("%1".to_string(), "jar", cfg());
    type_text(&mut ui, "j");
    assert_eq!(ui.build_search_bar_output(), format!("{} j", cfg().prompt_style.apply("\u{276f}")));
}

#[test]
fn cursor_moves_and_editing() {
    let c = cfg();
    let prompt = c.prompt_style.apply(&c.prompt_indicator);
    let mut ui = InteractiveUI::new("%1".to_string(), "", c.clone());
    type_text(&mut ui, "foo.bar");
    assert_eq!(ui.cursor_column(), Some(9));
    // With no match on screen a space picks nothing and is not typed either.
    assert!(matches!(ui.handle_event(key(KeyInput::Char(' ')), 10), UiStep::Ignore));
    assert!(matches!(ui.handle_event(key(KeyInput::Right), 10), UiStep::Ignore));
    assert!(matches!(ui.handle_event(key(KeyInput::Left), 10), UiStep::Redraw));
    assert_eq!(ui.cursor_column(), Some(8));
    assert!(matches!(ui.handle_event(key(KeyInput::Home), 10), UiStep::Redraw));
    assert_eq!(ui.cursor_column(), Some(2));
    assert!(matches!(ui.handle_event(key(KeyInput::Backspace), 10), UiStep::Ignore));
    assert!(matches!(ui.handle_event(key(KeyInput::Left), 10), UiStep::Redraw));
    assert_eq!(ui.cursor_column(), Some(2));
    assert!(matches!(ui.handle_event(ctrl('e'), 10), UiStep::Redraw));
    assert_eq!(ui.cursor_column(), Some(9));
    assert!(matches!(ui.handle_event(key(KeyInput::Backspace), 10), UiStep::Redraw));
    assert_eq!(ui.build_search_bar_output(), format!("{} foo.ba", prompt));
    assert!(matches!(ui.handle_event(ctrl('w'), 10), UiStep::Redraw));
    assert_eq!(ui.build_search_bar_output(), format!("{} foo", prompt));
    assert_eq!(ui.cursor_column(), Some(5));
    assert!(matches!(ui.handle_event(ctrl('a'), 10), UiStep::Redraw));
    type_text(&mut ui, "x");
    assert_eq!(ui.build_search_bar_output(), format!("{} xfoo", prompt));
    assert_eq!(ui.cursor_column(), Some(3));
    assert!(matches!(ui.handle_event(ctrl('u'), 10), UiStep::Redraw));
    assert_eq!(ui.cursor_column(), Some(2));
    assert_eq!(ui.build_search_bar_output(), format!("{} {}", prompt, c.base_style.apply("search...")));
}

#[test]
fn non_graphic_keys_are_ignored() {
    let mut ui = InteractiveUI::new("%1".to_string(), "abc", cfg());
    assert!(matches!(ui.handle_event(key(KeyInput::Char('\u{e9}')), 10), UiStep::Ignore));
    assert!(matches!(ui.handle_event(key(KeyInput::Other), 10), UiStep::Ignore));
    assert!(matches!(ui.handle_event(ctrl('z'), 10), UiStep::Ignore));
}

#[test]
fn render_pane_joins_visible_lines() {
    let c = cfg();
    let ui = InteractiveUI::new("%1".to_string(), "foo bar\nbaz\nqux", c.clone());
    let all = ui.render_pane(10);
    assert_eq!(all, format!("{}\r\n{}\r\n{}", base("foo bar", &c), base("baz", &c), base("qux", &c)));
    let two = ui.render_pane(2);
    assert_eq!(two, format!("{}\r\n{}", base("foo bar", &c), base("baz", &c)));
    assert_eq!(ui.render_pane(0), "");
}

#[test]
fn render_pane_marks_first_visible_match_current() {
    let c = cfg();
    let mut ui = InteractiveUI::new("%1".to_string(), "ab\nab", c.clone());
    type_text(&mut ui, "ab");
    let s = ui.render_pane(10);
    // The bottom match is the first one and gets label 'j'; the top one 'k'.
    let top = format!("{}{}{}{}", c.style_sequences.base, highlight("ab", &c), label('k', &c), c.style_sequences.reset);
    let bottom = format!("{}{}{}{}", c.style_sequences.base, current_style("ab", &c), label('j', &c), c.style_sequences.reset);
    assert_eq!(s, format!("{}\r\n{}", top, bottom));
    // With one row on screen the top line's match is the current one.
    let one = ui.render_pane(1);
    let top_current =
        format!("{}{}{}{}", c.style_sequences.base, current_style("ab", &c), label('k', &c), c.style_sequences.reset);
    assert_eq!(one, top_current);
}

// --- configuration ---

#[test]
fn default_configuration_texts() {
    let c = cfg();
    assert_eq!(c.prompt_placeholder_text, "search...");
    assert_eq!(c.prompt_indicator, "\u{276f}");
    assert_eq!(c.label_characters, "jklhgfdsauiopytrewqnmvbcxz");
    assert_eq!(c.trimmable_chars, "()[]{}\"'`,.:;");
    assert_eq!(c.style_sequences.reset, "\u{1b}[0m");
    assert_eq!(c.style_sequences.base, "\u{1b}[38;2;115;121;148m");
}

#[test]
fn default_configuration_styles() {
    let c = cfg();
    assert_eq!(c.highlight_style.apply("x"), "\u{1b}[38;2;186;187;242m\u{1b}[1mx\u{1b}[0m");
    assert_eq!(c.prompt_style.apply("x"), "\u{1b}[38;5;13m\u{1b}[1mx\u{1b}[0m");
    assert_eq!(c.base_style.apply("x"), "\u{1b}[38;2;115;121;148mx\u{1b}[39m");
}

#[test]
fn screen_layout() {
    assert_eq!(InteractiveUI::visible_line_limit(Some(24)), 23);
    assert_eq!(InteractiveUI::visible_line_limit(Some(0)), 0);
    assert_eq!(InteractiveUI::visible_line_limit(None), 39);
    assert_eq!(InteractiveUI::prompt_row(23), 23);
    assert_eq!(InteractiveUI::prompt_row(70000), u16::MAX);
    assert_eq!(InteractiveUI::prompt_row(usize::MAX), u16::MAX);
}

#[test]
fn edited_query_shows_a_fresh_search() {
    let content = "foo bar\nfob food";
    let mut edited = InteractiveUI::new("%1".to_string(), content, cfg());
    type_text(&mut edited, "bfo");
    assert!(matches!(edited.handle_event(key(KeyInput::Home), 10), UiStep::Redraw));
    assert!(matches!(edited.handle_event(key(KeyInput::Right), 10), UiStep::Redraw));
    assert!(matches!(edited.handle_event(key(KeyInput::Backspace), 10), UiStep::Redraw));
    let mut fresh = InteractiveUI::new("%1".to_string(), content, cfg());
    type_text(&mut fresh, "fo");
    assert_eq!(edited.build_search_bar_output(), fresh.build_search_bar_output());
    assert_eq!(edited.render_pane(10), fresh.render_pane(10));
}
