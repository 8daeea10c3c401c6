use flash_tmux::config::Config;
use flash_tmux::search::{delete_prev_word, trim_wrapping_token, SearchInterface, SearchMatch};

fn labels() -> String {
    Config::defaults().label_characters
}

#[test]
fn empty_query_finds_nothing() {
    let mut search = SearchInterface::new("abc abc", labels());
    assert_eq!(search.search("").len(), 0);
    assert!(search.first_visible_match(10).is_none());
}

#[test]
fn lines_split_keeps_empty_lines() {
    let search = SearchInterface::new("a\n\nb\n", labels());
    assert_eq!(search.lines, vec!["a", "", "b", ""]);
    let search = SearchInterface::new("", labels());
    assert_eq!(search.lines, vec![""]);
}

#[test]
fn lines_join_back_to_content() {
    let content = "one two\n  three\n\nfour";
    let search = SearchInterface::new(content, labels());
    assert_eq!(search.lines.join("\n"), content);
}

#[test]
fn matches_every_position_in_a_token() {
    let mut search = SearchInterface::new("aaa", labels());
    let matches = search.search("aa");
    assert_eq!(matches.len(), 2);
    assert_eq!(matches[0].match_start, 1);
    assert_eq!(matches[0].match_end, 3);
    assert_eq!(matches[1].match_start, 0);
    assert_eq!(matches[1].match_end, 2);
}

#[test]
fn matches_ordered_bottom_right_first() {
    let mut search = SearchInterface::new("xa ya\nza", labels());
    let matches = search.search("A");
    let keys: Vec<(usize, usize, usize)> =
        matches.iter().map(|m| (m.line, m.col, m.match_start)).collect();
    assert_eq!(keys, vec![(1, 0, 1), (0, 3, 1), (0, 0, 1)]);
}

#[test]
fn byte_offsets_with_multibyte_text() {
    let mut search = SearchInterface::new("é ab", labels());
    let matches = search.search("b");
    assert_eq!(matches.len(), 1);
    assert_eq!(matches[0].col, 3);
    assert_eq!(matches[0].match_start, 1);
    assert_eq!(matches[0].match_end, 2);
    assert_eq!(matches[0].text, "ab");
}

#[test]
fn non_ascii_whitespace_splits_tokens() {
    let mut search = SearchInterface::new("ab\u{00a0}cd", labels());
    let matches = search.search("c");
    assert_eq!(matches.len(), 1);
    assert_eq!(matches[0].text, "cd");
    assert_eq!(matches[0].col, 4);
}

#[test]
fn labels_are_distinct_and_skip_blocked_letters() {
    let mut search = SearchInterface::new("jar jam jot", labels());
    let matches = search.search("j");
    assert_eq!(matches.len(), 3);
    let got: Vec<Option<char>> = matches.iter().map(|m| m.label).collect();
    assert_eq!(got, vec![Some('k'), Some('l'), Some('h')]);
}

#[test]
fn labels_skip_next_characters_of_all_matches() {
    let mut search = SearchInterface::new("ak al", labels());
    let matches = search.search("a");
    let got: Vec<Option<char>> = matches.iter().map(|m| m.label).collect();
    assert_eq!(got, vec![Some('j'), Some('h')]);
}

#[test]
fn labels_run_out() {
    let mut search = SearchInterface::new("ab ab ab", "xy".to_string());
    let matches = search.search("a");
    let got: Vec<Option<char>> = matches.iter().map(|m| m.label).collect();
    assert_eq!(got, vec![Some('x'), Some('y'), None]);
}

#[test]
fn lookup_by_label_and_line() {
    let mut search = SearchInterface::new("foo\nfoo", labels());
    search.search("fo");
    let m = search.get_match_by_label('j').expect("label j");
    assert_eq!(m.line, 1);
    assert!(search.get_match_by_label('z').is_none());
    assert_eq!(search.get_matches_at_line(0).len(), 1);
    assert_eq!(search.get_matches_at_line(0)[0].line, 0);
    assert_eq!(search.first_visible_match(1).map(|m| m.line), Some(0));
    assert_eq!(search.first_visible_match(2).map(|m| m.line), Some(1));
    assert!(search.first_visible_match(0).is_none());
}

#[test]
fn delete_prev_word_edges() {
    assert_eq!(delete_prev_word(""), "");
    assert_eq!(delete_prev_word("   "), "");
    assert_eq!(delete_prev_word("foo--"), "foo");
    assert_eq!(delete_prev_word("a (b)"), "a (b");
}

#[test]
fn trim_wrapping_token_keeps_token_when_everything_trims() {
    assert_eq!(trim_wrapping_token("()", 1, 1, "()"), "()");
    assert_eq!(trim_wrapping_token("[x]", 1, 2, "[]"), "x");
    assert_eq!(trim_wrapping_token("x.", 0, 1, ""), "x.");
}

type Row = (String, usize, usize, Option<char>, usize, usize);

fn rows(ms: &[SearchMatch]) -> Vec<Row> {
    ms.iter().map(|m| (m.text.clone(), m.line, m.col, m.label, m.match_start, m.match_end)).collect()
}

#[test]
fn earlier_searches_do_not_change_results() {
    let content = "Foo bar\nfoobar baz (foo)";
    let mut fresh = SearchInterface::new(content, labels());
    let mut used = SearchInterface::new(content, labels());
    used.search("ba");
    used.search("");
    used.search("z");
    let a = rows(fresh.search("fo"));
    let b = rows(used.search("fo"));
    assert_eq!(a.len(), 3);
    assert_eq!(a, b);
    assert_eq!(used.lines, vec!["Foo bar", "foobar baz (foo)"]);
}

#[test]
fn queries_differing_in_ascii_case_search_alike() {
    let content = "Foo bar\nfoobar FOO";
    let mut s = SearchInterface::new(content, labels());
    let lower = rows(s.search("fo"));
    let upper = rows(s.search("FO"));
    let mixed = rows(s.search("fO"));
    assert_eq!(lower.len(), 3);
    assert_eq!(lower, upper);
    assert_eq!(lower, mixed);
}
