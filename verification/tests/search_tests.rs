use flash_tmux::config::Config;
use flash_tmux::search::{delete_prev_word, trim_wrapping_token, SearchInterface};

fn default_labels() -> String {
    Config::defaults().label_characters
}

fn default_trimmable() -> String {
    Config::defaults().trimmable_chars
}

#[test]
fn search_case_insensitive() {
    let mut search = SearchInterface::new("Foo bar", default_labels());
    let matches = search.search("fo");
    assert_eq!(matches.len(), 1);
    let m = &matches[0];
    assert_eq!(m.text, "Foo");
    assert_eq!(m.line, 0);
    assert_eq!(m.col, 0);
    assert_eq!(m.match_start, 0);
    assert_eq!(m.match_end, 2);
    assert_eq!(m.label, Some('j'));
}

#[test]
fn search_ordering_is_reverse() {
    let mut search = SearchInterface::new("abc abc", default_labels());
    let matches = search.search("a");
    assert_eq!(matches.len(), 2);
    assert_eq!(matches[0].col, 4);
    assert_eq!(matches[1].col, 0);
}

#[test]
fn search_does_not_emit_duplicate_matches() {
    let mut search = SearchInterface::new("abc abc abc", default_labels());
    let matches = search.search("a");

    for (idx, left) in matches.iter().enumerate() {
        for right in &matches[idx + 1..] {
            assert!(
                left.line != right.line
                    || left.col != right.col
                    || left.match_start != right.match_start
                    || left.text != right.text
                    || left.text.len() != right.text.len()
            );
        }
    }
}

#[test]
fn labels_avoid_query_and_match_chars() {
    let mut search = SearchInterface::new("abc", default_labels());
    let matches = search.search("a");
    assert_eq!(matches.len(), 1);
    for m in matches {
        let label = m
            .label
            .expect("expected label to be assigned for test match");
        assert!(!"abc".contains(label));
    }
}

#[test]
fn delete_prev_word_basic() {
    assert_eq!(delete_prev_word("foo bar"), "foo ");
}

#[test]
fn delete_prev_word_trailing_spaces() {
    assert_eq!(delete_prev_word("foo bar   "), "foo ");
}

#[test]
fn delete_prev_word_delimiters() {
    assert_eq!(delete_prev_word("foo-bar"), "foo");
    assert_eq!(delete_prev_word("foo/bar"), "foo");
}

#[test]
fn find_tokens_basic() {
    let mut search = SearchInterface::new("alpha beta\ngamma", default_labels());
    let matches = search.search("a");
    assert!(!matches.is_empty());
    assert_eq!(search.lines, vec!["alpha beta", "gamma"]);
}

#[test]
fn trim_wrapping_token_basic() {
    assert_eq!(
        trim_wrapping_token("(foo)", 1, 4, &default_trimmable()),
        "foo"
    );
}

#[test]
fn trim_wrapping_token_nested() {
    assert_eq!(
        trim_wrapping_token("(`foo`)", 2, 5, &default_trimmable()),
        "foo"
    );
}

#[test]
fn trim_wrapping_token_trailing_only() {
    assert_eq!(
        trim_wrapping_token("foo...", 0, 3, &default_trimmable()),
        "foo"
    );
}

#[test]
fn trim_wrapping_token_punctuation() {
    assert_eq!(
        trim_wrapping_token(",:foo.;", 2, 5, &default_trimmable()),
        "foo"
    );
}

#[test]
fn trim_wrapping_token_preserves_leading_dot() {
    assert_eq!(
        trim_wrapping_token(".gitignore", 1, 4, &default_trimmable()),
        ".gitignore"
    );
}

#[test]
fn trim_wrapping_token_preserves_leading_dots_but_trims_trailing_dot() {
    assert_eq!(
        trim_wrapping_token("../some_dir/.", 3, 11, &default_trimmable()),
        "../some_dir/"
    );
}
