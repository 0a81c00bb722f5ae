use regex::Regex;
use text_read::pattern::{
    add_new_patterns, add_pattern, compile_patterns, excluded_folder_pattern, file_pattern,
    folder_pattern, is_in_patterns, pattern_lines, Pattern, PatternKind,
};

fn includes(texts: &[&str]) -> Vec<Pattern> {
    texts.iter().map(|t| Pattern::compile(t, PatternKind::Include).unwrap()).collect()
}

#[test]
fn a_regular_expression_compiles() {
    let p = Pattern::compile("^src/.*$", PatternKind::Exclude).unwrap();
    assert_eq!(p.as_str(), "^src/.*$");
    assert_eq!(p.kind(), PatternKind::Exclude);
}

#[test]
fn a_text_that_is_no_regular_expression_gives_no_pattern() {
    assert!(Pattern::compile("foo(bar", PatternKind::Include).is_none());
    assert!(Pattern::compile("[a-", PatternKind::Include).is_none());
    assert!(Pattern::compile("*", PatternKind::Include).is_none());
}

#[test]
fn a_pattern_matches_anywhere_unless_anchored() {
    let p = Pattern::compile("b/c", PatternKind::Include).unwrap();
    assert!(p.is_match("a/b/c/d"));
    assert!(!p.is_match("a/b"));
    let anchored = Pattern::compile("^b/c$", PatternKind::Include).unwrap();
    assert!(!anchored.is_match("a/b/c/d"));
    assert!(anchored.is_match("b/c"));
    // The answer is the regex crate's, not the pattern's text handed back.
    assert_eq!(p.is_match("xb/cx"), Regex::new("b/c").unwrap().is_match("xb/cx"));
}

#[test]
fn matching_a_list_is_matching_one_of_it() {
    let list = includes(&["^a$", "^b.*$"]);
    assert!(is_in_patterns("a", &list));
    assert!(is_in_patterns("bcd", &list));
    assert!(!is_in_patterns("c", &list));
    assert!(!is_in_patterns("a", &[]));
}

#[test]
fn pattern_lines_are_trimmed_and_not_empty() {
    assert_eq!(pattern_lines("  a \n\n\t\nb\r\n c"), vec!["a", "b", "c"]);
    assert!(pattern_lines("").is_empty());
    assert!(pattern_lines(" \n \n").is_empty());
}

#[test]
fn bad_patterns_are_dropped_and_reported() {
    let r = compile_patterns("^src/.*$\nfoo(bar\n\n  ^b$  \n[x\n", PatternKind::Include);
    let texts: Vec<&str> = r.patterns.iter().map(|p| p.as_str()).collect();
    assert_eq!(texts, vec!["^src/.*$", "^b$"]);
    assert!(r.patterns.iter().all(|p| p.kind() == PatternKind::Include));
    assert_eq!(r.rejected, vec!["foo(bar", "[x"]);
}

#[test]
fn compiling_nothing_gives_nothing() {
    let r = compile_patterns("", PatternKind::Exclude);
    assert!(r.patterns.is_empty());
    assert!(r.rejected.is_empty());
}

#[test]
fn a_picked_file_gets_a_pattern_for_its_path() {
    assert_eq!(file_pattern(Some("src\\a.rs"), "a.rs"), "^src/a\\.rs$");
    assert_eq!(file_pattern(None, "a+b.rs"), "^a\\+b\\.rs$");
    // The escaping is the regex crate's.
    assert_eq!(
        file_pattern(None, "\\.+*?()|[]{}^$#&-~ x/%"),
        format!("^{}$", regex::escape("\\.+*?()|[]{}^$#&-~ x/%"))
    );
    let p = Pattern::compile(&file_pattern(Some("src/a.rs"), "a.rs"), PatternKind::Include).unwrap();
    assert!(p.is_match("src/a.rs"));
    assert!(!p.is_match("src/aXrs"));
    assert!(!p.is_match("src/a.rs.bak"));
}

#[test]
fn a_picked_folder_gets_a_pattern_for_what_begins_with_it() {
    assert_eq!(folder_pattern(Some("src\\sub"), "sub"), "^src/sub.*$");
    assert_eq!(folder_pattern(None, "sub"), "^sub.*$");
}

#[test]
fn an_excluded_folder_gets_a_pattern_for_what_is_inside() {
    assert_eq!(excluded_folder_pattern("node_modules"), "^node_modules/.*$");
    assert_eq!(excluded_folder_pattern("a.b"), "^a\\.b/.*$");
}

#[test]
fn new_patterns_are_added_once() {
    let patterns = vec!["^a$".to_string(), "^b$".to_string(), "^a$".to_string(), "^c$".to_string()];
    assert_eq!(add_new_patterns("^b$", &patterns), "^b$\n^a$\n^c$\n");
    assert_eq!(add_new_patterns("  ^b$  \n", &patterns), "  ^b$  \n^a$\n^c$\n");
    assert_eq!(add_new_patterns("", &patterns), "^a$\n^b$\n^c$\n");
    assert_eq!(add_new_patterns("x", &[]), "x\n");
    assert_eq!(add_new_patterns("", &[]), "");
}

#[test]
fn a_pattern_is_added_even_if_it_is_there() {
    assert_eq!(add_pattern("^a/.*$", "^a/.*$"), "^a/.*$\n^a/.*$\n");
    assert_eq!(add_pattern("", "^a/.*$"), "^a/.*$\n");
    assert_eq!(add_pattern("x\n", "y"), "x\ny\n");
}
