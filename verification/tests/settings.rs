use text_read::settings::{load_settings, write_settings};

fn strings(items: &[&str]) -> Vec<String> {
    items.iter().map(|s| s.to_string()).collect()
}

#[test]
fn settings_file_with_each_directive_is_read() {
    let text = "OUTPUT_PATH=/tmp/out\nEXCLUDE:^docs/.*$\nfoo.*\nDEVNOTE:remember X\n";
    let s = load_settings(text);
    assert_eq!(s.output_path, Some("/tmp/out".to_string()));
    assert_eq!(s.patterns_exclude, strings(&["^docs/.*$"]));
    assert_eq!(s.patterns_include, strings(&["foo.*"]));
    assert_eq!(s.dev_memo, strings(&["remember X"]));
    assert!(s.llm_note.is_empty());
}

#[test]
fn empty_text_gives_empty_settings() {
    let s = load_settings("");
    assert!(s.patterns_include.is_empty());
    assert!(s.patterns_exclude.is_empty());
    assert_eq!(s.output_path, None);
    assert!(s.dev_memo.is_empty());
    assert!(s.llm_note.is_empty());
}

#[test]
fn comments_and_blank_lines_are_ignored() {
    let s = load_settings("# a comment\n\n   \n  # indented comment\nsrc/.*\n");
    assert_eq!(s.patterns_include, strings(&["src/.*"]));
}

#[test]
fn last_non_empty_output_path_wins() {
    let s = load_settings("OUTPUT_PATH=/a\nOUTPUT_PATH=\nOUTPUT_PATH=  /b  \nOUTPUT_PATH=   \n");
    assert_eq!(s.output_path, Some("/b".to_string()));
    assert!(s.patterns_include.is_empty());
}

#[test]
fn exclude_values_are_trimmed_and_empty_ones_dropped() {
    let s = load_settings("EXCLUDE:  ^a$ \nEXCLUDE:\nEXCLUDE:^b$\n");
    assert_eq!(s.patterns_exclude, strings(&["^a$", "^b$"]));
}

#[test]
fn notes_are_kept_verbatim_after_the_prefix() {
    let s = load_settings("DEVNOTE:  two spaces first\nLLMNOTE:\nLLMNOTE: x\n");
    assert_eq!(s.dev_memo, strings(&["  two spaces first"]));
    assert_eq!(s.llm_note, strings(&["", " x"]));
}

#[test]
fn lines_are_trimmed_before_they_are_read() {
    let s = load_settings("   foo  \r\n\tEXCLUDE: x\t\r\n\u{3000}bar\u{a0}");
    assert_eq!(s.patterns_include, strings(&["foo", "bar"]));
    assert_eq!(s.patterns_exclude, strings(&["x"]));
}

#[test]
fn order_within_each_kind_is_kept() {
    let s = load_settings("b\nEXCLUDE:y\na\nEXCLUDE:x\n");
    assert_eq!(s.patterns_include, strings(&["b", "a"]));
    assert_eq!(s.patterns_exclude, strings(&["y", "x"]));
}

#[test]
fn written_settings_have_the_fixed_order() {
    let text = write_settings(
        &["a", "b"],
        &["^x/.*$"],
        &Some("/out".to_string()),
        &["memo"],
        &["note 1", "note 2"],
    );
    assert_eq!(
        text,
        "OUTPUT_PATH=/out\n\na\nb\nEXCLUDE:^x/.*$\nDEVNOTE:memo\nLLMNOTE:note 1\nLLMNOTE:note 2\n"
    );
}

#[test]
fn written_settings_without_output_path_begin_with_the_includes() {
    let text = write_settings(&["a"], &[], &None, &[], &[]);
    assert_eq!(text, "a\n");
    assert_eq!(write_settings(&[], &[], &None, &[], &[]), "");
}

#[test]
fn settings_come_back_as_they_were_written() {
    let includes = ["^src/.*$", "foo.*", "a b"];
    let excludes = ["^docs/.*$", "^target/"];
    let output = Some("/tmp/out dir".to_string());
    let memo = ["remember X", "", "  indented", "trailing \t ", " "];
    let notes = ["for the reader", "EXCLUDE:not an exclude", "\r", "# no comment"];
    let text = write_settings(&includes, &excludes, &output, &memo, &notes);
    let s = load_settings(&text);
    assert_eq!(s.patterns_include, strings(&includes));
    assert_eq!(s.patterns_exclude, strings(&excludes));
    assert_eq!(s.output_path, output);
    assert_eq!(s.dev_memo, strings(&memo));
    assert_eq!(s.llm_note, strings(&notes));
}

#[test]
fn an_include_that_reads_as_a_comment_does_not_come_back() {
    let text = write_settings(&["#not a pattern", "ok"], &[], &None, &[], &[]);
    let s = load_settings(&text);
    assert_eq!(s.patterns_include, strings(&["ok"]));
}

#[test]
fn a_memo_line_keeps_whitespace_at_its_end() {
    let text = write_settings(&[], &[], &None, &["memo  "], &["  "]);
    let s = load_settings(&text);
    assert_eq!(s.dev_memo, strings(&["memo  "]));
    assert_eq!(s.llm_note, strings(&["  "]));
}

#[test]
fn memo_and_note_lines_are_verbatim_after_the_prefix() {
    let s = load_settings("DEVNOTE: x \nLLMNOTE:\ty\t\n");
    assert_eq!(s.dev_memo, strings(&[" x "]));
    assert_eq!(s.llm_note, strings(&["\ty\t"]));
}

#[test]
fn whitespace_before_a_note_prefix_does_not_count() {
    let s = load_settings("  \tDEVNOTE:a \n");
    assert_eq!(s.dev_memo, strings(&["a "]));
}

#[test]
fn a_carriage_return_stays_in_a_note_and_leaves_a_pattern() {
    let s = load_settings("src/.*\r\nDEVNOTE:memo\r\nLLMNOTE:last\r");
    assert_eq!(s.patterns_include, strings(&["src/.*"]));
    assert_eq!(s.dev_memo, strings(&["memo\r"]));
    assert_eq!(s.llm_note, strings(&["last\r"]));
}

#[test]
fn a_note_with_a_line_feed_does_not_come_back() {
    let text = write_settings(&[], &[], &None, &["a\nb"], &[]);
    let s = load_settings(&text);
    assert_eq!(s.dev_memo, strings(&["a"]));
    assert_eq!(s.patterns_include, strings(&["b"]));
}

#[test]
fn what_is_loaded_comes_back_when_written_again() {
    let first = load_settings("  x \n#c\nOUTPUT_PATH= /o \nEXCLUDE: e \nDEVNOTE: m \nLLMNOTE:n\n");
    let inc: Vec<&str> = first.patterns_include.iter().map(|s| s.as_str()).collect();
    let exc: Vec<&str> = first.patterns_exclude.iter().map(|s| s.as_str()).collect();
    let memo: Vec<&str> = first.dev_memo.iter().map(|s| s.as_str()).collect();
    let notes: Vec<&str> = first.llm_note.iter().map(|s| s.as_str()).collect();
    let text = write_settings(&inc, &exc, &first.output_path, &memo, &notes);
    let second = load_settings(&text);
    assert_eq!(second.patterns_include, first.patterns_include);
    assert_eq!(second.patterns_exclude, first.patterns_exclude);
    assert_eq!(second.output_path, first.output_path);
    assert_eq!(second.dev_memo, first.dev_memo);
    assert_eq!(second.llm_note, first.llm_note);
}
