use text_read::export::{
    begin_export, chunk_file_name, combined_text, default_export_file_name, export_action,
    export_text, needs_split_choice, project_label, remembers_output_path, split_into_chunks,
    ExportAction, CHUNK_LIMIT,
};
use text_read::models::FileInfo;

#[test]
fn chunk_size_zero_is_an_error() {
    assert_eq!(split_into_chunks("abc", 0), Err("チャンクサイズが0です。".to_string()));
    assert!(split_into_chunks("", 0).is_err());
}

#[test]
fn chunks_of_plain_text_rejoin() {
    let chunks = split_into_chunks("abcdefgh", 3).unwrap();
    assert_eq!(chunks, vec!["abc", "def", "gh"]);
    assert_eq!(chunks.concat(), "abcdefgh");
}

#[test]
fn chunk_count_is_length_over_size_rounded_up() {
    let text = "x".repeat(10);
    for (size, count) in [(1usize, 10usize), (2, 5), (3, 4), (4, 3), (5, 2), (9, 2), (10, 1), (11, 1)] {
        assert_eq!(split_into_chunks(&text, size).unwrap().len(), count, "size {size}");
    }
    assert_eq!(split_into_chunks("", 4).unwrap().len(), 0);
    assert_eq!(split_into_chunks("abc", usize::MAX).unwrap(), vec!["abc"]);
}

#[test]
fn a_cut_inside_a_character_leaves_replacements() {
    // "é" is two bytes; a chunk size of 1 cuts it in two.
    let chunks = split_into_chunks("é", 1).unwrap();
    assert_eq!(chunks, vec!["\u{FFFD}", "\u{FFFD}"]);
    // "aé" with size 2: "a" and the first byte, then the second byte.
    let chunks = split_into_chunks("aéb", 2).unwrap();
    assert_eq!(chunks, vec!["a\u{FFFD}", "\u{FFFD}b"]);
}

#[test]
fn cuts_between_characters_lose_nothing() {
    let text = "日本語のテキスト";
    let chunks = split_into_chunks(text, 6).unwrap();
    assert_eq!(chunks, vec!["日本", "語の", "テキ", "スト"]);
    assert_eq!(chunks.concat(), text);
}

#[test]
fn splitting_is_repeatable() {
    let text = "aébc日本";
    assert_eq!(split_into_chunks(text, 4), split_into_chunks(text, 4));
}

#[test]
fn large_output_asks_for_a_choice() {
    assert_eq!(CHUNK_LIMIT, 50_000);
    assert!(!needs_split_choice(0));
    assert!(!needs_split_choice(50_000));
    assert!(needs_split_choice(50_001));
}

#[test]
fn export_follows_the_answer_only_for_large_output() {
    assert_eq!(export_action(10, None), ExportAction::WriteWhole);
    assert_eq!(export_action(50_000, Some(0)), ExportAction::WriteWhole);
    assert_eq!(export_action(50_001, Some(0)), ExportAction::WriteChunks);
    assert_eq!(export_action(50_001, Some(1)), ExportAction::WriteWhole);
    assert_eq!(export_action(50_001, Some(2)), ExportAction::Nothing);
    assert_eq!(export_action(50_001, Some(-1)), ExportAction::Nothing);
    assert_eq!(export_action(50_001, None), ExportAction::Nothing);
}

#[test]
fn an_export_that_was_given_up_leaves_no_trace() {
    let action = export_action(50_001, None);
    assert_eq!(action, ExportAction::Nothing);
    assert!(!remembers_output_path(action));
    assert!(!remembers_output_path(export_action(50_001, Some(7))));
    assert!(remembers_output_path(export_action(50_001, Some(0))));
    assert!(remembers_output_path(export_action(50_001, Some(1))));
    assert!(remembers_output_path(export_action(1, None)));
}

#[test]
fn exported_text_is_framed() {
    let text = export_text("note", "proj", "2024-01-02 03:04:05", "{}");
    assert_eq!(
        text,
        "// LLM補足:\nnote\n\n// Project: proj, Date: 2024-01-02 03:04:05\n{}\n// End of chunk.\n"
    );
}

#[test]
fn project_label_defaults() {
    assert_eq!(project_label(Some("demo")), "demo");
    assert_eq!(project_label(None), "NoProject");
}

#[test]
fn export_file_names() {
    assert_eq!(default_export_file_name(Some("demo"), "20240102_030405"), "demo_20240102_030405.txt");
    assert_eq!(default_export_file_name(None, "20240102_030405"), "output_20240102_030405.txt");
}

#[test]
fn chunk_file_names_count_from_the_number_given() {
    assert_eq!(chunk_file_name("out", 1, "txt"), "out_chunk_1.txt");
    assert_eq!(chunk_file_name("out", 12, "txt"), "out_chunk_12.txt");
    assert_eq!(chunk_file_name("", 100, ""), "_chunk_100.");
}

#[test]
fn files_are_shown_one_after_another() {
    let files = vec![
        FileInfo {
            file_url: "/p/a.rs".to_string(),
            file_name: "a.rs".to_string(),
            file_content: "fn a() {}".to_string(),
        },
        FileInfo {
            file_url: "/p/b.rs".to_string(),
            file_name: "b.rs".to_string(),
            file_content: "".to_string(),
        },
    ];
    assert_eq!(
        combined_text(&files),
        "File: a.rs\nfn a() {}\n--------------------------------\nFile: b.rs\n\n--------------------------------\n"
    );
    assert_eq!(combined_text(&[]), "");
}

#[test]
fn an_export_begins_with_a_name_and_a_date() {
    let start = begin_export(Some("demo"));
    assert!(start.file_name.starts_with("demo_"));
    assert!(start.file_name.ends_with(".txt"));
    // <year>mmdd_HHMMSS between the two
    let stamp = &start.file_name["demo_".len()..start.file_name.len() - ".txt".len()];
    assert_eq!(stamp.len(), 15);
    assert_eq!(start.date.len(), 19);
    let digits = |s: &str| s.chars().filter(|c| c.is_ascii_digit()).collect::<String>();
    assert_eq!(digits(stamp), digits(&start.date));
    assert!(begin_export(None).file_name.starts_with("output_"));
}
