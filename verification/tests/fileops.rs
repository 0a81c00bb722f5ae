use text_read::fileops::{
    build_tree_view, collect_matching_files, collect_target_files, is_in_backup, is_target_file,
    relative_name, select_target_files, should_show, WalkedEntry,
};
use text_read::pattern::{Pattern, PatternKind};

fn patterns(texts: &[&str], kind: PatternKind) -> Vec<Pattern> {
    texts.iter().map(|t| Pattern::compile(t, kind).unwrap()).collect()
}

fn inc(texts: &[&str]) -> Vec<Pattern> {
    patterns(texts, PatternKind::Include)
}

fn exc(texts: &[&str]) -> Vec<Pattern> {
    patterns(texts, PatternKind::Exclude)
}

fn entry(relative: &str, is_file: bool) -> WalkedEntry {
    let depth = if relative.is_empty() { 0 } else { relative.split('/').count() };
    let name = if relative.is_empty() { "root" } else { relative.rsplit('/').next().unwrap() };
    WalkedEntry {
        path: if relative.is_empty() { "/root".to_string() } else { format!("/root/{}", relative) },
        relative: Some(relative.to_string()),
        file_name: name.to_string(),
        depth,
        is_file,
    }
}

/// The tree of the first scenario, each directory before what it holds.
fn scenario() -> Vec<WalkedEntry> {
    vec![
        entry("", false),
        entry("src", false),
        entry("src/a.rs", true),
        entry("src/sub", false),
        entry("src/sub/b.rs", true),
        entry("target", false),
        entry("target/backup", false),
        entry("target/backup/old", false),
        entry("target/backup/old/c.rs", true),
    ]
}

#[test]
fn scenario_selects_the_one_file() {
    let entries = scenario();
    let picked = select_target_files(&entries, &inc(&["^src/.*$"]), &exc(&["^src/sub/.*$"]));
    assert_eq!(picked, vec![2]);
    let contents = vec![Ok("x".repeat(50))];
    let files = collect_target_files(&entries, &None, &picked, &contents).unwrap();
    assert_eq!(files.len(), 1);
    assert_eq!(files[0].file_name, "src/a.rs");
    assert_eq!(files[0].file_url, "/root/src/a.rs");
    assert_eq!(files[0].file_content.len(), 50);
}

#[test]
fn the_backup_directory_is_left_out_whatever_the_patterns_say() {
    let entries = scenario();
    let picked = select_target_files(&entries, &inc(&[".*"]), &[]);
    assert_eq!(picked, vec![2, 4]);
    let picked = select_target_files(&entries, &inc(&["^target/backup/.*$"]), &[]);
    assert!(picked.is_empty());
}

#[test]
fn no_include_patterns_select_nothing() {
    let entries = scenario();
    assert!(select_target_files(&entries, &[], &[]).is_empty());
    assert!(select_target_files(&entries, &[], &exc(&["^nothing$"])).is_empty());
}

#[test]
fn exclude_overrides_include() {
    let entries = scenario();
    let picked = select_target_files(&entries, &inc(&["\\.rs$"]), &exc(&["\\.rs$"]));
    assert!(picked.is_empty());
}

#[test]
fn only_files_are_selected() {
    let entries = vec![entry("src", false), entry("src/a", true)];
    assert_eq!(select_target_files(&entries, &inc(&["src"]), &[]), vec![1]);
    assert!(!is_target_file(&entries[0], &inc(&["src"]), &[]));
    assert!(is_target_file(&entries[1], &inc(&["src"]), &[]));
}

#[test]
fn names_use_forward_slashes() {
    let e = WalkedEntry {
        path: "C:\\p\\src\\a.rs".to_string(),
        relative: Some("src\\a.rs".to_string()),
        file_name: "a.rs".to_string(),
        depth: 2,
        is_file: true,
    };
    assert_eq!(relative_name(&e), "src/a.rs");
    assert!(is_target_file(&e, &inc(&["^src/a\\.rs$"]), &[]));
}

#[test]
fn an_entry_outside_the_root_goes_by_its_whole_path() {
    let e = WalkedEntry {
        path: "D:\\elsewhere\\a.rs".to_string(),
        relative: None,
        file_name: "a.rs".to_string(),
        depth: 1,
        is_file: true,
    };
    assert_eq!(relative_name(&e), "D:/elsewhere/a.rs");
}

#[test]
fn the_backup_directory_is_two_whole_segments() {
    assert!(is_in_backup("target/backup"));
    assert!(is_in_backup("a/target/backup/b"));
    assert!(is_in_backup("target/backup/old/c.rs"));
    assert!(!is_in_backup("target/back/up"));
    assert!(!is_in_backup(""));
    assert!(!is_in_backup("mytarget/backups/a.rs"));
    assert!(!is_in_backup("mytarget/backup/a.rs"));
    assert!(!is_in_backup("target/backups/a.rs"));
    assert!(!is_in_backup("target/x/backup"));
    assert!(!is_in_backup("backup/target"));
    assert!(!is_in_backup("target"));
}

#[test]
fn a_name_that_only_holds_the_letters_is_collected() {
    let entries = vec![
        entry("", false),
        entry("mytarget", false),
        entry("mytarget/backups", false),
        entry("mytarget/backups/a.rs", true),
    ];
    let picked = select_target_files(&entries, &inc(&[".*"]), &[]);
    assert_eq!(picked, vec![3]);
    let contents = vec![Ok("x".to_string())];
    let files = collect_matching_files(&entries, &None, &inc(&[".*"]), &[], &contents)
        .unwrap()
        .unwrap();
    assert_eq!(files.len(), 1);
    assert_eq!(files[0].file_name, "mytarget/backups/a.rs");
    assert_eq!(files[0].file_content, "x");
    assert_eq!(
        build_tree_view(&entries, &[]),
        "root\n  mytarget\n    backups\n      a.rs"
    );
}

#[test]
fn selecting_and_collecting_in_one() {
    let entries = scenario();
    let includes = inc(&["^src/.*$"]);
    let excludes = exc(&["^src/sub/.*$"]);
    let contents = vec![Ok("x".repeat(50))];
    let files =
        collect_matching_files(&entries, &None, &includes, &excludes, &contents).unwrap().unwrap();
    assert_eq!(files.len(), 1);
    assert_eq!(files[0].file_name, "src/a.rs");
    assert_eq!(files[0].file_content.len(), 50);

    let failed = vec![Err("denied".to_string())];
    assert_eq!(
        collect_matching_files(&entries, &None, &includes, &excludes, &failed)
            .unwrap()
            .map(|f| f.len()),
        Err("ファイル読み込みに失敗: denied (src/a.rs)".to_string())
    );
    assert_eq!(
        collect_matching_files(&entries, &Some("walk".to_string()), &includes, &excludes, &contents)
            .unwrap()
            .map(|f| f.len()),
        Err("walk".to_string())
    );
}

#[test]
fn reads_that_do_not_belong_to_the_selection_give_nothing() {
    let entries = scenario();
    let includes = inc(&["\\.rs$"]);
    // Two files are chosen.
    let one = vec![Ok("a".to_string())];
    assert!(collect_matching_files(&entries, &None, &includes, &[], &one).is_none());
    let three = vec![Ok("a".to_string()), Ok("b".to_string()), Ok("c".to_string())];
    assert!(collect_matching_files(&entries, &None, &includes, &[], &three).is_none());
    let none: Vec<Result<String, String>> = vec![];
    assert!(collect_matching_files(&entries, &None, &includes, &[], &none).is_none());
    // Reading may stop at a failure.
    let stopped = vec![Err("gone".to_string())];
    assert!(collect_matching_files(&entries, &None, &includes, &[], &stopped).is_some());
    // Without include patterns nothing is chosen, and nothing is to be read.
    assert!(collect_matching_files(&entries, &None, &[], &[], &none).unwrap().unwrap().is_empty());
}

#[test]
fn the_first_failed_read_ends_the_collection() {
    let entries = scenario();
    let picked = vec![2usize, 4];
    let contents = vec![Ok("a".to_string()), Err("denied".to_string())];
    assert_eq!(
        collect_target_files(&entries, &None, &picked, &contents).map(|f| f.len()),
        Err("ファイル読み込みに失敗: denied (src/sub/b.rs)".to_string())
    );
    // Reading may have stopped at the failure.
    let contents = vec![Err("gone".to_string())];
    assert_eq!(
        collect_target_files(&entries, &Some("walk".to_string()), &picked, &contents)
            .map(|f| f.len()),
        Err("ファイル読み込みに失敗: gone (src/a.rs)".to_string())
    );
}

#[test]
fn a_walk_that_failed_ends_the_collection_after_the_reads() {
    let entries = scenario();
    let picked = vec![2usize];
    let contents = vec![Ok("a".to_string())];
    assert_eq!(
        collect_target_files(&entries, &Some("walk failed".to_string()), &picked, &contents)
            .map(|f| f.len()),
        Err("walk failed".to_string())
    );
}

#[test]
fn collected_files_keep_the_order_of_the_listing() {
    let entries = scenario();
    let picked = select_target_files(&entries, &inc(&["\\.rs$"]), &[]);
    let contents = vec![Ok("A".to_string()), Ok("B".to_string())];
    let files = collect_target_files(&entries, &None, &picked, &contents).unwrap();
    let names: Vec<&str> = files.iter().map(|f| f.file_name.as_str()).collect();
    assert_eq!(names, vec!["src/a.rs", "src/sub/b.rs"]);
    assert_eq!(files[1].file_content, "B");
    assert!(collect_target_files(&entries, &None, &[], &[]).unwrap().is_empty());
}

#[test]
fn the_tree_is_drawn_with_two_spaces_a_level() {
    let entries = vec![
        entry("", false),
        entry("src", false),
        entry("src/a.rs", true),
        entry("src/sub", false),
        entry("src/sub/b.rs", true),
        entry("z.txt", true),
    ];
    assert_eq!(
        build_tree_view(&entries, &[]),
        "root\n  src\n    a.rs\n    sub\n      b.rs\n  z.txt"
    );
}

#[test]
fn the_tree_leaves_out_the_backup_directory() {
    assert_eq!(
        build_tree_view(&scenario(), &[]),
        "root\n  src\n    a.rs\n    sub\n      b.rs\n  target"
    );
}

#[test]
fn a_pruned_directory_takes_what_is_beneath_it() {
    let tree = build_tree_view(&scenario(), &exc(&["^src$"]));
    assert_eq!(tree, "root\n  target");
    // The files beneath do not match the pattern themselves.
    assert!(should_show(&scenario()[2], &exc(&["^src$"])));
    assert!(!should_show(&scenario()[1], &exc(&["^src$"])));
}

#[test]
fn pruning_ends_where_the_directory_ends() {
    let entries = vec![
        entry("", false),
        entry("a", false),
        entry("a/b", false),
        entry("a/b/c", true),
        entry("a/d", true),
        entry("e", true),
    ];
    assert_eq!(build_tree_view(&entries, &exc(&["^a/b$"])), "root\n  a\n    d\n  e");
    assert_eq!(build_tree_view(&entries, &exc(&["^a/b$", "^a$"])), "root\n  e");
    assert_eq!(build_tree_view(&entries, &exc(&["^a/d$"])), "root\n  a\n    b\n      c\n  e");
}

#[test]
fn a_pruned_root_leaves_nothing() {
    assert_eq!(build_tree_view(&scenario(), &exc(&[".*"])), "");
    assert_eq!(build_tree_view(&[], &[]), "");
}
