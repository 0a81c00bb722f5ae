use regex::Regex;
use text_read::backup::{
    backup_included_files, char_is_alphanumeric, check_label, detach, plan_backup,
    snapshot_folder_name, BackupSource,
};

fn source(path: &str, relative: Option<&str>, exists: bool) -> BackupSource {
    BackupSource { path: path.to_string(), relative: relative.map(|r| r.to_string()), exists }
}

#[test]
fn letters_and_digits() {
    for c in ['a', 'z', 'A', 'Z', '0', '9', 'm'] {
        assert!(char_is_alphanumeric(c));
    }
    for c in ['_', '-', ' ', 'é', '٣', '@', '[', '`', '{', '/', ':'] {
        assert!(!char_is_alphanumeric(c));
    }
}

#[test]
fn a_label_is_letters_and_digits() {
    let r = check_label("  rel42 ");
    assert_eq!(r.comment, "rel42");
    assert!(!r.refused);
}

#[test]
fn no_label_is_fine() {
    for input in ["", "   ", "\t\n"] {
        let r = check_label(input);
        assert_eq!(r.comment, "");
        assert!(!r.refused);
    }
}

#[test]
fn other_input_is_refused() {
    for input in ["a b", "a-b", "日本", "x_1", "a\nb", " ! "] {
        let r = check_label(input);
        assert_eq!(r.comment, "", "{:?}", input);
        assert!(r.refused, "{:?}", input);
    }
    assert!(!check_label("a\n").refused);
    assert_eq!(check_label("a\n").comment, "a");
}

#[test]
fn labels_are_what_the_alphanumeric_expression_matches() {
    let re = Regex::new("^[A-Za-z0-9]+$").unwrap();
    for input in ["abc", "A1", "", "a b", "a-b", "é", "0", "a\nb", "Z9z", "a.b", "１"] {
        let r = check_label(input);
        let trimmed = input.trim();
        assert_eq!(!r.comment.is_empty(), re.is_match(trimmed), "{:?}", input);
        assert_eq!(r.refused, !trimmed.is_empty() && !re.is_match(trimmed), "{:?}", input);
    }
}

#[test]
fn folder_names() {
    assert_eq!(snapshot_folder_name("2024-01-02_030405", ""), "2024-01-02_030405-snapshot");
    assert_eq!(snapshot_folder_name("2024-01-02_030405", "v2"), "2024-01-02_030405-v2");
}

#[test]
fn the_folder_name_holds_the_label_or_snapshot() {
    let name = snapshot_folder_name("T", &check_label(" good1 ").comment);
    assert_eq!(name, "T-good1");
    let name = snapshot_folder_name("T", &check_label("not good").comment);
    assert_eq!(name, "T-snapshot");
    let name = snapshot_folder_name("T", &check_label("").comment);
    assert_eq!(name, "T-snapshot");
}

#[test]
fn a_plan_copies_what_is_still_there() {
    let sources = vec![
        source("/p/src/a.rs", Some("src/a.rs"), true),
        source("/p/gone.rs", Some("gone.rs"), false),
        source("/elsewhere/b.rs", None, true),
    ];
    let plan = plan_backup("2024-01-02_030405", &sources, "v1");
    assert_eq!(plan.directory, vec!["target", "backup", "2024-01-02_030405-v1"]);
    let jobs: Vec<(&str, &str)> =
        plan.jobs.iter().map(|j| (j.source.as_str(), j.target.as_str())).collect();
    assert_eq!(jobs, vec![("/p/src/a.rs", "src/a.rs"), ("/elsewhere/b.rs", "elsewhere/b.rs")]);
}

#[test]
fn a_path_without_its_root() {
    assert_eq!(detach("/elsewhere/b.rs"), "elsewhere/b.rs");
    assert_eq!(detach("C:\\work\\x\\b.rs"), "work/x/b.rs");
    assert_eq!(detach("//a///b/"), "a/b");
    assert_eq!(detach("/a/./b/../c"), "a/b/c");
    assert_eq!(detach("a/b"), "a/b");
    assert_eq!(detach("/"), "");
    assert_eq!(detach(""), "");
    assert_eq!(detach("..."), "...");
    assert_eq!(detach("/.hidden/file"), ".hidden/file");
}

#[test]
fn an_empty_plan() {
    let plan = plan_backup("T", &[], "");
    assert_eq!(plan.directory, vec!["target", "backup", "T-snapshot"]);
    assert!(plan.jobs.is_empty());
}

#[test]
fn a_snapshot_made_now_is_named_by_the_time() {
    let sources = vec![source("/p/a", Some("a"), true)];
    let plan = backup_included_files(&sources, "tag");
    assert_eq!(plan.directory.len(), 3);
    assert_eq!(plan.directory[0], "target");
    assert_eq!(plan.directory[1], "backup");
    let name = &plan.directory[2];
    assert!(name.ends_with("-tag"));
    let stamp = &name[..name.len() - "-tag".len()];
    let shape = Regex::new("^[0-9]{4}-[0-9]{2}-[0-9]{2}_[0-9]{6}$").unwrap();
    assert!(shape.is_match(stamp), "{}", stamp);
    assert_eq!(plan.jobs.len(), 1);
    assert!(backup_included_files(&[], "").directory[2].ends_with("-snapshot"));
}
