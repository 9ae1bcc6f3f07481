use textnav::index::{file_paths, keeps_entry, WalkEntry};

#[test]
fn git_directory_is_pruned() {
    assert!(!keeps_entry(".git"));
    assert!(keeps_entry(".gitignore"));
    assert!(keeps_entry("git"));
    assert!(keeps_entry(".github"));
    assert!(keeps_entry(".env"));
}

#[test]
fn only_files_under_root_are_listed_in_walk_order() {
    let entries = vec![
        WalkEntry { relative: Some(String::new()), is_file: false },
        WalkEntry { relative: Some("src".to_string()), is_file: false },
        WalkEntry { relative: Some("src/main.rs".to_string()), is_file: true },
        WalkEntry { relative: None, is_file: true },
        WalkEntry { relative: Some(".env".to_string()), is_file: true },
    ];
    assert_eq!(file_paths(&entries), vec!["src/main.rs".to_string(), ".env".to_string()]);
}

#[test]
fn empty_walk_lists_nothing() {
    assert!(file_paths(&[]).is_empty());
}
