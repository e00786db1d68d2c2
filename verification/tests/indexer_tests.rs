use gitrends::indexer::extension_of;
use gitrends::indexer::index_repository;
use gitrends::indexer::try_index_repository;
use gitrends::indexer::ChangedFile;
use gitrends::indexer::CommitData;
use gitrends::indexer::CommitDiff;

fn file(path: &str, text: &str, added: u64, removed: u64) -> ChangedFile {
    ChangedFile {
        path: path.to_string(),
        text: Some(text.to_string()),
        added_lines: added,
        removed_lines: removed,
    }
}

fn commit(id: &str, short: &str, date: i64, author: &str, diffs: Vec<CommitDiff>) -> CommitData {
    CommitData {
        id: id.to_string(),
        short_id: short.to_string(),
        date,
        author: Some(author.to_string()),
        message: Some(format!("message of {}", short)),
        diffs,
    }
}

fn diff(parent: Option<&str>, files: Vec<ChangedFile>) -> CommitDiff {
    CommitDiff {
        parent_id: parent.map(|p| p.to_string()),
        files,
    }
}

#[test]
fn extension_of_paths() {
    assert_eq!(extension_of("src/main.rs"), "rs");
    assert_eq!(extension_of("a/b/script.py"), "py");
    assert_eq!(extension_of("Makefile"), "unknown");
    assert_eq!(extension_of(".gitignore"), "unknown");
    assert_eq!(extension_of("archive.tar.gz"), "gz");
}

#[test]
fn linear_history_indexes_every_commit() {
    // with no merge commits the ignore set stays empty: every commit is
    // logged and diffed against its single parent (or nothing, for the root)
    let head = vec!["a.rs".to_string(), "b.rs".to_string()];
    let commits = vec![
        commit("id-c2", "c2", 200, "bea", vec![diff(Some("id-c1"), vec![file("b.rs", "fn b() {}\n", 1, 0)])]),
        commit("id-c1", "c1", 100, "alf", vec![diff(None, vec![file("a.rs", "fn a() {}\n", 1, 0)])]),
    ];
    let (log, entries) = index_repository(&head, &commits);
    assert_eq!(log.len(), 2);
    assert_eq!(log[0].revision, "c2");
    assert_eq!(log[0].author, "bea");
    assert_eq!(log[1].revision, "c1");
    assert_eq!(entries.len(), 2);
    assert_eq!(entries[0].revision, "c2");
    assert_eq!(entries[0].file_name, "b.rs");
    assert!(entries[0].exists_at_head);
    assert_eq!(entries[0].num_code_lines, 1);
    assert_eq!(entries[1].revision, "c1");
}

#[test]
fn merge_commit_dedups_and_skips_parents() {
    // a merge whose two parents both touch f.rs yields exactly one entry for
    // (merge, f.rs), and both parents are skipped for file work later
    let head = vec!["f.rs".to_string()];
    let commits = vec![
        commit(
            "id-m",
            "m",
            300,
            "mia",
            vec![
                diff(Some("id-p1"), vec![file("f.rs", "fn f() {}\n", 2, 0)]),
                diff(Some("id-p2"), vec![file("f.rs", "fn f() {}\n", 2, 0)]),
            ],
        ),
        commit("id-p1", "p1", 200, "pat", vec![diff(Some("id-r"), vec![file("f.rs", "one\n", 1, 0)])]),
        commit("id-p2", "p2", 150, "pam", vec![diff(Some("id-r"), vec![file("f.rs", "two\n", 1, 0)])]),
        commit("id-r", "r", 100, "roy", vec![diff(None, vec![file("f.rs", "root\n", 1, 0)])]),
    ];
    let (log, entries) = index_repository(&head, &commits);
    // every commit is logged, even the skipped parents
    assert_eq!(log.len(), 4);
    // one entry for the merge, none for the skipped parents, one for the root
    let merge_entries: Vec<_> = entries.iter().filter(|e| e.revision == "m").collect();
    assert_eq!(merge_entries.len(), 1);
    assert!(!entries.iter().any(|e| e.revision == "p1"));
    assert!(!entries.iter().any(|e| e.revision == "p2"));
    assert!(entries.iter().any(|e| e.revision == "r"));
    assert_eq!(entries.len(), 2);
}

#[test]
fn undecodable_files_are_logged_but_not_indexed() {
    let head: Vec<String> = Vec::new();
    let binary = ChangedFile {
        path: "blob.bin".to_string(),
        text: None,
        added_lines: 0,
        removed_lines: 0,
    };
    let commits = vec![commit("id-x", "x", 50, "ada", vec![diff(None, vec![binary])])];
    let (log, entries) = index_repository(&head, &commits);
    assert_eq!(log.len(), 1);
    assert_eq!(entries.len(), 0);
}

#[test]
fn missing_author_becomes_unknown() {
    let commits = vec![CommitData {
        id: "id-y".to_string(),
        short_id: "y".to_string(),
        date: 10,
        author: None,
        message: None,
        diffs: vec![diff(None, vec![])],
    }];
    let (log, _) = index_repository(&Vec::new(), &commits);
    assert_eq!(log[0].author, "unknown");
    assert_eq!(log[0].commit_message, "unknown");
}

#[test]
fn reindexing_unchanged_history_is_identical() {
    let head = vec!["a.rs".to_string()];
    let commits = vec![
        commit("id-c2", "c2", 200, "bea", vec![diff(Some("id-c1"), vec![file("a.rs", "x\n", 1, 0)])]),
        commit("id-c1", "c1", 100, "alf", vec![diff(None, vec![file("a.rs", "y\n", 1, 0)])]),
    ];
    let (log1, entries1) = index_repository(&head, &commits);
    let (log2, entries2) = index_repository(&head, &commits);
    assert_eq!(log1.len(), log2.len());
    for (a, b) in log1.iter().zip(log2.iter()) {
        assert_eq!(a.revision, b.revision);
        assert_eq!(a.date, b.date);
        assert_eq!(a.author, b.author);
        assert_eq!(a.commit_message, b.commit_message);
    }
    assert_eq!(entries1.len(), entries2.len());
    for (a, b) in entries1.iter().zip(entries2.iter()) {
        assert_eq!(a.revision, b.revision);
        assert_eq!(a.file_name, b.file_name);
        assert_eq!(a.date, b.date);
        assert_eq!(a.num_code_lines, b.num_code_lines);
        assert_eq!(a.square_indent_levels, b.square_indent_levels);
    }
}

#[test]
fn try_index_skips_when_both_tables_exist() {
    let head: Vec<String> = Vec::new();
    let commits = vec![commit("id-z", "z", 5, "zoe", vec![diff(None, vec![])])];
    assert!(try_index_repository(true, true, &head, &commits).is_none());
    assert!(try_index_repository(true, false, &head, &commits).is_some());
    assert!(try_index_repository(false, true, &head, &commits).is_some());
    assert!(try_index_repository(false, false, &head, &commits).is_some());
}

#[test]
fn entry_metrics_come_from_the_classifier() {
    let head = vec!["m.py".to_string()];
    let text = "# note\ndef f():\n    return 1\n";
    let commits = vec![commit("id-k", "k", 7, "kim", vec![diff(None, vec![file("m.py", text, 3, 1)])])];
    let (_, entries) = index_repository(&head, &commits);
    assert_eq!(entries.len(), 1);
    let e = &entries[0];
    assert_eq!(e.num_code_lines, 2);
    assert_eq!(e.num_comment_lines, 1);
    assert_eq!(e.num_blank_lines, 0);
    assert_eq!(e.total_indent_levels, 1);
    assert_eq!(e.added_lines, 3);
    assert_eq!(e.removed_lines, 1);
}
