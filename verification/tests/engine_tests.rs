use gitrends::engine::RepositoryQuerying;
use gitrends::engine::RepositoryQueryingConfig;
use gitrends::model::GitFileEntry;
use gitrends::model::GitLogEntry;
use gitrends::rules::AuthorNormalizer;
use gitrends::rules::IgnoreFile;
use gitrends::rules::ModuleDefinitions;

fn log_entry(rev: &str, date: i64, author: &str) -> GitLogEntry {
    GitLogEntry {
        revision: rev.to_string(),
        date,
        author: author.to_string(),
        commit_message: format!("commit {}", rev),
    }
}

fn row(rev: &str, name: &str, date: i64, code: u64, added: u64, removed: u64) -> GitFileEntry {
    GitFileEntry {
        revision: rev.to_string(),
        file_name: name.to_string(),
        date,
        exists_at_head: true,
        num_code_lines: code,
        num_comment_lines: 1,
        num_blank_lines: 2,
        total_indent_levels: 3,
        square_indent_levels: 5,
        added_lines: added,
        removed_lines: removed,
    }
}

fn engine() -> RepositoryQuerying {
    // three commits; src/a.rs and src/b.rs change together twice,
    // docs/readme.md changes once
    let log = vec![
        log_entry("r1", 100, "alf"),
        log_entry("r2", 200, "bea"),
        log_entry("r3", 300, "alf"),
    ];
    let entries = vec![
        row("r1", "src/a.rs", 100, 10, 10, 0),
        row("r1", "src/b.rs", 100, 20, 20, 0),
        row("r2", "src/a.rs", 200, 12, 4, 2),
        row("r2", "src/b.rs", 200, 25, 6, 1),
        row("r3", "docs/readme.md", 300, 7, 7, 0),
    ];
    RepositoryQuerying::new(
        "repo".to_string(),
        log,
        entries,
        &IgnoreFile::empty(),
        ModuleDefinitions::empty(),
        &AuthorNormalizer::empty(),
        &RepositoryQueryingConfig::default(),
    )
}

#[test]
fn log_is_sorted_and_normalized() {
    let log = vec![log_entry("r2", 200, "raw"), log_entry("r1", 100, "bob")];
    let aliases = AuthorNormalizer::new("raw => Canonical Name\n");
    let q = RepositoryQuerying::new(
        "d".to_string(),
        log,
        Vec::new(),
        &IgnoreFile::empty(),
        ModuleDefinitions::empty(),
        &aliases,
        &RepositoryQueryingConfig::default(),
    );
    let rows = q.log();
    assert_eq!(rows.len(), 2);
    assert_eq!(rows[0].revision, "r1");
    assert_eq!(rows[1].revision, "r2");
    assert_eq!(rows[1].author, "Canonical Name");
}

#[test]
fn files_report_latest_metrics_in_code_order() {
    let q = engine();
    let files = q.files();
    assert_eq!(files.len(), 3);
    // largest latest code count first: src/b.rs has 25 at r2
    assert_eq!(files[0].name, "src/b.rs");
    assert_eq!(files[0].num_code_lines, 25);
    assert_eq!(files[1].name, "src/a.rs");
    assert_eq!(files[1].num_code_lines, 12);
    assert_eq!(files[2].name, "docs/readme.md");
}

#[test]
fn active_view_applies_filters() {
    let log = vec![log_entry("r1", 100, "a"), log_entry("r2", 9999, "a")];
    let mut gone = row("r1", "gone.rs", 100, 1, 1, 0);
    gone.exists_at_head = false;
    let entries = vec![
        gone,
        row("r1", "kept.rs", 100, 2, 2, 0),
        row("r1", "noise.lock", 100, 3, 3, 0),
        row("r2", "kept.rs", 9999, 4, 2, 0),
    ];
    let ignores = IgnoreFile::new("*.lock\n");
    let config = RepositoryQueryingConfig { min_date: Some(0), max_date: Some(500) };
    let q = RepositoryQuerying::new(
        "d".to_string(),
        log,
        entries,
        &ignores,
        ModuleDefinitions::empty(),
        &AuthorNormalizer::empty(),
        &config,
    );
    let files = q.files();
    // deleted, ignored and out-of-range rows leave only kept.rs at r1
    assert_eq!(files.len(), 1);
    assert_eq!(files[0].name, "kept.rs");
    assert_eq!(files[0].num_code_lines, 2);
}

#[test]
fn file_hotspots_count_revisions_and_authors() {
    let q = engine();
    let hotspots = q.file_hotspots(None);
    assert_eq!(hotspots.len(), 3);
    let a = hotspots.iter().find(|h| h.name == "src/a.rs").unwrap();
    assert_eq!(a.num_revisions, 2);
    assert_eq!(a.num_authors, 2);
    assert_eq!(a.num_code_lines, 12);
    let d = hotspots.iter().find(|h| h.name == "docs/readme.md").unwrap();
    assert_eq!(d.num_revisions, 1);
    assert_eq!(d.num_authors, 1);
    // ordered by revision count, largest first
    assert!(hotspots[0].num_revisions >= hotspots[1].num_revisions);
    assert!(hotspots[1].num_revisions >= hotspots[2].num_revisions);
}

#[test]
fn file_change_couplings_are_counted_and_bounded() {
    let q = engine();
    let couplings = q.file_change_couplings(None);
    assert_eq!(couplings.len(), 1);
    let c = &couplings[0];
    assert_eq!(c.left_name, "src/a.rs");
    assert_eq!(c.right_name, "src/b.rs");
    assert_eq!(c.coupled_revisions, 2);
    assert_eq!(c.num_left_revisions, 2);
    assert_eq!(c.num_right_revisions, 2);
    // the coupling ratio lies between zero and one
    let avg = c.average_revisions();
    assert!(c.coupled_revisions <= avg);
    let ratio = c.coupled_revisions as f64 / avg as f64;
    assert!((0.0..=1.0).contains(&ratio));
}

#[test]
fn couplings_for_one_file_list_partners() {
    let q = engine();
    let couplings = q.change_couplings_for_file("src/a.rs", None);
    assert_eq!(couplings.len(), 1);
    assert_eq!(couplings[0].left_name, "src/a.rs");
    assert_eq!(couplings[0].right_name, "src/b.rs");
    assert_eq!(couplings[0].coupled_revisions, 2);
}

#[test]
fn sum_of_couplings_counts_both_directions() {
    let q = engine();
    let socs = q.file_sum_of_couplings(None);
    assert_eq!(socs.len(), 2);
    // each of a and b pairs with the other in two revisions
    assert_eq!(socs[0].sum_of_couplings, 2);
    assert_eq!(socs[1].sum_of_couplings, 2);
    assert!(!socs.iter().any(|s| s.name == "docs/readme.md"));
}

#[test]
fn module_reports_group_by_parent_directory() {
    let q = engine();
    assert_eq!(q.module_name_of("src/a.rs"), "src");
    let modules = q.modules();
    assert_eq!(modules.len(), 2);
    assert_eq!(modules[0].name, "docs");
    assert_eq!(modules[1].name, "src");
    assert_eq!(modules[1].files.len(), 2);
    let src_files = q.module_files("src");
    assert_eq!(src_files.len(), 2);
    assert_eq!(src_files[0].name, "src/b.rs");
}

#[test]
fn module_hotspots_sum_latest_sizes() {
    let q = engine();
    let hotspots = q.module_hotspots(None);
    assert_eq!(hotspots.len(), 2);
    let src = hotspots.iter().find(|h| h.name == "src").unwrap();
    assert_eq!(src.num_revisions, 2);
    assert_eq!(src.num_authors, 2);
    assert_eq!(src.num_code_lines, 25 + 12);
    let docs = hotspots.iter().find(|h| h.name == "docs").unwrap();
    assert_eq!(docs.num_revisions, 1);
}

#[test]
fn module_couplings_pair_co_changed_modules() {
    let log = vec![log_entry("r1", 100, "a")];
    let entries = vec![
        row("r1", "left/a.rs", 100, 1, 1, 0),
        row("r1", "right/b.rs", 100, 1, 1, 0),
    ];
    let q = RepositoryQuerying::new(
        "d".to_string(),
        log,
        entries,
        &IgnoreFile::empty(),
        ModuleDefinitions::empty(),
        &AuthorNormalizer::empty(),
        &RepositoryQueryingConfig::default(),
    );
    let couplings = q.module_change_couplings(None);
    assert_eq!(couplings.len(), 1);
    assert_eq!(couplings[0].left_name, "left");
    assert_eq!(couplings[0].right_name, "right");
    assert_eq!(couplings[0].coupled_revisions, 1);
    let socs = q.module_sum_of_couplings(None);
    assert_eq!(socs.len(), 2);
    let per_module = q.change_couplings_for_module("left", None);
    assert_eq!(per_module.len(), 1);
    assert_eq!(per_module[0].right_name, "right");
}

#[test]
fn file_history_is_chronological() {
    let q = engine();
    let history = q.file_history("src/a.rs");
    assert_eq!(history.len(), 2);
    assert_eq!(history[0].revision, "r1");
    assert_eq!(history[0].num_code_lines, 10);
    assert_eq!(history[1].revision, "r2");
    assert_eq!(history[1].num_code_lines, 12);
}

#[test]
fn main_developer_takes_largest_net_share() {
    let q = engine();
    let devs = q.files_main_developer();
    assert_eq!(devs.len(), 3);
    let b = devs.iter().find(|d| d.name == "src/b.rs").unwrap();
    // alf added 20 net lines at r1, bea 5 at r2
    assert_eq!(b.main_developer, "alf");
    assert_eq!(b.net_added_lines, 20);
    assert_eq!(b.total_net_added_lines, 25);
    let mods = q.modules_main_developer();
    let src = mods.iter().find(|d| d.name == "src").unwrap();
    assert_eq!(src.main_developer, "alf");
    assert_eq!(src.total_net_added_lines, 10 + 20 + 2 + 5);
}

#[test]
fn main_developer_tie_breaks_by_author_name() {
    let log = vec![log_entry("r1", 100, "ann"), log_entry("r2", 200, "zoe")];
    let entries = vec![
        row("r1", "f.rs", 100, 1, 5, 0),
        row("r2", "f.rs", 200, 1, 5, 0),
    ];
    let q = RepositoryQuerying::new(
        "d".to_string(),
        log,
        entries,
        &IgnoreFile::empty(),
        ModuleDefinitions::empty(),
        &AuthorNormalizer::empty(),
        &RepositoryQueryingConfig::default(),
    );
    let devs = q.files_main_developer();
    // equal net contributions: the lexicographically larger author wins
    assert_eq!(devs[0].main_developer, "zoe");
    assert_eq!(devs[0].net_added_lines, 5);
    assert_eq!(devs[0].total_net_added_lines, 10);
}

#[test]
fn commit_spread_counts_revisions_per_module_and_author() {
    let q = engine();
    let spread = q.commit_spread();
    // modules ordered by name; within a module, by count
    assert_eq!(spread.len(), 3);
    assert_eq!(spread[0].module_name, "docs");
    assert_eq!(spread[0].author, "alf");
    assert_eq!(spread[0].num_revisions, 1);
    let src_alf = spread.iter().find(|s| s.module_name == "src" && s.author == "alf").unwrap();
    assert_eq!(src_alf.num_revisions, 1);
    let src_bea = spread.iter().find(|s| s.module_name == "src" && s.author == "bea").unwrap();
    assert_eq!(src_bea.num_revisions, 1);
}

#[test]
fn summary_composes_the_overview() {
    let q = engine();
    let s = q.summary();
    assert_eq!(s.data_directory, "repo");
    assert_eq!(s.num_revisions, 3);
    assert_eq!(s.first_commit.unwrap().revision, "r1");
    assert_eq!(s.last_commit.unwrap().revision, "r3");
    assert_eq!(s.num_files, 3);
    assert_eq!(s.num_modules, 2);
    assert_eq!(s.num_code_lines, 25 + 12 + 7);
    assert_eq!(s.top_authors.len(), 2);
    assert_eq!(s.top_authors[0].name, "alf");
    assert_eq!(s.top_authors[0].num_revisions, 2);
    assert_eq!(s.top_code_files.len(), 3);
    assert_eq!(s.top_code_files[0].name, "src/b.rs");
    assert_eq!(s.last_changed_files.len(), 5);
    assert_eq!(s.last_changed_files[0].revision, "r3");
}
