use gitrends::model::ChangeCouplingEntry;
use gitrends::model::HotspotEntry;
use gitrends::model::MainDeveloperEntry;
use gitrends::trees::ChangeCouplingTree;
use gitrends::trees::HotspotTree;
use gitrends::trees::MainDeveloperTree;
use gitrends::trees::split_segments;

fn hotspot(name: &str, revisions: u64, authors: u64, code: u64) -> HotspotEntry {
    HotspotEntry {
        name: name.to_string(),
        num_revisions: revisions,
        num_authors: authors,
        num_code_lines: code,
        num_comment_lines: 0,
        num_blank_lines: 0,
        total_indent_levels: 0,
        square_indent_levels: 0,
    }
}

#[test]
fn path_segments_split_on_slashes() {
    assert_eq!(split_segments("a/b/c.rs"), vec!["a", "b", "c.rs"]);
    assert_eq!(split_segments("plain"), vec!["plain"]);
    assert_eq!(split_segments("a//b"), vec!["a", "b"]);
    assert!(split_segments("").is_empty());
}

#[test]
fn hotspot_tree_builds_sorted_hierarchy() {
    let hotspots = vec![
        hotspot("src/z.rs", 4, 2, 100),
        hotspot("src/a.rs", 2, 1, 50),
        hotspot("README.md", 1, 1, 10),
    ];
    let tree = HotspotTree::from_vec(&hotspots);
    assert_eq!(tree.name(), "root");
    match tree {
        HotspotTree::Tree { children, .. } => {
            assert_eq!(children.len(), 2);
            assert_eq!(children[0].name(), "README.md");
            assert_eq!(children[1].name(), "src");
            match &children[0] {
                HotspotTree::Leaf { size, num_revisions, max_revisions, num_authors, max_authors, .. } => {
                    assert_eq!(*size, 10);
                    assert_eq!(*num_revisions, 1);
                    assert_eq!(*max_revisions, 4);
                    assert_eq!(*num_authors, 1);
                    assert_eq!(*max_authors, 2);
                }
                HotspotTree::Tree { .. } => panic!("README.md must be a leaf"),
            }
            match &children[1] {
                HotspotTree::Tree { children: inner, .. } => {
                    assert_eq!(inner.len(), 2);
                    assert_eq!(inner[0].name(), "a.rs");
                    assert_eq!(inner[1].name(), "z.rs");
                }
                HotspotTree::Leaf { .. } => panic!("src must be an inner node"),
            }
        }
        HotspotTree::Leaf { .. } => panic!("the root must be an inner node"),
    }
}

fn coupling_entry(left: &str, right: &str, coupled: u64, l: u64, r: u64) -> ChangeCouplingEntry {
    ChangeCouplingEntry {
        left_name: left.to_string(),
        right_name: right.to_string(),
        coupled_revisions: coupled,
        num_left_revisions: l,
        num_right_revisions: r,
    }
}

#[test]
fn coupling_tree_prunes_below_thresholds() {
    let couplings = vec![
        // ratio 10 / ((10+10)/2) = 1.0 -> survives
        coupling_entry("src/a.rs", "src/b.rs", 10, 10, 10),
        // only 1 coupled revision -> below the minimum count
        coupling_entry("src/c.rs", "docs/d.md", 1, 10, 10),
    ];
    // thresholds: at least 2 coupled revisions and a ratio of at least 1/2
    let tree = ChangeCouplingTree::from_vec(&couplings, true, 2, 1, 2);
    assert_eq!(tree.name(), "");
    match &tree {
        ChangeCouplingTree::Tree { children, .. } => {
            // docs/d.md and src/c.rs are pruned away entirely
            assert_eq!(children.len(), 1);
            assert_eq!(children[0].name(), "src");
            match &children[0] {
                ChangeCouplingTree::Tree { children: inner, .. } => {
                    assert_eq!(inner.len(), 2);
                    assert_eq!(inner[0].name(), "a.rs");
                    assert_eq!(inner[1].name(), "b.rs");
                    assert!(!inner[0].is_empty_leaf());
                    match &inner[0] {
                        ChangeCouplingTree::Leaf { couplings, .. } => {
                            assert_eq!(couplings.len(), 1);
                            assert_eq!(couplings[0].coupled, "src/b.rs");
                            assert_eq!(couplings[0].coupled_revisions, 10);
                            assert_eq!(couplings[0].average_revisions, 10);
                        }
                        ChangeCouplingTree::Tree { .. } => panic!("a.rs must be a leaf"),
                    }
                }
                ChangeCouplingTree::Leaf { .. } => panic!("src must be an inner node"),
            }
        }
        ChangeCouplingTree::Leaf { .. } => panic!("the root must be an inner node"),
    }
}

#[test]
fn coupling_tree_flat_mode_keeps_whole_names() {
    let couplings = vec![coupling_entry("core", "parsing", 5, 6, 8)];
    let tree = ChangeCouplingTree::from_vec(&couplings, false, 1, 0, 1);
    match &tree {
        ChangeCouplingTree::Tree { children, .. } => {
            assert_eq!(children.len(), 2);
            assert_eq!(children[0].name(), "core");
            assert_eq!(children[1].name(), "parsing");
        }
        ChangeCouplingTree::Leaf { .. } => panic!("the root must be an inner node"),
    }
}

#[test]
fn main_developer_tree_carries_owners() {
    let entries = vec![
        MainDeveloperEntry {
            name: "src/a.rs".to_string(),
            main_developer: "ann".to_string(),
            net_added_lines: 40,
            total_net_added_lines: 50,
        },
        MainDeveloperEntry {
            name: "src/b.rs".to_string(),
            main_developer: "bob".to_string(),
            net_added_lines: 9,
            total_net_added_lines: 9,
        },
    ];
    let tree = MainDeveloperTree::from_vec(&entries);
    assert_eq!(tree.name(), "root");
    match &tree {
        MainDeveloperTree::Tree { children, .. } => {
            assert_eq!(children.len(), 1);
            match &children[0] {
                MainDeveloperTree::Tree { children: inner, .. } => {
                    assert_eq!(inner.len(), 2);
                    match &inner[0] {
                        MainDeveloperTree::Leaf { name, size, main_developer } => {
                            assert_eq!(name, "a.rs");
                            assert_eq!(*size, 50);
                            assert_eq!(main_developer, "ann");
                        }
                        MainDeveloperTree::Tree { .. } => panic!("a.rs must be a leaf"),
                    }
                }
                MainDeveloperTree::Leaf { .. } => panic!("src must be an inner node"),
            }
        }
        MainDeveloperTree::Leaf { .. } => panic!("the root must be an inner node"),
    }
}

#[test]
fn first_entry_to_claim_a_spot_wins() {
    let hotspots = vec![hotspot("x", 1, 1, 11), hotspot("x", 9, 9, 99)];
    let tree = HotspotTree::from_vec(&hotspots);
    match tree {
        HotspotTree::Tree { children, .. } => {
            assert_eq!(children.len(), 1);
            match &children[0] {
                HotspotTree::Leaf { size, .. } => assert_eq!(*size, 11),
                HotspotTree::Tree { .. } => panic!("x must be a leaf"),
            }
        }
        HotspotTree::Leaf { .. } => panic!("the root must be an inner node"),
    }
}

#[test]
fn ownership_leaf_clamps_negative_totals_at_zero() {
    let entries = vec![MainDeveloperEntry {
        name: "f.rs".to_string(),
        main_developer: "ann".to_string(),
        net_added_lines: -3,
        total_net_added_lines: -5,
    }];
    let tree = MainDeveloperTree::from_vec(&entries);
    match &tree {
        MainDeveloperTree::Tree { children, .. } => match &children[0] {
            MainDeveloperTree::Leaf { size, .. } => assert_eq!(*size, 0),
            MainDeveloperTree::Tree { .. } => panic!("f.rs must be a leaf"),
        },
        MainDeveloperTree::Leaf { .. } => panic!("the root must be an inner node"),
    }
}
