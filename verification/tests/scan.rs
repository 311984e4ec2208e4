use diffvibe::error::TreeError;
use diffvibe::scan::{
    build_dir_tree, build_dir_tree_lazy, count_files, expand_directory, is_shown, scan_directory,
    scan_directory_lazy, DirEntry, RawEntry, RawKind, RootListing,
};

fn file(rel: &str, size: u64) -> RawEntry {
    RawEntry {
        name: rel.rsplit('/').next().unwrap().to_string(),
        rel_path: rel.to_string(),
        kind: RawKind::File,
        size,
        failure: None,
        children: Vec::new(),
    }
}

fn dir(rel: &str, children: Vec<RawEntry>) -> RawEntry {
    RawEntry {
        name: rel.rsplit('/').next().unwrap().to_string(),
        rel_path: rel.to_string(),
        kind: RawKind::Directory,
        size: 4096,
        failure: None,
        children,
    }
}

fn locked(rel: &str, why: &str) -> RawEntry {
    RawEntry { failure: Some(why.to_string()), ..dir(rel, Vec::new()) }
}

fn other(rel: &str) -> RawEntry {
    RawEntry { kind: RawKind::Other, ..file(rel, 1) }
}

fn pats(v: &[&str]) -> Vec<String> {
    v.iter().map(|s| s.to_string()).collect()
}

fn paths(entries: &[DirEntry]) -> Vec<&str> {
    entries.iter().map(|e| e.rel_path.as_str()).collect()
}

fn all_paths(entries: &[DirEntry], out: &mut Vec<String>) {
    for e in entries {
        out.push(e.rel_path.clone());
        all_paths(&e.children, out);
    }
}

fn sample() -> Vec<RawEntry> {
    vec![
        file("zeta.txt", 5),
        dir("src", vec![file("src/main.rs", 100), file("src/Lib.rs", 50), dir("src/empty", vec![])]),
        file("Alpha.md", 7),
        dir("build", vec![file("build/out.o", 1), dir("build/deep", vec![file("build/deep/x", 2)])]),
        file(".hidden", 3),
        dir(".git", vec![file(".git/config", 9), file(".git/.lock", 1)]),
        other("socket"),
        file("beta.log", 11),
        dir("Docs", vec![file("Docs/readme", 4)]),
    ]
}

#[test]
fn full_scan_filters_prunes_and_sorts() {
    let tree = build_dir_tree(&sample(), &pats(&["build/", "*.log"])).unwrap();
    assert_eq!(paths(&tree), vec!["Docs", "src", "Alpha.md", "zeta.txt"]);
    assert_eq!(paths(&tree[1].children), vec!["src/Lib.rs", "src/main.rs"]);
    assert_eq!(tree[1].name, "src");
    assert!(tree[1].is_dir);
    assert_eq!(tree[1].size, 0);
    assert_eq!(tree[1].children[1].size, 100);
    assert!(!tree[2].is_dir);
    assert_eq!(tree[2].size, 7);
    assert!(tree[2].children.is_empty());
}

#[test]
fn ignore_pattern_for_a_directory_excludes_everything_below() {
    let tree = build_dir_tree(&sample(), &pats(&["build/"])).unwrap();
    let mut all = Vec::new();
    all_paths(&tree, &mut all);
    assert!(all.iter().all(|p| !p.starts_with("build/") && p != "build"));
    assert!(all.contains(&"beta.log".to_string()));
    let lazy = build_dir_tree_lazy(&sample(), &pats(&["build/"]), 0, 9);
    let mut all = Vec::new();
    all_paths(&lazy, &mut all);
    assert!(all.iter().all(|p| !p.starts_with("build/") && p != "build"));
    let tree = build_dir_tree(&sample(), &pats(&[])).unwrap();
    let mut all = Vec::new();
    all_paths(&tree, &mut all);
    assert!(all.contains(&"build/deep/x".to_string()));
}

#[test]
fn hidden_names_are_left_out_but_not_below_git() {
    assert!(!is_shown(".hidden", ".hidden", &pats(&[])));
    assert!(!is_shown(".git", ".git", &pats(&[])));
    assert!(is_shown(".lock", ".git/.lock", &pats(&[])));
    assert!(is_shown("config", ".git/config", &pats(&[])));
    assert!(!is_shown(".x", "a/.x", &pats(&[])));
    assert!(is_shown("x", "a/x", &pats(&[])));
    assert!(!is_shown("x", "a/x", &pats(&["a/"])));
    assert!(is_shown("", "", &pats(&[])));
}

#[test]
fn full_scan_fails_on_the_first_shown_directory_that_could_not_be_listed() {
    let raw = vec![
        dir("a", vec![file("a/f", 1), locked("a/locked", "denied a")]),
        locked("b", "denied b"),
    ];
    match build_dir_tree(&raw, &pats(&[])) {
        Err(message) => assert_eq!(message, "denied a"),
        Ok(_) => panic!("no failure"),
    }
    let raw = vec![locked("b", "denied b"), dir("a", vec![locked("a/locked", "denied a")])];
    match build_dir_tree(&raw, &pats(&[])) {
        Err(message) => assert_eq!(message, "denied b"),
        Ok(_) => panic!("no failure"),
    }
}

#[test]
fn full_scan_passes_over_unlisted_directories_that_are_not_shown() {
    let raw = vec![locked(".secret", "denied"), locked("skip", "denied"), file("f", 1)];
    let tree = build_dir_tree(&raw, &pats(&["skip/"])).unwrap();
    assert_eq!(paths(&tree), vec!["f"]);
    match scan_directory("root", &RootListing::Entries(vec![locked("d", "no")]), &pats(&[])) {
        Err(TreeError::Io(m)) => assert_eq!(m, "no"),
        _ => panic!("no failure"),
    }
}

#[test]
fn bounded_scan_stops_at_the_depth() {
    let raw = sample();
    assert!(build_dir_tree_lazy(&raw, &pats(&[]), 0, 0).is_empty());
    assert!(build_dir_tree_lazy(&raw, &pats(&[]), 3, 2).is_empty());
    let one = build_dir_tree_lazy(&raw, &pats(&[]), 0, 1);
    assert_eq!(paths(&one), vec!["build", "Docs", "src", "Alpha.md", "beta.log", "zeta.txt"]);
    assert!(one.iter().all(|e| e.children.is_empty()));
    let two = build_dir_tree_lazy(&raw, &pats(&[]), 0, 2);
    assert_eq!(paths(&two[0].children), vec!["build/deep", "build/out.o"]);
    assert!(two[0].children[0].children.is_empty());
    assert_eq!(paths(&two[2].children), vec!["src/empty", "src/Lib.rs", "src/main.rs"]);
    let three = build_dir_tree_lazy(&raw, &pats(&[]), 0, 3);
    assert_eq!(paths(&three[0].children[0].children), vec!["build/deep/x"]);
    let from_one = build_dir_tree_lazy(&raw, &pats(&[]), 1, 3);
    assert!(from_one[0].children[0].children.is_empty());
}

#[test]
fn bounded_scan_shows_unlisted_directories_without_children() {
    let raw = vec![locked("d", "denied"), dir("e", vec![locked("e/in", "denied"), file("e/f", 2)])];
    let tree = build_dir_tree_lazy(&raw, &pats(&[]), 0, 5);
    assert_eq!(paths(&tree), vec!["d", "e"]);
    assert!(tree[0].children.is_empty());
    assert_eq!(paths(&tree[1].children), vec!["e/in", "e/f"]);
}

#[test]
fn count_files_leaves_directories_out() {
    let tree = build_dir_tree(&sample(), &pats(&[])).unwrap();
    assert_eq!(count_files(&tree), 8);
    assert_eq!(count_files(&[]), 0);
    let lazy = build_dir_tree_lazy(&sample(), &pats(&[]), 0, 1);
    assert_eq!(count_files(&lazy), 3);
}

#[test]
fn scan_directory_reports_root_and_count() {
    let root = RootListing::Entries(sample());
    let r = scan_directory("/work", &root, &pats(&["*.log"])).unwrap();
    assert_eq!(r.root_path, "/work");
    assert_eq!(r.file_count, 7);
    assert_eq!(paths(&r.entries), vec!["build", "Docs", "src", "Alpha.md", "zeta.txt"]);
    let r = scan_directory_lazy("/work", &root, &pats(&["*.log"]), 1).unwrap();
    assert_eq!(r.root_path, "/work");
    assert_eq!(r.file_count, 2);
    assert_eq!(r.entries.len(), 5);
}

#[test]
fn scans_refuse_what_is_no_directory() {
    match scan_directory("/f", &RootListing::NotADirectory, &pats(&[])) {
        Err(e) => {
            assert!(matches!(&e, TreeError::NotADirectory(p) if p == "/f"));
            assert_eq!(e.message(), "/f is not a directory");
        }
        Ok(_) => panic!("no error"),
    }
    match scan_directory_lazy("/f", &RootListing::NotADirectory, &pats(&[]), 2) {
        Err(e) => assert_eq!(e.message(), "/f is not a directory"),
        Ok(_) => panic!("no error"),
    }
    match expand_directory("/f/sub", &RootListing::NotADirectory, &pats(&[])) {
        Err(e) => assert_eq!(e.message(), "/f/sub is not a directory"),
        Ok(_) => panic!("no error"),
    }
    match scan_directory("/f", &RootListing::Unreadable("gone".to_string()), &pats(&[])) {
        Err(e) => assert_eq!(e.message(), "gone"),
        Ok(_) => panic!("no error"),
    }
    match expand_directory("/f", &RootListing::Unreadable("gone".to_string()), &pats(&[])) {
        Err(TreeError::Io(m)) => assert_eq!(m, "gone"),
        _ => panic!("no error"),
    }
}

#[test]
fn expand_lists_one_level() {
    let listing = RootListing::Entries(vec![
        file("src/b.rs", 2),
        dir("src/inner", vec![file("src/inner/deep.rs", 3)]),
        file("src/.keep", 0),
        file("src/A.rs", 1),
    ]);
    let entries = expand_directory("/root/src", &listing, &pats(&[])).unwrap();
    assert_eq!(paths(&entries), vec!["src/inner", "src/A.rs", "src/b.rs"]);
    assert!(entries[0].children.is_empty());
}

#[test]
fn levels_sort_directories_first_then_names_without_case() {
    let raw = vec![
        file("b", 1),
        file("B", 1),
        dir("z", vec![file("z/f", 1)]),
        file("a", 1),
        dir("Y", vec![file("Y/f", 1)]),
        file("A", 1),
        file("C", 1),
    ];
    let tree = build_dir_tree(&raw, &pats(&[])).unwrap();
    assert_eq!(paths(&tree), vec!["Y", "z", "A", "a", "B", "b", "C"]);
}

#[test]
fn a_copy_of_a_node_copies_everything_below() {
    let tree = build_dir_tree(&sample(), &pats(&[])).unwrap();
    let copy = tree[0].clone();
    assert_eq!(format!("{:?}", copy), format!("{:?}", tree[0]));
    assert_eq!(copy.children.len(), 2);
    assert_eq!(copy.children[0].children[0].rel_path, "build/deep/x");
}
