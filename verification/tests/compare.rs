use diffvibe::compare::{
    build_compare_tree, compare_directories, compute_dir_status, file_hash, scan_dir_entries,
    CompareEntry, FileStatus, FoundFile, RootScan,
};
use diffvibe::error::TreeError;
use diffvibe::filemap::FileMap;

fn found(path: &str, content: &str) -> FoundFile {
    FoundFile {
        rel_path: path.to_string(),
        size: content.len() as u64,
        digest: Some(file_hash(content.as_bytes())),
    }
}

fn shape(entries: &[CompareEntry]) -> Vec<(String, bool, FileStatus, usize)> {
    entries
        .iter()
        .map(|e| (e.rel_path.clone(), e.is_dir, e.status, e.children.len()))
        .collect()
}

#[test]
fn test_compare_directories() {
    let left = RootScan::Listed(vec![
        found("same.txt", "same content"),
        found("modified.txt", "left version"),
        found("left-only.txt", "only left"),
    ]);
    let right = RootScan::Listed(vec![
        found("same.txt", "same content"),
        found("modified.txt", "right version"),
        found("right-only.txt", "only right"),
    ]);

    let result = compare_directories("/tmp/left", "/tmp/right", &left, &right).unwrap();

    assert_eq!(result.stats.identical, 1);
    assert_eq!(result.stats.modified, 1);
    assert_eq!(result.stats.left_only, 1);
    assert_eq!(result.stats.right_only, 1);
    assert_eq!(result.stats.total_files, 4);
    assert_eq!(result.left_path, "/tmp/left");
    assert_eq!(result.right_path, "/tmp/right");
    assert_eq!(
        shape(&result.entries),
        vec![
            ("left-only.txt".to_string(), false, FileStatus::LeftOnly, 0),
            ("modified.txt".to_string(), false, FileStatus::Modified, 0),
            ("right-only.txt".to_string(), false, FileStatus::RightOnly, 0),
            ("same.txt".to_string(), false, FileStatus::Identical, 0),
        ]
    );
    assert_eq!(result.entries[0].left_size, Some(9));
    assert_eq!(result.entries[0].right_size, None);
    assert_eq!(result.entries[1].left_size, Some(12));
    assert_eq!(result.entries[1].right_size, Some(13));
    assert_eq!(result.entries[2].left_size, None);
    assert_eq!(result.entries[2].right_size, Some(10));
}

#[test]
fn compare_refuses_roots_that_are_no_directories() {
    let listed = RootScan::Listed(Vec::new());
    match compare_directories("l", "r", &RootScan::NotADirectory, &RootScan::NotADirectory) {
        Err(e) => {
            assert!(matches!(&e, TreeError::NotADirectory(p) if p == "l"));
            assert_eq!(e.message(), "l is not a directory");
        }
        Ok(_) => panic!("no error"),
    }
    match compare_directories("l", "r", &listed, &RootScan::NotADirectory) {
        Err(e) => assert_eq!(e.message(), "r is not a directory"),
        Ok(_) => panic!("no error"),
    }
    match compare_directories("l", "r", &RootScan::Unreadable("denied".to_string()), &RootScan::NotADirectory) {
        Err(e) => assert_eq!(e.message(), "r is not a directory"),
        Ok(_) => panic!("no error"),
    }
}

#[test]
fn compare_hands_on_the_failure_of_a_walk() {
    let listed = RootScan::Listed(Vec::new());
    match compare_directories(
        "l",
        "r",
        &RootScan::Unreadable("left denied".to_string()),
        &RootScan::Unreadable("right denied".to_string()),
    ) {
        Err(e) => {
            assert!(matches!(&e, TreeError::Io(m) if m == "left denied"));
            assert_eq!(e.message(), "left denied");
        }
        Ok(_) => panic!("no error"),
    }
    match compare_directories("l", "r", &listed, &RootScan::Unreadable("right denied".to_string())) {
        Err(e) => assert_eq!(e.message(), "right denied"),
        Ok(_) => panic!("no error"),
    }
}

#[test]
fn compare_of_empty_roots_is_empty() {
    let r = compare_directories("l", "r", &RootScan::Listed(vec![]), &RootScan::Listed(vec![])).unwrap();
    assert!(r.entries.is_empty());
    assert_eq!(r.stats.total_files, 0);
}

#[test]
fn compare_builds_nested_directories() {
    let left = RootScan::Listed(vec![
        found("a/b/c.txt", "deep"),
        found("a/x.txt", "x"),
        found("top.txt", "t"),
    ]);
    let right = RootScan::Listed(vec![
        found("a/b/c.txt", "deep"),
        found("a/x.txt", "y"),
        found("top.txt", "t"),
        found("z/only.txt", "r"),
    ]);
    let r = compare_directories("l", "r", &left, &right).unwrap();
    assert_eq!(
        shape(&r.entries),
        vec![
            ("a".to_string(), true, FileStatus::Modified, 2),
            ("z".to_string(), true, FileStatus::RightOnly, 1),
            ("top.txt".to_string(), false, FileStatus::Identical, 0),
        ]
    );
    let a = &r.entries[0];
    assert_eq!(a.name, "a");
    assert_eq!(a.left_size, None);
    assert_eq!(a.right_size, None);
    assert_eq!(
        shape(&a.children),
        vec![
            ("a/b".to_string(), true, FileStatus::Identical, 1),
            ("a/x.txt".to_string(), false, FileStatus::Modified, 0),
        ]
    );
    assert_eq!(a.children[0].name, "b");
    assert_eq!(a.children[0].children[0].rel_path, "a/b/c.txt");
    assert_eq!(a.children[0].children[0].name, "c.txt");
    assert_eq!(r.stats.identical, 2);
    assert_eq!(r.stats.modified, 1);
    assert_eq!(r.stats.right_only, 1);
    assert_eq!(r.stats.left_only, 0);
    assert_eq!(r.stats.total_files, 4);
}

#[test]
fn compare_keeps_directories_without_files_of_their_own() {
    let left = RootScan::Listed(vec![found("a/b/c/d.txt", "x")]);
    let r = compare_directories("l", "r", &left, &RootScan::Listed(vec![])).unwrap();
    assert_eq!(shape(&r.entries), vec![("a".to_string(), true, FileStatus::LeftOnly, 1)]);
    let b = &r.entries[0].children[0];
    assert_eq!((b.rel_path.as_str(), b.is_dir), ("a/b", true));
    let c = &b.children[0];
    assert_eq!((c.rel_path.as_str(), c.name.as_str()), ("a/b/c", "c"));
    assert_eq!(c.children[0].rel_path, "a/b/c/d.txt");
    assert_eq!(r.stats.left_only, 1);
}

#[test]
fn compare_sorts_every_level_directories_first_and_without_case() {
    let names = ["b.txt", "A.txt", "c/1", "C.txt", "a.txt", "B/2", "B/1", "d/x/Z", "d/x/y", "d/X/q"];
    let left = RootScan::Listed(names.iter().map(|n| found(n, "same")).collect());
    let right = RootScan::Listed(names.iter().map(|n| found(n, "same")).collect());
    let r = compare_directories("l", "r", &left, &right).unwrap();
    let top: Vec<&str> = r.entries.iter().map(|e| e.name.as_str()).collect();
    assert_eq!(top, vec!["B", "c", "d", "A.txt", "a.txt", "b.txt", "C.txt"]);
    let b: Vec<&str> = r.entries[0].children.iter().map(|e| e.name.as_str()).collect();
    assert_eq!(b, vec!["1", "2"]);
    let d: Vec<&str> = r.entries[2].children.iter().map(|e| e.name.as_str()).collect();
    assert_eq!(d, vec!["X", "x"]);
    let dx: Vec<&str> = r.entries[2].children[1].children.iter().map(|e| e.name.as_str()).collect();
    assert_eq!(dx, vec!["y", "Z"]);
}

#[test]
fn compare_leaves_hidden_paths_out() {
    let left = RootScan::Listed(vec![
        found(".env", "secret"),
        found("src/.cache/x", "x"),
        found(".git/config", "c"),
        found("src/main.rs", "m"),
        found("a.b", "dot inside"),
    ]);
    let r = compare_directories("l", "r", &left, &RootScan::Listed(vec![])).unwrap();
    assert_eq!(r.stats.total_files, 2);
    assert_eq!(
        shape(&r.entries),
        vec![
            ("src".to_string(), true, FileStatus::LeftOnly, 1),
            ("a.b".to_string(), false, FileStatus::LeftOnly, 0),
        ]
    );
}

#[test]
fn compare_file_and_directory_of_one_name() {
    let left = RootScan::Listed(vec![found("a", "file")]);
    let right = RootScan::Listed(vec![found("a/inner", "x")]);
    let r = compare_directories("l", "r", &left, &right).unwrap();
    assert_eq!(
        shape(&r.entries),
        vec![
            ("a".to_string(), true, FileStatus::RightOnly, 1),
            ("a".to_string(), false, FileStatus::LeftOnly, 0),
        ]
    );
}

#[test]
fn unread_files_with_no_digest_count_as_identical() {
    let l = RootScan::Listed(vec![FoundFile { rel_path: "f".to_string(), size: 1, digest: None }]);
    let r = RootScan::Listed(vec![FoundFile { rel_path: "f".to_string(), size: 2, digest: None }]);
    let out = compare_directories("l", "r", &l, &r).unwrap();
    assert_eq!(out.entries[0].status, FileStatus::Identical);
    let r2 = RootScan::Listed(vec![FoundFile { rel_path: "f".to_string(), size: 2, digest: Some(1) }]);
    let out = compare_directories("l", "r", &l, &r2).unwrap();
    assert_eq!(out.entries[0].status, FileStatus::Modified);
}

fn node(status: FileStatus) -> CompareEntry {
    CompareEntry {
        name: "n".to_string(),
        rel_path: "n".to_string(),
        is_dir: false,
        status,
        left_size: None,
        right_size: None,
        children: Vec::new(),
    }
}

#[test]
fn dir_status_from_children() {
    let cases: Vec<(Vec<FileStatus>, FileStatus)> = vec![
        (vec![], FileStatus::Identical),
        (vec![FileStatus::Identical, FileStatus::Identical], FileStatus::Identical),
        (vec![FileStatus::Identical, FileStatus::Modified], FileStatus::Modified),
        (
            vec![FileStatus::LeftOnly, FileStatus::Modified, FileStatus::RightOnly],
            FileStatus::Modified,
        ),
        (vec![FileStatus::LeftOnly, FileStatus::Identical], FileStatus::LeftOnly),
        (vec![FileStatus::RightOnly], FileStatus::RightOnly),
        (
            vec![FileStatus::RightOnly, FileStatus::Identical, FileStatus::RightOnly],
            FileStatus::RightOnly,
        ),
        (vec![FileStatus::LeftOnly, FileStatus::RightOnly], FileStatus::Modified),
        (
            vec![FileStatus::Identical, FileStatus::RightOnly, FileStatus::LeftOnly],
            FileStatus::Modified,
        ),
    ];
    for (children, want) in cases {
        let nodes: Vec<CompareEntry> = children.iter().map(|s| node(*s)).collect();
        assert_eq!(compute_dir_status(&nodes), want, "{:?}", children);
    }
}

#[test]
fn file_hash_is_xxh3_of_the_first_64_kib() {
    assert_eq!(file_hash(b""), xxhash_rust::xxh3::xxh3_64(b""));
    assert_eq!(file_hash(b"same content"), xxhash_rust::xxh3::xxh3_64(b"same content"));
    assert_ne!(file_hash(b"left version"), file_hash(b"right version"));
    let mut long_a = vec![7u8; 65536];
    let mut long_b = long_a.clone();
    long_a.extend_from_slice(b"tail a");
    long_b.extend_from_slice(b"another tail");
    assert_eq!(file_hash(&long_a), file_hash(&long_b));
    assert_eq!(file_hash(&long_a), xxhash_rust::xxh3::xxh3_64(&long_a[..65536]));
    long_b[65535] = 8;
    assert_ne!(file_hash(&long_a), file_hash(&long_b));
    let exact = vec![1u8; 65536];
    assert_eq!(file_hash(&exact), xxhash_rust::xxh3::xxh3_64(&exact));
}

#[test]
fn files_that_differ_past_the_prefix_count_as_identical() {
    let mut a = vec![b'x'; 70000];
    let b = a.clone();
    a[69999] = b'y';
    let l = RootScan::Listed(vec![FoundFile { rel_path: "big".to_string(), size: 70000, digest: Some(file_hash(&a)) }]);
    let r = RootScan::Listed(vec![FoundFile { rel_path: "big".to_string(), size: 70000, digest: Some(file_hash(&b)) }]);
    let out = compare_directories("l", "r", &l, &r).unwrap();
    assert_eq!(out.stats.identical, 1);
}

#[test]
fn scan_dir_entries_later_file_counts() {
    let map = scan_dir_entries(&vec![
        FoundFile { rel_path: "f".to_string(), size: 1, digest: Some(1) },
        FoundFile { rel_path: ".h".to_string(), size: 1, digest: Some(1) },
        FoundFile { rel_path: "f".to_string(), size: 2, digest: Some(2) },
    ]);
    assert_eq!(map.len(), 1);
    let info = map.get("f").unwrap();
    assert_eq!((info.size, info.digest), (2, Some(2)));
    assert!(map.get(".h").is_none());
}

#[test]
fn build_compare_tree_from_maps() {
    let mut left = FileMap::new();
    let mut right = FileMap::new();
    left.insert("d/one", 1, Some(10));
    left.insert("d/two", 2, Some(20));
    right.insert("d/two", 2, Some(20));
    right.insert("d/three", 3, Some(30));
    let (tree, stats) = build_compare_tree(&left, &right);
    assert_eq!(shape(&tree), vec![("d".to_string(), true, FileStatus::Modified, 3)]);
    assert_eq!(
        shape(&tree[0].children),
        vec![
            ("d/one".to_string(), false, FileStatus::LeftOnly, 0),
            ("d/three".to_string(), false, FileStatus::RightOnly, 0),
            ("d/two".to_string(), false, FileStatus::Identical, 0),
        ]
    );
    assert_eq!(
        (stats.identical, stats.modified, stats.left_only, stats.right_only, stats.total_files),
        (1, 0, 1, 1, 3)
    );
}

#[test]
fn a_copy_of_a_compare_node_copies_everything_below() {
    let left = RootScan::Listed(vec![found("a/b/c.txt", "deep"), found("a/x.txt", "x")]);
    let r = compare_directories("l", "r", &left, &RootScan::Listed(vec![])).unwrap();
    let copy = r.entries[0].clone();
    assert_eq!(format!("{:?}", copy), format!("{:?}", r.entries[0]));
    assert_eq!(copy.children[0].children[0].rel_path, "a/b/c.txt");
}

#[test]
fn counts_are_those_of_the_distinct_paths() {
    let mut left = FileMap::new();
    let mut right = FileMap::new();
    left.insert("a.txt", 1, Some(7));
    right.insert("a.txt", 2, Some(7));
    let (tree, stats) = build_compare_tree(&left, &right);
    assert_eq!(shape(&tree), vec![("a.txt".to_string(), false, FileStatus::Identical, 0)]);
    assert_eq!(tree[0].name, "a.txt");
    assert_eq!((tree[0].left_size, tree[0].right_size), (Some(1), Some(2)));
    assert_eq!(
        (stats.identical, stats.modified, stats.left_only, stats.right_only, stats.total_files),
        (1, 0, 0, 0, 1)
    );
}

#[test]
fn a_path_that_begins_with_a_slash_lies_in_a_nameless_directory() {
    let mut left = FileMap::new();
    left.insert("/x", 1, Some(1));
    left.insert("x", 1, Some(1));
    let (tree, stats) = build_compare_tree(&left, &FileMap::new());
    assert_eq!(
        shape(&tree),
        vec![
            ("".to_string(), true, FileStatus::LeftOnly, 1),
            ("x".to_string(), false, FileStatus::LeftOnly, 0),
        ]
    );
    assert_eq!(tree[0].name, "");
    assert_eq!(tree[0].children[0].rel_path, "/x");
    assert_eq!(tree[0].children[0].name, "x");
    assert_eq!(stats.total_files, 2);
}
