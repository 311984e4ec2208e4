use diffvibe::chunks::{ChunkType, MergeChunk};
use diffvibe::merge::{compute_three_way_diff, try_compute_three_way_diff};

fn regions(chunks: &[MergeChunk]) -> Vec<(ChunkType, usize, usize, Vec<&str>, Vec<&str>)> {
    chunks
        .iter()
        .map(|c| {
            (
                c.chunk_type,
                c.base_start,
                c.base_count,
                c.local_lines.iter().map(|l| l.as_str()).collect(),
                c.remote_lines.iter().map(|l| l.as_str()).collect(),
            )
        })
        .collect()
}

#[test]
fn test_three_way_all_same() {
    let base = "line 1\nline 2";
    let local = "line 1\nline 2";
    let remote = "line 1\nline 2";

    let result = compute_three_way_diff(base, local, remote);

    assert_eq!(result.conflict_count, 0);
    assert_eq!(result.merged_content, "line 1\nline 2");
}

#[test]
fn test_three_way_with_conflict() {
    let base = "original line";
    let local = "local change";
    let remote = "remote change";

    let result = compute_three_way_diff(base, local, remote);

    assert_eq!(result.conflict_count, 1);
    assert!(result.merged_content.contains("<<<<<<< LOCAL"));
    assert!(result.merged_content.contains("======="));
    assert!(result.merged_content.contains(">>>>>>> REMOTE"));
}

#[test]
fn test_three_way_same_change() {
    let base = "original";
    let local = "changed";
    let remote = "changed";

    let result = compute_three_way_diff(base, local, remote);

    assert_eq!(result.conflict_count, 0);
    assert_eq!(result.merged_content, "changed");
}

#[test]
fn test_three_way_local_only() {
    let base = "line 1\nline 2";
    let local = "line 1\nmodified";
    let remote = "line 1\nline 2";

    let result = compute_three_way_diff(base, local, remote);

    assert_eq!(result.conflict_count, 0);
    assert!(result.merged_content.contains("modified"));
    assert!(!result.merged_content.contains("line 2"));
}

#[test]
fn test_three_way_remote_only() {
    let base = "line 1\nline 2";
    let local = "line 1\nline 2";
    let remote = "line 1\nchanged";

    let result = compute_three_way_diff(base, local, remote);

    assert_eq!(result.conflict_count, 0);
    assert!(result.merged_content.contains("changed"));
    assert!(!result.merged_content.contains("line 2"));
}

#[test]
fn test_three_way_realistic() {
    let base = "// Header
function foo() {
    return 1;
}

function bar() {
    return 2;
}";

    let local = "// Header
function foo() {
    console.log('foo called');
    return 1;
}

function bar() {
    return 2;
}";

    let remote = "// Header
function foo() {
    return 1;
}

function bar() {
    return 42;
}";

    let result = compute_three_way_diff(base, local, remote);

    println!("=== MERGED OUTPUT ===");
    println!("{}", result.merged_content);
    println!("=== CONFLICTS: {} ===", result.conflict_count);

    assert_eq!(result.conflict_count, 0, "Should have no conflicts");
    assert!(result.merged_content.contains("console.log"), "Should have local's logging");
    assert!(result.merged_content.contains("return 42"), "Should have remote's return value");
}

#[test]
fn merge_of_three_identical_texts_is_the_text() {
    for text in ["", "one", "one\ntwo", "a\n\nb", "tail \t\nnext"] {
        let r = compute_three_way_diff(text, text, text);
        assert_eq!(r.conflict_count, 0);
        assert_eq!(r.merged_content, text);
    }
}

#[test]
fn merge_of_identical_text_drops_final_newline() {
    let r = compute_three_way_diff("a\nb\n", "a\nb\n", "a\nb\n");
    assert_eq!(r.conflict_count, 0);
    assert_eq!(r.merged_content, "a\nb");
}

#[test]
fn merge_of_same_sides_is_that_side() {
    let base = "keep\nold\nlast";
    let side = "first\nkeep\nnew\nlast\nmore";
    let r = compute_three_way_diff(base, side, side);
    assert_eq!(r.conflict_count, 0);
    assert_eq!(r.merged_content, side);
}

#[test]
fn merge_conflict_block_is_exact() {
    let r = compute_three_way_diff("original line", "local change", "remote change");
    assert_eq!(r.conflict_count, 1);
    assert_eq!(
        r.merged_content,
        "<<<<<<< LOCAL\nlocal change\n=======\nremote change\n>>>>>>> REMOTE"
    );
    let local = r.merged_content.find("<<<<<<< LOCAL").unwrap();
    let middle = r.merged_content.find("=======").unwrap();
    let remote = r.merged_content.find(">>>>>>> REMOTE").unwrap();
    assert!(local < middle && middle < remote);
}

#[test]
fn merge_trims_inserted_lines_only() {
    let r = compute_three_way_diff("kept  \nend", "kept  \nadded \t\nend", "kept  \nend");
    assert_eq!(r.conflict_count, 0);
    assert_eq!(r.merged_content, "kept  \nadded\nend");
}

#[test]
fn merge_deletion_wins_without_conflict() {
    let r = compute_three_way_diff("a\nb\nc", "a\nc", "a\nb\nc");
    assert_eq!(r.conflict_count, 0);
    assert_eq!(r.merged_content, "a\nc");
    let r = compute_three_way_diff("a\nb\nc", "a\nb\nc", "a\nb");
    assert_eq!(r.conflict_count, 0);
    assert_eq!(r.merged_content, "a\nb");
}

#[test]
fn merge_takes_disjoint_edits_of_both_sides() {
    let base = "1\n2\n3\n4\n5";
    let local = "1\ntwo\n3\n4\n5";
    let remote = "1\n2\n3\n4\nfive";
    let r = compute_three_way_diff(base, local, remote);
    assert_eq!(r.conflict_count, 0);
    assert_eq!(r.merged_content, "1\ntwo\n3\n4\nfive");
}

#[test]
fn merge_insertions_after_the_last_base_line() {
    let r = compute_three_way_diff("a\n", "a\nl\n", "a\nr\n");
    assert_eq!(r.conflict_count, 1);
    assert_eq!(r.merged_content, "a\n<<<<<<< LOCAL\nl\n=======\nr\n>>>>>>> REMOTE");
}

#[test]
fn regions_of_an_unchanged_text_are_one_equal_region() {
    let r = compute_three_way_diff("line 1\nline 2", "line 1\nline 2", "line 1\nline 2");
    assert_eq!(
        regions(&r.chunks),
        vec![(ChunkType::Equal, 0, 2, vec!["line 1", "line 2"], vec!["line 1", "line 2"])]
    );
    assert!(compute_three_way_diff("", "", "").chunks.is_empty());
}

#[test]
fn regions_of_a_one_sided_edit() {
    let r = compute_three_way_diff("line 1\nline 2", "line 1\nmodified", "line 1\nline 2");
    assert_eq!(
        regions(&r.chunks),
        vec![
            (ChunkType::Equal, 0, 1, vec!["line 1"], vec!["line 1"]),
            (ChunkType::LocalOnly, 1, 1, vec!["modified"], vec!["line 2"]),
        ]
    );
    let r = compute_three_way_diff("line 1\nline 2", "line 1\nline 2", "new\nline 1\nline 2");
    assert_eq!(
        regions(&r.chunks),
        vec![
            (ChunkType::RemoteOnly, 0, 0, vec![], vec!["new"]),
            (ChunkType::Equal, 0, 2, vec!["line 1", "line 2"], vec!["line 1", "line 2"]),
        ]
    );
}

#[test]
fn regions_of_a_conflict() {
    let r = compute_three_way_diff("original line", "local change", "remote change");
    assert_eq!(
        regions(&r.chunks),
        vec![
            (ChunkType::Equal, 0, 1, vec![], vec![]),
            (ChunkType::Conflict, 1, 0, vec!["local change"], vec!["remote change"]),
        ]
    );
}

#[test]
fn regions_render_to_the_merged_text() {
    let cases = [
        ("a\nb\nc\nd", "a\nB\nc\nd\ne", "x\na\nb\nc"),
        ("one\ntwo", "one\nlocal\ntwo", "one\nremote\ntwo"),
        ("", "l", "r"),
        ("k\n", "k\nsame\n", "k\nsame\n"),
    ];
    for (base, local, remote) in cases {
        let r = compute_three_way_diff(base, local, remote);
        let mut lines: Vec<String> = Vec::new();
        let mut conflicts = 0;
        let mut next = 0;
        for c in &r.chunks {
            assert_eq!(c.base_start, next);
            next += c.base_count;
            match c.chunk_type {
                ChunkType::Equal | ChunkType::LocalOnly => lines.extend(c.local_lines.clone()),
                ChunkType::RemoteOnly => lines.extend(c.remote_lines.clone()),
                ChunkType::Conflict => {
                    conflicts += 1;
                    lines.push("<<<<<<< LOCAL".to_string());
                    lines.extend(c.local_lines.clone());
                    lines.push("=======".to_string());
                    lines.extend(c.remote_lines.clone());
                    lines.push(">>>>>>> REMOTE".to_string());
                }
            }
        }
        assert_eq!(lines.join("\n"), r.merged_content);
        assert_eq!(conflicts, r.conflict_count);
        assert_eq!(next, base.lines().count());
    }
}

#[test]
fn small_texts_can_be_merged() {
    let r = try_compute_three_way_diff("a\nb", "a\nb\nc", "0\na\nb").unwrap();
    assert_eq!(r.conflict_count, 0);
    assert_eq!(r.merged_content, "0\na\nb\nc");
}
