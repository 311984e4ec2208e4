use diffvibe::diff::{LineChange, LineTag};
use diffvibe::merge::{collect_edits, merge_changes, push_insertions, same_lines};

fn change(tag: LineTag, value: &str) -> LineChange {
    LineChange { tag, old_index: None, new_index: None, value: value.to_string() }
}

fn lines(v: &[&str]) -> Vec<String> {
    v.iter().map(|s| s.to_string()).collect()
}

#[test]
fn merge_changes_walks_every_position() {
    let base = lines(&["b0", "b1", "b2"]);
    let local = vec![
        change(LineTag::Insert, "top \n"),
        change(LineTag::Equal, "b0\n"),
        change(LineTag::Delete, "b1\n"),
        change(LineTag::Equal, "b2\n"),
        change(LineTag::Insert, "tail\n"),
    ];
    let remote = vec![
        change(LineTag::Equal, "b0\n"),
        change(LineTag::Equal, "b1\n"),
        change(LineTag::Equal, "b2\n"),
        change(LineTag::Insert, "other\n"),
    ];
    let r = merge_changes(&base, &local, &remote);
    assert_eq!(r.conflict_count, 1);
    assert_eq!(
        r.merged_content,
        "top\nb0\nb2\n<<<<<<< LOCAL\ntail\n=======\nother\n>>>>>>> REMOTE"
    );
}

#[test]
fn merge_changes_equal_insertions_are_taken_once() {
    let base = lines(&["x"]);
    let side = vec![change(LineTag::Insert, "new\n"), change(LineTag::Equal, "x")];
    let r = merge_changes(&base, &side, &side);
    assert_eq!(r.conflict_count, 0);
    assert_eq!(r.merged_content, "new\nx");
}

#[test]
fn merge_changes_ignores_positions_past_the_base() {
    let base = lines(&["only"]);
    let local = vec![
        change(LineTag::Equal, "only"),
        change(LineTag::Equal, "ghost"),
        change(LineTag::Insert, "late"),
    ];
    let remote = vec![change(LineTag::Equal, "only")];
    let r = merge_changes(&base, &local, &remote);
    assert_eq!(r.conflict_count, 0);
    assert_eq!(r.merged_content, "only");
}

#[test]
fn merge_changes_of_nothing_is_empty() {
    let r = merge_changes(&Vec::new(), &Vec::new(), &Vec::new());
    assert_eq!(r.conflict_count, 0);
    assert_eq!(r.merged_content, "");
}

#[test]
fn collect_edits_records_positions() {
    let changes = vec![
        change(LineTag::Insert, "a"),
        change(LineTag::Insert, "b"),
        change(LineTag::Delete, "x"),
        change(LineTag::Equal, "y"),
        change(LineTag::Insert, "c"),
    ];
    let edits = collect_edits(&changes);
    assert_eq!(edits.inserts.len(), 2);
    assert_eq!(edits.inserts.get(&0), Some(&lines(&["a", "b"])));
    assert_eq!(edits.inserts.get(&1), None);
    assert_eq!(edits.inserts.get(&2), Some(&lines(&["c"])));
    assert_eq!(edits.deletes.len(), 1);
    assert!(edits.deletes.contains(&0));
    assert!(!edits.deletes.contains(&1));
}

#[test]
fn push_insertions_four_cases() {
    let mut out = Vec::new();
    assert!(!push_insertions(&mut out, &lines(&[]), &lines(&[])));
    assert!(out.is_empty());
    assert!(!push_insertions(&mut out, &lines(&["l  "]), &lines(&[])));
    assert!(!push_insertions(&mut out, &lines(&[]), &lines(&["r\n"])));
    assert!(!push_insertions(&mut out, &lines(&["s\n"]), &lines(&["s\n"])));
    assert!(push_insertions(&mut out, &lines(&["p\n"]), &lines(&["q\n"])));
    assert_eq!(
        out,
        lines(&["l", "r", "s", "<<<<<<< LOCAL", "p", "=======", "q", ">>>>>>> REMOTE"])
    );
}

#[test]
fn same_lines_compares_whole_lists() {
    assert!(same_lines(&lines(&["a", "b"]), &lines(&["a", "b"])));
    assert!(!same_lines(&lines(&["a", "b"]), &lines(&["a"])));
    assert!(!same_lines(&lines(&["a", "b"]), &lines(&["a", "c"])));
    assert!(same_lines(&lines(&[]), &lines(&[])));
}
