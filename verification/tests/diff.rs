use diffvibe::diff::{
    can_diff, compute_diff, diff_from_changes, try_compute_diff, LineChange, LineTag,
};

fn tags(left: &str, right: &str) -> Vec<(String, Option<usize>, Option<usize>, String)> {
    compute_diff(left, right)
        .lines
        .into_iter()
        .map(|l| (l.tag, l.old_index, l.new_index, l.value))
        .collect()
}

#[test]
fn diff_of_empty_texts_is_empty() {
    let r = compute_diff("", "");
    assert!(r.lines.is_empty());
    assert_eq!(r.stats.additions, 0);
    assert_eq!(r.stats.deletions, 0);
    assert_eq!(r.stats.unchanged, 0);
}

#[test]
fn diff_of_identical_texts_has_equal_lines_only() {
    let text = "alpha\nbeta\ngamma\n";
    let r = compute_diff(text, text);
    assert_eq!(r.stats.additions, 0);
    assert_eq!(r.stats.deletions, 0);
    assert_eq!(r.stats.unchanged, 3);
    assert_eq!(r.lines.len(), 3);
    for (i, line) in r.lines.iter().enumerate() {
        assert_eq!(line.tag, "equal");
        assert_eq!(line.old_index, Some(i));
        assert_eq!(line.new_index, Some(i));
    }
    assert_eq!(r.lines[0].value, "alpha\n");
    assert_eq!(r.lines[2].value, "gamma\n");
}

#[test]
fn diff_replaces_last_line() {
    assert_eq!(
        tags("a\nb\nc", "a\nb\nC"),
        vec![
            ("equal".to_string(), Some(0), Some(0), "a\n".to_string()),
            ("equal".to_string(), Some(1), Some(1), "b\n".to_string()),
            ("delete".to_string(), Some(2), None, "c".to_string()),
            ("insert".to_string(), None, Some(2), "C".to_string()),
        ]
    );
}

#[test]
fn diff_counts_add_up_to_line_counts() {
    let left = "one\ntwo\nthree\nfour\n";
    let right = "zero\none\nthree\nfive\nsix\n";
    let r = compute_diff(left, right);
    assert_eq!(r.stats.additions + r.stats.unchanged, 5);
    assert_eq!(r.stats.deletions + r.stats.unchanged, 4);
    assert_eq!(r.stats.unchanged, 2);
    assert_eq!(r.stats.additions, 3);
    assert_eq!(r.stats.deletions, 2);
    assert_eq!(r.lines.len(), 7);
}

#[test]
fn diff_insertion_into_empty_text() {
    let r = compute_diff("", "x\ny");
    assert_eq!(r.stats.additions, 2);
    assert_eq!(r.stats.deletions, 0);
    assert_eq!(r.stats.unchanged, 0);
    assert_eq!(r.lines[0].tag, "insert");
    assert_eq!(r.lines[0].old_index, None);
    assert_eq!(r.lines[0].new_index, Some(0));
    assert_eq!(r.lines[1].value, "y");
}

#[test]
fn diff_deletion_of_everything() {
    let r = compute_diff("x\ny\n", "");
    assert_eq!(r.stats.additions, 0);
    assert_eq!(r.stats.deletions, 2);
    assert_eq!(r.lines[1].tag, "delete");
    assert_eq!(r.lines[1].old_index, Some(1));
    assert_eq!(r.lines[1].new_index, None);
}

#[test]
fn diff_keeps_line_terminators_in_values() {
    let r = compute_diff("a\r\nb\rc\n", "a\r\nb\rc\n");
    let values: Vec<&str> = r.lines.iter().map(|l| l.value.as_str()).collect();
    assert_eq!(values, vec!["a\r\n", "b\r", "c\n"]);
}

#[test]
fn diff_from_changes_maps_each_change() {
    let changes = vec![
        LineChange { tag: LineTag::Equal, old_index: Some(0), new_index: Some(0), value: "k\n".to_string() },
        LineChange { tag: LineTag::Delete, old_index: Some(1), new_index: None, value: "d\n".to_string() },
        LineChange { tag: LineTag::Insert, old_index: None, new_index: Some(1), value: "i\n".to_string() },
        LineChange { tag: LineTag::Insert, old_index: None, new_index: Some(2), value: "j".to_string() },
    ];
    let r = diff_from_changes(&changes);
    assert_eq!(r.stats.unchanged, 1);
    assert_eq!(r.stats.deletions, 1);
    assert_eq!(r.stats.additions, 2);
    let got: Vec<(&str, Option<usize>, Option<usize>, &str)> = r
        .lines
        .iter()
        .map(|l| (l.tag.as_str(), l.old_index, l.new_index, l.value.as_str()))
        .collect();
    assert_eq!(
        got,
        vec![
            ("equal", Some(0), Some(0), "k\n"),
            ("delete", Some(1), None, "d\n"),
            ("insert", None, Some(1), "i\n"),
            ("insert", None, Some(2), "j"),
        ]
    );
}

#[test]
fn small_texts_can_be_diffed() {
    assert!(can_diff("", ""));
    assert!(can_diff("a\nb", "c"));
    let r = try_compute_diff("a\nb\n", "a\n").unwrap();
    assert_eq!(r.stats.unchanged, 1);
    assert_eq!(r.stats.deletions, 1);
    assert_eq!(r.stats.additions, 0);
}
