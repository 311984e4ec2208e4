use diffvibe::cli::{parse_cli_args, usage_lines, CliArgs, CliMode};

fn args(files: &[&str], output: Option<&str>) -> CliArgs {
    CliArgs {
        files: files.iter().map(|s| s.to_string()).collect(),
        output: output.map(|s| s.to_string()),
    }
}

#[test]
fn no_files_ask_for_the_start_page() {
    assert!(matches!(parse_cli_args(&args(&[], None), false, false), Ok(CliMode::Home)));
    assert!(matches!(parse_cli_args(&args(&[], Some("o")), true, true), Ok(CliMode::Home)));
}

#[test]
fn two_files_ask_for_a_diff() {
    for (l, r) in [(false, false), (true, false), (false, true)] {
        match parse_cli_args(&args(&["a", "b"], None), l, r) {
            Ok(CliMode::Diff { left, right }) => {
                assert_eq!(left, "a");
                assert_eq!(right, "b");
            }
            _ => panic!("no diff"),
        }
    }
}

#[test]
fn two_directories_ask_for_a_comparison() {
    match parse_cli_args(&args(&["d1", "d2"], None), true, true) {
        Ok(CliMode::DirDiff { left, right }) => {
            assert_eq!(left, "d1");
            assert_eq!(right, "d2");
        }
        _ => panic!("no comparison"),
    }
}

#[test]
fn three_files_ask_for_a_merge() {
    match parse_cli_args(&args(&["mine", "base", "theirs"], Some("out.txt")), true, true) {
        Ok(CliMode::Merge { local, base, remote, output }) => {
            assert_eq!(local, "mine");
            assert_eq!(base, "base");
            assert_eq!(remote, "theirs");
            assert_eq!(output, Some("out.txt".to_string()));
        }
        _ => panic!("no merge"),
    }
    match parse_cli_args(&args(&["mine", "base", "theirs"], None), false, false) {
        Ok(CliMode::Merge { output, .. }) => assert_eq!(output, None),
        _ => panic!("no merge"),
    }
}

#[test]
fn other_numbers_of_files_are_refused() {
    for n in [1usize, 4, 5, 9] {
        let files: Vec<String> = (0..n).map(|i| format!("f{}", i)).collect();
        let a = CliArgs { files, output: None };
        match parse_cli_args(&a, false, false) {
            Err(e) => assert_eq!(e.files, n),
            Ok(_) => panic!("accepted"),
        }
    }
}

#[test]
fn usage_has_two_lines() {
    assert_eq!(
        usage_lines(),
        vec![
            "Usage: diffvibe <left> <right>           # diff mode".to_string(),
            "       diffvibe <local> <base> <remote>  # merge mode".to_string(),
        ]
    );
}
