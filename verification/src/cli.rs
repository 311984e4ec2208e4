//! Command line: which mode the arguments ask for.

use vstd::prelude::*;

verus! {

/// The arguments of the command line.
#[derive(Clone, Debug)]
pub struct CliArgs {
    /// Files to compare or merge: two for a diff, three for a merge (local,
    /// base, remote).
    pub files: Vec<String>,
    /// Where a merge writes its result.
    pub output: Option<String>,
}

/// What the command line asks for.
#[derive(Clone, Debug)]
pub enum CliMode {
    /// No files: show the start page.
    Home,
    /// Two files: diff them.
    Diff { left: String, right: String },
    /// Two directories: compare them.
    DirDiff { left: String, right: String },
    /// Three files: merge them.
    Merge { local: String, base: String, remote: String, output: Option<String> },
}

/// The command line names a number of files for which there is no mode.
#[derive(Clone, Copy, Debug, PartialEq, Eq, Structural)]
pub struct UsageError {
    /// Number of files that were named.
    pub files: usize,
}

/// `mode` is what these arguments ask for: nothing without files; with two
/// files a comparison of directories where both are directories, else a
/// diff; with three files a merge of local, base and remote.
pub open spec fn mode_matches(
    mode: CliMode,
    args: CliArgs,
    left_is_dir: bool,
    right_is_dir: bool,
) -> bool {
    let files = args.files@;
    match mode {
        CliMode::Home => files.len() == 0,
        CliMode::Diff { left, right } => {
            &&& files.len() == 2
            &&& !(left_is_dir && right_is_dir)
            &&& left@ == files[0]@
            &&& right@ == files[1]@
        },
        CliMode::DirDiff { left, right } => {
            &&& files.len() == 2
            &&& left_is_dir && right_is_dir
            &&& left@ == files[0]@
            &&& right@ == files[1]@
        },
        CliMode::Merge { local, base, remote, output } => {
            &&& files.len() == 3
            &&& local@ == files[0]@
            &&& base@ == files[1]@
            &&& remote@ == files[2]@
            &&& match (output, args.output) {
                (Some(o), Some(a)) => o@ == a@,
                (None, None) => true,
                _ => false,
            }
        },
    }
}

/// Chooses the mode from the arguments. `left_is_dir` and `right_is_dir`
/// say whether the first and the second file are directories; they count
/// where two files are named. Any number of files but 0, 2 and 3 is
/// refused.
pub fn parse_cli_args(args: &CliArgs, left_is_dir: bool, right_is_dir: bool) -> (r: Result<
    CliMode,
    UsageError,
>)
    ensures
        r is Ok <==> args.files.len() == 0 || args.files.len() == 2 || args.files.len() == 3,
        r matches Ok(mode) ==> mode_matches(mode, *args, left_is_dir, right_is_dir),
        r matches Err(e) ==> e.files == args.files.len(),
{
    let n = args.files.len();
    if n == 0 {
        Ok(CliMode::Home)
    } else if n == 2 {
        let left = args.files[0].clone();
        let right = args.files[1].clone();
        if left_is_dir && right_is_dir {
            Ok(CliMode::DirDiff { left, right })
        } else {
            Ok(CliMode::Diff { left, right })
        }
    } else if n == 3 {
        let output = match &args.output {
            Some(path) => Some(path.clone()),
            None => None,
        };
        Ok(
            CliMode::Merge {
                local: args.files[0].clone(),
                base: args.files[1].clone(),
                remote: args.files[2].clone(),
                output,
            },
        )
    } else {
        Err(UsageError { files: n })
    }
}

/// The two lines that tell how the program is called.
pub fn usage_lines() -> (lines: Vec<String>)
    ensures
        lines.len() == 2,
        lines[0]@ == "Usage: diffvibe <left> <right>           # diff mode"@,
        lines[1]@ == "       diffvibe <local> <base> <remote>  # merge mode"@,
{
    let mut lines: Vec<String> = Vec::new();
    lines.push("Usage: diffvibe <left> <right>           # diff mode".to_owned());
    lines.push("       diffvibe <local> <base> <remote>  # merge mode".to_owned());
    lines
}

} // verus!
