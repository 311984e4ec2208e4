//! Line diffing, three-way merging and directory comparison.

pub mod chunks;
pub mod cli;
pub mod compare;
pub mod content;
pub mod diff;
pub mod error;
pub mod filemap;
pub mod ignore;
pub mod merge;
pub mod order;
pub mod paths;
pub mod scan;
pub mod sorting;
pub mod text;
pub mod tree_build;

pub use cli::{parse_cli_args, CliArgs, CliMode};
pub use compare::{
    compare_directories, CompareEntry, CompareStats, DirectoryCompareResult, FileStatus,
};
pub use content::{
    compute_diff_files, get_diff_stats, read_file, FileContent, FileDiffResult, FileProbe,
};
pub use diff::{compute_diff, DiffLine, DiffResult, DiffStats};
pub use error::TreeError;
pub use chunks::{ChunkType, MergeChunk};
pub use merge::{compute_three_way_diff, MergeResult};
pub use scan::{
    expand_directory, scan_directory, scan_directory_lazy, DirEntry, RawEntry, RawKind,
    RootListing, ScanResult,
};
