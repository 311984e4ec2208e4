//! File contents: binary detection, decoding, and the diff of two files.

use crate::diff::{
    compute_diff, count_tag, diff_lines_of, diffable, similar_line_changes, DiffResult, DiffStats,
    LineTag,
};
use crate::order::{code_point, order_of, Rank};
use crate::text::{chars_of, split_lines, text_lines};
use vstd::prelude::*;
use vstd::string::StrSliceExecFns;
use vstd::utf8::{decode_utf8, encode_utf8, valid_utf8};

verus! {

/// What is known of a file that was read.
#[derive(Debug)]
pub struct FileContent {
    pub path: String,
    /// The decoded text; empty for a binary or missing file.
    pub content: String,
    /// `"utf-8"`, `"latin-1"` or `"binary"`.
    pub encoding: String,
    pub size: u64,
    pub line_count: usize,
    pub is_binary: bool,
    pub exists: bool,
}

/// Number of leading bytes that are searched for a zero byte.
pub const BINARY_PROBE: usize = 8192;

/// A zero byte stands among the first 8192 bytes.
pub open spec fn has_early_zero(bytes: Seq<u8>) -> bool {
    exists|i: int| 0 <= i < bytes.len() && i < BINARY_PROBE && #[trigger] bytes[i] == 0
}

/// Whether a content counts as binary: a zero byte stands among its first
/// 8192 bytes.
pub fn is_binary(bytes: &[u8]) -> (binary: bool)
    ensures
        binary == has_early_zero(bytes@),
{
    let len = if bytes.len() <= BINARY_PROBE {
        bytes.len()
    } else {
        BINARY_PROBE
    };
    let mut i: usize = 0;
    while i < len
        invariant
            i <= len <= bytes.len(),
            len <= BINARY_PROBE,
            len == bytes.len() || len == BINARY_PROBE,
            forall|j: int| 0 <= j < i ==> bytes@[j] != 0,
        decreases len - i,
    {
        if bytes[i] == 0 {
            return true;
        }
        i += 1;
    }
    false
}

/// Calls `core::str::from_utf8` and copies the text.
///
/// Trusted: the call succeeds exactly on well-formed UTF-8, and gives the
/// characters that the bytes encode.
#[verifier::external_body]
fn text_of_utf8(bytes: &[u8]) -> (text: Option<String>)
    ensures
        text is Some <==> valid_utf8(bytes@),
        text matches Some(s) ==> s@ == decode_utf8(bytes@),
{
    match core::str::from_utf8(bytes) {
        Ok(text) => Some(text.to_string()),
        Err(_) => None,
    }
}

/// The text that Latin-1 bytes encode: each byte is the code point of one
/// character.
pub open spec fn latin1_text(bytes: Seq<u8>) -> Seq<char> {
    Seq::new(bytes.len(), |i: int| bytes[i] as char)
}

/// The text of a content, and the encoding it was read in: UTF-8 where the
/// bytes are well-formed UTF-8, else Latin-1.
pub open spec fn decoded(bytes: Seq<u8>) -> (Seq<char>, Seq<char>) {
    if valid_utf8(bytes) {
        (decode_utf8(bytes), "utf-8"@)
    } else {
        (latin1_text(bytes), "latin-1"@)
    }
}

/// Decodes a content as UTF-8, or as Latin-1 where it is no UTF-8.
pub fn decode_content(bytes: &[u8]) -> (r: (String, &'static str))
    ensures
        (r.0@, r.1@) == decoded(bytes@),
{
    match text_of_utf8(bytes) {
        Some(text) => (text, "utf-8"),
        None => {
            let mut text = String::new();
            let mut i: usize = 0;
            while i < bytes.len()
                invariant
                    i <= bytes.len(),
                    text@ == latin1_text(bytes@.take(i as int)),
                decreases bytes.len() - i,
            {
                text.push(bytes[i] as char);
                i += 1;
            }
            (text, "latin-1")
        },
    }
}

/// The Latin-1 bytes of a text: of each character the low eight bits of
/// its code point.
pub open spec fn latin1_bytes(text: Seq<char>) -> Seq<u8> {
    Seq::new(text.len(), |i: int| ((text[i] as int) % 256) as u8)
}

/// The bytes that a text is written as: Latin-1 where the encoding is
/// `latin-1`, else UTF-8.
pub open spec fn encoded(text: Seq<char>, encoding: Seq<char>) -> Seq<u8> {
    if encoding == "latin-1"@ {
        latin1_bytes(text)
    } else {
        encode_utf8(text)
    }
}

/// Whether two texts are the same.
pub fn same_text(a: &str, b: &str) -> (same: bool)
    ensures
        same == (a@ == b@),
{
    let x = chars_of(a);
    let y = chars_of(b);
    match order_of(&x, &y) {
        Rank::Same => true,
        _ => false,
    }
}

/// Encodes a text for writing.
pub fn encode_content(content: &str, encoding: &str) -> (bytes: Vec<u8>)
    ensures
        bytes@ == encoded(content@, encoding@),
{
    if same_text(encoding, "latin-1") {
        let chars = chars_of(content);
        let mut bytes: Vec<u8> = Vec::new();
        let mut i: usize = 0;
        while i < chars.len()
            invariant
                i <= chars.len(),
                bytes@ == latin1_bytes(chars@.take(i as int)),
            decreases chars.len() - i,
        {
            let u: u32 = code_point(chars[i]);
            let low: u8 = (u % 256) as u8;
            bytes.push(low);
            i += 1;
        }
        bytes
    } else {
        content.as_bytes_vec()
    }
}

/// What was found at the path of a file.
#[derive(Debug)]
pub enum FileProbe {
    /// Nothing stands at the path.
    Missing,
    /// The file could not be read; the message says how.
    Failed(String),
    /// The file, with its size and its bytes.
    Found { size: u64, bytes: Vec<u8> },
}

/// Mathematical value of a [`FileContent`].
pub struct ContentView {
    pub path: Seq<char>,
    pub content: Seq<char>,
    pub encoding: Seq<char>,
    pub size: u64,
    pub line_count: usize,
    pub is_binary: bool,
    pub exists: bool,
}

impl View for FileContent {
    type V = ContentView;

    open spec fn view(&self) -> ContentView {
        ContentView {
            path: self.path@,
            content: self.content@,
            encoding: self.encoding@,
            size: self.size,
            line_count: self.line_count,
            is_binary: self.is_binary,
            exists: self.exists,
        }
    }
}

/// What is known of a file with these bytes: a binary file has no text; a
/// text file has its decoded text and the number of its lines.
pub open spec fn content_of(path: Seq<char>, size: u64, bytes: Seq<u8>) -> ContentView {
    if has_early_zero(bytes) {
        ContentView {
            path,
            content: Seq::empty(),
            encoding: "binary"@,
            size,
            line_count: 0,
            is_binary: true,
            exists: true,
        }
    } else {
        ContentView {
            path,
            content: decoded(bytes).0,
            encoding: decoded(bytes).1,
            size,
            line_count: text_lines(decoded(bytes).0).len() as usize,
            is_binary: false,
            exists: true,
        }
    }
}

/// What is known of a path at which nothing stands.
pub open spec fn missing_content(path: Seq<char>) -> ContentView {
    ContentView {
        path,
        content: Seq::empty(),
        encoding: "utf-8"@,
        size: 0,
        line_count: 0,
        is_binary: false,
        exists: false,
    }
}

/// Describes the file at `path` from what was found there. A file that
/// could not be read is refused with the message of the failure.
pub fn read_file(path: &str, probe: &FileProbe) -> (r: Result<FileContent, String>)
    ensures
        match *probe {
            FileProbe::Missing => r matches Ok(c) && c@ == missing_content(path@),
            FileProbe::Failed(message) => r matches Err(m) && m@ == message@,
            FileProbe::Found { size, bytes } => r matches Ok(c) && c@ == content_of(
                path@,
                size,
                bytes@,
            ),
        },
{
    match probe {
        FileProbe::Missing => Ok(
            FileContent {
                path: path.to_owned(),
                content: String::new(),
                encoding: "utf-8".to_owned(),
                size: 0,
                line_count: 0,
                is_binary: false,
                exists: false,
            },
        ),
        FileProbe::Failed(message) => Err(message.clone()),
        FileProbe::Found { size, bytes } => {
            if is_binary(bytes.as_slice()) {
                Ok(
                    FileContent {
                        path: path.to_owned(),
                        content: String::new(),
                        encoding: "binary".to_owned(),
                        size: *size,
                        line_count: 0,
                        is_binary: true,
                        exists: true,
                    },
                )
            } else {
                let (content, encoding) = decode_content(bytes.as_slice());
                let lines = split_lines(content.as_str());
                let line_count = lines.len();
                Ok(
                    FileContent {
                        path: path.to_owned(),
                        content,
                        encoding: encoding.to_owned(),
                        size: *size,
                        line_count,
                        is_binary: false,
                        exists: true,
                    },
                )
            }
        },
    }
}

/// Two files and their diff.
#[derive(Debug)]
pub struct FileDiffResult {
    pub left: FileContent,
    pub right: FileContent,
    pub diff: DiffResult,
}

/// Both files hold text.
pub open spec fn both_text(left: ContentView, right: ContentView) -> bool {
    !left.is_binary && !right.is_binary
}

/// The diff of two files that were read: empty where one of them is
/// binary, else the line diff of their texts, which must be small enough
/// for the diff engine.
pub fn compute_diff_files(left: FileContent, right: FileContent) -> (r: FileDiffResult)
    requires
        both_text(left@, right@) ==> diffable(left.content@, right.content@),
    ensures
        r.left == left,
        r.right == right,
        r.diff.wf(),
        !both_text(left@, right@) ==> r.diff.lines.len() == 0 && r.diff.stats == (DiffStats {
            additions: 0,
            deletions: 0,
            unchanged: 0,
        }),
        both_text(left@, right@) ==> {
            let changes = similar_line_changes(left.content@, right.content@);
            &&& r.diff.lines.deep_view() == diff_lines_of(changes)
            &&& r.diff.stats.additions == count_tag(changes, LineTag::Insert)
            &&& r.diff.stats.deletions == count_tag(changes, LineTag::Delete)
            &&& r.diff.stats.unchanged == count_tag(changes, LineTag::Equal)
        },
{
    if left.is_binary || right.is_binary {
        let diff = DiffResult {
            lines: Vec::new(),
            stats: DiffStats { additions: 0, deletions: 0, unchanged: 0 },
        };
        return FileDiffResult { left, right, diff };
    }
    let diff = compute_diff(left.content.as_str(), right.content.as_str());
    FileDiffResult { left, right, diff }
}

/// Both files exist and hold text.
pub open spec fn both_present_text(left: ContentView, right: ContentView) -> bool {
    left.exists && right.exists && !left.is_binary && !right.is_binary
}

/// `stats` are the counts that the diff of two files owes. Where a file is
/// missing, every line of the other one counts as added or deleted; where
/// a file is binary, nothing counts; else the counts are those of the line
/// diff of the two texts.
pub open spec fn stats_match(left: ContentView, right: ContentView, stats: DiffStats) -> bool {
    if !left.exists || !right.exists {
        stats == (DiffStats {
            additions: if right.exists {
                right.line_count
            } else {
                0
            },
            deletions: if left.exists {
                left.line_count
            } else {
                0
            },
            unchanged: 0,
        })
    } else if left.is_binary || right.is_binary {
        stats == (DiffStats { additions: 0, deletions: 0, unchanged: 0 })
    } else {
        let changes = similar_line_changes(left.content, right.content);
        &&& stats.additions == count_tag(changes, LineTag::Insert)
        &&& stats.deletions == count_tag(changes, LineTag::Delete)
        &&& stats.unchanged == count_tag(changes, LineTag::Equal)
    }
}

/// The counts of the diff of two files that were read, without the lines.
/// Two texts that are diffed must be small enough for the diff engine.
pub fn get_diff_stats(left: &FileContent, right: &FileContent) -> (stats: DiffStats)
    requires
        both_present_text(left@, right@) ==> diffable(left.content@, right.content@),
    ensures
        stats_match(left@, right@, stats),
{
    if !left.exists || !right.exists {
        return DiffStats {
            additions: if right.exists {
                right.line_count
            } else {
                0
            },
            deletions: if left.exists {
                left.line_count
            } else {
                0
            },
            unchanged: 0,
        };
    }
    if left.is_binary || right.is_binary {
        return DiffStats { additions: 0, deletions: 0, unchanged: 0 };
    }
    compute_diff(left.content.as_str(), right.content.as_str()).stats
}

} // verus!
