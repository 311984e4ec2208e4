//! Why a scan or a comparison of directories is refused.

use vstd::prelude::*;

verus! {

/// Why a scan or a comparison was refused.
#[derive(Debug)]
pub enum TreeError {
    /// The path is no directory.
    NotADirectory(String),
    /// A directory could not be read; the message says how.
    Io(String),
}

impl TreeError {
    /// The text of the error.
    pub open spec fn message_text(&self) -> Seq<char> {
        match self {
            TreeError::NotADirectory(path) => path@ + " is not a directory"@,
            TreeError::Io(message) => message@,
        }
    }

    /// The text of the error.
    pub fn message(&self) -> (text: String)
        ensures
            text@ == self.message_text(),
    {
        match self {
            TreeError::NotADirectory(path) => {
                let mut text = path.clone();
                text.append(" is not a directory");
                text
            },
            TreeError::Io(message) => message.clone(),
        }
    }
}

} // verus!
