//! The timestamp by which candidates are ranked.

use vstd::prelude::*;

verus! {

/// Which of a file's three timestamps ranks the candidates.
#[derive(Clone, Copy, Debug, PartialEq, Eq, Structural)]
pub enum Method {
    Accessed,
    Created,
    Modified,
}

impl Method {
    /// The text of the line that describes each method.
    pub open spec fn helptext_spec(self) -> Seq<char> {
        match self {
            Method::Accessed => "Sort by access on this file or directory"@,
            Method::Created => "Sort by creation on this volume"@,
            Method::Modified => "Sort by modification of the file or directory"@,
        }
    }

    /// The line that describes this method to a user.
    pub fn helptext(&self) -> (text: &'static str)
        ensures
            text@ == self.helptext_spec(),
    {
        match self {
            Method::Accessed => "Sort by access on this file or directory",
            Method::Created => "Sort by creation on this volume",
            Method::Modified => "Sort by modification of the file or directory",
        }
    }
}

} // verus!
