//! An error that occurs when parsing a file.
//!
//! It names the path and the way the file was refused, for an end-user
//! facing message. The conditions themselves — existence, permissions,
//! decodability, the token limit — are a collaborator's to detect; this
//! type only carries the verdict.
use vstd::prelude::*;

verus! {

/// Why a file was refused.
#[derive(Clone, Copy, Debug, PartialEq, Eq, Structural)]
pub enum ParseFileErrorKind {
    NotFound,
    PermissionDenied,
    TokenLimit(u32),
    InvalidFormat,
}

/// A refused file: its path and the reason.
#[derive(Clone, Debug, PartialEq, Eq)]
pub struct ParseFileError {
    path: String,
    kind: ParseFileErrorKind,
}

impl ParseFileError {
    /// The refused path.
    pub closed spec fn path_spec(self) -> Seq<char> {
        self.path@
    }

    /// The reason the file was refused.
    pub closed spec fn kind_spec(self) -> ParseFileErrorKind {
        self.kind
    }

    pub fn path(&self) -> (r: &str)
        ensures
            r@ == self.path_spec(),
    {
        self.path.as_str()
    }

    pub fn kind(&self) -> (k: ParseFileErrorKind)
        ensures
            k == self.kind_spec(),
    {
        self.kind
    }

    /// The path does not exist.
    pub fn notfound(path: &str) -> (r: ParseFileError)
        ensures
            r.path_spec() == path@,
            r.kind_spec() == ParseFileErrorKind::NotFound,
    {
        ParseFileError { path: path.to_owned(), kind: ParseFileErrorKind::NotFound }
    }

    /// The path cannot be accessed.
    pub fn denied(path: &str) -> (r: ParseFileError)
        ensures
            r.path_spec() == path@,
            r.kind_spec() == ParseFileErrorKind::PermissionDenied,
    {
        ParseFileError { path: path.to_owned(), kind: ParseFileErrorKind::PermissionDenied }
    }

    /// The file's token count exceeds the limit.
    pub fn limit(path: &str, count: u32) -> (r: ParseFileError)
        ensures
            r.path_spec() == path@,
            r.kind_spec() == ParseFileErrorKind::TokenLimit(count),
    {
        ParseFileError { path: path.to_owned(), kind: ParseFileErrorKind::TokenLimit(count) }
    }

    /// The file is not valid text.
    pub fn format(path: &str) -> (r: ParseFileError)
        ensures
            r.path_spec() == path@,
            r.kind_spec() == ParseFileErrorKind::InvalidFormat,
    {
        ParseFileError { path: path.to_owned(), kind: ParseFileErrorKind::InvalidFormat }
    }
}

} // verus!
