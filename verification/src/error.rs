//! The error type of scanning and cleaning operations.

use vstd::prelude::*;

verus! {

/// Declaration of the standard I/O error type. It is carried opaquely in
/// error variants; nothing is assumed about its values.
#[verifier::external_type_specification]
#[verifier::external_body]
pub struct ExIoError(std::io::Error);

/// Errors of scanning and cleaning operations. Root-validation errors abort
/// a scan; the remaining variants carry an underlying I/O cause.
#[derive(Debug)]
pub enum DevJunkError {
    /// A configured root does not exist.
    PathNotFound(String),
    /// A configured root exists but is not a directory.
    NotADirectory(String),
    /// Access to a path was denied.
    PermissionDenied(String),
    /// Directory traversal failed.
    TraversalError { path: String, source: std::io::Error },
    /// Recursive removal of a directory failed.
    DeletionError { path: String, source: std::io::Error },
    /// Reading file metadata failed.
    MetadataError { path: String, source: std::io::Error },
    /// A generic I/O failure.
    Io(std::io::Error),
    /// Several errors occurred during one batch operation.
    MultipleErrors(usize),
}

impl DevJunkError {
    /// A traversal error at the given path.
    pub fn traversal(path: String, source: std::io::Error) -> (r: Self)
        ensures
            r == (DevJunkError::TraversalError { path, source }),
    {
        DevJunkError::TraversalError { path, source }
    }

    /// A deletion error at the given path.
    pub fn deletion(path: String, source: std::io::Error) -> (r: Self)
        ensures
            r == (DevJunkError::DeletionError { path, source }),
    {
        DevJunkError::DeletionError { path, source }
    }

    /// A metadata error at the given path.
    pub fn metadata(path: String, source: std::io::Error) -> (r: Self)
        ensures
            r == (DevJunkError::MetadataError { path, source }),
    {
        DevJunkError::MetadataError { path, source }
    }
}

} // verus!
