//! The error taxonomy that loading surfaces to callers.

use crate::url_helpers::UrlError;
use vstd::prelude::*;

verus! {

/// The kind of a local file access failure.
#[derive(Clone, Copy, Debug, PartialEq, Eq, Structural)]
pub enum IoErrorKind {
    /// The file does not exist.
    NotFound,
    /// Access to the file was denied.
    PermissionDenied,
    /// Any other file access failure.
    Other,
}

/// Why a load failed. Every component returns a typed result; errors are
/// surfaced to the caller unchanged in kind, only wrapped at the boundary.
#[derive(Clone, Debug, PartialEq)]
pub enum LoaderError {
    /// Local file access failed (includes not-found).
    IOError(IoErrorKind),
    /// The URL could not be canonicalized.
    InvalidURL(UrlError),
    /// A transport-level failure or a non-success HTTP status, carrying the
    /// status code when there is one.
    FetchURLFailed(Option<u16>),
    /// A decoder rejected the byte content; only its message text is kept.
    FormatError(String),
    /// The default placeholder value, never returned by normal operation.
    UnknownError,
}

impl core::convert::From<UrlError> for LoaderError {
    fn from(error: UrlError) -> (r: LoaderError) {
        LoaderError::InvalidURL(error)
    }
}

impl vstd::std_specs::convert::FromSpecImpl<UrlError> for LoaderError {
    open spec fn obeys_from_spec() -> bool {
        true
    }

    open spec fn from_spec(error: UrlError) -> LoaderError {
        LoaderError::InvalidURL(error)
    }
}

impl core::default::Default for LoaderError {
    fn default() -> (r: LoaderError)
        ensures
            r == LoaderError::UnknownError,
    {
        LoaderError::UnknownError
    }
}

} // verus!
