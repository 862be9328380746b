//! Failure taxonomy of the listing core and its mapping to HTTP status codes.

use vstd::prelude::*;

verus! {

/// Every way a listing request can fail.
///
/// `MalformedPath` and `Forbidden` come out of path resolution;
/// `NotFound` and `ReadFailed` classify a failed directory read;
/// `RenderFailed` stands for a failure of the page renderer.
#[derive(Clone, Copy, Debug, PartialEq, Eq, Structural)]
pub enum ServeError {
    /// The request path did not start with `/`.
    MalformedPath,
    /// The request path tried to climb out of the served root.
    Forbidden,
    /// The resolved target does not exist.
    NotFound,
    /// The resolved target exists but could not be read as a directory.
    ReadFailed,
    /// The view model could not be rendered into a page.
    RenderFailed,
}

/// HTTP status code for each failure: a malformed path is the client's
/// fault, an escape attempt is forbidden, a missing target is not found,
/// and everything else is a server-side error.
pub fn status_code(e: &ServeError) -> (code: u16)
    ensures
        code == match *e {
            ServeError::MalformedPath => 400u16,
            ServeError::Forbidden => 403u16,
            ServeError::NotFound => 404u16,
            ServeError::ReadFailed => 500u16,
            ServeError::RenderFailed => 500u16,
        },
{
    match e {
        ServeError::MalformedPath => 400,
        ServeError::Forbidden => 403,
        ServeError::NotFound => 404,
        ServeError::ReadFailed => 500,
        ServeError::RenderFailed => 500,
    }
}

} // verus!
