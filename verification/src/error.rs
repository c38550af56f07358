//! The error taxonomy of the library.
use vstd::prelude::*;

verus! {

/// An error raised while fetching, assembling or downloading a repository
/// tree.  Collaborator failures are carried as their message text.
#[derive(Debug, Clone)]
pub enum Error {
    /// An error occurred during an HTTP request.
    RequestError(String),
    /// An error occurred while deserializing a JSON response.
    DeserializationError(String),
    /// An error occurred when trying to perform a filesystem operation.
    IOError(String),
    /// An error occurred while trying to decode base64 obtained from the
    /// remote service.
    Base64Error(String),
    /// The remote service explicitly reported a problem (usually a rate
    /// limit); carries the service's message verbatim.
    GithubError(String),
    /// Some other error occurred, such as a configuration or a structural
    /// validation problem.
    Other(String),
}

impl Error {
    /// Returns a copy of this error equal to the original.
    pub fn dup(&self) -> (r: Error)
        ensures
            r == *self,
    {
        match self {
            Error::RequestError(s) => Error::RequestError(s.clone()),
            Error::DeserializationError(s) => Error::DeserializationError(s.clone()),
            Error::IOError(s) => Error::IOError(s.clone()),
            Error::Base64Error(s) => Error::Base64Error(s.clone()),
            Error::GithubError(s) => Error::GithubError(s.clone()),
            Error::Other(s) => Error::Other(s.clone()),
        }
    }

    /// The message text carried by this error, as a sequence of characters.
    pub open spec fn spec_message(&self) -> Seq<char> {
        match self {
            Error::RequestError(s) => s@,
            Error::DeserializationError(s) => s@,
            Error::IOError(s) => s@,
            Error::Base64Error(s) => s@,
            Error::GithubError(s) => s@,
            Error::Other(s) => s@,
        }
    }

    /// The message text carried by this error.
    pub fn message(&self) -> (r: &String)
        ensures
            r@ == self.spec_message(),
    {
        match self {
            Error::RequestError(s) => s,
            Error::DeserializationError(s) => s,
            Error::IOError(s) => s,
            Error::Base64Error(s) => s,
            Error::GithubError(s) => s,
            Error::Other(s) => s,
        }
    }
}

} // verus!
