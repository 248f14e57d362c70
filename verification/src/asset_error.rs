//! Asset error types
//!
//! Provides error handling for asset loading, caching, and hot-reload operations.

use vstd::prelude::*;

verus! {

/// `std::io::Error` is carried inside [`AssetError::Io`] as an opaque value.
#[verifier::external_type_specification]
#[verifier::external_body]
pub struct ExIoError(std::io::Error);

/// Renders an I/O error with its `Display` implementation.
///
/// Trusted, with nothing stated of the text: it comes from the operating
/// system and the error's payload.
#[verifier::external_body]
pub(crate) fn io_error_text(err: &std::io::Error) -> String {
    format!("{}", err)
}

/// Error type for asset operations
#[derive(Debug)]
pub enum AssetError {
    /// IO error (file not found, permission denied, etc.)
    Io(std::io::Error),
    /// Parse error (invalid file format, deserialization failure)
    Parse(String),
    /// Asset not found in the cache
    NotFound(String),
}

impl AssetError {
    /// The human-readable description of this error.
    pub fn message(&self) -> (r: String)
        ensures
            self matches AssetError::Parse(msg) ==> r@ == "Asset parse error: "@ + msg@,
            self matches AssetError::NotFound(path) ==> r@ == "Asset not found: "@ + path@,
            self is Io ==> exists|detail: Seq<char>| r@ == "Asset IO error: "@ + detail,
    {
        match self {
            AssetError::Io(err) => {
                let detail = io_error_text(err);
                let r = String::from_str("Asset IO error: ").concat(detail.as_str());
                assert(r@ == "Asset IO error: "@ + detail@);
                r
            },
            AssetError::Parse(msg) => String::from_str("Asset parse error: ").concat(msg.as_str()),
            AssetError::NotFound(path) => String::from_str("Asset not found: ").concat(path.as_str()),
        }
    }

    /// The underlying I/O error, for the `Io` variant only.
    pub fn source(&self) -> (r: Option<&std::io::Error>)
        ensures
            self matches AssetError::Io(err) ==> r == Some(err),
            !(self is Io) ==> r is None,
    {
        match self {
            AssetError::Io(err) => Some(err),
            AssetError::Parse(_) => None,
            AssetError::NotFound(_) => None,
        }
    }
}

impl From<std::io::Error> for AssetError {
    fn from(err: std::io::Error) -> (r: Self) {
        AssetError::Io(err)
    }
}

impl vstd::std_specs::convert::FromSpecImpl<std::io::Error> for AssetError {
    open spec fn obeys_from_spec() -> bool {
        true
    }

    open spec fn from_spec(v: std::io::Error) -> Self {
        AssetError::Io(v)
    }
}

impl From<String> for AssetError {
    fn from(msg: String) -> (r: Self) {
        AssetError::Parse(msg)
    }
}

impl vstd::std_specs::convert::FromSpecImpl<String> for AssetError {
    open spec fn obeys_from_spec() -> bool {
        true
    }

    open spec fn from_spec(v: String) -> Self {
        AssetError::Parse(v)
    }
}

impl From<&str> for AssetError {
    fn from(msg: &str) -> (r: Self)
        ensures
            r matches AssetError::Parse(m) && m@ == msg@,
    {
        AssetError::Parse(String::from_str(msg))
    }
}

impl vstd::std_specs::convert::FromSpecImpl<&str> for AssetError {
    /// A `String` cannot be built in a specification, so the conversion is
    /// stated in the `ensures` of `from` instead.
    open spec fn obeys_from_spec() -> bool {
        false
    }

    open spec fn from_spec(v: &str) -> Self {
        AssetError::NotFound(arbitrary())
    }
}

} // verus!
