use vstd::prelude::*;

verus! {

/// `std::io::Error`, which `Error::Io` carries from a failed file read; Verus
/// sees nothing inside it.
#[verifier::external_type_specification]
#[verifier::external_body]
pub struct ExIoError(std::io::Error);

/// Errors raised while loading a `.mime` dictionary.
#[derive(Debug)]
pub enum Error {
    /// Reading the dictionary file failed.
    Io(std::io::Error),
    /// The dictionary bytes are malformed; the message names the check that failed.
    InvalidDictionary(&'static str),
    /// The dictionary header names a format version this library does not read.
    UnsupportedVersion(u16),
    /// A string stored in the dictionary is not valid UTF-8.
    InvalidUtf8,
}

} // verus!
