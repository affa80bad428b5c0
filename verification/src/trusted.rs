//! The standard-library items that the verified code relies on without
//! proof: the `std::io::Error` and `std::path::PathBuf` types that errors and
//! the index handle carry, the UTF-8 validation done by `std::str::from_utf8`,
//! the construction of an end-of-input I/O error, and the text of an I/O
//! error.

use vstd::prelude::*;
use vstd::utf8::valid_utf8;
use vstd::string::StringSliceAdditionalSpecFns;

verus! {

/// `std::io::Error`, carried opaquely inside codec, index and daemon errors.
#[verifier::external_type_specification]
#[verifier::external_body]
pub struct ExIoError(std::io::Error);

/// `std::path::PathBuf`, carried opaquely by the application index handle.
#[verifier::external_type_specification]
#[verifier::external_body]
pub struct ExPathBuf(std::path::PathBuf);

/// Calls `std::str::from_utf8`. The contract claims what its documentation
/// says: the call succeeds exactly on well-formed UTF-8 (as vstd's
/// `valid_utf8` defines it), and the string it returns has exactly the given
/// bytes.
#[verifier::external_body]
pub(crate) fn utf8_str<'a>(bytes: &'a [u8]) -> (r: Option<&'a str>)
    ensures
        r is Some <==> valid_utf8(bytes@),
        r matches Some(s) ==> s.spec_bytes() == bytes@,
{
    std::str::from_utf8(bytes).ok()
}

/// Calls `std::io::Error::from` on `std::io::ErrorKind::UnexpectedEof`, the
/// error that a reader reports when its input ends before a requested number
/// of bytes. Nothing is stated of the value: `std::io::Error` is opaque here.
#[verifier::external_body]
pub(crate) fn unexpected_eof() -> std::io::Error {
    std::io::Error::from(std::io::ErrorKind::UnexpectedEof)
}

/// Formats an I/O error with `format!("{}", e)`. Nothing is stated of the
/// text: it comes from the operating system.
#[verifier::external_body]
pub(crate) fn io_error_text(e: &std::io::Error) -> String {
    format!("{}", e)
}

} // verus!
