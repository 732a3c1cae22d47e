//! What this library takes from the strings of `std` beyond what `vstd`
//! specifies: the check for UTF-8 and the conversion to lower case.
//!
//! Nothing here is proved. Each item states what the documentation of `std`
//! says of the function, and the proofs of the library rest on these
//! statements.

use vstd::prelude::*;
use vstd::string::StringSliceAdditionalSpecFns;
use vstd::utf8::valid_utf8;

verus! {

/// `core::str::Utf8Error`: why bytes are not UTF-8.
#[verifier::external_type_specification]
#[verifier::external_body]
pub struct ExUtf8Error(core::str::Utf8Error);

/// `core::str::from_utf8`, which hands the bytes out as a string slice if
/// they are valid UTF-8, and returns an error if they are not.
pub assume_specification[ core::str::from_utf8 ](v: &[u8]) -> (result: Result<
    &str,
    core::str::Utf8Error,
>)
    ensures
        result is Ok <==> valid_utf8(v@),
        result matches Ok(s) ==> s.spec_bytes() == v@,
;

/// The lower case of a string, as `str::to_lowercase` returns it.
pub uninterp spec fn lowercase(s: Seq<char>) -> Seq<char>;

/// Calls `to_lowercase` of a string slice, which returns the lower case
/// equivalent of the slice, by the rules of Unicode, as a new string.
#[verifier::external_body]
pub(crate) fn to_lowercase(s: &str) -> (result: String)
    ensures
        result@ == lowercase(s@),
{
    s.to_lowercase()
}

} // verus!
