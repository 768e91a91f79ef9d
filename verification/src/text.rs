//! The standard library's conversion from bytes to text, as the codec sees
//! it.  What is stated here of `String::from_utf8` is taken on trust.

use std::string::FromUtf8Error;
use vstd::prelude::*;
use vstd::utf8::{encode_utf8, valid_utf8};

verus! {

/// `std::string::FromUtf8Error`, the diagnostic that `String::from_utf8`
/// gives for bytes that are not UTF-8.  Its fields stay hidden.
#[verifier::external_type_specification]
#[verifier::external_body]
pub struct ExFromUtf8Error(std::string::FromUtf8Error);

/// The bytes that a `FromUtf8Error` holds: the vector whose conversion
/// failed, which `FromUtf8Error::as_bytes` and `into_bytes` hand out.
pub uninterp spec fn rejected_bytes(error: FromUtf8Error) -> Seq<u8>;

/// `String::from_utf8` succeeds exactly on well-formed UTF-8.  The string it
/// then returns is made of the given bytes; the error it returns otherwise
/// holds the given bytes.
pub assume_specification[ String::from_utf8 ](vec: Vec<u8>) -> (result: Result<
    String,
    FromUtf8Error,
>)
    ensures
        result is Ok <==> valid_utf8(vec@),
        result matches Ok(text) ==> encode_utf8(text@) == vec@,
        result matches Err(error) ==> rejected_bytes(error) == vec@,
;

} // verus!
