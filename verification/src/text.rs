//! Turning bytes into text.

use std::borrow::Cow;
use vstd::prelude::*;
use vstd::string::StringSliceAdditionalSpecFns;
use vstd::utf8::{decode_utf8, valid_utf8};

verus! {

/// The standard library's description of where a run of bytes stops being
/// UTF-8. It is carried, never looked into.
#[verifier::external_type_specification]
#[verifier::external_body]
pub struct ExUtf8Error(core::str::Utf8Error);

/// The text that `String::from_utf8_lossy` makes of bytes that are not
/// valid UTF-8: what can be decoded is kept, and each run of bytes that
/// cannot is replaced by U+FFFD.
pub uninterp spec fn replaced_text(bytes: Seq<u8>) -> Seq<char>;

/// `core::str::from_utf8` accepts exactly the byte sequences that are valid
/// UTF-8, and the string it returns is made of the bytes it was given.
pub assume_specification[ core::str::from_utf8 ](v: &[u8]) -> (r: Result<
    &str,
    core::str::Utf8Error,
>)
    ensures
        r is Ok <==> valid_utf8(v@),
        r matches Ok(text) ==> text.spec_bytes() == v@,
;

/// `String::from_utf8_lossy` decodes valid UTF-8 as it stands, and makes of
/// any other bytes the text that is named [`replaced_text`].
pub assume_specification[ String::from_utf8_lossy ](v: &[u8]) -> (r: Cow<'_, str>)
    ensures
        valid_utf8(v@) ==> r@ == decode_utf8(v@),
        !valid_utf8(v@) ==> r@ == replaced_text(v@),
;

} // verus!
