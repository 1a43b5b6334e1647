use vstd::prelude::*;
use vstd::utf8::*;

verus! {

/// Calls `String::from_utf8` and keeps the string on success.
///
/// Claimed of std: the bytes are accepted exactly when they are well-formed
/// UTF-8 (vstd's `valid_utf8`), and the string then holds the characters
/// that the bytes encode (vstd's `decode_utf8`).
#[verifier::external_body]
pub(crate) fn string_from_utf8(bytes: Vec<u8>) -> (res: Option<String>)
    ensures
        res is Some <==> valid_utf8(bytes@),
        res matches Some(s) ==> s@ == decode_utf8(bytes@),
{
    String::from_utf8(bytes).ok()
}

} // verus!
