//! UTF-8 text.

use vstd::prelude::*;

verus! {

/// What `String::from_utf8` says of bytes that are not UTF-8: the text of its error.
pub uninterp spec fn utf8_cause(b: Seq<u8>) -> Seq<char>;

/// `String::from_utf8`: succeeds exactly on well-formed UTF-8, with the text it encodes. On other
/// bytes it gives an error, whose text depends on the bytes alone.
#[verifier::external_body]
pub(crate) fn from_utf8(v: Vec<u8>) -> (r: Result<String, String>)
    ensures
        match r {
            Ok(s) => vstd::utf8::valid_utf8(v@) && s@ == vstd::utf8::decode_utf8(v@),
            Err(cause) => !vstd::utf8::valid_utf8(v@) && cause@ == utf8_cause(v@),
        },
{
    match String::from_utf8(v) {
        Ok(s) => Ok(s),
        Err(e) => Err(e.to_string()),
    }
}

/// The text that bytes encode, or why they encode none.
pub open spec fn text_of(b: Seq<u8>) -> Result<Seq<char>, Seq<char>> {
    if vstd::utf8::valid_utf8(b) {
        Ok(vstd::utf8::decode_utf8(b))
    } else {
        Err(utf8_cause(b))
    }
}

/// The text that `bytes` encode, or why they encode none.
pub fn utf8_text(bytes: &[u8]) -> (r: Result<String, String>)
    ensures
        match text_of(bytes@) {
            Ok(t) => r is Ok && r->Ok_0@ == t,
            Err(cause) => r is Err && r->Err_0@ == cause,
        },
{
    from_utf8(vstd::slice::slice_to_vec(bytes))
}

} // verus!
