//! Text from bytes.

use vstd::prelude::*;
use vstd::utf8::{decode_utf8, valid_utf8};

verus! {

/// The text that `String::from_utf8_lossy` of the standard library makes of
/// the bytes.
pub uninterp spec fn lossy_decode(bytes: Seq<u8>) -> Seq<char>;

/// The bytes as text, by `String::from_utf8_lossy` of the standard library.
///
/// Trusted: the result is `lossy_decode` of the bytes by the meaning of that
/// name, and bytes that are valid UTF-8 give the string they encode. Of
/// other bytes no more is claimed; the standard library then puts a
/// replacement character in place of each invalid sequence.
#[verifier::external_body]
pub(crate) fn lossy_text(bytes: &Vec<u8>) -> (r: String)
    ensures
        r@ == lossy_decode(bytes@),
        valid_utf8(bytes@) ==> r@ == decode_utf8(bytes@),
{
    String::from_utf8_lossy(bytes).into_owned()
}

} // verus!
