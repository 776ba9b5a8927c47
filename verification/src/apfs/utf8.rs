//! Text in file names and volume names.

use crate::apfs::bytes::same_bytes;
use vstd::utf8::{decode_utf8, encode_utf8_decode_utf8, valid_utf8};
use vstd::prelude::*;

verus! {

/// The text that `String::from_utf8_lossy` makes of bytes that are not valid
/// UTF-8.
pub uninterp spec fn repaired_text(b: Seq<u8>) -> Seq<char>;

/// The text of a byte string.
pub open spec fn text_of(b: Seq<u8>) -> Seq<char> {
    if valid_utf8(b) { decode_utf8(b) } else { repaired_text(b) }
}

/// Decode UTF-8. `String::from_utf8_lossy` gives one text for each byte
/// string: the encoded text where the bytes are valid UTF-8, and else a text
/// in which U+FFFD stands for what is malformed. How the malformed parts are
/// divided up is not stated.
#[verifier::external_body]
pub(crate) fn lossy(b: &[u8]) -> (s: String)
    ensures
        s@ == (if valid_utf8(b@) {
            decode_utf8(b@)
        } else {
            repaired_text(b@)
        }),
{
    String::from_utf8_lossy(b).into_owned()
}

/// Whether two texts are equal.
pub fn same_text(a: &str, b: &str) -> (r: bool)
    ensures
        r == (a@ == b@),
{
    let r = same_bytes(a.as_bytes(), b.as_bytes());
    proof {
        encode_utf8_decode_utf8(a@);
        encode_utf8_decode_utf8(b@);
    }
    r
}

} // verus!
