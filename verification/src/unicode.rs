//! What the standard library knows of Unicode: small letters and lossy decoding.

use vstd::prelude::*;
use vstd::utf8::{decode_utf8, is_ascii_chars, valid_utf8};

use crate::text::ascii_lowered;

verus! {

/// `text` in small letters, by Unicode's rules.
pub uninterp spec fn lowercase(text: Seq<char>) -> Seq<char>;

/// `text` in small letters.
///
/// Trusted: `str::to_lowercase` is a function of its text alone. On ASCII text it does what the
/// ASCII mapping does. What it makes of other letters is left to its name.
#[verifier::external_body]
pub(crate) fn to_lowercase(text: &str) -> (lower: String)
    ensures
        lower@ == lowercase(text@),
        is_ascii_chars(text@) ==> lower@ == ascii_lowered(text@),
{
    text.to_lowercase()
}

/// The text of `bytes`, with each part that is not UTF-8 replaced.
pub uninterp spec fn lossy_text(bytes: Seq<u8>) -> Seq<char>;

/// The text of `bytes`, with each part that is not UTF-8 replaced.
///
/// Trusted: `String::from_utf8_lossy` is a function of its bytes alone, and gives valid UTF-8 back
/// as the text that it encodes. How much of a broken sequence one replacement stands for is left
/// to its name.
#[verifier::external_body]
pub(crate) fn decode_lossy(bytes: &[u8]) -> (text: String)
    ensures
        text@ == lossy_text(bytes@),
        valid_utf8(bytes@) ==> text@ == decode_utf8(bytes@),
{
    String::from_utf8_lossy(bytes).into_owned()
}

} // verus!
