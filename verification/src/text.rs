//! Names on the wire are raw bytes; the broker turns them into `String`s the
//! way `String::from_utf8_lossy` does.

use vstd::prelude::*;
use vstd::utf8::{decode_utf8, valid_utf8};

verus! {

/// What `String::from_utf8_lossy` makes of a byte sequence: its characters
/// when it is valid UTF-8, with each invalid run replaced by U+FFFD otherwise.
pub uninterp spec fn utf8_lossy(bytes: Seq<u8>) -> Seq<char>;

/// The text that the broker reads from raw name bytes.
pub open spec fn text_of(bytes: Seq<u8>) -> Seq<char> {
    if valid_utf8(bytes) {
        decode_utf8(bytes)
    } else {
        utf8_lossy(bytes)
    }
}

/// `String::from_utf8_lossy(bytes).into_owned()`. Its result is named
/// `utf8_lossy`; on valid UTF-8 the documentation promises the decoded text
/// itself, which the second clause states. What it makes of invalid input
/// (where replacement characters go) is left unsaid.
#[verifier::external_body]
pub(crate) fn string_from_utf8_lossy(bytes: &[u8]) -> (s: String)
    ensures
        s@ == utf8_lossy(bytes@),
        valid_utf8(bytes@) ==> s@ == decode_utf8(bytes@),
{
    String::from_utf8_lossy(bytes).into_owned()
}

/// The empty byte sequence reads as the empty text.
pub proof fn lemma_text_of_empty()
    ensures
        text_of(Seq::<u8>::empty()) == Seq::<char>::empty(),
{
    assert(valid_utf8(Seq::<u8>::empty()));
}

} // verus!
