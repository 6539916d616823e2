//! Byte strings read as UTF-8.
use vstd::prelude::*;

verus! {

/// The text that bytes encode in UTF-8, if they do.
pub open spec fn utf8_text_of(bytes: Seq<u8>) -> Option<Seq<char>> {
    if vstd::utf8::valid_utf8(bytes) {
        Some(vstd::utf8::decode_utf8(bytes))
    } else {
        None
    }
}

/// `std::str::from_utf8`: succeeds on valid UTF-8, and then gives the text that the bytes encode.
#[verifier::external_body]
pub(crate) fn utf8_text(bytes: &[u8]) -> (r: Option<String>)
    ensures
        match r {
            Some(text) => utf8_text_of(bytes@) == Some(text@),
            None => utf8_text_of(bytes@) is None,
        },
{
    std::str::from_utf8(bytes).ok().map(|text| text.to_owned())
}

/// The text that `String::from_utf8_lossy` gives for bytes.
pub uninterp spec fn lossy(bytes: Seq<u8>) -> Seq<char>;

/// `String::from_utf8_lossy`: valid UTF-8 gives the text that it encodes. Of other bytes the text
/// is named; what is put in the place of parts that are no UTF-8 is left unsaid.
#[verifier::external_body]
pub(crate) fn lossy_text(bytes: &[u8]) -> (r: String)
    ensures
        r@ == lossy(bytes@),
        vstd::utf8::valid_utf8(bytes@) ==> r@ == vstd::utf8::decode_utf8(bytes@),
{
    String::from_utf8_lossy(bytes).into_owned()
}

} // verus!
