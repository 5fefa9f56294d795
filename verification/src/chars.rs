use vstd::prelude::*;

verus! {

/// Each byte read as the character with the same code point (the reading the
/// scanner applies to raw string blobs).
pub open spec fn chars_of(bytes: Seq<u8>) -> Seq<char> {
    bytes.map_values(|b: u8| b as char)
}

/// Characters of the UTF-8 reading of `bytes`, with every invalid sequence
/// replaced; the exact replacement is pinned down only as a function of the
/// bytes themselves.
pub uninterp spec fn utf8_lossy_of(bytes: Seq<u8>) -> Seq<char>;

/// Relies on String::push: appends exactly the given character.
#[verifier::external_body]
pub(crate) fn push_char(s: &mut String, c: char)
    ensures
        final(s)@ == old(s)@.push(c),
{
    s.push(c);
}

/// Relies on String::from_utf8_lossy: the result is a function of the bytes
/// alone; input that is already valid UTF-8 is returned unchanged, so its
/// characters are exactly that input's UTF-8 decoding; and bytes that are
/// entirely ASCII are valid UTF-8 decoding to the characters with the same
/// code points.
#[verifier::external_body]
pub(crate) fn utf8_lossy(bytes: &[u8]) -> (r: String)
    ensures
        r@ == utf8_lossy_of(bytes@),
        vstd::utf8::valid_utf8(bytes@) ==> r@ == vstd::utf8::decode_utf8(bytes@),
        (forall|i: int| 0 <= i < bytes@.len() ==> bytes@[i] < 0x80) ==> r@ == chars_of(bytes@),
{
    String::from_utf8_lossy(bytes).into_owned()
}

} // verus!
