//! Schematic files are stored in GBK; `encoding_rs` converts.
use vstd::prelude::*;
use crate::text::Text;

verus! {

/// The text that `encoding_rs::GBK.decode` gives for `bytes`.
pub uninterp spec fn gbk_decode(bytes: Seq<u8>) -> Seq<char>;

/// The bytes that `encoding_rs::GBK.encode` gives for `text`.
pub uninterp spec fn gbk_encode(text: Seq<char>) -> Seq<u8>;

pub open spec fn is_ascii_bytes(b: Seq<u8>) -> bool {
    forall|i: int| 0 <= i < b.len() ==> b[i] < 0x80
}

pub open spec fn is_ascii_text(t: Text) -> bool {
    forall|i: int| 0 <= i < t.len() ==> (t[i] as u32) < 0x80
}

/// Each byte below 0x80 read as the character with that code.
pub open spec fn ascii_to_text(b: Seq<u8>) -> Text {
    b.map_values(|x: u8| x as char)
}

/// Each character below U+0080 written as the byte with that code.
pub open spec fn ascii_to_bytes(t: Text) -> Seq<u8> {
    t.map_values(|c: char| c as u8)
}

/// Bytes that `decode` takes without panicking: ASCII input is borrowed
/// as it is, and for other input the buffer it allocates (at most three
/// bytes per input byte, plus a few) stays below `isize::MAX`.
pub open spec fn decodable(b: Seq<u8>) -> bool {
    is_ascii_bytes(b) || b.len() <= usize::MAX / 8
}

/// Text that `encode` takes without panicking: at four bytes per
/// character at most, the buffers it sizes and grows (below ten bytes per
/// input byte) stay below `isize::MAX`.
pub open spec fn encodable(t: Text) -> bool {
    t.len() <= usize::MAX / 128
}

/// Trusted: calls `encoding_rs::Encoding::decode` on `GBK` and keeps the text.
/// The contract names the result `gbk_decode(bytes)` and states what the
/// crate's source shows for ASCII input: such input starts with no byte
/// order mark and is borrowed unchanged, each byte one character.  What the
/// decoder makes of other bytes (GBK pairs, the UTF-8 and UTF-16 byte order
/// marks it sniffs, malformed input turned into U+FFFD) is left unsaid.
#[verifier::external_body]
pub(crate) fn decode_gbk(bytes: &[u8]) -> (r: String)
    requires
        decodable(bytes@),
    ensures
        r@ == gbk_decode(bytes@),
        is_ascii_bytes(bytes@) ==> r@ == ascii_to_text(bytes@),
{
    let (text, _, _) = encoding_rs::GBK.decode(bytes);
    text.into_owned()
}

/// Trusted: calls `encoding_rs::Encoding::encode` on `GBK` and keeps the
/// bytes.  The contract names the result `gbk_encode(text)` and states what
/// the crate's source shows for ASCII text: it is returned as its own bytes.
/// How other characters are written (GBK pairs, or `&#N;` references for
/// characters GBK lacks) is left unsaid.
#[verifier::external_body]
pub(crate) fn encode_gbk(text: &str) -> (r: Vec<u8>)
    requires
        encodable(text@),
    ensures
        r@ == gbk_encode(text@),
        is_ascii_text(text@) ==> r@ == ascii_to_bytes(text@),
{
    let (bytes, _, _) = encoding_rs::GBK.encode(text);
    bytes.into_owned()
}

} // verus!
