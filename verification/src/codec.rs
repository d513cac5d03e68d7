//! Base64 text, through the `base64` crate's standard engine.

use base64::engine::general_purpose::STANDARD;
use base64::Engine;
use vstd::prelude::*;

verus! {

/// What the standard base64 engine decodes `text` to, or `None` where it refuses it.
pub uninterp spec fn standard_base64_decoded(text: Seq<char>) -> Option<Seq<u8>>;

/// `STANDARD.decode` of the `base64` crate (padded alphabet, canonical trailing bits).
/// The contract claims only that its outcome is a function of the text, named
/// [`standard_base64_decoded`]; the decoding rules themselves are the crate's.
#[verifier::external_body]
pub(crate) fn decode_base64(text: &str) -> (decoded: Option<Vec<u8>>)
    ensures
        match decoded {
            Some(bytes) => standard_base64_decoded(text@) == Some(bytes@),
            None => standard_base64_decoded(text@) is None,
        },
{
    STANDARD.decode(text).ok()
}

/// Whether the padded base64 text of `len` bytes has a length that fits in `usize`.
pub open spec fn base64_fits(len: nat) -> bool {
    (len / 3) * 4 + (if len % 3 > 0 {
        4int
    } else {
        0int
    }) <= usize::MAX
}

/// What the standard base64 engine encodes `bytes` to.
pub uninterp spec fn standard_base64_encoded(bytes: Seq<u8>) -> Seq<char>;

/// `STANDARD.encode` of the `base64` crate (padded alphabet). The contract claims only
/// that the text is a function of the bytes, named [`standard_base64_encoded`]. The
/// crate panics when the encoded length overflows `usize`, which `requires` rules out.
#[verifier::external_body]
pub(crate) fn encode_base64(bytes: &[u8]) -> (text: String)
    requires
        base64_fits(bytes@.len()),
    ensures
        text@ == standard_base64_encoded(bytes@),
{
    STANDARD.encode(bytes)
}

} // verus!
