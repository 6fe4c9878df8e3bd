//! Text carried by frame fields: raw bytes are decoded as UTF-8, and a
//! field whose bytes are not valid UTF-8 is replaced by a fixed marker
//! instead of failing the whole parse.

use vstd::prelude::*;
use vstd::utf8::{decode_utf8, valid_utf8};

verus! {

/// The characters substituted for a field whose bytes are not valid UTF-8.
pub open spec fn sentinel_chars() -> Seq<char> {
    "UTF8_ERR_\u{1F344}"@
}

/// The text a field of raw bytes carries: its UTF-8 decoding, or the fixed
/// replacement marker when the bytes are not valid UTF-8.
pub open spec fn s2s_spec(b: Seq<u8>) -> Seq<char> {
    if valid_utf8(b) {
        decode_utf8(b)
    } else {
        sentinel_chars()
    }
}

/// Relies on std::str::from_utf8: it returns `Ok` exactly when the bytes
/// are valid UTF-8, and the returned slice is those very bytes read as
/// UTF-8 text.
#[verifier::external_body]
fn utf8_to_str(b: &[u8]) -> (r: Option<&str>)
    ensures
        r is Some <==> valid_utf8(b@),
        r matches Some(s) ==> s@ == decode_utf8(b@),
{
    core::str::from_utf8(b).ok()
}

/// Bytes as text, with the fixed replacement marker standing in for bytes
/// that do not decode.
pub fn s2s(s: &[u8]) -> (r: String)
    ensures
        r@ == s2s_spec(s@),
{
    match utf8_to_str(s) {
        Some(t) => t.to_owned(),
        None => ("UTF8_ERR_\u{1F344}").to_owned(),
    }
}

} // verus!
