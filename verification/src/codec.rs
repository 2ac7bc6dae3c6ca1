//! GBK / UTF-8 conversion between the UTF-8 strings of the front end and the
//! byte streams of a MUD server.

use vstd::prelude::*;
use vstd::utf8::{valid_utf8, decode_utf8, is_ascii_chars};

verus! {

/// What `encoding_rs::GBK.decode` yields for a complete byte buffer
/// (with its BOM sniffing and replacement of malformed sequences).
pub uninterp spec fn gbk_decoded(bytes: Seq<u8>) -> Seq<char>;

/// What `encoding_rs::GBK.encode` yields for a complete string (with
/// unmappable characters written as numeric character references).
pub uninterp spec fn gbk_encoded(text: Seq<char>) -> Seq<u8>;

/// The text a buffer from the network stands for: UTF-8 when the bytes are
/// valid UTF-8, GBK otherwise.
pub open spec fn network_decoded(bytes: Seq<u8>) -> Seq<char> {
    if valid_utf8(bytes) {
        decode_utf8(bytes)
    } else {
        gbk_decoded(bytes)
    }
}

/// `encoding_rs::Encoding::decode` on `GBK`. Its result is named
/// `gbk_decoded`; nothing more is claimed of it.
#[verifier::external_body]
fn gbk_decode(bytes: &[u8]) -> (s: String)
    ensures
        s@ == gbk_decoded(bytes@),
{
    let (cow, _, _) = encoding_rs::GBK.decode(bytes);
    cow.into_owned()
}

/// `encoding_rs::Encoding::encode` on `GBK`. Its result is named
/// `gbk_encoded`; the source returns the input's own bytes unchanged when the
/// text is all ASCII (`ascii_valid_up_to(bytes) == bytes.len()`), and that is
/// the one further fact claimed.
#[verifier::external_body]
fn gbk_encode(text: &str) -> (b: Vec<u8>)
    ensures
        b@ == gbk_encoded(text@),
        is_ascii_chars(text@) ==> b@ == Seq::new(text@.len(), |i: int| text@[i] as u8),
{
    let (cow, _, _) = encoding_rs::GBK.encode(text);
    cow.into_owned()
}

/// `std::str::from_utf8`: `Ok` exactly on valid UTF-8, with the decoded
/// characters (vstd's `valid_utf8` / `decode_utf8`).
#[verifier::external_body]
pub(crate) fn utf8_decode(bytes: &[u8]) -> (r: Option<String>)
    ensures
        r is Some <==> valid_utf8(bytes@),
        r matches Some(s) ==> s@ == decode_utf8(bytes@),
{
    match std::str::from_utf8(bytes) {
        Ok(s) => Some(s.to_string()),
        Err(_) => None,
    }
}

/// Convert a UTF-8 string from the front end into the GBK bytes a MUD expects.
pub fn to_gbk_bytes(text: &str) -> (b: Vec<u8>)
    ensures
        b@ == gbk_encoded(text@),
        is_ascii_chars(text@) ==> b@ == Seq::new(text@.len(), |i: int| text@[i] as u8),
{
    gbk_encode(text)
}

/// Convert GBK bytes from a MUD server into a UTF-8 string.
pub fn from_gbk_bytes(bytes: &[u8]) -> (s: String)
    ensures
        s@ == gbk_decoded(bytes@),
{
    gbk_decode(bytes)
}

/// Decode a network buffer: as UTF-8 when it is valid UTF-8, else as GBK.
pub fn decode_network_bytes(bytes: &[u8]) -> (s: String)
    ensures
        s@ == network_decoded(bytes@),
{
    match utf8_decode(bytes) {
        Some(s) => s,
        None => gbk_decode(bytes),
    }
}

} // verus!
