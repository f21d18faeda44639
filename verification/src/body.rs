//! Decoding of fetched playlist and guide bodies.
use std::io::Read;
use vstd::prelude::*;
use vstd::utf8::{decode_utf8, valid_utf8};

verus! {

/// Name for the text that `flate2::read::GzDecoder` yields from `bytes`
/// when read to a string: `None` where the data is not gzip or the text is
/// not UTF-8.
pub uninterp spec fn gunzip_text(bytes: Seq<u8>) -> Option<Seq<char>>;

/// Name for what `String::from_utf8_lossy` makes of `bytes`.
pub uninterp spec fn utf8_lossy(bytes: Seq<u8>) -> Seq<char>;

/// Trusted: reading a `flate2::read::GzDecoder` over `bytes` into a string
/// gives a result that depends on `bytes` alone, which this crate calls
/// `gunzip_text`; its error becomes `None`.
#[verifier::external_body]
fn gunzip_to_string(bytes: &[u8]) -> (r: Option<String>)
    ensures
        match r {
            Some(s) => gunzip_text(bytes@) == Some(s@),
            None => gunzip_text(bytes@) is None,
        },
{
    let mut out = String::new();
    match flate2::read::GzDecoder::new(bytes).read_to_string(&mut out) {
        Ok(_) => Some(out),
        Err(_) => None,
    }
}

/// Trusted: `String::from_utf8_lossy` decodes `bytes`, replacing invalid
/// sequences; valid UTF-8 is decoded unchanged.
#[verifier::external_body]
fn lossy_text(bytes: &[u8]) -> (r: String)
    ensures
        r@ == utf8_lossy(bytes@),
        valid_utf8(bytes@) ==> r@ == decode_utf8(bytes@),
{
    String::from_utf8_lossy(bytes).into_owned()
}

/// A body that starts with the gzip magic bytes 1f 8b.
pub open spec fn is_gzip(b: Seq<u8>) -> bool {
    b.len() >= 2 && b[0] == 0x1f && b[1] == 0x8b
}

/// Why a fetched body could not be turned into text.
#[derive(Debug, Clone, Copy, PartialEq, Eq, Structural)]
pub enum BodyError {
    /// The body has the gzip magic bytes but does not decompress to UTF-8 text.
    Gzip,
}

/// The text of a fetched body: decompressed when it starts with the gzip
/// magic bytes (servers do not always say so), else decoded as UTF-8 with
/// invalid sequences replaced.
pub fn decode_body(bytes: &[u8]) -> (r: Result<String, BodyError>)
    ensures
        is_gzip(bytes@) ==> match gunzip_text(bytes@) {
            Some(t) => r matches Ok(s) && s@ == t,
            None => r == Err::<String, BodyError>(BodyError::Gzip),
        },
        !is_gzip(bytes@) ==> (r matches Ok(s) && s@ == utf8_lossy(bytes@)),
{
    if bytes.len() >= 2 && bytes[0] == 0x1f && bytes[1] == 0x8b {
        match gunzip_to_string(bytes) {
            Some(s) => Ok(s),
            None => Err(BodyError::Gzip),
        }
    } else {
        Ok(lossy_text(bytes))
    }
}

} // verus!
