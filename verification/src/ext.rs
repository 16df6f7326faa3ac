use vstd::prelude::*;

use crate::errors::{ErrorKind, WeechatParseError};
use crate::wire::{utf8_lossy, zlib_inflate};

verus! {

/// Relies on `String::from_utf8_lossy`: the characters are a function of the
/// bytes alone, and bytes that are all ASCII are passed through unchanged,
/// each as the character with its code.
#[verifier::external_body]
pub(crate) fn lossy_utf8(b: &[u8]) -> (r: String)
    ensures
        r@ == utf8_lossy(b@),
        (forall|i: int| 0 <= i < b@.len() ==> b@[i] < 0x80) ==> r@ == Seq::new(
            b@.len(),
            |i: int| b@[i] as char,
        ),
{
    String::from_utf8_lossy(b).into_owned()
}

/// Relies on flate2's `ZlibDecoder` over a byte slice, read to the stream's
/// end: success and the inflated bytes are a function of the compressed bytes
/// alone, and a malformed stream fails.
#[verifier::external_body]
pub(crate) fn inflate(b: &[u8]) -> (r: Result<Vec<u8>, WeechatParseError>)
    ensures
        match r {
            Ok(v) => zlib_inflate(b@) == Some(v@),
            Err(e) => zlib_inflate(b@) is None && e.kind == ErrorKind::Decompression,
        },
{
    let mut decoder = flate2::read::ZlibDecoder::new(b);
    let mut out = Vec::<u8>::new();
    match std::io::Read::read_to_end(&mut decoder, &mut out) {
        Ok(_) => Ok(out),
        Err(_) => Err(WeechatParseError {
            kind: ErrorKind::Decompression,
            context: "could not inflate the frame payload".to_owned(),
            tag: None,
        }),
    }
}

} // verus!
