use vstd::prelude::*;
use vstd::slice::slice_subrange;

use crate::data::WeechatMessage;
use crate::decode::{be_u32_at, parse_data, read_string_32bit_length, str32_matches};
use crate::errors::{ErrorKind, WeechatParseError};
use crate::ext::inflate;
use crate::wire::{be_u32, default_id, spec_message, zlib_inflate};

verus! {

/// The declared total frame length: the big-endian unsigned integer in the
/// first four bytes, which counts those four bytes and the flag byte too.
pub fn get_length(buffer: &[u8]) -> (r: Result<u32, WeechatParseError>)
    ensures
        match r {
            Ok(v) => buffer@.len() >= 4 && v == be_u32(buffer@),
            Err(e) => buffer@.len() < 4 && e.kind == ErrorKind::MalformedBinaryParse,
        },
{
    if buffer.len() < 4 {
        return Err(
            WeechatParseError::new(ErrorKind::MalformedBinaryParse, "frame length is truncated"),
        );
    }
    Ok(be_u32_at(buffer, 0))
}

/// The compression flag at byte offset 4: true exactly where that byte is 1.
pub fn get_compression(buffer: &[u8]) -> (r: Result<bool, WeechatParseError>)
    ensures
        match r {
            Ok(v) => buffer@.len() >= 5 && v == (buffer@[4] == 1),
            Err(e) => buffer@.len() < 5 && e.kind == ErrorKind::MalformedBinaryParse,
        },
{
    if buffer.len() < 5 {
        return Err(
            WeechatParseError::new(
                ErrorKind::MalformedBinaryParse,
                "could not find compression flag",
            ),
        );
    }
    Ok(buffer[4] == 1)
}

/// The frame payload inflated: everything past the length field and the
/// compression flag, run through the zlib decoder.
pub fn get_raw_data(buffer: &[u8]) -> (r: Result<Vec<u8>, WeechatParseError>)
    ensures
        match r {
            Ok(v) => buffer@.len() >= 5 && zlib_inflate(buffer@.skip(5)) == Some(v@),
            Err(e) => (buffer@.len() < 5 && e.kind == ErrorKind::MalformedBinaryParse) || (
            buffer@.len() >= 5 && zlib_inflate(buffer@.skip(5)) is None && e.kind
                == ErrorKind::Decompression),
        },
{
    if buffer.len() < 5 {
        return Err(
            WeechatParseError::new(ErrorKind::MalformedBinaryParse, "frame header is truncated"),
        );
    }
    inflate(slice_subrange(buffer, 5, buffer.len()))
}

/// The message identifier at the start of the inflated payload: how many
/// bytes it takes, and the identifier string, `None` where it is null.
pub fn get_message_type(buffer: &[u8]) -> (r: Result<(usize, Option<String>), WeechatParseError>)
    ensures
        str32_matches(r, buffer@),
{
    read_string_32bit_length(buffer)
}

impl WeechatMessage {
    /// One complete frame decoded to a message: the payload is inflated, the
    /// identifier read (a null identifier maps to the default), and the rest
    /// decoded as tagged elements.
    pub fn from_raw_message(buffer: &[u8]) -> (r: Result<WeechatMessage, WeechatParseError>)
        ensures
            match r {
                Ok(m) => spec_message(buffer@) == Some(m.dview()),
                Err(e) => spec_message(buffer@) is None,
            },
    {
        let raw_data = get_raw_data(buffer)?;
        let (len, id) = get_message_type(raw_data.as_slice())?;
        let name = match id {
            Some(s) => s,
            None => {
                let d = "test".to_owned();
                proof {
                    reveal_strlit("test");
                    assert(d@ =~= default_id());
                }
                d
            },
        };
        let rlen = raw_data.len();
        let data = parse_data(slice_subrange(raw_data.as_slice(), len, rlen), rlen - len)?;
        Ok(WeechatMessage { id: name, data })
    }
}

} // verus!
