//! Checks of a serialized token's envelope, and of values against limits and
//! schemas.

use vstd::prelude::*;
use vstd::slice::slice_subrange;
use crate::constants::{is_supported_version, FORMAT_VERSION};
use crate::deserialization::deserializer::{
    DeserializeError, Deserializer, MIN_TOKEN_LEN, PAYLOAD_START,
};
use crate::endian::{le_u32, u32_from_le};
use crate::error::ToonError;

pub mod checksum;
pub mod constraints;
pub mod schema;

verus! {

/// The verdict on `bytes` as the envelope of a token: its length, version,
/// framing and checksum, judged in that order. The payload is not decoded.
pub open spec fn envelope_verdict(bytes: Seq<u8>) -> Result<(), ToonError> {
    if bytes.len() < MIN_TOKEN_LEN {
        Err(ToonError::Deserialization(DeserializeError::Truncated))
    } else if bytes[0] != FORMAT_VERSION {
        Err(ToonError::InvalidFormat { version: bytes[0], expected: FORMAT_VERSION })
    } else if PAYLOAD_START + le_u32(bytes.subrange(18, 22)) > bytes.len() - 4 {
        Err(ToonError::Deserialization(DeserializeError::Truncated))
    } else if PAYLOAD_START + le_u32(bytes.subrange(18, 22)) != bytes.len() - 4 {
        Err(ToonError::Deserialization(DeserializeError::TrailingBytes))
    } else if checksum::crc32_ieee(bytes.take(bytes.len() - 4)) != le_u32(
        bytes.skip(bytes.len() - 4),
    ) {
        Err(
            ToonError::ChecksumMismatch {
                expected: checksum::crc32_ieee(bytes.take(bytes.len() - 4)),
                actual: le_u32(bytes.skip(bytes.len() - 4)),
                offset: (bytes.len() - 4) as usize,
            },
        )
    } else {
        Ok(())
    }
}

/// Checks the envelope of a serialized token: version, framing and checksum.
pub fn validate_token_bytes(bytes: &[u8]) -> (verdict: Result<(), ToonError>)
    ensures
        verdict == envelope_verdict(bytes@),
{
    if bytes.len() < MIN_TOKEN_LEN {
        return Err(ToonError::Deserialization(DeserializeError::Truncated));
    }
    let header = match Deserializer::new(bytes).header() {
        Ok(h) => h,
        Err(e) => {
            return Err(ToonError::Deserialization(e));
        },
    };
    if !is_supported_version(header.version) {
        return Err(ToonError::InvalidFormat { version: header.version, expected: FORMAT_VERSION });
    }
    let checksum_start = bytes.len() - 4;
    let room = checksum_start - PAYLOAD_START;
    if header.payload_len as usize > room {
        return Err(ToonError::Deserialization(DeserializeError::Truncated));
    }
    if header.payload_len as usize != room {
        return Err(ToonError::Deserialization(DeserializeError::TrailingBytes));
    }
    let actual = u32_from_le(bytes, checksum_start);
    let expected = checksum::crc32(slice_subrange(bytes, 0, checksum_start));
    proof {
        assert(bytes@.subrange(0, checksum_start as int) =~= bytes@.take(bytes@.len() - 4));
        assert(bytes@.subrange(checksum_start as int, checksum_start + 4) =~= bytes@.skip(
            bytes@.len() - 4,
        ));
        assert(le_u32(bytes@.skip(bytes@.len() - 4)) == actual);
    }
    if expected != actual {
        return Err(ToonError::ChecksumMismatch { expected, actual, offset: checksum_start });
    }
    Ok(())
}

} // verus!
