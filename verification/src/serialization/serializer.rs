//! The envelope of a token: header, payload and checksum.

use vstd::prelude::*;
use crate::constants::FORMAT_VERSION;
use crate::endian::le_u32_bytes;
use crate::types::token::Token;
use crate::types::token_id::TokenId;
use crate::types::value::ValueView;
use crate::validation::checksum::{crc32, crc32_ieee};
use super::encoder::{encodable, encode_value, marker_of, payload_of};
use super::writer::ByteWriter;

verus! {

/// Why a token could not be serialized.
#[derive(Debug, Clone, Copy, PartialEq, Eq, Structural)]
pub enum SerializeError {
    /// A length does not fit in 32 bits.
    LengthOverflow,
}

impl SerializeError {
    /// What went wrong, in words.
    pub fn message(&self) -> (text: &'static str)
        ensures
            text@ == "payload length does not fit in u32"@,
    {
        "payload length does not fit in u32"
    }
}

/// Writes tokens in the framed, checksummed wire format.
pub struct Serializer;

/// A serialized token up to, and without, its checksum: version, identity,
/// type marker, payload length and payload.
pub open spec fn envelope_body(id: TokenId, v: ValueView) -> Seq<u8> {
    seq![FORMAT_VERSION] + id.spec_bytes() + seq![marker_of(v)] + le_u32_bytes(
        payload_of(v).len() as u32,
    ) + payload_of(v)
}

/// A serialized token: its body followed by the checksum of the body.
pub open spec fn envelope(id: TokenId, v: ValueView) -> Seq<u8> {
    envelope_body(id, v) + le_u32_bytes(crc32_ieee(envelope_body(id, v)))
}

/// Whether a token with value `v` can be serialized: every length below `v`
/// and the length of its own payload fit in 32 bits.
pub open spec fn serializable(v: ValueView) -> bool {
    encodable(v) && payload_of(v).len() <= u32::MAX
}

impl Default for Serializer {
    fn default() -> (serializer: Serializer) {
        Serializer::new()
    }
}

impl Serializer {
    /// A serializer.
    pub fn new() -> (serializer: Serializer) {
        Serializer
    }

    /// Serializes `token`. Its metadata is not written.
    ///
    /// Fails exactly when a length does not fit in 32 bits.
    pub fn serialize(&self, token: &Token) -> (bytes: Result<Vec<u8>, SerializeError>)
        ensures
            match bytes {
                Ok(b) => serializable(token.spec_value()@) && b@ == envelope(
                    token.id(),
                    token.spec_value()@,
                ),
                Err(e) => !serializable(token.spec_value()@) && e == SerializeError::LengthOverflow,
            },
    {
        let encoded = match encode_value(token.value()) {
            Ok(e) => e,
            Err(e) => {
                return Err(e);
            },
        };
        if encoded.payload.len() > u32::MAX as usize {
            return Err(SerializeError::LengthOverflow);
        }
        let payload_len = encoded.payload.len() as u32;
        let mut writer = ByteWriter::with_capacity(26);
        writer.write_u8(FORMAT_VERSION);
        let id = token.id().as_bytes();
        writer.write_bytes(id.as_slice());
        writer.write_u8(encoded.type_marker);
        writer.write_u32_le(payload_len);
        writer.write_bytes(encoded.payload.as_slice());
        let checksum = crc32(writer.as_slice());
        proof {
            assert(writer@ =~= envelope_body(token.id(), token.spec_value()@));
        }
        writer.write_u32_le(checksum);
        Ok(writer.into_inner())
    }
}

} // verus!
