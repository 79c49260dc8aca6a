//! Reading the envelope of a token: header, layout, checksum and payload.

use vstd::prelude::*;
use vstd::slice::slice_subrange;
use std::ops::Range;
use crate::constants::{is_supported_version, FORMAT_VERSION};
use crate::endian::{le_u32, u32_from_le};
use crate::types::metadata::Metadata;
use crate::types::token::Token;
use crate::types::token_id::TokenId;
use crate::types::value::{keys_distinct_below, ValueView};
use crate::validation::checksum::{crc32, crc32_ieee};
use super::decoder::{decode_value, id_at, parse_value};

verus! {

/// The fixed-size prefix of a serialized token.
#[derive(Debug, Clone, Copy, PartialEq, Eq)]
pub struct TokenHeader {
    pub version: u8,
    pub id: [u8; 16],
    pub type_marker: u8,
    pub payload_len: u32,
}

/// Where the parts of a serialized token lie in its bytes.
#[derive(Debug, PartialEq, Eq)]
pub struct TokenLayout {
    pub header: TokenHeader,
    pub payload_range: Range<usize>,
    pub checksum_range: Range<usize>,
}

impl Clone for TokenLayout {
    fn clone(&self) -> (copy: TokenLayout)
        ensures
            copy == *self,
    {
        TokenLayout {
            header: self.header,
            payload_range: self.payload_range.start..self.payload_range.end,
            checksum_range: self.checksum_range.start..self.checksum_range.end,
        }
    }
}

/// Why a byte string is not a serialized token, or a payload not a value.
#[derive(Debug, Clone, Copy, PartialEq, Eq, Structural)]
pub enum DeserializeError {
    /// The input ends before a field does.
    Truncated,
    /// The version byte is not one this library reads.
    UnsupportedVersion,
    /// The stored checksum is not the checksum of the bytes before it.
    ChecksumMismatch,
    /// The type marker is none of the known ones.
    UnknownTypeMarker(u8),
    /// A payload of fixed width has another length.
    InvalidLength,
    /// A string or a key is not UTF-8.
    InvalidUtf8,
    /// Bytes are left over after the last field.
    TrailingBytes,
    /// The strength byte of a reference is neither 0 nor 1.
    InvalidReferenceStrength,
}

impl DeserializeError {
    /// What went wrong, in words.
    pub fn message(&self) -> (text: &'static str)
        ensures
            text@ == match *self {
                DeserializeError::Truncated => "input is truncated"@,
                DeserializeError::UnsupportedVersion => "unsupported format version"@,
                DeserializeError::ChecksumMismatch => "checksum mismatch"@,
                DeserializeError::UnknownTypeMarker(_) => "unknown type marker"@,
                DeserializeError::InvalidLength => "invalid length for type"@,
                DeserializeError::InvalidUtf8 => "invalid utf-8"@,
                DeserializeError::TrailingBytes => "trailing bytes in payload"@,
                DeserializeError::InvalidReferenceStrength => "invalid reference strength"@,
            },
    {
        match self {
            DeserializeError::Truncated => "input is truncated",
            DeserializeError::UnsupportedVersion => "unsupported format version",
            DeserializeError::ChecksumMismatch => "checksum mismatch",
            DeserializeError::UnknownTypeMarker(_) => "unknown type marker",
            DeserializeError::InvalidLength => "invalid length for type",
            DeserializeError::InvalidUtf8 => "invalid utf-8",
            DeserializeError::TrailingBytes => "trailing bytes in payload",
            DeserializeError::InvalidReferenceStrength => "invalid reference strength",
        }
    }
}

/// The length of the smallest serialized token: one with an empty payload.
pub const MIN_TOKEN_LEN: usize = 26;

/// Where the payload of a serialized token starts.
pub const PAYLOAD_START: usize = 22;

/// Whether `header` is the fixed-size prefix of `bytes`.
pub open spec fn is_header_of(header: TokenHeader, bytes: Seq<u8>) -> bool {
    &&& bytes.len() >= MIN_TOKEN_LEN
    &&& header.version == bytes[0]
    &&& header.id@ == bytes.subrange(1, 17)
    &&& header.type_marker == bytes[17]
    &&& header.payload_len == le_u32(bytes.subrange(18, 22))
}

/// The verdict on the framing of `bytes` as a serialized token: long enough
/// for a header and a checksum, of a supported version, and with the declared
/// payload filling exactly what lies between the two.
pub open spec fn framing(bytes: Seq<u8>) -> Result<(), DeserializeError> {
    if bytes.len() < MIN_TOKEN_LEN {
        Err(DeserializeError::Truncated)
    } else if bytes[0] != FORMAT_VERSION {
        Err(DeserializeError::UnsupportedVersion)
    } else if PAYLOAD_START + le_u32(bytes.subrange(18, 22)) > bytes.len() - 4 {
        Err(DeserializeError::Truncated)
    } else if PAYLOAD_START + le_u32(bytes.subrange(18, 22)) != bytes.len() - 4 {
        Err(DeserializeError::TrailingBytes)
    } else {
        Ok(())
    }
}

/// What `bytes` deserialize to: the identity and the value of a token, or the
/// first fault found. Framing is judged first, then the checksum, then the
/// payload.
pub open spec fn parse_token(bytes: Seq<u8>) -> Result<(TokenId, ValueView), DeserializeError> {
    match framing(bytes) {
        Err(e) => Err(e),
        Ok(()) => {
            let body = bytes.take(bytes.len() - 4);
            if crc32_ieee(body) != le_u32(bytes.skip(bytes.len() - 4)) {
                Err(DeserializeError::ChecksumMismatch)
            } else {
                match parse_value(bytes[17], bytes.subrange(PAYLOAD_START as int, bytes.len() - 4)) {
                    Err(e) => Err(e),
                    Ok(v) => Ok((TokenId::of_bytes(bytes.subrange(1, 17)), v)),
                }
            }
        },
    }
}

/// Reads serialized tokens without changing the bytes it is given.
pub struct Deserializer<'a> {
    bytes: &'a [u8],
}

impl<'a> View for Deserializer<'a> {
    type V = Seq<u8>;

    closed spec fn view(&self) -> Seq<u8> {
        self.bytes@
    }
}

impl<'a> Deserializer<'a> {
    /// A deserializer over `bytes`.
    pub fn new(bytes: &'a [u8]) -> (deserializer: Deserializer<'a>)
        ensures
            deserializer@ == bytes@,
    {
        Deserializer { bytes }
    }

    /// The fixed-size prefix. Fails exactly when the input is shorter than the
    /// smallest token.
    pub fn header(&self) -> (header: Result<TokenHeader, DeserializeError>)
        ensures
            match header {
                Ok(h) => is_header_of(h, self@),
                Err(e) => self@.len() < MIN_TOKEN_LEN && e == DeserializeError::Truncated,
            },
    {
        if self.bytes.len() < MIN_TOKEN_LEN {
            return Err(DeserializeError::Truncated);
        }
        let version = self.bytes[0];
        let id = id_at(self.bytes, 1);
        let type_marker = self.bytes[17];
        let payload_len = u32_from_le(self.bytes, 18);
        Ok(TokenHeader { version, id, type_marker, payload_len })
    }

    /// The header and the byte ranges of payload and checksum.
    pub fn layout(&self) -> (layout: Result<TokenLayout, DeserializeError>)
        ensures
            match layout {
                Ok(l) => {
                    &&& framing(self@) is Ok
                    &&& is_header_of(l.header, self@)
                    &&& l.payload_range.start == PAYLOAD_START
                    &&& l.payload_range.end == self@.len() - 4
                    &&& l.checksum_range.start == self@.len() - 4
                    &&& l.checksum_range.end == self@.len()
                },
                Err(e) => framing(self@) == Err::<(), DeserializeError>(e),
            },
    {
        let header = match self.header() {
            Ok(h) => h,
            Err(e) => {
                return Err(e);
            },
        };
        if !is_supported_version(header.version) {
            return Err(DeserializeError::UnsupportedVersion);
        }
        let checksum_start = self.bytes.len() - 4;
        let room = checksum_start - PAYLOAD_START;
        if header.payload_len as usize > room {
            return Err(DeserializeError::Truncated);
        }
        if header.payload_len as usize != room {
            return Err(DeserializeError::TrailingBytes);
        }
        Ok(
            TokenLayout {
                header,
                payload_range: PAYLOAD_START..checksum_start,
                checksum_range: checksum_start..self.bytes.len(),
            },
        )
    }

    /// The token that the bytes hold. Its metadata is `(0, 0)`: metadata does
    /// not travel.
    pub fn deserialize(&self) -> (token: Result<Token, DeserializeError>)
        ensures
            match token {
                Ok(t) => parse_token(self@) == Ok::<(TokenId, ValueView), DeserializeError>(
                    (t.id(), t.spec_value()@),
                ) && t.spec_metadata() == (Metadata { created_at_ms: 0, flags: 0 })
                    && keys_distinct_below(t.spec_value()@),
                Err(e) => parse_token(self@) == Err::<(TokenId, ValueView), DeserializeError>(e),
            },
    {
        let layout = match self.layout() {
            Ok(l) => l,
            Err(e) => {
                return Err(e);
            },
        };
        let header = layout.header;
        let checksum_offset = layout.checksum_range.start;
        let payload_start = layout.payload_range.start;
        let payload_end = layout.payload_range.end;
        let actual = u32_from_le(self.bytes, checksum_offset);
        let expected = crc32(slice_subrange(self.bytes, 0, checksum_offset));
        proof {
            assert(self@.subrange(0, checksum_offset as int) =~= self@.take(self@.len() - 4));
            assert(self@.subrange(checksum_offset as int, checksum_offset + 4) =~= self@.skip(
                self@.len() - 4,
            ));
            assert(le_u32(self@.skip(self@.len() - 4)) == actual);
        }
        if expected != actual {
            return Err(DeserializeError::ChecksumMismatch);
        }
        let payload = slice_subrange(self.bytes, payload_start, payload_end);
        let value = match decode_value(header.type_marker, payload) {
            Ok(v) => v,
            Err(e) => {
                return Err(e);
            },
        };
        let id = TokenId::from_bytes(header.id);
        Ok(Token::new(id, value, Metadata::new(0, 0)))
    }
}

} // verus!
