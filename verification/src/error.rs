//! The error that every error of this library converts into.

use vstd::prelude::*;
use vstd::std_specs::convert::FromSpecImpl;
use crate::deserialization::deserializer::DeserializeError;
use crate::registry::token_registry::RegistryError;
use crate::serialization::serializer::SerializeError;
use crate::types::token_id::TokenId;

verus! {

/// The limit that a value went over.
#[derive(Debug, Clone, Copy, PartialEq, Eq, Structural)]
pub enum ConstraintKind {
    StringLength,
    ArrayLength,
    ObjectLength,
    Depth,
}

/// Every error of this library in one type.
#[derive(Debug, PartialEq, Eq)]
pub enum ToonError {
    /// A token could not be serialized.
    Serialization(SerializeError),
    /// A byte string could not be deserialized.
    Deserialization(DeserializeError),
    /// The checksum stored at `offset` is `actual`, that of the bytes before
    /// it is `expected`.
    ChecksumMismatch { expected: u32, actual: u32, offset: usize },
    /// The version byte is `version`, the supported one is `expected`.
    InvalidFormat { version: u8, expected: u8 },
    /// A reference to a token that is not there.
    InvalidReference(TokenId),
    /// A cycle of references, as the path that closed it.
    CircularReference(Vec<TokenId>),
    /// A value went over a limit.
    ConstraintViolation { kind: ConstraintKind, limit: usize, actual: usize },
    /// A value does not match a schema at `path`.
    SchemaViolation { path: String, expected: &'static str, actual: &'static str },
}

impl ToonError {
    /// What went wrong, in words.
    pub fn message(&self) -> (text: &'static str)
        ensures
            text@ == match *self {
                ToonError::Serialization(_) => "serialization error"@,
                ToonError::Deserialization(_) => "deserialization error"@,
                ToonError::ChecksumMismatch { .. } => "checksum mismatch"@,
                ToonError::InvalidFormat { .. } => "invalid format version"@,
                ToonError::InvalidReference(_) => "invalid reference"@,
                ToonError::CircularReference(_) => "circular reference detected"@,
                ToonError::ConstraintViolation { .. } => "constraint violation"@,
                ToonError::SchemaViolation { .. } => "schema mismatch"@,
            },
    {
        match self {
            ToonError::Serialization(_) => "serialization error",
            ToonError::Deserialization(_) => "deserialization error",
            ToonError::ChecksumMismatch { .. } => "checksum mismatch",
            ToonError::InvalidFormat { .. } => "invalid format version",
            ToonError::InvalidReference(_) => "invalid reference",
            ToonError::CircularReference(_) => "circular reference detected",
            ToonError::ConstraintViolation { .. } => "constraint violation",
            ToonError::SchemaViolation { .. } => "schema mismatch",
        }
    }
}

impl From<SerializeError> for ToonError {
    fn from(value: SerializeError) -> (error: ToonError) {
        ToonError::Serialization(value)
    }
}

impl FromSpecImpl<SerializeError> for ToonError {
    open spec fn obeys_from_spec() -> bool {
        true
    }

    open spec fn from_spec(value: SerializeError) -> ToonError {
        ToonError::Serialization(value)
    }
}

impl From<DeserializeError> for ToonError {
    fn from(value: DeserializeError) -> (error: ToonError) {
        ToonError::Deserialization(value)
    }
}

impl FromSpecImpl<DeserializeError> for ToonError {
    open spec fn obeys_from_spec() -> bool {
        true
    }

    open spec fn from_spec(value: DeserializeError) -> ToonError {
        ToonError::Deserialization(value)
    }
}

impl From<RegistryError> for ToonError {
    fn from(value: RegistryError) -> (error: ToonError) {
        match value {
            RegistryError::NotFound(id) => ToonError::InvalidReference(id),
            RegistryError::CircularReference(ids) => ToonError::CircularReference(ids),
        }
    }
}

impl FromSpecImpl<RegistryError> for ToonError {
    open spec fn obeys_from_spec() -> bool {
        true
    }

    open spec fn from_spec(value: RegistryError) -> ToonError {
        match value {
            RegistryError::NotFound(id) => ToonError::InvalidReference(id),
            RegistryError::CircularReference(ids) => ToonError::CircularReference(ids),
        }
    }
}

} // verus!
