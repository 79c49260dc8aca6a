//! The format version and the type markers of the wire format.

use vstd::prelude::*;

verus! {

/// The only format version this library reads and writes.
pub const FORMAT_VERSION: u8 = 1;

/// Type marker of `Value::Null`.
pub const TYPE_NULL: u8 = 0x00;

/// Type marker of `Value::Bool(false)`.
pub const TYPE_BOOL_FALSE: u8 = 0x01;

/// Type marker of `Value::Bool(true)`.
pub const TYPE_BOOL_TRUE: u8 = 0x02;

/// Type marker of a signed 64-bit integer.
pub const TYPE_INT64: u8 = 0x10;

/// Type marker of an IEEE-754 binary64 number.
pub const TYPE_F64: u8 = 0x11;

/// Type marker of a UTF-8 string.
pub const TYPE_STRING: u8 = 0x20;

/// Type marker of an array.
pub const TYPE_ARRAY: u8 = 0x30;

/// Type marker of an object.
pub const TYPE_OBJECT: u8 = 0x31;

/// Type marker of a token reference.
pub const TYPE_REF: u8 = 0x40;

/// Whether `version` is a format version this library can read.
pub fn is_supported_version(version: u8) -> (supported: bool)
    ensures
        supported == (version == FORMAT_VERSION),
{
    version == FORMAT_VERSION
}

} // verus!
