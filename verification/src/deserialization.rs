//! Reading tokens: the byte reader, the value decoder and the token
//! deserializer.

pub mod decoder;
pub mod deserializer;
pub mod reader;

pub use decoder::decode_value;
pub use deserializer::{DeserializeError, Deserializer, TokenHeader, TokenLayout};
pub use reader::ByteReader;
