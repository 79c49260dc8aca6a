//! Writing tokens: the byte writer, the value encoder and the token
//! serializer.

pub mod encoder;
pub mod serializer;
pub mod writer;

pub use encoder::{encode_value, EncodedValue};
pub use serializer::{SerializeError, Serializer};
pub use writer::ByteWriter;
