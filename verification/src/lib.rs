//! A binary codec and an in-memory reference registry for self-describing
//! tagged values, with what each function does stated as a contract and proved.
//!
//! A token is an identity, a value tree and metadata. `serialization` writes a
//! token as a framed, checksummed byte string, `deserialization` reads one and
//! rejects whatever is malformed, `registry` caches tokens by identity and walks
//! the graph of their references, and `validation` holds values to limits and
//! schemas. `codec` states and proves how encoding and decoding relate.

pub mod codec;
pub mod constants;
pub mod deserialization;
pub mod endian;
pub mod error;
pub mod registry;
pub mod serialization;
pub mod types;
pub mod validation;

pub use deserialization::{DeserializeError, Deserializer, TokenHeader, TokenLayout};
pub use error::{ConstraintKind, ToonError};
pub use registry::{RegistryError, TokenRegistry};
pub use serialization::{SerializeError, Serializer};
pub use types::{Metadata, ObjectMap, Token, TokenId, TokenRef, TokenRefStrength, Value, ValueView};
