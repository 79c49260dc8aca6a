//! The data model: identities, references, values, metadata and tokens.

pub mod metadata;
pub mod reference;
pub mod token;
pub mod token_id;
pub mod value;

pub use metadata::Metadata;
pub use reference::{TokenRef, TokenRefStrength};
pub use token::Token;
pub use token_id::TokenId;
pub use value::{ObjectMap, Value, ValueView};
