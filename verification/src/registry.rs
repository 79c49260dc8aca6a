//! A bounded cache of tokens by identity, and the walk through the graph of
//! their references: as one call on a registry that the caller holds, and
//! step by step for callers that must give the registry up in between.

pub mod cache;
pub mod resolver;
pub mod stepwise;
pub mod token_registry;

pub use cache::{LruCache, LruState};
pub use stepwise::{GraphWalk, WalkAction};
pub use token_registry::{RefStep, RegistryError, TokenRegistry};
