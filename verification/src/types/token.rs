//! Tokens.

use vstd::prelude::*;
use vstd::std_specs::cmp::PartialEqSpecImpl;
use super::metadata::Metadata;
use super::token_id::TokenId;
use super::value::{same_value, Value};

verus! {

/// An identity, a value tree and metadata. Immutable once made.
#[derive(Debug)]
pub struct Token {
    id: TokenId,
    value: Value,
    metadata: Metadata,
}

impl Token {
    /// The identity of this token.
    pub closed spec fn spec_id(&self) -> TokenId {
        self.id
    }

    /// The value tree of this token.
    pub closed spec fn spec_value(&self) -> Value {
        self.value
    }

    /// The metadata of this token.
    pub closed spec fn spec_metadata(&self) -> Metadata {
        self.metadata
    }

    /// A token is determined by its identity, value and metadata.
    pub proof fn lemma_ext(a: Token, b: Token)
        ensures
            (a.id() == b.id() && a.spec_value() == b.spec_value() && a.spec_metadata()
                == b.spec_metadata()) <==> a == b,
    {
    }

    /// The token with the given parts.
    pub fn new(id: TokenId, value: Value, metadata: Metadata) -> (token: Token)
        ensures
            token.id() == id,
            token.spec_value() == value,
            token.spec_metadata() == metadata,
    {
        Token { id, value, metadata }
    }

    /// The identity of this token.
    #[verifier::when_used_as_spec(spec_id)]
    pub fn id(&self) -> (id: TokenId)
        ensures
            id == self.id(),
    {
        self.id
    }

    /// The value tree of this token.
    pub fn value(&self) -> (value: &Value)
        ensures
            *value == self.spec_value(),
    {
        &self.value
    }

    /// The metadata of this token.
    pub fn metadata(&self) -> (metadata: &Metadata)
        ensures
            *metadata == self.spec_metadata(),
    {
        &self.metadata
    }
}

impl Clone for Token {
    /// A copy with the same identity and metadata and a copy of the value
    /// tree.
    fn clone(&self) -> (copy: Token)
        ensures
            copy.id() == self.id(),
            copy.spec_value()@ == self.spec_value()@,
            copy.spec_metadata() == self.spec_metadata(),
    {
        Token { id: self.id, value: self.value.deep_copy(), metadata: self.metadata }
    }
}

impl PartialEq for Token {
    /// Two tokens are equal when their identities and metadata are equal and
    /// their values are the same value.
    fn eq(&self, other: &Token) -> (same: bool) {
        self.id == other.id && self.value.same_as(&other.value) && self.metadata == other.metadata
    }
}

impl PartialEqSpecImpl for Token {
    open spec fn obeys_eq_spec() -> bool {
        true
    }

    open spec fn eq_spec(&self, other: &Token) -> bool {
        &&& self.id() == other.id()
        &&& same_value(self.spec_value()@, other.spec_value()@)
        &&& self.spec_metadata() == other.spec_metadata()
    }
}

} // verus!
