//! References between tokens.

use vstd::prelude::*;
use super::token_id::TokenId;

verus! {

/// Whether the target of a reference must be present when a graph is walked.
#[derive(Debug, Clone, Copy, PartialEq, Eq, Hash, Structural)]
pub enum TokenRefStrength {
    Strong,
    Weak,
}

/// A lookup key for another token together with its strength. It owns nothing.
#[derive(Debug, Clone, Copy, PartialEq, Eq, Hash, Structural)]
pub struct TokenRef {
    id: TokenId,
    strength: TokenRefStrength,
}

impl TokenRef {
    /// The identity this reference points at.
    pub closed spec fn spec_id(&self) -> TokenId {
        self.id
    }

    /// The strength of this reference.
    pub closed spec fn spec_strength(&self) -> TokenRefStrength {
        self.strength
    }

    /// The reference to `id` with the given strength.
    pub closed spec fn of(id: TokenId, strength: TokenRefStrength) -> TokenRef {
        TokenRef { id, strength }
    }

    /// `of` makes the reference with the given parts, and every reference is
    /// made of its own parts.
    pub proof fn lemma_of(id: TokenId, strength: TokenRefStrength, r: TokenRef)
        ensures
            TokenRef::of(id, strength).id() == id,
            TokenRef::of(id, strength).strength() == strength,
            TokenRef::of(r.id(), r.strength()) == r,
    {
    }

    /// A reference is determined by its target and its strength.
    pub proof fn lemma_ext(a: TokenRef, b: TokenRef)
        ensures
            (a.id() == b.id() && a.strength() == b.strength()) <==> a == b,
    {
    }

    /// A strong reference to `id`.
    pub fn new(id: TokenId) -> (r: TokenRef)
        ensures
            r.id() == id,
            r.strength() == TokenRefStrength::Strong,
    {
        TokenRef { id, strength: TokenRefStrength::Strong }
    }

    /// A strong reference to `id`.
    pub fn strong(id: TokenId) -> (r: TokenRef)
        ensures
            r.id() == id,
            r.strength() == TokenRefStrength::Strong,
    {
        TokenRef { id, strength: TokenRefStrength::Strong }
    }

    /// A weak reference to `id`.
    pub fn weak(id: TokenId) -> (r: TokenRef)
        ensures
            r.id() == id,
            r.strength() == TokenRefStrength::Weak,
    {
        TokenRef { id, strength: TokenRefStrength::Weak }
    }

    /// A reference to `id` with the given strength.
    pub fn with_strength(id: TokenId, strength: TokenRefStrength) -> (r: TokenRef)
        ensures
            r.id() == id,
            r.strength() == strength,
            r == TokenRef::of(id, strength),
    {
        TokenRef { id, strength }
    }

    /// The identity this reference points at.
    #[verifier::when_used_as_spec(spec_id)]
    pub fn id(&self) -> (id: TokenId)
        ensures
            id == self.id(),
    {
        self.id
    }

    /// The strength of this reference.
    #[verifier::when_used_as_spec(spec_strength)]
    pub fn strength(&self) -> (strength: TokenRefStrength)
        ensures
            strength == self.strength(),
    {
        self.strength
    }
}

} // verus!
