//! The registry of tokens: a cache by identity that resolves references.

use vstd::prelude::*;
use std::sync::Arc;
use crate::types::reference::{TokenRef, TokenRefStrength};
use crate::types::token::Token;
use crate::types::token_id::TokenId;
use super::cache::{LruCache, LruState};
use super::resolver;

verus! {

/// Why the registry could not resolve a reference or walk a graph.
#[derive(Debug, PartialEq, Eq)]
pub enum RegistryError {
    /// No token with this identity is cached, and none could be loaded.
    NotFound(TokenId),
    /// The identities on the path of a walk that met one of them again: in the
    /// order in which they were entered, with the one met again at the end.
    CircularReference(Vec<TokenId>),
}

impl RegistryError {
    /// What went wrong, in words.
    pub fn message(&self) -> (text: &'static str)
        ensures
            text@ == match *self {
                RegistryError::NotFound(_) => "token not found"@,
                RegistryError::CircularReference(_) => "circular reference detected"@,
            },
    {
        match self {
            RegistryError::NotFound(_) => "token not found",
            RegistryError::CircularReference(_) => "circular reference detected",
        }
    }
}

/// Another handle to the token that `token` points at.
///
/// `Arc::clone` makes a new pointer to the same allocation, so both handles
/// show the same token.
#[verifier::external_body]
pub(crate) fn share(token: &Arc<Token>) -> (shared: Arc<Token>)
    ensures
        shared == *token,
{
    Arc::clone(token)
}

/// A cache of tokens by identity, with an optional bound on its size.
pub struct TokenRegistry {
    cache: LruCache<Arc<Token>>,
}

impl View for TokenRegistry {
    type V = LruState<Token>;

    /// The cached tokens, each under the number of its identity, with their
    /// order of use and the bound.
    closed spec fn view(&self) -> LruState<Token> {
        LruState {
            order: self.cache@.order,
            entries: self.cache@.entries.map_values(|t: Arc<Token>| *t),
            max_entries: self.cache@.max_entries,
        }
    }
}

/// What `loader` may hand out for `id`, given as a token or as nothing.
pub open spec fn may_load<F: FnOnce(TokenId) -> Option<Token>>(
    loader: F,
    id: TokenId,
    loaded: Option<Token>,
) -> bool {
    call_ensures(loader, (id,), loaded)
}

/// What resolving `reference` gives once the loader has answered, for a state
/// that does not hold its target: the state afterwards and what is returned.
/// A weak reference resolves to nothing and the answer is not looked at; a
/// strong one takes the loaded token into the state, or fails without one.
pub open spec fn resolved_after_load(
    state: LruState<Token>,
    reference: TokenRef,
    loaded: Option<Token>,
) -> (LruState<Token>, Result<Option<Token>, RegistryError>) {
    if reference.strength() == TokenRefStrength::Weak {
        (state, Ok(None))
    } else {
        match loaded {
            Some(t) => (state.inserted(t.id()@, t), Ok(Some(t))),
            None => (state, Err(RegistryError::NotFound(reference.id()))),
        }
    }
}

/// What is to be done about a reference whose target is wanted.
#[derive(Debug, Clone, Copy, PartialEq, Eq, Structural)]
pub enum RefStep {
    /// The target is cached: it can be followed.
    Follow,
    /// The target is not cached and the reference is weak: it is passed over.
    Skip,
    /// The target is not cached and the reference is strong: the loader is to
    /// be asked for it.
    Load,
}

/// What is to be done about `reference` in `state`: a cached target is
/// followed, whatever the strength; a target that is not cached is asked of
/// the loader where the reference is strong and passed over where it is weak.
pub open spec fn step_for(state: LruState<Token>, reference: TokenRef) -> RefStep {
    if state.entries.contains_key(reference.id()@) {
        RefStep::Follow
    } else if reference.strength() == TokenRefStrength::Strong {
        RefStep::Load
    } else {
        RefStep::Skip
    }
}

impl TokenRegistry {
    /// The cache is well formed and holds each token under the number of its
    /// own identity.
    pub open spec fn wf(&self) -> bool {
        &&& self@.wf()
        &&& forall|k: u128|
            self@.entries.contains_key(k) ==> (#[trigger] self@.entries[k]).id()@ == k
    }

    /// The token cached under `id`, if there is one.
    pub open spec fn cached(&self, id: TokenId) -> Option<Token> {
        self@.lookup(id@)
    }

    /// An empty registry without a bound.
    pub fn new() -> (registry: TokenRegistry)
        ensures
            registry@ == LruState::<Token>::empty(None),
            registry.wf(),
    {
        let registry = TokenRegistry { cache: LruCache::new_unbounded() };
        proof {
            assert(registry@.entries =~= Map::<u128, Token>::empty());
        }
        registry
    }

    /// An empty registry that holds at most `max_entries` tokens.
    pub fn with_max_entries(max_entries: usize) -> (registry: TokenRegistry)
        ensures
            registry@ == LruState::<Token>::empty(Some(max_entries)),
            registry.wf(),
    {
        let registry = TokenRegistry { cache: LruCache::with_max_entries(max_entries) };
        proof {
            assert(registry@.entries =~= Map::<u128, Token>::empty());
        }
        registry
    }

    /// Caches `token` under its identity, in place of any token cached under
    /// it before, and makes it the most recently used.
    pub fn register(&mut self, token: Token)
        requires
            old(self).wf(),
        ensures
            final(self)@ == old(self)@.inserted(token.id()@, token),
            final(self).wf(),
    {
        let _ = self.insert(token);
    }

    /// The token cached under `id`. A hit makes it the most recently used.
    pub fn get(&mut self, id: TokenId) -> (token: Option<Arc<Token>>)
        requires
            old(self).wf(),
        ensures
            final(self)@ == old(self)@.looked_up(id@),
            final(self).wf(),
            match token {
                Some(t) => old(self).cached(id) == Some(*t) && t.id() == id,
                None => old(self).cached(id) is None,
            },
    {
        let found = match self.cache.get(id.as_u128()) {
            Some(t) => Some(share(t)),
            None => None,
        };
        proof {
            assert(self@.entries =~= old(self)@.looked_up(id@).entries);
            if found is Some {
                TokenId::lemma_view_injective(found->Some_0.id(), id);
            }
        }
        found
    }

    /// The token that `reference` points at, from the cache alone.
    pub fn resolve_ref(&mut self, reference: &TokenRef) -> (token: Result<
        Arc<Token>,
        RegistryError,
    >)
        requires
            old(self).wf(),
        ensures
            final(self)@ == old(self)@.looked_up(reference.id()@),
            final(self).wf(),
            match token {
                Ok(t) => old(self).cached(reference.id()) == Some(*t),
                Err(e) => old(self).cached(reference.id()) is None && e == RegistryError::NotFound(
                    reference.id(),
                ),
            },
    {
        match self.get(reference.id()) {
            Some(t) => Ok(t),
            None => Err(RegistryError::NotFound(reference.id())),
        }
    }

    /// Decides what is to be done about `reference`: the loader is to be asked
    /// exactly when the reference is strong and its target is not cached. A
    /// cached target becomes the most recently used.
    pub fn ref_step(&mut self, reference: &TokenRef) -> (step: RefStep)
        requires
            old(self).wf(),
        ensures
            final(self).wf(),
            final(self)@ == old(self)@.looked_up(reference.id()@),
            step == step_for(old(self)@, *reference),
    {
        if self.get(reference.id()).is_some() {
            RefStep::Follow
        } else {
            match reference.strength() {
                TokenRefStrength::Strong => RefStep::Load,
                TokenRefStrength::Weak => RefStep::Skip,
            }
        }
    }

    /// What resolving `reference` comes to once the loader has answered with
    /// `loaded`: nothing for a weak reference, the loaded token, now cached,
    /// for a strong one, and a failure where a strong one was not loaded.
    pub fn resolve_loaded(&mut self, reference: &TokenRef, loaded: Option<Token>) -> (token: Result<
        Option<Arc<Token>>,
        RegistryError,
    >)
        requires
            old(self).wf(),
        ensures
            final(self).wf(),
            final(self)@ == resolved_after_load(old(self)@, *reference, loaded).0,
            match token {
                Ok(Some(t)) => resolved_after_load(old(self)@, *reference, loaded).1 == Ok::<
                    Option<Token>,
                    RegistryError,
                >(Some(*t)),
                Ok(None) => resolved_after_load(old(self)@, *reference, loaded).1 == Ok::<
                    Option<Token>,
                    RegistryError,
                >(None),
                Err(e) => resolved_after_load(old(self)@, *reference, loaded).1 == Err::<
                    Option<Token>,
                    RegistryError,
                >(e),
            },
    {
        match reference.strength() {
            TokenRefStrength::Weak => Ok(None),
            TokenRefStrength::Strong => match loaded {
                Some(t) => Ok(Some(self.insert(t))),
                None => Err(RegistryError::NotFound(reference.id())),
            },
        }
    }

    /// The token that `reference` points at. A cached token is returned as it
    /// is. Otherwise a weak reference resolves to nothing, without a call of
    /// the loader, and a strong one is loaded, cached and returned, or fails
    /// where the loader has nothing.
    pub fn resolve_ref_or_load<F: FnOnce(TokenId) -> Option<Token>>(
        &mut self,
        reference: &TokenRef,
        loader: F,
    ) -> (token: Result<Option<Arc<Token>>, RegistryError>)
        requires
            old(self).wf(),
            old(self).cached(reference.id()) is None && reference.strength()
                == TokenRefStrength::Strong ==> call_requires(loader, (reference.id(),)),
        ensures
            final(self).wf(),
            old(self).cached(reference.id()) matches Some(t) ==> final(self)@ == old(
                self,
            )@.looked_up(reference.id()@) && (token matches Ok(Some(got)) && *got == t),
            old(self).cached(reference.id()) is None && reference.strength()
                == TokenRefStrength::Weak ==> final(self)@ == old(self)@ && token matches Ok(None),
            old(self).cached(reference.id()) is None && reference.strength()
                == TokenRefStrength::Strong ==> exists|loaded: Option<Token>|
                #![trigger may_load(loader, reference.id(), loaded)]
                {
                    &&& may_load(loader, reference.id(), loaded)
                    &&& final(self)@ == resolved_after_load(old(self)@, *reference, loaded).0
                    &&& match token {
                        Ok(Some(t)) => resolved_after_load(old(self)@, *reference, loaded).1 == Ok::<
                            Option<Token>,
                            RegistryError,
                        >(Some(*t)),
                        Ok(None) => false,
                        Err(e) => resolved_after_load(old(self)@, *reference, loaded).1 == Err::<
                            Option<Token>,
                            RegistryError,
                        >(e),
                    }
                },
    {
        if let Some(token) = self.get(reference.id()) {
            return Ok(Some(token));
        }
        if reference.strength() == TokenRefStrength::Weak {
            return Ok(None);
        }
        let ghost asked = loader;
        let loaded = loader(reference.id());
        proof {
            assert(may_load(asked, reference.id(), loaded));
        }
        self.resolve_loaded(reference, loaded)
    }

    /// Walks the graph of references from `root`: loads every token that a
    /// strong reference needs and is not cached, follows weak references to
    /// cached tokens only, and fails when a path of the walk meets itself.
    ///
    /// The loader is asked for `root` where it is not cached, and for the
    /// target of a reference exactly when `ref_step` says so; each answer is
    /// taken in by `resolve_loaded`.
    ///
    /// Whatever the loader answers: the walk ends and the bound stays. A
    /// reported cycle starts at `root`, ends in an identity that is on it
    /// already, and is a chain of references: each identity is that of a
    /// token, cached before or answered by the loader, that holds a
    /// reference to the next. A token reported as not found is not cached
    /// afterwards. Every token cached afterwards was cached before,
    /// unchanged, or is an answer of the loader. Where `root` is not cached
    /// and the loader has nothing for it, the walk fails and changes
    /// nothing. Where all that the walk would follow is cached and free of
    /// cycles, the walk succeeds and leaves the cached tokens as they are.
    ///
    /// Where nothing is lost, that is, where the registry has no bound and
    /// the loader answers each request with a token of the identity asked
    /// for, or where the loader never answers with a token, more holds. No
    /// token is lost or replaced, and each new one was asked of the loader
    /// under its own identity. After success the tokens that `root` needs
    /// are cached and free of cycles. A reported cycle is a chain of
    /// references among cached tokens. A token reported as not found is one
    /// that the loader has refused, and it is `root` or the target of a
    /// strong reference of a token that a chain of references among cached
    /// tokens leads to from `root`.
    pub fn ensure_loaded_and_acyclic<F: Fn(TokenId) -> Option<Token>>(
        &mut self,
        root: TokenId,
        loader: F,
    ) -> (outcome: Result<(), RegistryError>)
        requires
            old(self).wf(),
            forall|id: TokenId| call_requires(&loader, (id,)),
        ensures
            final(self).wf(),
            final(self)@.max_entries == old(self)@.max_entries,
            outcome matches Err(RegistryError::CircularReference(path)) ==> resolver::closes_loop(
                path@,
            ) && path@[0] == root && resolver::chained(old(self)@.entries, &loader, path@),
            old(self).cached(root) is None && (forall|loaded: Option<Token>|
                call_ensures(&loader, (root,), loaded) ==> loaded is None) ==> outcome == Err::<
                (),
                RegistryError,
            >(RegistryError::NotFound(root)) && final(self)@ == old(self)@,
            resolver::settled(old(self)@.entries, root) ==> outcome is Ok && final(self)@.entries
                == old(self)@.entries,
            outcome matches Err(RegistryError::NotFound(id)) ==> final(self).cached(id) is None,
            resolver::only_added(old(self)@.entries, final(self)@.entries, &loader),
            resolver::lossless(&loader, old(self)@.max_entries) ==> {
                &&& resolver::kept(old(self)@.entries, final(self)@.entries)
                &&& forall|k: u128| #[trigger]
                    final(self)@.entries.contains_key(k) ==> old(self)@.entries.contains_key(k)
                        || resolver::supplied(&loader, k, final(self)@.entries[k])
                &&& match outcome {
                    Ok(()) => resolver::closed_from(
                        final(self)@.entries,
                        old(self)@.entries.dom(),
                        root,
                    ),
                    Err(RegistryError::CircularReference(path)) => resolver::linked(
                        final(self)@.entries,
                        path@,
                    ),
                    Err(RegistryError::NotFound(id)) => call_ensures(&loader, (id,), None)
                        && resolver::needed_from(final(self)@.entries, root, id),
                }
            },
    {
        resolver::ensure_loaded_and_acyclic(self, root, &loader)
    }

    /// Caches `token` and hands out a handle to it.
    pub(crate) fn insert(&mut self, token: Token) -> (shared: Arc<Token>)
        requires
            old(self).wf(),
        ensures
            final(self)@ == old(self)@.inserted(token.id()@, token),
            final(self).wf(),
            *shared == token,
    {
        let ghost given = token;
        let token = Arc::new(token);
        let id = token.id();
        self.cache.insert(id.as_u128(), share(&token));
        proof {
            super::cache::lemma_inserted_wf(old(self)@, id@, given);
            assert(self@.entries =~= old(self)@.inserted(id@, given).entries);
        }
        token
    }
}

impl Default for TokenRegistry {
    /// An empty registry without a bound.
    fn default() -> (registry: TokenRegistry)
        ensures
            registry@ == LruState::<Token>::empty(None),
            registry.wf(),
    {
        TokenRegistry::new()
    }
}

} // verus!
