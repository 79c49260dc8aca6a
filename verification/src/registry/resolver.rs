//! The walk through the graph of references: it loads what strong references
//! need and finds cycles.

use vstd::prelude::*;
use vstd::set_lib::lemma_len_subset;
use vstd::std_specs::hash::spec_hash_set_len;
use std::collections::HashSet;
use crate::types::reference::{TokenRef, TokenRefStrength};
use crate::types::token::Token;
use crate::types::token_id::TokenId;
use crate::types::value::{Value, ValueView};
use super::cache::{lemma_touched, LruState};
use super::token_registry::{RefStep, RegistryError, TokenRegistry};

verus! {

/// The references that a value holds, in the order of a walk through it:
/// array items in index order, object entries in the order the object holds
/// them.
pub open spec fn refs_of(v: ValueView) -> Seq<TokenRef>
    decreases v, 0nat,
{
    match v {
        ValueView::Ref(r) => seq![r],
        ValueView::Array(items) => items_refs(items, items.len()),
        ValueView::Object(entries) => entries_refs(entries, entries.len()),
        _ => Seq::empty(),
    }
}

/// The references that the first `n` of `items` hold.
pub open spec fn items_refs(items: Seq<ValueView>, n: nat) -> Seq<TokenRef>
    decreases items, n,
{
    if n == 0 || n > items.len() {
        Seq::empty()
    } else {
        items_refs(items, (n - 1) as nat) + refs_of(items[n - 1])
    }
}

/// The references that the values of the first `n` of `entries` hold.
pub open spec fn entries_refs(entries: Seq<(Seq<char>, ValueView)>, n: nat) -> Seq<TokenRef>
    decreases entries, n,
{
    if n == 0 || n > entries.len() {
        Seq::empty()
    } else {
        entries_refs(entries, (n - 1) as nat) + refs_of(entries[n - 1].1)
    }
}

/// The numbers of the identities in `path`.
pub open spec fn keys_of(path: Seq<TokenId>) -> Set<u128> {
    Set::new(|k: u128| exists|i: int| 0 <= i < path.len() && #[trigger] path[i]@ == k)
}

/// No identity occurs twice in `path`.
pub open spec fn distinct(path: Seq<TokenId>) -> bool {
    forall|i: int, j: int| 0 <= i < j < path.len() ==> path[i] != path[j]
}

/// `path` is a walk that met itself: identities that are all different,
/// followed by one of them once more.
pub open spec fn closes_loop(path: Seq<TokenId>) -> bool {
    &&& path.len() >= 2
    &&& distinct(path.drop_last())
    &&& exists|i: int| 0 <= i < path.len() - 1 && #[trigger] path[i] == path.last()
}

/// Adds the references that `value` holds to `out`, in the order of a walk
/// through it.
pub fn collect_refs(value: &Value, out: &mut Vec<TokenRef>)
    ensures
        final(out)@ == old(out)@ + refs_of(value@),
    decreases value@,
{
    match value {
        Value::Ref(r) => {
            out.push(*r);
            proof {
                assert(out@ =~= old(out)@ + refs_of(value@));
            }
        },
        Value::Array(items) => {
            proof {
                value.lemma_array_view();
            }
            let ghost views = value@->Array_0;
            let mut i: usize = 0;
            proof {
                assert(out@ =~= old(out)@ + items_refs(views, 0));
            }
            while i < items.len()
                invariant
                    i <= items@.len(),
                    value@ == ValueView::Array(views),
                    views.len() == items@.len(),
                    forall|j: int| 0 <= j < items@.len() ==> items@[j]@ == #[trigger] views[j],
                    out@ == old(out)@ + items_refs(views, i as nat),
                decreases items@.len() - i,
            {
                assert(decreases_to!(value@ => value@->Array_0[i as int]));
                collect_refs(&items[i], out);
                proof {
                    assert(items_refs(views, (i + 1) as nat) == items_refs(views, i as nat)
                        + refs_of(views[i as int]));
                    assert(out@ =~= old(out)@ + items_refs(views, (i + 1) as nat));
                }
                i += 1;
            }
        },
        Value::Object(map) => {
            let ghost views = map@;
            let count = map.len();
            let mut i: usize = 0;
            proof {
                assert(out@ =~= old(out)@ + entries_refs(views, 0));
            }
            while i < count
                invariant
                    i <= count,
                    count == views.len(),
                    views == map@,
                    value@ == ValueView::Object(views),
                    out@ == old(out)@ + entries_refs(views, i as nat),
                decreases count - i,
            {
                assert(decreases_to!(value@ => value@->Object_0[i as int].1));
                collect_refs(map.value_at(i), out);
                proof {
                    assert(entries_refs(views, (i + 1) as nat) == entries_refs(views, i as nat)
                        + refs_of(views[i as int].1));
                    assert(out@ =~= old(out)@ + entries_refs(views, (i + 1) as nat));
                }
                i += 1;
            }
        },
        _ => {
            proof {
                assert(out@ =~= old(out)@ + refs_of(value@));
            }
        },
    }
}

/// What the walk keeps beside the registry: the identities on the current
/// path are exactly those marked as being visited, none of them twice, and
/// none of them is marked as done.
pub open spec fn walk_inv(visiting: Set<u128>, visited: Set<u128>, stack: Seq<TokenId>) -> bool {
    &&& visiting.finite()
    &&& visited.finite()
    &&& visiting == keys_of(stack)
    &&& distinct(stack)
    &&& visiting.disjoint(visited)
}

/// The token cached under `from` holds the reference `r`.
pub open spec fn holds_ref(tokens: Map<u128, Token>, from: u128, r: TokenRef) -> bool {
    tokens.contains_key(from) && refs_of(tokens[from].spec_value()@).contains(r)
}

/// The token cached under `from` holds a reference to `to`.
pub open spec fn points_at(tokens: Map<u128, Token>, from: TokenId, to: TokenId) -> bool {
    exists|r: TokenRef| #[trigger] holds_ref(tokens, from@, r) && r.id() == to
}

/// Each identity of `path` but the last is cached and holds a reference to
/// the next.
pub open spec fn linked(tokens: Map<u128, Token>, path: Seq<TokenId>) -> bool {
    forall|i: int| 0 <= i < path.len() - 1 ==> points_at(tokens, #[trigger] path[i], path[i + 1])
}

/// The token under `done[i]` is cached, and each of its references that is
/// strong, or weak and points at one of `present`, points at an earlier entry
/// of `done`.
pub open spec fn settled_at(
    tokens: Map<u128, Token>,
    present: Set<u128>,
    done: Seq<u128>,
    i: int,
) -> bool {
    &&& tokens.contains_key(done[i])
    &&& forall|r: TokenRef| #[trigger]
        holds_ref(tokens, done[i], r) && (r.strength() == TokenRefStrength::Strong
            || present.contains(r.id()@)) ==> done.take(i).contains(r.id()@)
}

/// Every entry of `done` is cached, and each of its references that is strong,
/// or weak and points at one of `present`, points at an earlier entry. So
/// every token that `done` needs is there, and no chain of such references
/// among them comes back to where it started.
pub open spec fn settled_in_order(
    tokens: Map<u128, Token>,
    present: Set<u128>,
    done: Seq<u128>,
) -> bool {
    forall|i: int| 0 <= i < done.len() ==> #[trigger] settled_at(tokens, present, done, i)
}

/// The tokens that `root` needs are there and free of cycles: there is an
/// order of cached identities that holds `root`, in which every strong
/// reference, and every weak reference to one of `present`, points at an
/// earlier entry.
pub open spec fn closed_from(tokens: Map<u128, Token>, present: Set<u128>, root: TokenId) -> bool {
    exists|done: Seq<u128>|
        done.contains(root@) && #[trigger] settled_in_order(tokens, present, done)
}

/// The token under `k` is cached, and each of its references that is strong
/// or points at a cached token points at an identity of lower rank.
pub open spec fn ranked_at(tokens: Map<u128, Token>, rank: Map<u128, nat>, k: u128) -> bool {
    &&& tokens.contains_key(k)
    &&& forall|r: TokenRef| #[trigger]
        holds_ref(tokens, k, r) && (r.strength() == TokenRefStrength::Strong
            || tokens.contains_key(r.id()@)) ==> rank.contains_key(r.id()@) && rank[r.id()@]
            < rank[k]
}

/// `rank` numbers a set of cached tokens so that every reference to follow
/// leads downwards.
pub open spec fn ranked(tokens: Map<u128, Token>, rank: Map<u128, nat>) -> bool {
    forall|k: u128| rank.contains_key(k) ==> #[trigger] ranked_at(tokens, rank, k)
}

/// Everything that a walk from `root` would follow is cached and free of
/// cycles: strong references and weak references to cached tokens all lead
/// downwards in some numbering that covers `root`.
pub open spec fn settled(tokens: Map<u128, Token>, root: TokenId) -> bool {
    exists|rank: Map<u128, nat>| rank.contains_key(root@) && #[trigger] ranked(tokens, rank)
}

/// `id` has a rank, and it is below the rank of everything on `stack`.
pub open spec fn below_stack(rank: Map<u128, nat>, stack: Seq<TokenId>, id: TokenId) -> bool {
    &&& rank.contains_key(id@)
    &&& forall|i: int|
        0 <= i < stack.len() ==> rank.contains_key((#[trigger] stack[i])@) && rank[id@]
            < rank[stack[i]@]
}

/// Every token of `before` is in `after`, unchanged.
pub open spec fn kept(before: Map<u128, Token>, after: Map<u128, Token>) -> bool {
    forall|k: u128| #[trigger]
        before.contains_key(k) ==> after.contains_key(k) && after[k] == before[k]
}

/// The loader answers a request for an identity with a token of that
/// identity or with nothing.
pub open spec fn faithful<F: Fn(TokenId) -> Option<Token>>(loader: &F) -> bool {
    forall|id: TokenId, t: Token| #[trigger] call_ensures(loader, (id,), Some(t)) ==> t.id() == id
}

/// The loader never answers with a token.
pub open spec fn barren<F: Fn(TokenId) -> Option<Token>>(loader: &F) -> bool {
    forall|id: TokenId, t: Token| !#[trigger] call_ensures(loader, (id,), Some(t))
}

/// Nothing that the walk caches is lost or replaced: the registry has no
/// bound and the loader is faithful, or the loader never answers with a
/// token, so that nothing is cached at all.
pub open spec fn lossless<F: Fn(TokenId) -> Option<Token>>(
    loader: &F,
    max_entries: Option<usize>,
) -> bool {
    (max_entries is None && faithful(loader)) || barren(loader)
}

/// The loader may answer some request with `token`.
pub open spec fn from_loader<F: Fn(TokenId) -> Option<Token>>(loader: &F, token: Token) -> bool {
    exists|id: TokenId| #[trigger] call_ensures(loader, (id,), Some(token))
}

/// The loader may answer the request for the identity of number `k` with
/// `token`.
pub open spec fn supplied<F: Fn(TokenId) -> Option<Token>>(
    loader: &F,
    k: u128,
    token: Token,
) -> bool {
    exists|id: TokenId| id@ == k && #[trigger] call_ensures(loader, (id,), Some(token))
}

/// Every token of `after` was in `before`, unchanged, or is an answer of the
/// loader.
pub open spec fn only_added<F: Fn(TokenId) -> Option<Token>>(
    before: Map<u128, Token>,
    after: Map<u128, Token>,
    loader: &F,
) -> bool {
    forall|k: u128| #[trigger]
        after.contains_key(k) ==> (before.contains_key(k) && after[k] == before[k])
            || from_loader(loader, after[k])
}

/// `token` holds a reference to `to`.
pub open spec fn refers(token: Token, to: TokenId) -> bool {
    exists|r: TokenRef| #[trigger] refs_of(token.spec_value()@).contains(r) && r.id() == to
}

/// `token` was cached in `origin` under its own identity, or is an answer of
/// the loader.
pub open spec fn came<F: Fn(TokenId) -> Option<Token>>(
    origin: Map<u128, Token>,
    loader: &F,
    token: Token,
) -> bool {
    (origin.contains_key(token.id()@) && origin[token.id()@] == token) || from_loader(
        loader,
        token,
    )
}

/// `tokens` are tokens of the identities of `path` but the last, each of
/// which was cached in `origin` or is an answer of the loader and holds a
/// reference to the next identity of `path`.
pub open spec fn chain_of<F: Fn(TokenId) -> Option<Token>>(
    tokens: Seq<Token>,
    path: Seq<TokenId>,
    origin: Map<u128, Token>,
    loader: &F,
) -> bool {
    &&& tokens.len() + 1 == path.len()
    &&& forall|j: int|
        0 <= j < tokens.len() ==> (#[trigger] tokens[j]).id() == path[j] && came(
            origin,
            loader,
            tokens[j],
        ) && refers(tokens[j], path[j + 1])
}

/// `path` is a chain of references: each of its identities but the last is
/// that of a token, cached in `origin` or answered by the loader, that holds
/// a reference to the next.
pub open spec fn chained<F: Fn(TokenId) -> Option<Token>>(
    origin: Map<u128, Token>,
    loader: &F,
    path: Seq<TokenId>,
) -> bool {
    exists|tokens: Seq<Token>| #[trigger] chain_of(tokens, path, origin, loader)
}

/// `path` is a chain of references among cached tokens that goes on from
/// `stack` through `id`.
pub open spec fn leads_on(
    tokens: Map<u128, Token>,
    stack: Seq<TokenId>,
    id: TokenId,
    path: Seq<TokenId>,
) -> bool {
    &&& path.len() > stack.len()
    &&& path.take(stack.len() + 1 as int) == stack.push(id)
    &&& linked(tokens, path)
}

/// The token at the end of `path` holds a strong reference to `id`.
pub open spec fn wants(tokens: Map<u128, Token>, path: Seq<TokenId>, r: TokenRef, id: TokenId) -> bool {
    &&& path.len() > 0
    &&& holds_ref(tokens, path.last()@, r)
    &&& r.strength() == TokenRefStrength::Strong
    &&& r.id() == id
}

/// The walk from `root` needs `id`: it is `root` itself, or a chain of
/// references among cached tokens leads from `root` to a token that holds a
/// strong reference to it.
pub open spec fn needed_from(tokens: Map<u128, Token>, root: TokenId, id: TokenId) -> bool {
    id == root || exists|path: Seq<TokenId>, r: TokenRef|
        path[0] == root && linked(tokens, path) && #[trigger] wants(tokens, path, r, id)
}

/// The walk that went on from `stack` through `id` needs `missing`: a chain
/// of references among cached tokens goes on from there to a token that
/// holds a strong reference to it.
pub open spec fn needed_on(
    tokens: Map<u128, Token>,
    stack: Seq<TokenId>,
    id: TokenId,
    missing: TokenId,
) -> bool {
    exists|path: Seq<TokenId>, r: TokenRef|
        leads_on(tokens, stack, id, path) && #[trigger] wants(tokens, path, r, missing)
}

/// What holds of the registry and the walk's bookkeeping where nothing is
/// lost: what was present at the start is still cached, what is done is
/// settled, and the path is linked.
pub open spec fn sound_walk(
    tokens: Map<u128, Token>,
    present: Set<u128>,
    visited: Set<u128>,
    stack: Seq<TokenId>,
    done: Seq<u128>,
) -> bool {
    &&& forall|k: u128| present.contains(k) ==> tokens.contains_key(k)
    &&& settled_in_order(tokens, present, done)
    &&& forall|k: u128| visited.contains(k) <==> done.contains(k)
    &&& linked(tokens, stack)
}

/// What is settled stays settled while tokens are only added.
proof fn lemma_settled_kept(
    before: Map<u128, Token>,
    after: Map<u128, Token>,
    present: Set<u128>,
    done: Seq<u128>,
)
    requires
        settled_in_order(before, present, done),
        kept(before, after),
    ensures
        settled_in_order(after, present, done),
{
    assert forall|i: int| 0 <= i < done.len() implies #[trigger] settled_at(
        after,
        present,
        done,
        i,
    ) by {
        assert(settled_at(before, present, done, i));
        assert(before.contains_key(done[i]));
        assert forall|r: TokenRef| #[trigger]
            holds_ref(after, done[i], r) && (r.strength() == TokenRefStrength::Strong
                || present.contains(r.id()@)) implies done.take(i).contains(r.id()@) by {
            assert(holds_ref(before, done[i], r));
        }
    }
}

/// A linked path stays linked while tokens are only added.
proof fn lemma_linked_kept(before: Map<u128, Token>, after: Map<u128, Token>, path: Seq<TokenId>)
    requires
        linked(before, path),
        kept(before, after),
    ensures
        linked(after, path),
{
    assert forall|i: int| 0 <= i < path.len() - 1 implies points_at(
        after,
        #[trigger] path[i],
        path[i + 1],
    ) by {
        assert(points_at(before, path[i], path[i + 1]));
        let r = choose|r: TokenRef| #[trigger] holds_ref(before, path[i]@, r) && r.id() == path[i + 1];
        assert(before.contains_key(path[i]@));
        assert(holds_ref(after, path[i]@, r));
    }
}

/// A token whose references to follow are all done can be added to what is
/// done.
proof fn lemma_settle_next(
    tokens: Map<u128, Token>,
    present: Set<u128>,
    done: Seq<u128>,
    k: u128,
)
    requires
        settled_in_order(tokens, present, done),
        tokens.contains_key(k),
        forall|r: TokenRef| #[trigger]
            holds_ref(tokens, k, r) && (r.strength() == TokenRefStrength::Strong
                || present.contains(r.id()@)) ==> done.contains(r.id()@),
    ensures
        settled_in_order(tokens, present, done.push(k)),
{
    let next = done.push(k);
    assert forall|i: int| 0 <= i < next.len() implies #[trigger] settled_at(
        tokens,
        present,
        next,
        i,
    ) by {
        if i < done.len() {
            assert(settled_at(tokens, present, done, i));
            assert(next.take(i) =~= done.take(i));
        } else {
            assert(next.take(i) =~= done);
        }
    }
}

/// In a registry without a bound, setting a key adds it and loses nothing.
proof fn lemma_inserted_unbounded(state: LruState<Token>, key: u128, value: Token)
    requires
        state.wf(),
        state.max_entries is None,
    ensures
        state.inserted(key, value).entries == state.entries.insert(key, value),
{
    lemma_touched(state.order, key);
    assert(state.inserted(key, value).entries =~= state.entries.insert(key, value));
}

/// Setting a key to an answer of the loader adds nothing but answers of the
/// loader.
proof fn lemma_only_added_insert<F: Fn(TokenId) -> Option<Token>>(
    start: Map<u128, Token>,
    state: LruState<Token>,
    loader: &F,
    asked: TokenId,
    token: Token,
)
    requires
        only_added(start, state.entries, loader),
        call_ensures(loader, (asked,), Some(token)),
    ensures
        only_added(start, state.inserted(token.id()@, token).entries, loader),
{
    let after = state.inserted(token.id()@, token).entries;
    assert forall|k: u128| #[trigger] after.contains_key(k) implies (start.contains_key(k)
        && after[k] == start[k]) || from_loader(loader, after[k]) by {
        if k == token.id()@ {
            assert(after[k] == token);
        } else {
            assert(state.entries.contains_key(k) && after[k] == state.entries[k]);
        }
    }
}

/// What was only added to, and then only added to again, was only added to.
proof fn lemma_only_added_twice<F: Fn(TokenId) -> Option<Token>>(
    start: Map<u128, Token>,
    middle: Map<u128, Token>,
    end: Map<u128, Token>,
    loader: &F,
)
    requires
        only_added(start, middle, loader),
        only_added(middle, end, loader),
    ensures
        only_added(start, end, loader),
{
    assert forall|k: u128| #[trigger] end.contains_key(k) implies (start.contains_key(k) && end[k]
        == start[k]) || from_loader(loader, end[k]) by {
        if middle.contains_key(k) && end[k] == middle[k] {
            assert(middle.contains_key(k));
        }
    }
}

/// A chain that goes on from a stack with `id` on top of it goes on from the
/// stack through `id`.
proof fn lemma_leads_on_up(
    tokens: Map<u128, Token>,
    stack: Seq<TokenId>,
    id: TokenId,
    target: TokenId,
    path: Seq<TokenId>,
)
    requires
        leads_on(tokens, stack.push(id), target, path),
    ensures
        leads_on(tokens, stack, id, path),
{
    let n = stack.len() as int;
    assert(path.take(n + 1) =~= path.take(n + 2).take(n + 1));
    assert(stack.push(id).push(target).take(n + 1) =~= stack.push(id));
}

/// Where the loader is faithful, what was added to a registry that holds
/// each token under its own identity was asked of the loader under that
/// identity.
proof fn lemma_supplied<F: Fn(TokenId) -> Option<Token>>(
    before: Map<u128, Token>,
    after: Map<u128, Token>,
    loader: &F,
)
    requires
        only_added(before, after, loader),
        faithful(loader),
        forall|k: u128| after.contains_key(k) ==> (#[trigger] after[k]).id()@ == k,
    ensures
        forall|k: u128| #[trigger]
            after.contains_key(k) ==> before.contains_key(k) || supplied(loader, k, after[k]),
{
    assert forall|k: u128| #[trigger] after.contains_key(k) implies before.contains_key(k)
        || supplied(loader, k, after[k]) by {
        if !before.contains_key(k) {
            assert(from_loader(loader, after[k]));
            let id = choose|id: TokenId| #[trigger] call_ensures(loader, (id,), Some(after[k]));
            assert(after[k].id() == id);
        }
    }
}

/// Walks the graph of references from `root`. See
/// `TokenRegistry::ensure_loaded_and_acyclic`.
#[verifier::rlimit(90)]
pub fn ensure_loaded_and_acyclic<F: Fn(TokenId) -> Option<Token>>(
    registry: &mut TokenRegistry,
    root: TokenId,
    loader: &F,
) -> (outcome: Result<(), RegistryError>)
    requires
        old(registry).wf(),
        forall|id: TokenId| call_requires(loader, (id,)),
    ensures
        final(registry).wf(),
        final(registry)@.max_entries == old(registry)@.max_entries,
        outcome matches Err(RegistryError::CircularReference(path)) ==> closes_loop(path@)
            && path@[0] == root && chained(old(registry)@.entries, loader, path@),
        old(registry).cached(root) is None && (forall|loaded: Option<Token>|
            call_ensures(loader, (root,), loaded) ==> loaded is None) ==> outcome == Err::<
            (),
            RegistryError,
        >(RegistryError::NotFound(root)) && final(registry)@ == old(registry)@,
        settled(old(registry)@.entries, root) ==> outcome is Ok && final(registry)@.entries == old(
            registry,
        )@.entries,
        outcome matches Err(RegistryError::NotFound(id)) ==> final(registry).cached(id) is None,
        only_added(old(registry)@.entries, final(registry)@.entries, loader),
        lossless(loader, old(registry)@.max_entries) ==> {
            &&& kept(old(registry)@.entries, final(registry)@.entries)
            &&& forall|k: u128| #[trigger]
                final(registry)@.entries.contains_key(k) ==> old(registry)@.entries.contains_key(k)
                    || supplied(loader, k, final(registry)@.entries[k])
            &&& match outcome {
                Ok(()) => closed_from(
                    final(registry)@.entries,
                    old(registry)@.entries.dom(),
                    root,
                ),
                Err(RegistryError::CircularReference(path)) => linked(
                    final(registry)@.entries,
                    path@,
                ),
                Err(RegistryError::NotFound(id)) => call_ensures(loader, (id,), None)
                    && needed_from(final(registry)@.entries, root, id),
            }
        },
{
    let ghost rank = if settled(registry@.entries, root) {
        choose|rank: Map<u128, nat>| rank.contains_key(root@) && #[trigger] ranked(
            registry@.entries,
            rank,
        )
    } else {
        Map::empty()
    };
    proof {
        if settled(registry@.entries, root) {
            assert(ranked_at(registry@.entries, rank, root@));
        }
    }
    let ghost sound = lossless(loader, registry@.max_entries);
    let root_ref = TokenRef::strong(root);
    match registry.ref_step(&root_ref) {
        RefStep::Load => {
            let loaded = loader(root);
            proof {
                if loaded is Some {
                    lemma_only_added_insert(
                        old(registry)@.entries,
                        registry@,
                        loader,
                        root,
                        loaded->Some_0,
                    );
                    if sound {
                        lemma_inserted_unbounded(registry@, loaded->Some_0.id()@, loaded->Some_0);
                        assert(loaded->Some_0.id() == root);
                    }
                }
            }
            match registry.resolve_loaded(&root_ref, loaded) {
                Ok(_) => {},
                Err(e) => {
                    return Err(e);
                },
            }
        },
        _ => {},
    }
    let ghost loaded_state = registry@.entries;
    proof {
        if sound {
            assert(kept(old(registry)@.entries, loaded_state));
            assert(loaded_state.contains_key(root@));
        }
    }
    let mut visiting: HashSet<u128> = HashSet::new();
    let mut visited: HashSet<u128> = HashSet::new();
    let mut stack: Vec<TokenId> = Vec::new();
    let ghost done: Seq<u128> = Seq::empty();
    let ghost present = old(registry)@.entries.dom();
    proof {
        assert(keys_of(stack@) =~= Set::<u128>::empty());
    }
    let (outcome, Ghost(finished)) = visit_token(
        root,
        loader,
        registry,
        &mut visiting,
        &mut visited,
        &mut stack,
        Ghost(done),
        Ghost(rank),
        Ghost(present),
        Ghost(old(registry)@.entries),
        Ghost(Seq::<Token>::empty()),
    );
    proof {
        if outcome is Err && outcome->Err_0 is CircularReference {
            let cycle = outcome->Err_0->CircularReference_0@;
            assert(cycle.take(1)[0] == Seq::<TokenId>::empty().push(root)[0]);
        }
        lemma_only_added_twice(old(registry)@.entries, loaded_state, registry@.entries, loader);
        if sound {
            assert(kept(old(registry)@.entries, registry@.entries)) by {
                assert forall|k: u128| #[trigger]
                    old(registry)@.entries.contains_key(k) implies registry@.entries.contains_key(k)
                    && registry@.entries[k] == old(registry)@.entries[k] by {
                    assert(loaded_state.contains_key(k));
                }
            }
            lemma_supplied(old(registry)@.entries, registry@.entries, loader);
            if outcome is Err && outcome->Err_0 is NotFound {
                let missing = outcome->Err_0->NotFound_0;
                let (path, r) = choose|path: Seq<TokenId>, r: TokenRef|
                    leads_on(registry@.entries, Seq::<TokenId>::empty(), root, path)
                        && #[trigger] wants(registry@.entries, path, r, missing);
                assert(path.take(1)[0] == Seq::<TokenId>::empty().push(root)[0]);
                assert(needed_from(registry@.entries, root, missing));
            }
            if outcome is Ok {
                assert(visited@.contains(root@));
                assert(finished.contains(root@));
                assert(settled_in_order(registry@.entries, present, finished));
            }
        }
    }
    outcome
}

/// Visits `id`: nothing to do where it is done, a cycle where it is on the
/// current path, and otherwise a visit of each reference to follow, after
/// which `id` is done.
///
/// `done` is the order in which identities were done so far, `rank` a
/// numbering under which success is owed, `present` the identities and
/// `origin` the tokens that were cached when the walk began, and `tokens` the
/// tokens of the identities on the current path, as the walk found them. The
/// order in which identities are done after the visit is handed back.
#[verifier::rlimit(90)]
fn visit_token<F: Fn(TokenId) -> Option<Token>>(
    id: TokenId,
    loader: &F,
    registry: &mut TokenRegistry,
    visiting: &mut HashSet<u128>,
    visited: &mut HashSet<u128>,
    stack: &mut Vec<TokenId>,
    Ghost(done): Ghost<Seq<u128>>,
    Ghost(rank): Ghost<Map<u128, nat>>,
    Ghost(present): Ghost<Set<u128>>,
    Ghost(origin): Ghost<Map<u128, Token>>,
    Ghost(tokens): Ghost<Seq<Token>>,
) -> (out: (Result<(), RegistryError>, Ghost<Seq<u128>>))
    requires
        old(registry).wf(),
        forall|i: TokenId| call_requires(loader, (i,)),
        walk_inv(old(visiting)@, old(visited)@, old(stack)@),
        only_added(origin, old(registry)@.entries, loader),
        chain_of(tokens, old(stack)@.push(id), origin, loader),
        lossless(loader, old(registry)@.max_entries) ==> {
            &&& sound_walk(old(registry)@.entries, present, old(visited)@, old(stack)@, done)
            &&& old(registry)@.entries.contains_key(id@)
            &&& old(stack)@.len() > 0 ==> points_at(
                old(registry)@.entries,
                old(stack)@.last(),
                id,
            )
        },
    ensures
        final(registry).wf(),
        final(registry)@.max_entries == old(registry)@.max_entries,
        match out.0 {
            Ok(()) => {
                &&& final(visiting)@ == old(visiting)@
                &&& final(stack)@ == old(stack)@
                &&& old(visited)@.subset_of(final(visited)@)
                &&& final(visited)@.contains(id@)
                &&& walk_inv(final(visiting)@, final(visited)@, final(stack)@)
            },
            Err(RegistryError::CircularReference(path)) => {
                &&& closes_loop(path@)
                &&& path@.len() > old(stack)@.len()
                &&& path@.take(old(stack)@.len() + 1 as int) == old(stack)@.push(id)
                &&& chained(origin, loader, path@)
            },
            Err(RegistryError::NotFound(missing)) => final(registry).cached(missing) is None,
        },
        only_added(old(registry)@.entries, final(registry)@.entries, loader),
        ranked(old(registry)@.entries, rank) && below_stack(rank, old(stack)@, id) ==> out.0 is Ok
            && final(registry)@.entries == old(registry)@.entries,
        lossless(loader, old(registry)@.max_entries) ==> {
            &&& kept(old(registry)@.entries, final(registry)@.entries)
            &&& match out.0 {
                Ok(()) => sound_walk(
                    final(registry)@.entries,
                    present,
                    final(visited)@,
                    final(stack)@,
                    out.1@,
                ),
                Err(RegistryError::CircularReference(path)) => linked(
                    final(registry)@.entries,
                    path@,
                ),
                Err(RegistryError::NotFound(missing)) => call_ensures(loader, (missing,), None)
                    && needed_on(final(registry)@.entries, old(stack)@, id, missing),
            }
        },
    decreases 2 * usize::MAX - old(visiting)@.len() - old(visited)@.len(),
{
    let ghost sound = lossless(loader, registry@.max_entries);
    let ghost easy = ranked(registry@.entries, rank) && below_stack(rank, stack@, id);
    let ghost start = registry@.entries;
    let key = id.as_u128();
    if visited.contains(&key) {
        return (Ok(()), Ghost(done));
    }
    if visiting.contains(&key) {
        let mut cycle = stack.clone();
        cycle.push(id);
        proof {
            let i = choose|i: int| 0 <= i < stack@.len() && #[trigger] stack@[i]@ == key;
            TokenId::lemma_view_injective(stack@[i], id);
            assert(cycle@.drop_last() =~= stack@);
            assert(cycle@[i] == cycle@.last());
            assert(cycle@.take(stack@.len() + 1 as int) =~= stack@.push(id));
            assert(chain_of(tokens, cycle@, origin, loader));
            if easy {
                assert(rank[id@] < rank[stack@[i]@]);
            }
            if sound {
                assert forall|j: int| 0 <= j < cycle@.len() - 1 implies points_at(
                    start,
                    #[trigger] cycle@[j],
                    cycle@[j + 1],
                ) by {
                    if j < stack@.len() - 1 {
                        assert(points_at(start, stack@[j], stack@[j + 1]));
                    }
                }
            }
        }
        return (Err(RegistryError::CircularReference(cycle)), Ghost(done));
    }
    visiting.insert(key);
    stack.push(id);
    proof {
        assert(keys_of(stack@) =~= old(visiting)@.insert(key)) by {
            assert forall|k: u128| keys_of(stack@).contains(k) <==> old(visiting)@.insert(
                key,
            ).contains(k) by {
                if keys_of(stack@).contains(k) {
                    let i = choose|i: int| 0 <= i < stack@.len() && #[trigger] stack@[i]@ == k;
                    if i < old(stack)@.len() {
                        assert(old(stack)@[i]@ == k);
                    }
                }
                if old(visiting)@.contains(k) {
                    let i = choose|i: int|
                        0 <= i < old(stack)@.len() && #[trigger] old(stack)@[i]@ == k;
                    assert(stack@[i]@ == k);
                }
                if k == key {
                    assert(stack@[stack@.len() - 1]@ == k);
                }
            }
        }
        assert(distinct(stack@)) by {
            assert forall|i: int, j: int| 0 <= i < j < stack@.len() implies stack@[i]
                != stack@[j] by {
                if j == stack@.len() - 1 {
                    assert(old(stack)@[i]@ != key) by {
                        if old(stack)@[i]@ == key {
                            assert(keys_of(old(stack)@).contains(key));
                        }
                    }
                }
            }
        }
        if sound {
            assert forall|j: int| 0 <= j < stack@.len() - 1 implies points_at(
                start,
                #[trigger] stack@[j],
                stack@[j + 1],
            ) by {
                if j < old(stack)@.len() - 1 {
                    assert(points_at(start, old(stack)@[j], old(stack)@[j + 1]));
                }
            }
        }
        if easy {
            assert(ranked_at(start, rank, key));
        }
    }
    let ghost held = registry@.entries[key];
    let token = match registry.get(id) {
        Some(t) => t,
        None => {
            return (Err(RegistryError::NotFound(id)), Ghost(done));
        },
    };
    let ghost found = held;
    let mut refs: Vec<TokenRef> = Vec::new();
    collect_refs(token.value(), &mut refs);
    proof {
        assert(refs@ =~= refs_of(found.spec_value()@));
        assert(start.contains_key(key) && start[key] == found);
        assert(found.id()@ == key);
        TokenId::lemma_view_injective(found.id(), id);
    }
    let ghost entered_visiting = visiting@;
    let ghost entered_stack = stack@;
    let ghost mut finished = done;
    let mut i: usize = 0;
    proof {
        assert(refs@ =~= refs_of(held.spec_value()@));
    }
    while i < refs.len()
        invariant
            i <= refs@.len(),
            registry.wf(),
            registry@.max_entries == old(registry)@.max_entries,
            forall|x: TokenId| call_requires(loader, (x,)),
            entered_visiting == old(visiting)@.insert(key),
            entered_stack == old(stack)@.push(id),
            key == id@,
            !old(visiting)@.contains(key),
            !old(visited)@.contains(key),
            old(visiting)@.finite(),
            old(visited)@.finite(),
            visiting@ == entered_visiting,
            stack@ == entered_stack,
            old(visited)@.subset_of(visited@),
            walk_inv(visiting@, visited@, stack@),
            start == old(registry)@.entries,
            sound == lossless(loader, old(registry)@.max_entries),
            easy == (ranked(start, rank) && below_stack(rank, old(stack)@, id)),
            refs@ == refs_of(held.spec_value()@),
            only_added(start, registry@.entries, loader),
            only_added(origin, start, loader),
            chain_of(tokens, old(stack)@.push(id), origin, loader),
            found.id() == id,
            came(origin, loader, found),
            refs@ == refs_of(found.spec_value()@),
            easy ==> registry@.entries == start,
            easy || sound ==> registry@.entries.contains_key(key) && registry@.entries[key] == held,
            sound ==> {
                &&& kept(start, registry@.entries)
                &&& sound_walk(registry@.entries, present, visited@, stack@, finished)
                &&& forall|j: int|
                    0 <= j < i && ((#[trigger] refs@[j]).strength() == TokenRefStrength::Strong
                        || present.contains(refs@[j].id()@)) ==> finished.contains(refs@[j].id()@)
            },
        decreases refs@.len() - i,
    {
        let r = refs[i];
        let target = r.id();
        let ghost now = registry@.entries;
        proof {
            if easy || sound {
                assert(holds_ref(now, key, r));
            }
            if easy {
                assert(ranked_at(now, rank, key));
                if r.strength() == TokenRefStrength::Strong || now.contains_key(target@) {
                    assert(rank.contains_key(target@) && rank[target@] < rank[key]);
                    assert(ranked_at(now, rank, target@));
                }
            }
        }
        let follow = match registry.ref_step(&r) {
            RefStep::Follow => true,
            RefStep::Skip => false,
            RefStep::Load => {
                let loaded = loader(target);
                proof {
                    if loaded is Some {
                        lemma_only_added_insert(start, registry@, loader, target, loaded->Some_0);
                        if sound {
                            lemma_inserted_unbounded(
                                registry@,
                                loaded->Some_0.id()@,
                                loaded->Some_0,
                            );
                        }
                    } else if sound {
                        assert(leads_on(now, old(stack)@, id, stack@)) by {
                            assert(stack@.take(old(stack)@.len() + 1 as int) =~= old(stack)@.push(
                                id,
                            ));
                        }
                        assert(wants(now, stack@, r, target));
                    }
                }
                match registry.resolve_loaded(&r, loaded) {
                    Ok(_) => true,
                    Err(e) => {
                        return (Err(e), Ghost(finished));
                    },
                }
            },
        };
        proof {
            if sound {
                assert(kept(now, registry@.entries));
                lemma_settled_kept(now, registry@.entries, present, finished);
                lemma_linked_kept(now, registry@.entries, stack@);
                assert(now.contains_key(key));
                assert(registry@.entries[key] == held);
            }
            if easy {
                assert(registry@.entries == start);
            }
        }
        if follow {
            proof {
                lemma_len_subset(old(visited)@, visited@);
                assert(visiting@.len() == old(visiting)@.len() + 1);
                assert(spec_hash_set_len(visiting) == visiting@.len());
                assert(spec_hash_set_len(visited) == visited@.len());
                if sound {
                    assert(holds_ref(registry@.entries, key, r));
                    assert(points_at(registry@.entries, stack@.last(), target));
                }
                if easy {
                    assert forall|j: int| 0 <= j < stack@.len() implies rank.contains_key(
                        (#[trigger] stack@[j])@,
                    ) && rank[target@] < rank[stack@[j]@] by {
                        if j < old(stack)@.len() {
                            assert(stack@[j] == old(stack)@[j]);
                        }
                    }
                }
            }
            let ghost before_visit = registry@.entries;
            proof {
                lemma_only_added_twice(origin, start, before_visit, loader);
                assert(refs@.contains(r));
                assert(refers(found, target));
                assert(chain_of(tokens.push(found), stack@.push(target), origin, loader)) by {
                    let longer = tokens.push(found);
                    let path = stack@.push(target);
                    assert forall|j: int| 0 <= j < longer.len() implies (#[trigger] longer[j]).id()
                        == path[j] && came(origin, loader, longer[j]) && refers(
                        longer[j],
                        path[j + 1],
                    ) by {
                        if j < tokens.len() {
                            assert(longer[j] == tokens[j]);
                            assert(path[j] == old(stack)@.push(id)[j]);
                            assert(path[j + 1] == old(stack)@.push(id)[j + 1]);
                        }
                    }
                }
                if easy {
                    assert(before_visit.contains_key(target@));
                    assert(rank.contains_key(target@) && rank[target@] < rank[key]);
                    assert(below_stack(rank, stack@, target));
                    assert(ranked(before_visit, rank));
                }
            }
            let (outcome, Ghost(next)) = visit_token(
                target,
                loader,
                registry,
                visiting,
                visited,
                stack,
                Ghost(finished),
                Ghost(rank),
                Ghost(present),
                Ghost(origin),
                Ghost(tokens.push(found)),
            );
            proof {
                lemma_only_added_twice(start, before_visit, registry@.entries, loader);
                if sound {
                    assert(before_visit.contains_key(key));
                    assert(registry@.entries[key] == held);
                    assert(kept(start, registry@.entries)) by {
                        assert forall|k: u128| #[trigger] start.contains_key(k) implies registry@.entries.contains_key(
                            k,
                        ) && registry@.entries[k] == start[k] by {
                            assert(before_visit.contains_key(k));
                        }
                    }
                }
            }
            match outcome {
                Ok(()) => {
                    proof {
                        if sound {
                            assert forall|j: int|
                                0 <= j < i + 1 && ((#[trigger] refs@[j]).strength()
                                    == TokenRefStrength::Strong || present.contains(
                                    refs@[j].id()@,
                                )) implies next.contains(refs@[j].id()@) by {
                                if j < i {
                                    assert(finished.contains(refs@[j].id()@));
                                    assert(visited@.contains(refs@[j].id()@));
                                }
                            }
                        }
                        finished = next;
                    }
                },
                Err(e) => {
                    proof {
                        if sound && e is NotFound {
                            let missing = e->NotFound_0;
                            let (path, held_ref) = choose|path: Seq<TokenId>, held_ref: TokenRef|
                                leads_on(registry@.entries, entered_stack, target, path)
                                    && #[trigger] wants(registry@.entries, path, held_ref, missing);
                            lemma_leads_on_up(registry@.entries, old(stack)@, id, target, path);
                            assert(wants(registry@.entries, path, held_ref, missing));
                        }
                        if e is CircularReference {
                            let cycle = e->CircularReference_0;
                            assert(cycle@.take(old(stack)@.len() + 1 as int) =~= cycle@.take(
                                entered_stack.len() + 1 as int,
                            ).take(old(stack)@.len() + 1 as int));
                            assert(entered_stack.push(target).take(old(stack)@.len() + 1 as int)
                                =~= old(stack)@.push(id));
                        }
                    }
                    return (Err(e), Ghost(next));
                },
            }
        }
        i += 1;
    }
    stack.pop();
    visiting.remove(&key);
    visited.insert(key);
    proof {
        assert(stack@ =~= old(stack)@);
        assert(visiting@ =~= old(visiting)@);
        if sound {
            let now = registry@.entries;
            assert forall|r: TokenRef| #[trigger]
                holds_ref(now, key, r) && (r.strength() == TokenRefStrength::Strong
                    || present.contains(r.id()@)) implies finished.contains(r.id()@) by {
                let j = choose|j: int| 0 <= j < refs@.len() && refs@[j] == r;
                assert(refs@[j].id() == r.id());
            }
            lemma_settle_next(now, present, finished, key);
            assert forall|k: u128| visited@.contains(k) <==> finished.push(key).contains(k) by {
                if finished.contains(k) {
                    let w = choose|w: int| 0 <= w < finished.len() && finished[w] == k;
                    assert(finished.push(key)[w] == k);
                }
                if k == key {
                    assert(finished.push(key)[finished.len() as int] == k);
                }
                if finished.push(key).contains(k) {
                    let w = choose|w: int|
                        0 <= w < finished.push(key).len() && finished.push(key)[w] == k;
                    if w < finished.len() {
                        assert(finished[w] == k);
                    }
                }
            }
            assert forall|j: int| 0 <= j < stack@.len() - 1 implies points_at(
                now,
                #[trigger] stack@[j],
                stack@[j + 1],
            ) by {
                assert(points_at(now, entered_stack[j], entered_stack[j + 1]));
            }
        }
    }
    (Ok(()), Ghost(finished.push(key)))
}

} // verus!
