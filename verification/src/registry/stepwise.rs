//! The walk through the graph of references, one registry operation at a
//! time, for callers that must give the registry up between operations.

use vstd::prelude::*;
use std::collections::HashSet;
use crate::types::reference::TokenRef;
use crate::types::token::Token;
use crate::types::token_id::TokenId;
use super::cache::LruState;
use super::resolver::{closes_loop, collect_refs, distinct, keys_of, refs_of};
use super::token_registry::{
    resolved_after_load, step_for, RefStep, RegistryError, TokenRegistry,
};

verus! {

/// One piece of work that a walk has still to do.
#[derive(Debug, Clone, Copy, PartialEq, Eq, Structural)]
pub enum Todo {
    /// Decide what is to be done about this reference.
    Want(TokenRef),
    /// Visit this identity.
    Enter(TokenId),
    /// Leave this identity: all that it refers to has been dealt with.
    Leave(TokenId),
}

/// What a step of a walk asks of its caller.
#[derive(Debug, PartialEq, Eq)]
pub enum WalkAction {
    /// Take the next step.
    Continue,
    /// Ask the loader for this identity and hand its answer to the next step.
    Ask(TokenId),
    /// The walk is over, with this outcome.
    Done(Result<(), RegistryError>),
}

/// The mathematical value of a `WalkAction`.
pub enum WalkOutcome {
    Continue,
    Ask(TokenId),
    Finished,
    NotFound(TokenId),
    Cycle(Seq<TokenId>),
}

/// The state of a walk: the work still to do, the topmost last, the numbers
/// of the identities that are being visited and of those that are done, and
/// the reference for whose target the loader has been asked, if an answer is
/// awaited.
pub struct WalkState {
    pub todo: Seq<Todo>,
    pub visiting: Set<u128>,
    pub visited: Set<u128>,
    pub asked: Option<TokenRef>,
}

/// The outcome that an error stands for.
pub open spec fn error_outcome(error: RegistryError) -> WalkOutcome {
    match error {
        RegistryError::NotFound(id) => WalkOutcome::NotFound(id),
        RegistryError::CircularReference(path) => WalkOutcome::Cycle(path@),
    }
}

/// The outcome that an action stands for.
pub open spec fn action_view(action: WalkAction) -> WalkOutcome {
    match action {
        WalkAction::Continue => WalkOutcome::Continue,
        WalkAction::Ask(id) => WalkOutcome::Ask(id),
        WalkAction::Done(Ok(())) => WalkOutcome::Finished,
        WalkAction::Done(Err(e)) => error_outcome(e),
    }
}

/// The identities that are being visited, in the order in which they were
/// entered: those that `todo` has still to leave.
pub open spec fn entered(todo: Seq<Todo>) -> Seq<TokenId>
    decreases todo.len(),
{
    if todo.len() == 0 {
        Seq::empty()
    } else {
        match todo.last() {
            Todo::Leave(id) => entered(todo.drop_last()).push(id),
            _ => entered(todo.drop_last()),
        }
    }
}

/// The references `refs` as work to do, the first of them topmost.
pub open spec fn wanted(refs: Seq<TokenRef>) -> Seq<Todo> {
    Seq::new(refs.len(), |j: int| Todo::Want(refs[refs.len() - 1 - j]))
}

/// The state in which a walk from `root` begins: `root` is wanted as the
/// target of a strong reference is.
pub open spec fn begun(root: TokenId) -> WalkState {
    WalkState {
        todo: seq![Todo::Want(TokenRef::of(root, crate::types::reference::TokenRefStrength::Strong))],
        visiting: Set::empty(),
        visited: Set::empty(),
        asked: None,
    }
}

/// One step of a walk: the state of the walk and of the registry after it,
/// and what it asks of the caller.
///
/// Where an answer of the loader is awaited, `answer` is taken in as
/// `resolved_after_load` says, and the target is entered next or the walk
/// fails. Otherwise the topmost piece of work is done, and `answer` is not
/// looked at:
/// - a wanted reference is decided upon as `step_for` says: its target is
///   entered next, or it is passed over, or the loader is to be asked;
/// - an identity to enter that is done is passed over; one that is being
///   visited closes a cycle, reported as the identities being visited in the
///   order of their entering, with this one at the end; any other is marked
///   as being visited and looked up, and is not found or gives its
///   references as work to do, to be left when they are dealt with;
/// - an identity to leave is marked as done.
/// Where no work is left, the walk has succeeded.
pub open spec fn step_of(walk: WalkState, state: LruState<Token>, answer: Option<Token>) -> (
    WalkState,
    LruState<Token>,
    WalkOutcome,
) {
    match walk.asked {
        Some(r) => {
            let (after, result) = resolved_after_load(state, r, answer);
            match result {
                Ok(_) => (
                    WalkState { todo: walk.todo.push(Todo::Enter(r.id())), asked: None, ..walk },
                    after,
                    WalkOutcome::Continue,
                ),
                Err(e) => (WalkState { asked: None, ..walk }, after, error_outcome(e)),
            }
        },
        None => if walk.todo.len() == 0 {
            (walk, state, WalkOutcome::Finished)
        } else {
            let rest = walk.todo.drop_last();
            match walk.todo.last() {
                Todo::Want(r) => match step_for(state, r) {
                    RefStep::Follow => (
                        WalkState { todo: rest.push(Todo::Enter(r.id())), ..walk },
                        state.looked_up(r.id()@),
                        WalkOutcome::Continue,
                    ),
                    RefStep::Skip => (
                        WalkState { todo: rest, ..walk },
                        state.looked_up(r.id()@),
                        WalkOutcome::Continue,
                    ),
                    RefStep::Load => (
                        WalkState { todo: rest, asked: Some(r), ..walk },
                        state.looked_up(r.id()@),
                        WalkOutcome::Ask(r.id()),
                    ),
                },
                Todo::Enter(id) => if walk.visited.contains(id@) {
                    (WalkState { todo: rest, ..walk }, state, WalkOutcome::Continue)
                } else if walk.visiting.contains(id@) {
                    (
                        WalkState { todo: rest, ..walk },
                        state,
                        WalkOutcome::Cycle(entered(rest).push(id)),
                    )
                } else {
                    let entering = WalkState {
                        todo: rest.push(Todo::Leave(id)),
                        visiting: walk.visiting.insert(id@),
                        ..walk
                    };
                    match state.lookup(id@) {
                        None => (entering, state, WalkOutcome::NotFound(id)),
                        Some(token) => (
                            WalkState {
                                todo: entering.todo + wanted(refs_of(token.spec_value()@)),
                                ..entering
                            },
                            state.looked_up(id@),
                            WalkOutcome::Continue,
                        ),
                    }
                },
                Todo::Leave(id) => (
                    WalkState {
                        todo: rest,
                        visiting: walk.visiting.remove(id@),
                        visited: walk.visited.insert(id@),
                        ..walk
                    },
                    state,
                    WalkOutcome::Continue,
                ),
            }
        },
    }
}

/// The bookkeeping of a walk is sound: the identities marked as being
/// visited are exactly those that the work to do has still to leave, none of
/// them twice.
pub open spec fn walk_ok(walk: WalkState) -> bool {
    &&& walk.visiting == keys_of(entered(walk.todo))
    &&& distinct(entered(walk.todo))
}

/// How much of the work to do is left, in steps: a reference to decide upon
/// counts three, an answer that is awaited two, and an identity to enter or
/// to leave one.
pub open spec fn work_left(walk: WalkState) -> nat {
    todo_weight(walk.todo) + if walk.asked is Some {
        2nat
    } else {
        0nat
    }
}

/// The steps that the pieces of `todo` count.
pub open spec fn todo_weight(todo: Seq<Todo>) -> nat
    decreases todo.len(),
{
    if todo.len() == 0 {
        0
    } else {
        todo_weight(todo.drop_last()) + match todo.last() {
            Todo::Want(_) => 3nat,
            _ => 1nat,
        }
    }
}

/// The identities that a walk has met: those being visited and those done.
pub open spec fn met(walk: WalkState) -> Set<u128> {
    walk.visiting.union(walk.visited)
}

/// References to decide upon are not identities to leave.
proof fn lemma_entered_wanted(todo: Seq<Todo>, refs: Seq<TokenRef>, n: nat)
    requires
        n <= refs.len(),
    ensures
        entered(todo + wanted(refs).take(n as int)) == entered(todo),
    decreases n,
{
    let all = todo + wanted(refs).take(n as int);
    if n == 0 {
        assert(all =~= todo);
    } else {
        lemma_entered_wanted(todo, refs, (n - 1) as nat);
        assert(all.drop_last() =~= todo + wanted(refs).take(n - 1));
        assert(all.last() == wanted(refs)[n - 1]);
    }
}

/// A piece of work on top adds its own weight.
proof fn lemma_weight_push(todo: Seq<Todo>, piece: Todo)
    ensures
        todo_weight(todo.push(piece)) == todo_weight(todo) + match piece {
            Todo::Want(_) => 3nat,
            _ => 1nat,
        },
{
    assert(todo.push(piece).drop_last() =~= todo);
}

/// Pushing an identity adds its number to the numbers of a path.
proof fn lemma_keys_push(path: Seq<TokenId>, id: TokenId)
    ensures
        keys_of(path.push(id)) == keys_of(path).insert(id@),
{
    let more = path.push(id);
    assert forall|k: u128| keys_of(more).contains(k) <==> keys_of(path).insert(id@).contains(
        k,
    ) by {
        if keys_of(more).contains(k) {
            let i = choose|i: int| 0 <= i < more.len() && #[trigger] more[i]@ == k;
            if i < path.len() {
                assert(path[i]@ == k);
            }
        }
        if keys_of(path).contains(k) {
            let i = choose|i: int| 0 <= i < path.len() && #[trigger] path[i]@ == k;
            assert(more[i]@ == k);
        }
        if k == id@ {
            assert(more[path.len() as int]@ == k);
        }
    }
    assert(keys_of(more) =~= keys_of(path).insert(id@));
}

/// A walk begins with sound bookkeeping.
pub proof fn lemma_begun_ok(root: TokenId)
    ensures
        walk_ok(begun(root)),
{
    let todo = begun(root).todo;
    assert(todo.drop_last() =~= Seq::<Todo>::empty());
    assert(todo.last() is Want);
    assert(entered(todo) == entered(todo.drop_last()));
    assert(entered(Seq::<Todo>::empty()) =~= Seq::<TokenId>::empty());
    assert(keys_of(entered(todo)) =~= Set::<u128>::empty());
}

/// A step keeps the bookkeeping of a walk sound.
#[verifier::rlimit(40)]
pub proof fn lemma_step_keeps_ok(walk: WalkState, state: LruState<Token>, answer: Option<Token>)
    requires
        walk_ok(walk),
    ensures
        walk_ok(step_of(walk, state, answer).0),
{
    let next = step_of(walk, state, answer).0;
    if walk.asked is Some {
        let r = walk.asked->Some_0;
        assert(walk.todo.push(Todo::Enter(r.id())).drop_last() =~= walk.todo);
    } else if walk.todo.len() > 0 {
        let rest = walk.todo.drop_last();
        match walk.todo.last() {
            Todo::Want(r) => {
                assert(rest.push(Todo::Enter(r.id())).drop_last() =~= rest);
            },
            Todo::Enter(id) => {
                if !walk.visited.contains(id@) && !walk.visiting.contains(id@) {
                    let base = rest.push(Todo::Leave(id));
                    assert(base.drop_last() =~= rest);
                    assert(entered(base) == entered(rest).push(id));
                    lemma_keys_push(entered(rest), id);
                    assert(distinct(entered(base))) by {
                        assert forall|i: int, j: int| 0 <= i < j < entered(base).len() implies entered(
                            base,
                        )[i] != entered(base)[j] by {
                            if j == entered(rest).len() {
                                if entered(rest)[i] == id {
                                    assert(keys_of(entered(rest)).contains(id@));
                                }
                            }
                        }
                    }
                    if state.lookup(id@) is Some {
                        let refs = refs_of(state.lookup(id@)->Some_0.spec_value()@);
                        lemma_entered_wanted(base, refs, refs.len());
                        assert(wanted(refs).take(refs.len() as int) =~= wanted(refs));
                    }
                }
            },
            Todo::Leave(id) => {
                let path = entered(rest);
                lemma_keys_push(path, id);
                assert(entered(walk.todo) == path.push(id));
                assert(distinct(path)) by {
                    assert forall|i: int, j: int| 0 <= i < j < path.len() implies path[i]
                        != path[j] by {
                        assert(path.push(id)[i] == path[i] && path.push(id)[j] == path[j]);
                    }
                }
                assert(!keys_of(path).contains(id@)) by {
                    if keys_of(path).contains(id@) {
                        let i = choose|i: int| 0 <= i < path.len() && #[trigger] path[i]@ == id@;
                        TokenId::lemma_view_injective(path[i], id);
                        assert(path.push(id)[i] == path.push(id)[path.len() as int]);
                    }
                }
                assert(walk.visiting.remove(id@) =~= keys_of(path));
            },
        }
    }
}

/// A cycle that a step reports is a walk that met itself: identities that
/// are all different, followed by one of them once more.
pub proof fn lemma_step_cycle_closes(
    walk: WalkState,
    state: LruState<Token>,
    answer: Option<Token>,
)
    requires
        walk_ok(walk),
        walk.asked is None,
        step_of(walk, state, answer).2 is Cycle,
    ensures
        closes_loop(step_of(walk, state, answer).2->Cycle_0),
{
    let path = step_of(walk, state, answer).2->Cycle_0;
    let rest = walk.todo.drop_last();
    let id = walk.todo.last()->Enter_0;
    assert(entered(walk.todo) == entered(rest));
    assert(path.drop_last() =~= entered(rest));
    let i = choose|i: int| 0 <= i < entered(rest).len() && #[trigger] entered(rest)[i]@ == id@;
    TokenId::lemma_view_injective(entered(rest)[i], id);
    assert(path[i] == path.last());
}

/// Every step that does not end a walk brings it nearer to its end: it
/// meets an identity that the walk had not met, or it meets none and leaves
/// less work to do. As there are only so many identities, a walk ends.
#[verifier::rlimit(40)]
pub proof fn lemma_step_makes_progress(
    walk: WalkState,
    state: LruState<Token>,
    answer: Option<Token>,
)
    requires
        walk_ok(walk),
        step_of(walk, state, answer).2 is Continue || step_of(walk, state, answer).2 is Ask,
    ensures
        ({
            let next = step_of(walk, state, answer).0;
            ||| exists|k: u128| !met(walk).contains(k) && met(next) == met(walk).insert(k)
            ||| met(next) == met(walk) && work_left(next) < work_left(walk)
        }),
{
    let next = step_of(walk, state, answer).0;
    if walk.asked is Some {
        let r = walk.asked->Some_0;
        lemma_weight_push(walk.todo, Todo::Enter(r.id()));
    } else {
        let rest = walk.todo.drop_last();
        assert(walk.todo =~= rest.push(walk.todo.last()));
        lemma_weight_push(rest, walk.todo.last());
        match walk.todo.last() {
            Todo::Want(r) => {
                lemma_weight_push(rest, Todo::Enter(r.id()));
            },
            Todo::Enter(id) => {
                if !walk.visited.contains(id@) {
                    assert(!met(walk).contains(id@));
                    assert(met(next) =~= met(walk).insert(id@));
                }
            },
            Todo::Leave(id) => {
                lemma_keys_push(entered(rest), id);
                assert(entered(walk.todo) == entered(rest).push(id));
                assert(walk.visiting.contains(id@));
                assert(met(next) =~= met(walk));
            },
        }
    }
}

/// A walk through the graph of references that is taken step by step. Each
/// step makes at most one use of the registry and none of the loader: the
/// caller asks the loader when a step says so and hands the answer to the
/// next step.
pub struct GraphWalk {
    todo: Vec<Todo>,
    visiting: HashSet<u128>,
    visited: HashSet<u128>,
    asked: Option<TokenRef>,
}

impl View for GraphWalk {
    type V = WalkState;

    closed spec fn view(&self) -> WalkState {
        WalkState {
            todo: self.todo@,
            visiting: self.visiting@,
            visited: self.visited@,
            asked: self.asked,
        }
    }
}

impl GraphWalk {
    /// A walk from `root` that has not taken a step.
    pub fn new(root: TokenId) -> (walk: GraphWalk)
        ensures
            walk@ == begun(root),
    {
        let mut todo: Vec<Todo> = Vec::new();
        todo.push(
            Todo::Want(TokenRef::with_strength(root, crate::types::reference::TokenRefStrength::Strong)),
        );
        let walk = GraphWalk { todo, visiting: HashSet::new(), visited: HashSet::new(), asked: None };
        proof {
            assert(walk@.todo =~= begun(root).todo);
        }
        walk
    }

    /// Takes one step. `answer` is what the loader said, where the step
    /// before asked for it.
    #[verifier::rlimit(40)]
    pub fn step(&mut self, registry: &mut TokenRegistry, answer: Option<Token>) -> (action:
        WalkAction)
        requires
            old(registry).wf(),
        ensures
            final(registry).wf(),
            final(registry)@.max_entries == old(registry)@.max_entries,
            final(self)@ == step_of(old(self)@, old(registry)@, answer).0,
            final(registry)@ == step_of(old(self)@, old(registry)@, answer).1,
            action_view(action) == step_of(old(self)@, old(registry)@, answer).2,
    {
        if let Some(r) = self.asked {
            self.asked = None;
            return match registry.resolve_loaded(&r, answer) {
                Ok(_) => {
                    self.todo.push(Todo::Enter(r.id()));
                    WalkAction::Continue
                },
                Err(e) => WalkAction::Done(Err(e)),
            };
        }
        let ghost before = self.todo@;
        match self.todo.pop() {
            None => WalkAction::Done(Ok(())),
            Some(Todo::Want(r)) => {
                proof {
                    assert(self.todo@ =~= before.drop_last());
                }
                match registry.ref_step(&r) {
                    RefStep::Follow => {
                        self.todo.push(Todo::Enter(r.id()));
                        WalkAction::Continue
                    },
                    RefStep::Skip => WalkAction::Continue,
                    RefStep::Load => {
                        self.asked = Some(r);
                        WalkAction::Ask(r.id())
                    },
                }
            },
            Some(Todo::Enter(id)) => {
                proof {
                    assert(self.todo@ =~= before.drop_last());
                }
                let key = id.as_u128();
                if self.visited.contains(&key) {
                    return WalkAction::Continue;
                }
                if self.visiting.contains(&key) {
                    let mut path = self.path();
                    path.push(id);
                    return WalkAction::Done(Err(RegistryError::CircularReference(path)));
                }
                self.visiting.insert(key);
                self.todo.push(Todo::Leave(id));
                let ghost held = registry@.entries[key];
                match registry.get(id) {
                    None => WalkAction::Done(Err(RegistryError::NotFound(id))),
                    Some(token) => {
                        let mut refs: Vec<TokenRef> = Vec::new();
                        collect_refs(token.value(), &mut refs);
                        proof {
                            assert(refs@ =~= refs_of(held.spec_value()@));
                        }
                        let ghost base = self.todo@;
                        let mut k: usize = refs.len();
                        proof {
                            assert(self.todo@ =~= base + Seq::new(
                                0,
                                |j: int| Todo::Want(refs@[refs@.len() - 1 - j]),
                            ));
                        }
                        while k > 0
                            invariant
                                k <= refs@.len(),
                                self.visiting@ == old(self).visiting@.insert(key),
                                self.visited@ == old(self).visited@,
                                self.asked == old(self).asked,
                                self.todo@ == base + Seq::new(
                                    (refs@.len() - k) as nat,
                                    |j: int| Todo::Want(refs@[refs@.len() - 1 - j]),
                                ),
                            decreases k,
                        {
                            k -= 1;
                            self.todo.push(Todo::Want(refs[k]));
                            proof {
                                assert(self.todo@ =~= base + Seq::new(
                                    (refs@.len() - k) as nat,
                                    |j: int| Todo::Want(refs@[refs@.len() - 1 - j]),
                                ));
                            }
                        }
                        proof {
                            assert(self.todo@ =~= base + wanted(refs@));
                        }
                        WalkAction::Continue
                    },
                }
            },
            Some(Todo::Leave(id)) => {
                proof {
                    assert(self.todo@ =~= before.drop_last());
                }
                let key = id.as_u128();
                self.visiting.remove(&key);
                self.visited.insert(key);
                WalkAction::Continue
            },
        }
    }

    /// The identities that are being visited, in the order in which they
    /// were entered.
    fn path(&self) -> (path: Vec<TokenId>)
        ensures
            path@ == entered(self@.todo),
    {
        let mut path: Vec<TokenId> = Vec::new();
        let mut i: usize = 0;
        while i < self.todo.len()
            invariant
                i <= self.todo@.len(),
                path@ == entered(self.todo@.take(i as int)),
            decreases self.todo@.len() - i,
        {
            proof {
                assert(self.todo@.take(i + 1).drop_last() =~= self.todo@.take(i as int));
            }
            match self.todo[i] {
                Todo::Leave(id) => {
                    path.push(id);
                },
                _ => {},
            }
            i += 1;
        }
        proof {
            assert(self.todo@.take(i as int) =~= self.todo@);
        }
        path
    }
}

} // verus!
