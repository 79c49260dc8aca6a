use std::cell::RefCell;

use toon_format::registry::resolver::collect_refs;
use toon_format::registry::{GraphWalk, LruCache, RefStep, WalkAction};
use toon_format::{
    Metadata, ObjectMap, RegistryError, Token, TokenId, TokenRef, TokenRegistry, Value,
};

fn id(n: u8) -> TokenId {
    TokenId::from_bytes([n; 16])
}

fn token(n: u8, refs: Vec<TokenRef>) -> Token {
    Token::new(
        id(n),
        Value::Array(refs.into_iter().map(Value::Ref).collect()),
        Metadata::new(0, 0),
    )
}

#[test]
fn registered_token_is_found() {
    let mut registry = TokenRegistry::default();
    let t = Token::new(id(1), Value::String("x".to_string()), Metadata::new(3, 4));
    registry.register(t.clone());
    assert_eq!(&*registry.get(id(1)).unwrap(), &t);
    assert!(registry.get(id(2)).is_none());
}

#[test]
fn last_registration_wins() {
    let mut registry = TokenRegistry::new();
    registry.register(Token::new(id(1), Value::Int(1), Metadata::new(0, 0)));
    registry.register(Token::new(id(1), Value::Int(2), Metadata::new(0, 0)));
    assert_eq!(registry.get(id(1)).unwrap().value(), &Value::Int(2));
}

#[test]
fn a_registry_of_no_entries_keeps_nothing() {
    let mut registry = TokenRegistry::with_max_entries(0);
    registry.register(Token::new(id(1), Value::Int(1), Metadata::new(0, 0)));
    assert!(registry.get(id(1)).is_none());
}

#[test]
fn handles_outlive_eviction() {
    let mut registry = TokenRegistry::with_max_entries(1);
    registry.register(Token::new(id(1), Value::Int(1), Metadata::new(0, 0)));
    let kept = registry.get(id(1)).unwrap();
    registry.register(Token::new(id(2), Value::Int(2), Metadata::new(0, 0)));
    assert!(registry.get(id(1)).is_none());
    assert_eq!(kept.value(), &Value::Int(1));
}

#[test]
fn cache_retains_the_most_recently_touched() {
    let mut cache: LruCache<&'static str> = LruCache::with_max_entries(2);
    cache.insert(1, "one");
    cache.insert(2, "two");
    assert_eq!(cache.get(1), Some(&"one")); // 1 is now the most recent
    cache.insert(3, "three"); // 2 leaves
    assert_eq!(cache.len(), 2);
    assert_eq!(cache.get(2), None);
    assert_eq!(cache.get_cloned(&1), Some("one"));
    assert_eq!(cache.get_cloned(&3), Some("three"));
    assert_eq!(cache.get(9), None); // a miss changes nothing
    cache.insert(4, "four"); // 1 was touched before 3, so 1 leaves
    assert_eq!(cache.get(1), None);
    assert_eq!(cache.get(3), Some(&"three"));
    assert_eq!(cache.get(4), Some(&"four"));
    cache.insert(3, "again"); // setting a held key replaces and touches
    cache.insert(5, "five"); // 4 leaves
    assert_eq!(cache.get(4), None);
    assert_eq!(cache.get(3), Some(&"again"));
    assert_eq!(cache.len(), 2);
}

#[test]
fn unbounded_cache_keeps_everything() {
    let mut cache: LruCache<u32> = LruCache::new_unbounded();
    for k in 0..1000u32 {
        cache.insert(k as u128, k);
    }
    assert_eq!(cache.len(), 1000);
    assert_eq!(cache.get_cloned(&0), Some(0));
    assert_eq!(cache.get_cloned(&999), Some(999));
}

#[test]
fn cache_never_exceeds_its_bound() {
    for max in 0..5usize {
        let mut cache: LruCache<u64> = LruCache::with_max_entries(max);
        let mut state: u64 = 7;
        for _ in 0..500 {
            state = state.wrapping_mul(6364136223846793005).wrapping_add(1442695040888963407);
            let key = (state >> 33) as u128 % 8;
            if state & 1 == 0 {
                cache.insert(key, state);
            } else {
                let _ = cache.get(key);
            }
            assert!(cache.len() <= max);
        }
    }
}

#[test]
fn references_are_collected_in_walk_order() {
    let mut inner = ObjectMap::new();
    inner.insert("z".to_string(), Value::Ref(TokenRef::weak(id(3))));
    inner.insert("a".to_string(), Value::Array(vec![Value::Ref(TokenRef::strong(id(4)))]));
    let value = Value::Array(vec![
        Value::Ref(TokenRef::strong(id(1))),
        Value::Int(5),
        Value::Object(inner),
        Value::Ref(TokenRef::strong(id(1))),
    ]);
    let mut out = vec![TokenRef::weak(id(0))];
    collect_refs(&value, &mut out);
    assert_eq!(
        out,
        vec![
            TokenRef::weak(id(0)),
            TokenRef::strong(id(1)),
            TokenRef::weak(id(3)),
            TokenRef::strong(id(4)),
            TokenRef::strong(id(1)),
        ]
    );
    let mut none = Vec::new();
    collect_refs(&Value::String("no refs".to_string()), &mut none);
    assert!(none.is_empty());
}

#[test]
fn resolve_or_load_asks_the_loader_at_most_once() {
    let calls = RefCell::new(Vec::new());
    let mut registry = TokenRegistry::new();
    let strong = TokenRef::strong(id(1));

    let got = registry
        .resolve_ref_or_load(&strong, |wanted| {
            calls.borrow_mut().push(wanted);
            Some(token(1, vec![]))
        })
        .unwrap()
        .unwrap();
    assert_eq!(got.id(), id(1));
    // Cached now: the loader is not asked again.
    let again = registry
        .resolve_ref_or_load(&strong, |wanted| {
            calls.borrow_mut().push(wanted);
            None
        })
        .unwrap()
        .unwrap();
    assert_eq!(again.id(), id(1));
    assert_eq!(*calls.borrow(), vec![id(1)]);

    let missing = registry.resolve_ref_or_load(&TokenRef::strong(id(2)), |_| None);
    assert_eq!(missing.unwrap_err(), RegistryError::NotFound(id(2)));
    // A weak reference to a cached token resolves.
    let weak = registry.resolve_ref_or_load(&TokenRef::weak(id(1)), |_| None).unwrap();
    assert_eq!(weak.unwrap().id(), id(1));
}

#[test]
fn resolve_loaded_follows_the_strength() {
    let mut registry = TokenRegistry::new();
    assert_eq!(
        registry.resolve_loaded(&TokenRef::weak(id(1)), Some(token(1, vec![]))).unwrap(),
        None
    );
    assert!(registry.get(id(1)).is_none());
    assert_eq!(
        registry.resolve_loaded(&TokenRef::strong(id(1)), None).unwrap_err(),
        RegistryError::NotFound(id(1))
    );
    let got = registry.resolve_loaded(&TokenRef::strong(id(1)), Some(token(1, vec![]))).unwrap();
    assert_eq!(got.unwrap().id(), id(1));
    assert!(registry.get(id(1)).is_some());
}

#[test]
fn cycle_path_starts_at_the_root_and_closes() {
    let mut registry = TokenRegistry::new();
    registry.register(token(1, vec![TokenRef::strong(id(2))]));
    registry.register(token(2, vec![TokenRef::strong(id(3))]));
    registry.register(token(3, vec![TokenRef::strong(id(2))]));
    let err = registry.ensure_loaded_and_acyclic(id(1), |_| None).unwrap_err();
    assert_eq!(err, RegistryError::CircularReference(vec![id(1), id(2), id(3), id(2)]));
}

#[test]
fn a_token_that_refers_to_itself_is_a_cycle() {
    let mut registry = TokenRegistry::new();
    registry.register(token(1, vec![TokenRef::strong(id(1))]));
    let err = registry.ensure_loaded_and_acyclic(id(1), |_| None).unwrap_err();
    assert_eq!(err, RegistryError::CircularReference(vec![id(1), id(1)]));
}

#[test]
fn weak_references_to_cached_tokens_count_for_cycles() {
    let mut registry = TokenRegistry::new();
    registry.register(token(1, vec![TokenRef::strong(id(2))]));
    registry.register(token(2, vec![TokenRef::weak(id(1))]));
    let err = registry.ensure_loaded_and_acyclic(id(1), |_| None).unwrap_err();
    assert_eq!(err, RegistryError::CircularReference(vec![id(1), id(2), id(1)]));
}

#[test]
fn a_diamond_is_no_cycle_and_loads_each_token_once() {
    let calls = RefCell::new(Vec::new());
    let mut registry = TokenRegistry::new();
    registry.register(token(1, vec![TokenRef::strong(id(2)), TokenRef::strong(id(3))]));
    registry
        .ensure_loaded_and_acyclic(id(1), |wanted| {
            calls.borrow_mut().push(wanted);
            if wanted == id(2) || wanted == id(3) {
                Some(Token::new(
                    wanted,
                    Value::Ref(TokenRef::strong(id(4))),
                    Metadata::new(0, 0),
                ))
            } else if wanted == id(4) {
                Some(token(4, vec![]))
            } else {
                None
            }
        })
        .unwrap();
    assert_eq!(*calls.borrow(), vec![id(2), id(4), id(3)]);
    for n in 1..=4 {
        assert!(registry.get(id(n)).is_some());
    }
}

#[test]
fn a_missing_root_is_loaded_or_not_found() {
    let mut registry = TokenRegistry::new();
    assert_eq!(
        registry.ensure_loaded_and_acyclic(id(1), |_| None).unwrap_err(),
        RegistryError::NotFound(id(1))
    );
    registry.ensure_loaded_and_acyclic(id(1), |wanted| Some(token(wanted.as_bytes()[0], vec![]))).unwrap();
    assert!(registry.get(id(1)).is_some());
}

#[test]
fn a_missing_strong_target_is_not_found() {
    let mut registry = TokenRegistry::new();
    registry.register(token(1, vec![TokenRef::weak(id(2)), TokenRef::strong(id(3))]));
    assert_eq!(
        registry.ensure_loaded_and_acyclic(id(1), |_| None).unwrap_err(),
        RegistryError::NotFound(id(3))
    );
}

#[test]
fn a_loader_that_answers_with_another_token_leaves_the_target_missing() {
    let mut registry = TokenRegistry::new();
    registry.register(token(1, vec![TokenRef::strong(id(2))]));
    let err = registry
        .ensure_loaded_and_acyclic(id(1), |_| Some(token(9, vec![])))
        .unwrap_err();
    assert_eq!(err, RegistryError::NotFound(id(2)));
    assert!(registry.get(id(9)).is_some());
}

#[test]
fn a_long_chain_is_walked_to_its_end() {
    let mut registry = TokenRegistry::new();
    registry.register(token(0, vec![TokenRef::strong(id(1))]));
    registry
        .ensure_loaded_and_acyclic(id(0), |wanted| {
            let n = wanted.as_bytes()[0];
            if n < 200 {
                Some(token(n, vec![TokenRef::strong(id(n + 1))]))
            } else {
                Some(token(n, vec![]))
            }
        })
        .unwrap();
    assert!(registry.get(id(200)).is_some());
}

fn walk_stepwise(
    registry: &mut TokenRegistry,
    root: TokenId,
    loader: &dyn Fn(TokenId) -> Option<Token>,
) -> (Result<(), RegistryError>, Vec<TokenId>) {
    let mut walk = GraphWalk::new(root);
    let mut asked = Vec::new();
    let mut answer = None;
    for _ in 0..100_000 {
        match walk.step(registry, answer.take()) {
            WalkAction::Continue => {}
            WalkAction::Ask(wanted) => {
                asked.push(wanted);
                answer = loader(wanted);
            }
            WalkAction::Done(outcome) => return (outcome, asked),
        }
    }
    panic!("the walk did not end");
}

fn world(n: u8) -> Option<Token> {
    match n {
        // a chain with a diamond and a weak reference to a token that is never there
        10 => Some(token(10, vec![TokenRef::strong(id(11)), TokenRef::strong(id(12))])),
        11 => Some(token(11, vec![TokenRef::strong(id(13)), TokenRef::weak(id(99))])),
        12 => Some(token(12, vec![TokenRef::weak(id(11)), TokenRef::strong(id(13))])),
        13 => Some(token(13, vec![])),
        // a cycle of three
        20 => Some(token(20, vec![TokenRef::strong(id(13)), TokenRef::strong(id(21))])),
        21 => Some(token(21, vec![TokenRef::strong(id(22))])),
        22 => Some(token(22, vec![TokenRef::weak(id(98)), TokenRef::strong(id(20))])),
        // a strong reference to nothing
        30 => Some(token(30, vec![TokenRef::strong(id(13)), TokenRef::strong(id(97))])),
        // a token that refers to itself
        40 => Some(token(40, vec![TokenRef::strong(id(40))])),
        _ => None,
    }
}

#[test]
fn stepwise_walk_agrees_with_the_walk() {
    for root in [10u8, 13, 20, 21, 30, 40, 50] {
        for cached in [vec![], vec![10u8, 11], vec![20, 21, 22], vec![13, 30, 40], vec![12, 22]] {
            for bound in [None, Some(0usize), Some(1), Some(2), Some(8)] {
                let fresh = || {
                    let mut registry = match bound {
                        None => TokenRegistry::new(),
                        Some(n) => TokenRegistry::with_max_entries(n),
                    };
                    for n in &cached {
                        registry.register(world(*n).unwrap());
                    }
                    registry
                };
                let calls = RefCell::new(Vec::new());
                let mut one = fresh();
                let whole = one.ensure_loaded_and_acyclic(id(root), |wanted| {
                    calls.borrow_mut().push(wanted);
                    world(wanted.as_bytes()[0])
                });
                let mut other = fresh();
                let (stepped, asked) =
                    walk_stepwise(&mut other, id(root), &|wanted| world(wanted.as_bytes()[0]));
                assert_eq!(whole, stepped, "root {root} cached {cached:?} bound {bound:?}");
                assert_eq!(*calls.borrow(), asked);
                for n in 0..=255u8 {
                    assert_eq!(one.get(id(n)), other.get(id(n)));
                }
            }
        }
    }
}

#[test]
fn stepwise_walk_reports_the_path_of_a_cycle() {
    let mut registry = TokenRegistry::new();
    let (outcome, asked) = walk_stepwise(&mut registry, id(20), &|wanted| world(wanted.as_bytes()[0]));
    assert_eq!(
        outcome,
        Err(RegistryError::CircularReference(vec![id(20), id(21), id(22), id(20)]))
    );
    assert_eq!(asked, vec![id(20), id(13), id(21), id(22)]);
}

#[test]
fn stepwise_walk_takes_one_step_at_a_time() {
    let mut registry = TokenRegistry::new();
    let mut walk = GraphWalk::new(id(30));
    assert_eq!(walk.step(&mut registry, None), WalkAction::Ask(id(30)));
    assert_eq!(walk.step(&mut registry, world(30)), WalkAction::Continue); // taken in
    assert_eq!(walk.step(&mut registry, None), WalkAction::Continue); // entered
    assert_eq!(walk.step(&mut registry, None), WalkAction::Ask(id(13)));
    assert_eq!(walk.step(&mut registry, world(13)), WalkAction::Continue);
    assert_eq!(walk.step(&mut registry, None), WalkAction::Continue); // entered
    assert_eq!(walk.step(&mut registry, None), WalkAction::Continue); // left
    assert_eq!(walk.step(&mut registry, None), WalkAction::Ask(id(97)));
    assert_eq!(
        walk.step(&mut registry, None),
        WalkAction::Done(Err(RegistryError::NotFound(id(97))))
    );
    assert!(registry.get(id(13)).is_some());
    assert!(registry.get(id(97)).is_none());
}

#[test]
fn ref_step_decides_by_cache_and_strength() {
    let mut registry = TokenRegistry::with_max_entries(2);
    registry.register(token(1, vec![]));
    registry.register(token(2, vec![]));
    assert_eq!(registry.ref_step(&TokenRef::strong(id(1))), RefStep::Follow);
    assert_eq!(registry.ref_step(&TokenRef::weak(id(2))), RefStep::Follow);
    assert_eq!(registry.ref_step(&TokenRef::strong(id(3))), RefStep::Load);
    assert_eq!(registry.ref_step(&TokenRef::weak(id(3))), RefStep::Skip);
    // Following made 2 the most recently used after 1, so 1 leaves first.
    registry.register(token(4, vec![]));
    assert_eq!(registry.ref_step(&TokenRef::weak(id(1))), RefStep::Skip);
    assert_eq!(registry.ref_step(&TokenRef::weak(id(2))), RefStep::Follow);
}

#[test]
fn the_loader_is_never_asked_for_a_cached_token() {
    let asked = RefCell::new(Vec::new());
    let mut registry = TokenRegistry::new();
    registry.register(world(20).unwrap());
    registry.register(world(21).unwrap());
    registry.register(world(22).unwrap());
    let outcome = registry.ensure_loaded_and_acyclic(id(20), |wanted| {
        asked.borrow_mut().push(wanted);
        None
    });
    assert_eq!(outcome, Err(RegistryError::NotFound(id(13))));
    assert_eq!(*asked.borrow(), vec![id(13)]);
    let outcome = registry.ensure_loaded_and_acyclic(id(21), |wanted| {
        asked.borrow_mut().push(wanted);
        world(wanted.as_bytes()[0])
    });
    assert_eq!(
        outcome,
        Err(RegistryError::CircularReference(vec![id(21), id(22), id(20), id(21)]))
    );
    assert_eq!(*asked.borrow(), vec![id(13), id(13)]);
}
