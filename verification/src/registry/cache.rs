//! A cache that forgets its least recently used entries, with its mathematical
//! model and the facts that hold of it.

use vstd::prelude::*;
use std::collections::HashMap;
use std::collections::VecDeque;

verus! {

/// What a cache holds: its keys from the least to the most recently used, the
/// value of each key, and the bound on the number of entries, if there is one.
pub struct LruState<V> {
    pub order: Seq<u128>,
    pub entries: Map<u128, V>,
    pub max_entries: Option<usize>,
}

/// The first place in `order` that holds `key`, if there is one.
pub open spec fn first_index(order: Seq<u128>, key: u128) -> Option<int>
    decreases order.len(),
{
    if order.len() == 0 {
        None
    } else {
        match first_index(order.drop_last(), key) {
            Some(i) => Some(i),
            None => if order.last() == key {
                Some(order.len() - 1)
            } else {
                None
            },
        }
    }
}

/// `order` after `key` was used: `key` leaves its place, if it has one, and
/// stands at the end.
pub open spec fn touched(order: Seq<u128>, key: u128) -> Seq<u128> {
    match first_index(order, key) {
        Some(i) => order.remove(i).push(key),
        None => order.push(key),
    }
}

/// `order` cut down to the bound: where it is longer than `max_entries`
/// allows, only its last `max_entries` keys stay.
pub open spec fn evicted(order: Seq<u128>, max_entries: Option<usize>) -> Seq<u128> {
    match max_entries {
        Some(n) => if order.len() > n {
            order.skip(order.len() - n)
        } else {
            order
        },
        None => order,
    }
}

impl<V> LruState<V> {
    /// The empty state with the given bound.
    pub open spec fn empty(max_entries: Option<usize>) -> LruState<V> {
        LruState { order: Seq::empty(), entries: Map::empty(), max_entries }
    }

    /// Every key of the map stands exactly once in the order, and the order
    /// holds nothing else.
    pub open spec fn consistent(self) -> bool {
        &&& self.order.no_duplicates()
        &&& forall|k: u128| self.order.contains(k) <==> self.entries.contains_key(k)
    }

    /// The state is consistent and within its bound.
    pub open spec fn wf(self) -> bool {
        &&& self.consistent()
        &&& self.max_entries matches Some(n) ==> self.order.len() <= n
    }

    /// The value held under `key`, if there is one.
    pub open spec fn lookup(self, key: u128) -> Option<V> {
        if self.entries.contains_key(key) {
            Some(self.entries[key])
        } else {
            None
        }
    }

    /// The state after `key` was set to `value`: `key` becomes the most
    /// recently used, and the least recently used keys leave until the bound
    /// is met.
    pub open spec fn inserted(self, key: u128, value: V) -> LruState<V> {
        let order = evicted(touched(self.order, key), self.max_entries);
        LruState {
            order,
            entries: self.entries.insert(key, value).restrict(order.to_set()),
            max_entries: self.max_entries,
        }
    }

    /// The state after `key` was looked up: a key that is held becomes the
    /// most recently used, and a miss changes nothing.
    pub open spec fn looked_up(self, key: u128) -> LruState<V> {
        if self.entries.contains_key(key) {
            LruState { order: touched(self.order, key), ..self }
        } else {
            self
        }
    }
}

/// A place found in a prefix of `order` is the place found in `order`.
proof fn lemma_first_index_prefix(order: Seq<u128>, key: u128, n: int)
    requires
        0 <= n <= order.len(),
        first_index(order.take(n), key) is Some,
    ensures
        first_index(order, key) == first_index(order.take(n), key),
    decreases order.len() - n,
{
    if n < order.len() {
        assert(order.take(n + 1).drop_last() =~= order.take(n));
        lemma_first_index_prefix(order, key, n + 1);
    } else {
        assert(order.take(n) =~= order);
    }
}

/// `first_index` finds a place that holds `key` exactly when some place does,
/// and no earlier place holds it.
pub(crate) proof fn lemma_first_index(order: Seq<u128>, key: u128)
    ensures
        first_index(order, key) is Some <==> order.contains(key),
        first_index(order, key) matches Some(i) ==> 0 <= i < order.len() && order[i] == key
            && forall|j: int| 0 <= j < i ==> order[j] != key,
    decreases order.len(),
{
    if order.len() > 0 {
        let init = order.drop_last();
        lemma_first_index(init, key);
        if init.contains(key) {
            let w = choose|w: int| 0 <= w < init.len() && init[w] == key;
            assert(order[w] == key);
        }
        if order.contains(key) && !init.contains(key) {
            let w = choose|w: int| 0 <= w < order.len() && order[w] == key;
            if w < init.len() {
                assert(init[w] == key);
            }
        }
        if first_index(order, key) is Some {
            let i = first_index(order, key)->0;
            assert(order[i] == key);
            assert forall|j: int| 0 <= j < i implies order[j] != key by {
                if j < init.len() {
                    assert(init[j] == order[j]);
                }
            }
        }
    }
}

/// Using a key keeps an order free of duplicates, and adds the key to what
/// the order holds and nothing else.
#[verifier::rlimit(40)]
pub(crate) proof fn lemma_touched(order: Seq<u128>, key: u128)
    requires
        order.no_duplicates(),
    ensures
        touched(order, key).no_duplicates(),
        touched(order, key).len() == if order.contains(key) {
            order.len()
        } else {
            order.len() + 1
        },
        touched(order, key).last() == key,
        forall|k: u128| #[trigger] touched(order, key).contains(k) <==> order.contains(k) || k == key,
{
    lemma_first_index(order, key);
    let after = touched(order, key);
    match first_index(order, key) {
        Some(i) => {
            let cut = order.remove(i);
            assert(cut.len() == order.len() - 1);
            assert forall|a: int| 0 <= a < cut.len() implies cut[a] == order[if a < i {
                a
            } else {
                a + 1
            }] by {}
            assert forall|a: int| 0 <= a < cut.len() implies cut[a] != key by {
                let src = if a < i {
                    a
                } else {
                    a + 1
                };
                assert(cut[a] == order[src]);
            }
            assert forall|a: int, b: int|
                0 <= a < after.len() && 0 <= b < after.len() && a != b implies after[a]
                != after[b] by {
                if a < cut.len() && b < cut.len() {
                    let sa = if a < i {
                        a
                    } else {
                        a + 1
                    };
                    let sb = if b < i {
                        b
                    } else {
                        b + 1
                    };
                    assert(cut[a] == order[sa] && cut[b] == order[sb]);
                }
            }
            assert forall|k: u128| #[trigger] after.contains(k) <==> order.contains(k) || k
                == key by {
                if after.contains(k) {
                    let w = choose|w: int| 0 <= w < after.len() && after[w] == k;
                    if w < cut.len() {
                        let src = if w < i {
                            w
                        } else {
                            w + 1
                        };
                        assert(order[src] == k);
                    }
                }
                if order.contains(k) && k != key {
                    let w = choose|w: int| 0 <= w < order.len() && order[w] == k;
                    let dst = if w < i {
                        w
                    } else {
                        w - 1
                    };
                    assert(after[dst] == k);
                }
                if k == key {
                    assert(after[after.len() - 1] == k);
                }
            }
        },
        None => {
            assert forall|k: u128| #[trigger] after.contains(k) <==> order.contains(k) || k
                == key by {
                if after.contains(k) {
                    let w = choose|w: int| 0 <= w < after.len() && after[w] == k;
                    if w < order.len() {
                        assert(order[w] == k);
                    }
                }
                if order.contains(k) {
                    let w = choose|w: int| 0 <= w < order.len() && order[w] == k;
                    assert(after[w] == k);
                }
                if k == key {
                    assert(after[after.len() - 1] == k);
                }
            }
        },
    }
}

/// Dropping the first `n` keys keeps an order free of duplicates, and what
/// stays is what the order held beyond them.
proof fn lemma_skip(order: Seq<u128>, n: int)
    requires
        order.no_duplicates(),
        0 <= n <= order.len(),
    ensures
        order.skip(n).no_duplicates(),
        forall|k: u128| #[trigger]
            order.skip(n).contains(k) <==> exists|i: int| n <= i < order.len() && order[i] == k,
{
    let rest = order.skip(n);
    assert forall|k: u128| #[trigger]
        rest.contains(k) <==> exists|i: int| n <= i < order.len() && order[i] == k by {
        if rest.contains(k) {
            let w = choose|w: int| 0 <= w < rest.len() && rest[w] == k;
            assert(order[w + n] == k);
        }
        if exists|i: int| n <= i < order.len() && order[i] == k {
            let i = choose|i: int| n <= i < order.len() && order[i] == k;
            assert(rest[i - n] == k);
        }
    }
}

/// Setting a key keeps a state well formed.
pub proof fn lemma_inserted_wf<V>(state: LruState<V>, key: u128, value: V)
    requires
        state.wf(),
    ensures
        state.inserted(key, value).wf(),
{
    let mid = touched(state.order, key);
    lemma_touched(state.order, key);
    let after = state.inserted(key, value);
    if after.order.len() < mid.len() {
        lemma_skip(mid, mid.len() - after.order.len());
    }
    assert forall|k: u128| after.order.contains(k) <==> after.entries.contains_key(k) by {
        if after.order.contains(k) {
            assert(mid.contains(k));
        }
    }
}

/// Looking a key up keeps a state well formed.
pub proof fn lemma_looked_up_wf<V>(state: LruState<V>, key: u128)
    requires
        state.wf(),
    ensures
        state.looked_up(key).wf(),
{
    lemma_touched(state.order, key);
}

/// What was set is what is found: after a key was set in a cache that may
/// hold at least one entry, looking the key up gives the value it was set to.
pub proof fn lemma_lookup_after_insert<V>(state: LruState<V>, key: u128, value: V)
    requires
        state.wf(),
        state.max_entries != Some(0usize),
    ensures
        state.inserted(key, value).lookup(key) == Some(value),
{
    let mid = touched(state.order, key);
    lemma_touched(state.order, key);
    let after = state.inserted(key, value);
    assert(after.order[after.order.len() - 1] == key);
    assert(after.order.contains(key));
}

/// One use of a cache: setting a key to a value, or looking a key up.
pub enum LruOp<V> {
    Insert(u128, V),
    Get(u128),
}

/// The state after one use.
pub open spec fn after_op<V>(state: LruState<V>, op: LruOp<V>) -> LruState<V> {
    match op {
        LruOp::Insert(key, value) => state.inserted(key, value),
        LruOp::Get(key) => state.looked_up(key),
    }
}

/// The state after the uses `ops`, one after the other.
pub open spec fn after_ops<V>(state: LruState<V>, ops: Seq<LruOp<V>>) -> LruState<V>
    decreases ops.len(),
{
    if ops.len() == 0 {
        state
    } else {
        after_op(after_ops(state, ops.drop_last()), ops.last())
    }
}

/// The keys that the uses `ops` touch, in the order of the uses: every key
/// that is set, and every key that is looked up and found.
pub open spec fn touches<V>(state: LruState<V>, ops: Seq<LruOp<V>>) -> Seq<u128>
    decreases ops.len(),
{
    if ops.len() == 0 {
        Seq::empty()
    } else {
        let earlier = touches(state, ops.drop_last());
        match ops.last() {
            LruOp::Insert(key, _) => earlier.push(key),
            LruOp::Get(key) => if after_ops(state, ops.drop_last()).entries.contains_key(key) {
                earlier.push(key)
            } else {
                earlier
            },
        }
    }
}

/// The keys of `history`, each once, from the one touched longest ago to the
/// one touched last.
pub open spec fn recency(history: Seq<u128>) -> Seq<u128>
    decreases history.len(),
{
    if history.len() == 0 {
        Seq::empty()
    } else {
        touched(recency(history.drop_last()), history.last())
    }
}

/// `recency` never holds a key twice.
proof fn lemma_recency_distinct(history: Seq<u128>)
    ensures
        recency(history).no_duplicates(),
    decreases history.len(),
{
    if history.len() > 0 {
        lemma_recency_distinct(history.drop_last());
        lemma_touched(recency(history.drop_last()), history.last());
    }
}

/// Cutting down to the bound and then using a key comes to the same as using
/// the key and then cutting down.
#[verifier::rlimit(40)]
proof fn lemma_evict_then_touch(order: Seq<u128>, key: u128, max: usize)
    requires
        order.no_duplicates(),
    ensures
        evicted(touched(evicted(order, Some(max)), key), Some(max)) == evicted(
            touched(order, key),
            Some(max),
        ),
{
    let n = max as int;
    let len = order.len() as int;
    lemma_first_index(order, key);
    lemma_touched(order, key);
    if len > n {
        let d = len - n;
        let kept = order.skip(d);
        lemma_skip(order, d);
        lemma_first_index(kept, key);
        lemma_touched(kept, key);
        match first_index(order, key) {
            None => {
                assert(!kept.contains(key));
                if n == 0 {
                    assert(evicted(touched(kept, key), Some(max)) =~= Seq::<u128>::empty());
                    assert(evicted(touched(order, key), Some(max)) =~= Seq::<u128>::empty());
                } else {
                    assert(evicted(touched(kept, key), Some(max)) =~= order.skip(d + 1).push(key));
                    assert(evicted(touched(order, key), Some(max)) =~= order.skip(d + 1).push(key));
                }
            },
            Some(i) => {
                if i < d {
                    assert(!kept.contains(key)) by {
                        if kept.contains(key) {
                            let w = choose|w: int| d <= w < order.len() && order[w] == key;
                            assert(order[w] == order[i]);
                        }
                    }
                    if n == 0 {
                        assert(evicted(touched(kept, key), Some(max)) =~= Seq::<u128>::empty());
                        assert(evicted(touched(order, key), Some(max)) =~= Seq::<u128>::empty());
                    } else {
                        assert(evicted(touched(kept, key), Some(max)) =~= order.skip(d + 1).push(
                            key,
                        ));
                        assert(order.remove(i).push(key).skip(d) =~= order.skip(d + 1).push(key));
                    }
                } else {
                    assert(kept[i - d] == key);
                    assert(kept.contains(key));
                    let j = first_index(kept, key)->0;
                    assert(j == i - d) by {
                        assert(order[j + d] == key);
                    }
                    assert(touched(kept, key).len() == n);
                    assert(kept.remove(i - d).push(key) =~= order.remove(i).push(key).skip(d));
                }
            },
        }
    }
}

/// A bounded cache retains the most recently touched keys: after any uses of
/// an empty cache that holds at most `max` entries, the cache is well formed,
/// holds at most `max` entries, and its keys are the last `max` of the keys
/// touched so far, taken each once in the order of their last touch.
#[verifier::rlimit(40)]
pub proof fn lemma_retains_most_recent<V>(max: usize, ops: Seq<LruOp<V>>)
    ensures
        after_ops(LruState::<V>::empty(Some(max)), ops).wf(),
        after_ops(LruState::<V>::empty(Some(max)), ops).order.len() <= max,
        after_ops(LruState::<V>::empty(Some(max)), ops).max_entries == Some(max),
        after_ops(LruState::<V>::empty(Some(max)), ops).order == evicted(
            recency(touches(LruState::<V>::empty(Some(max)), ops)),
            Some(max),
        ),
        after_ops(LruState::<V>::empty(Some(max)), ops).entries.dom() =~= after_ops(
            LruState::<V>::empty(Some(max)),
            ops,
        ).order.to_set(),
    decreases ops.len(),
{
    let start = LruState::<V>::empty(Some(max));
    if ops.len() > 0 {
        let earlier = ops.drop_last();
        lemma_retains_most_recent::<V>(max, earlier);
        let before = after_ops(start, earlier);
        let history = touches(start, earlier);
        lemma_recency_distinct(history);
        match ops.last() {
            LruOp::Insert(key, value) => {
                lemma_inserted_wf(before, key, value);
                lemma_evict_then_touch(recency(history), key, max);
                assert(history.push(key).drop_last() =~= history);
            },
            LruOp::Get(key) => {
                lemma_looked_up_wf(before, key);
                if before.entries.contains_key(key) {
                    lemma_evict_then_touch(recency(history), key, max);
                    lemma_touched(before.order, key);
                    assert(history.push(key).drop_last() =~= history);
                }
            },
        }
    } else {
        assert(recency(Seq::<u128>::empty()) =~= Seq::<u128>::empty());
    }
}

/// A cache that forgets its least recently used entries when it is full.
pub struct LruCache<V> {
    map: HashMap<u128, V>,
    order: VecDeque<u128>,
    max_entries: Option<usize>,
}

impl<V> View for LruCache<V> {
    type V = LruState<V>;

    closed spec fn view(&self) -> LruState<V> {
        LruState { order: self.order@, entries: self.map@, max_entries: self.max_entries }
    }
}

impl<V> LruCache<V> {
    /// An empty cache without a bound.
    pub fn new_unbounded() -> (cache: LruCache<V>)
        ensures
            cache@ == LruState::<V>::empty(None),
            cache@.wf(),
    {
        let cache = LruCache { map: HashMap::new(), order: VecDeque::new(), max_entries: None };
        proof {
            assert(cache@.entries =~= Map::<u128, V>::empty());
        }
        cache
    }

    /// An empty cache that holds at most `max_entries` entries.
    pub fn with_max_entries(max_entries: usize) -> (cache: LruCache<V>)
        ensures
            cache@ == LruState::<V>::empty(Some(max_entries)),
            cache@.wf(),
    {
        let cache = LruCache {
            map: HashMap::new(),
            order: VecDeque::new(),
            max_entries: Some(max_entries),
        };
        proof {
            assert(cache@.entries =~= Map::<u128, V>::empty());
        }
        cache
    }

    /// The number of entries.
    pub fn len(&self) -> (n: usize)
        ensures
            n == self@.order.len(),
    {
        self.order.len()
    }

    /// Sets `key` to `value` and makes it the most recently used. Then the
    /// least recently used entries leave until the bound is met.
    pub fn insert(&mut self, key: u128, value: V)
        requires
            old(self)@.wf(),
        ensures
            final(self)@ == old(self)@.inserted(key, value),
            final(self)@.wf(),
    {
        self.map.insert(key, value);
        self.touch(key);
        proof {
            lemma_touched(old(self)@.order, key);
            assert forall|k: u128| self@.order.contains(k) <==> self@.entries.contains_key(k) by {}
        }
        self.evict_if_needed();
        proof {
            lemma_inserted_wf(old(self)@, key, value);
            assert(self@.entries =~= old(self)@.inserted(key, value).entries);
        }
    }

    /// The value held under `key`, if there is one. A hit makes `key` the most
    /// recently used; a miss changes nothing.
    pub fn get(&mut self, key: u128) -> (value: Option<&V>)
        requires
            old(self)@.wf(),
        ensures
            final(self)@ == old(self)@.looked_up(key),
            final(self)@.wf(),
            match value {
                Some(v) => old(self)@.lookup(key) == Some(*v),
                None => old(self)@.lookup(key) is None,
            },
    {
        proof {
            lemma_looked_up_wf(old(self)@, key);
        }
        if self.map.contains_key(&key) {
            self.touch(key);
        }
        self.map.get(&key)
    }

    /// A copy of the value held under `key`, if there is one. A hit makes
    /// `key` the most recently used; a miss changes nothing.
    pub fn get_cloned(&mut self, key: &u128) -> (value: Option<V>) where V: Clone
        requires
            old(self)@.wf(),
        ensures
            final(self)@ == old(self)@.looked_up(*key),
            final(self)@.wf(),
            match value {
                Some(v) => old(self)@.entries.contains_key(*key) && cloned(
                    old(self)@.entries[*key],
                    v,
                ),
                None => old(self)@.lookup(*key) is None,
            },
    {
        match self.get(*key) {
            Some(v) => Some(v.clone()),
            None => None,
        }
    }

    /// The place of `key` in the order, if it has one.
    fn place_of(&self, key: u128) -> (place: Option<usize>)
        ensures
            match place {
                Some(i) => first_index(self@.order, key) == Some(i as int) && i < self@.order.len(),
                None => first_index(self@.order, key) is None,
            },
    {
        let mut i: usize = 0;
        while i < self.order.len()
            invariant
                i <= self.order@.len(),
                first_index(self.order@.take(i as int), key) is None,
            decreases self.order@.len() - i,
        {
            proof {
                assert(self.order@.take(i + 1).drop_last() =~= self.order@.take(i as int));
            }
            if self.order[i] == key {
                proof {
                    lemma_first_index_prefix(self.order@, key, i + 1);
                }
                return Some(i);
            }
            i += 1;
        }
        proof {
            assert(self.order@.take(i as int) =~= self.order@);
        }
        None
    }

    /// Makes `key` the most recently used.
    fn touch(&mut self, key: u128)
        ensures
            final(self)@.order == touched(old(self)@.order, key),
            final(self)@.entries == old(self)@.entries,
            final(self)@.max_entries == old(self)@.max_entries,
    {
        match self.place_of(key) {
            Some(i) => {
                self.order.remove(i);
            },
            None => {},
        }
        self.order.push_back(key);
    }

    /// Drops the least recently used entries until the bound is met.
    fn evict_if_needed(&mut self)
        requires
            old(self)@.consistent(),
        ensures
            final(self)@.order == evicted(old(self)@.order, old(self)@.max_entries),
            final(self)@.entries == old(self)@.entries.restrict(final(self)@.order.to_set()),
            final(self)@.max_entries == old(self)@.max_entries,
    {
        let max = match self.max_entries {
            Some(m) => m,
            None => {
                proof {
                    assert(self@.entries =~= self@.entries.restrict(self@.order.to_set()));
                }
                return ;
            },
        };
        let ghost start = self@;
        let ghost mut dropped: int = 0;
        proof {
            assert(start.order.skip(0) =~= start.order);
            assert(self@.entries =~= start.entries.restrict(self@.order.to_set()));
        }
        while self.order.len() > max
            invariant
                start.consistent(),
                self.max_entries == Some(max),
                0 <= dropped <= start.order.len(),
                self.order@ == start.order.skip(dropped),
                self.map@ == start.entries.restrict(self.order@.to_set()),
                dropped > 0 ==> self.order@.len() >= max,
            decreases self.order@.len(),
        {
            let ghost before = self.order@;
            proof {
                lemma_skip(start.order, dropped);
                lemma_skip(start.order, dropped + 1);
            }
            match self.order.pop_front() {
                Some(evict_key) => {
                    self.map.remove(&evict_key);
                    proof {
                        assert(self.order@ =~= start.order.skip(dropped + 1));
                        assert(evict_key == start.order[dropped]);
                        assert(!self.order@.contains(evict_key)) by {
                            if self.order@.contains(evict_key) {
                                let w = choose|w: int|
                                    dropped + 1 <= w < start.order.len() && start.order[w]
                                        == evict_key;
                                assert(start.order[w] == start.order[dropped]);
                            }
                        }
                        assert forall|k: u128| before.contains(k) && k != evict_key implies self.order@.contains(
                            k,
                        ) by {
                            let w = choose|w: int|
                                dropped <= w < start.order.len() && start.order[w] == k;
                            assert(w != dropped);
                        }
                        assert forall|k: u128| self.order@.contains(k) implies before.contains(k) by {
                            let w = choose|w: int|
                                dropped + 1 <= w < start.order.len() && start.order[w] == k;
                        }
                        assert(self.map@ =~= start.entries.restrict(self.order@.to_set()));
                        dropped = dropped + 1;
                    }
                },
                None => {},
            }
        }
        proof {
            assert(start.order.skip(0) =~= start.order);
        }
    }
}

} // verus!
