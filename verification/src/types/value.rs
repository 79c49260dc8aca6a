//! Values, their mathematical model, and what it means for two values to be
//! the same.

use vstd::prelude::*;
use vstd::std_specs::cmp::PartialEqSpecImpl;
use super::reference::TokenRef;

verus! {

/// The mathematical value of a `Value`: a finite tree.
///
/// `Float` holds the sixty-four bits of an IEEE-754 binary64 number. An object
/// is the sequence of its entries in the order in which the map holds them.
pub enum ValueView {
    Int(i64),
    Float(u64),
    String(Seq<char>),
    Bool(bool),
    Null,
    Ref(TokenRef),
    Array(Seq<ValueView>),
    Object(Seq<(Seq<char>, ValueView)>),
}

/// The first position in `entries` that holds `key`, if there is one.
pub open spec fn key_position<V>(entries: Seq<(Seq<char>, V)>, key: Seq<char>) -> Option<int>
    decreases entries.len(),
{
    if entries.len() == 0 {
        None
    } else {
        match key_position(entries.drop_last(), key) {
            Some(i) => Some(i),
            None => if entries.last().0 == key {
                Some(entries.len() - 1)
            } else {
                None
            },
        }
    }
}

/// `entries` after `key` has been set to `value`: an entry that holds `key`
/// already keeps its place and takes the new value, otherwise a new entry is
/// added at the end.
pub open spec fn entries_insert(
    entries: Seq<(Seq<char>, ValueView)>,
    key: Seq<char>,
    value: ValueView,
) -> Seq<(Seq<char>, ValueView)> {
    match key_position(entries, key) {
        Some(i) => entries.update(i, (key, value)),
        None => entries.push((key, value)),
    }
}

/// The keys and the values of a list of entries.
pub open spec fn entries_of(entries: Seq<(String, Value)>) -> Seq<(Seq<char>, ValueView)> {
    Seq::new(entries.len(), |i: int| (entries[i].0@, entries[i].1@))
}

/// What comes of setting, in an empty list, the first `n` keys of `entries`
/// to their values, one after the other.
pub open spec fn entries_set_in_turn(entries: Seq<(Seq<char>, ValueView)>, n: nat) -> Seq<
    (Seq<char>, ValueView),
>
    decreases n,
{
    if n == 0 || n > entries.len() {
        Seq::empty()
    } else {
        entries_insert(
            entries_set_in_turn(entries, (n - 1) as nat),
            entries[n - 1].0,
            entries[n - 1].1,
        )
    }
}

/// No key occurs twice in `entries`.
pub open spec fn keys_distinct(entries: Seq<(Seq<char>, ValueView)>) -> bool {
    forall|i: int, j: int|
        0 <= i < j < entries.len() ==> (#[trigger] entries[i]).0 != (#[trigger] entries[j]).0
}

/// No object below `v` holds a key twice.
pub open spec fn keys_distinct_below(v: ValueView) -> bool
    decreases v,
{
    match v {
        ValueView::Array(items) => forall|i: int|
            0 <= i < items.len() ==> keys_distinct_below(#[trigger] items[i]),
        ValueView::Object(entries) => {
            &&& keys_distinct(entries)
            &&& forall|i: int|
                0 <= i < entries.len() ==> keys_distinct_below((#[trigger] entries[i]).1)
        },
        _ => true,
    }
}

/// Setting a key keeps a list free of repeated keys.
pub proof fn lemma_insert_keeps_distinct(
    entries: Seq<(Seq<char>, ValueView)>,
    key: Seq<char>,
    value: ValueView,
)
    requires
        keys_distinct(entries),
    ensures
        keys_distinct(entries_insert(entries, key, value)),
        entries_insert(entries, key, value).len() >= entries.len(),
{
    match key_position(entries, key) {
        Some(i) => {
            lemma_key_position_found(entries, key);
            let after = entries.update(i, (key, value));
            assert forall|a: int, b: int| 0 <= a < b < after.len() implies (#[trigger] after[a]).0 != (
            #[trigger] after[b]).0 by {
                assert(after[a].0 == entries[a].0 && after[b].0 == entries[b].0);
            }
        },
        None => {
            lemma_key_position_absent(entries, key);
            let after = entries.push((key, value));
            assert forall|a: int, b: int| 0 <= a < b < after.len() implies (#[trigger] after[a]).0 != (
            #[trigger] after[b]).0 by {
                if b < entries.len() {
                    assert(after[a] == entries[a] && after[b] == entries[b]);
                } else {
                    assert(after[a] == entries[a]);
                }
            }
        },
    }
}

/// Setting a key to a value without repeated keys keeps an object free of
/// repeated keys at every level.
pub proof fn lemma_insert_keeps_distinct_below(
    entries: Seq<(Seq<char>, ValueView)>,
    key: Seq<char>,
    value: ValueView,
)
    requires
        keys_distinct_below(ValueView::Object(entries)),
        keys_distinct_below(value),
    ensures
        keys_distinct_below(ValueView::Object(entries_insert(entries, key, value))),
{
    lemma_insert_keeps_distinct(entries, key, value);
    let after = entries_insert(entries, key, value);
    assert forall|i: int| 0 <= i < after.len() implies keys_distinct_below(
        (#[trigger] after[i]).1,
    ) by {
        match key_position(entries, key) {
            Some(j) => {
                lemma_key_position_found(entries, key);
                if i != j {
                    assert(after[i] == entries[i]);
                }
            },
            None => {
                if i < entries.len() {
                    assert(after[i] == entries[i]);
                }
            },
        }
    }
}

/// In a list without a repeated key, the key of each entry is found at the
/// entry's own place.
pub(crate) proof fn lemma_key_position_own(entries: Seq<(Seq<char>, ValueView)>, i: int)
    requires
        keys_distinct(entries),
        0 <= i < entries.len(),
    ensures
        key_position(entries, entries[i].0) == Some(i),
{
    let key = entries[i].0;
    if key_position(entries, key) is None {
        lemma_key_position_absent(entries, key);
    } else {
        lemma_key_position_found(entries, key);
        let j = key_position(entries, key)->0;
        if j < i {
            assert(entries[j].0 != entries[i].0);
        } else if i < j {
            assert(entries[i].0 != entries[j].0);
        }
    }
}

/// Every value in which no object holds a key twice is the same value as
/// itself.
pub proof fn lemma_same_value_reflexive(v: ValueView)
    requires
        keys_distinct_below(v),
    ensures
        same_value(v, v),
    decreases v,
{
    match v {
        ValueView::Array(items) => {
            assert forall|i: int| 0 <= i < items.len() implies same_value(
                #[trigger] items[i],
                items[i],
            ) by {
                lemma_same_value_reflexive(items[i]);
            }
        },
        ValueView::Object(entries) => {
            assert forall|i: int| 0 <= i < entries.len() implies same_entry(
                #[trigger] entries[i],
                entries,
            ) by {
                lemma_key_position_own(entries, i);
                lemma_same_value_reflexive(entries[i].1);
            }
        },
        _ => {},
    }
}

/// Whether `a` and `b` are the same value: the same tree, where the order of an
/// object's entries does not count.
pub open spec fn same_value(a: ValueView, b: ValueView) -> bool
    decreases a,
{
    match (a, b) {
        (ValueView::Int(x), ValueView::Int(y)) => x == y,
        (ValueView::Float(x), ValueView::Float(y)) => x == y,
        (ValueView::String(x), ValueView::String(y)) => x == y,
        (ValueView::Bool(x), ValueView::Bool(y)) => x == y,
        (ValueView::Null, ValueView::Null) => true,
        (ValueView::Ref(x), ValueView::Ref(y)) => x == y,
        (ValueView::Array(x), ValueView::Array(y)) => {
            &&& x.len() == y.len()
            &&& forall|i: int| 0 <= i < x.len() ==> same_value(#[trigger] x[i], y[i])
        },
        (ValueView::Object(x), ValueView::Object(y)) => {
            &&& x.len() == y.len()
            &&& forall|i: int| 0 <= i < x.len() ==> same_entry(#[trigger] x[i], y)
        },
        _ => false,
    }
}

/// Whether `entries` holds the key of `entry` with the same value.
pub open spec fn same_entry(entry: (Seq<char>, ValueView), entries: Seq<(Seq<char>, ValueView)>) -> bool
    decreases entry,
{
    match key_position(entries, entry.0) {
        Some(j) => same_value(entry.1, entries[j].1),
        None => false,
    }
}

/// The keys of `entries`, in their order.
pub open spec fn entry_keys(entries: Seq<(Seq<char>, ValueView)>) -> Seq<Seq<char>> {
    Seq::new(entries.len(), |i: int| entries[i].0)
}

/// Two lists of the same length without repeated keys, of which the second
/// holds every key of the first, hold the same keys.
pub(crate) proof fn lemma_keys_matched_both_ways(
    x: Seq<(Seq<char>, ValueView)>,
    y: Seq<(Seq<char>, ValueView)>,
)
    requires
        keys_distinct(x),
        keys_distinct(y),
        x.len() == y.len(),
        forall|i: int| 0 <= i < x.len() ==> key_position(y, (#[trigger] x[i]).0) is Some,
    ensures
        forall|j: int| 0 <= j < y.len() ==> key_position(x, (#[trigger] y[j]).0) is Some,
{
    let kx = entry_keys(x);
    let ky = entry_keys(y);
    assert(kx.no_duplicates()) by {
        assert forall|a: int, b: int| 0 <= a < kx.len() && 0 <= b < kx.len() && a != b implies kx[a]
            != kx[b] by {
            if a < b {
                assert(x[a].0 != x[b].0);
            } else {
                assert(x[b].0 != x[a].0);
            }
        }
    }
    assert(ky.no_duplicates()) by {
        assert forall|a: int, b: int| 0 <= a < ky.len() && 0 <= b < ky.len() && a != b implies ky[a]
            != ky[b] by {
            if a < b {
                assert(y[a].0 != y[b].0);
            } else {
                assert(y[b].0 != y[a].0);
            }
        }
    }
    kx.unique_seq_to_set();
    ky.unique_seq_to_set();
    vstd::seq_lib::seq_to_set_is_finite(kx);
    vstd::seq_lib::seq_to_set_is_finite(ky);
    assert(kx.to_set().subset_of(ky.to_set())) by {
        assert forall|k: Seq<char>| kx.to_set().contains(k) implies ky.to_set().contains(k) by {
            let i = choose|i: int| 0 <= i < kx.len() && kx[i] == k;
            assert(x[i].0 == k);
            lemma_key_position_found(y, k);
            let p = key_position(y, k)->0;
            assert(ky[p] == k);
        }
    }
    vstd::set_lib::lemma_subset_equality(kx.to_set(), ky.to_set());
    assert forall|j: int| 0 <= j < y.len() implies key_position(x, (#[trigger] y[j]).0) is Some by {
        let k = y[j].0;
        assert(ky[j] == k);
        assert(ky.to_set().contains(k));
        assert(kx.to_set().contains(k));
        let i = choose|i: int| 0 <= i < kx.len() && kx[i] == k;
        assert(x[i].0 == k);
        if key_position(x, k) is None {
            lemma_key_position_absent(x, k);
        }
    }
}

/// Being the same value does not depend on the side: where `a` is the same
/// value as `b`, `b` is the same value as `a`.
pub proof fn lemma_same_value_symmetric(a: ValueView, b: ValueView)
    requires
        keys_distinct_below(a),
        keys_distinct_below(b),
        same_value(a, b),
    ensures
        same_value(b, a),
    decreases a,
{
    match (a, b) {
        (ValueView::Array(x), ValueView::Array(y)) => {
            assert forall|i: int| 0 <= i < y.len() implies same_value(#[trigger] y[i], x[i]) by {
                assert(same_value(x[i], y[i]));
                lemma_same_value_symmetric(x[i], y[i]);
            }
        },
        (ValueView::Object(x), ValueView::Object(y)) => {
            assert forall|i: int| 0 <= i < x.len() implies key_position(
                y,
                (#[trigger] x[i]).0,
            ) is Some by {
                assert(same_entry(x[i], y));
            }
            lemma_keys_matched_both_ways(x, y);
            assert forall|j: int| 0 <= j < y.len() implies same_entry(#[trigger] y[j], x) by {
                let i = key_position(x, y[j].0)->0;
                lemma_key_position_found(x, y[j].0);
                assert(same_entry(x[i], y));
                lemma_key_position_own(y, j);
                assert(key_position(y, x[i].0) == Some(j));
                lemma_same_value_symmetric(x[i].1, y[j].1);
            }
        },
        _ => {},
    }
}

/// Being the same value carries over: where `a` is the same value as `b` and
/// `b` the same as `c`, `a` is the same value as `c`.
pub proof fn lemma_same_value_transitive(a: ValueView, b: ValueView, c: ValueView)
    requires
        same_value(a, b),
        same_value(b, c),
    ensures
        same_value(a, c),
    decreases a,
{
    match (a, b, c) {
        (ValueView::Array(x), ValueView::Array(y), ValueView::Array(z)) => {
            assert forall|i: int| 0 <= i < x.len() implies same_value(#[trigger] x[i], z[i]) by {
                assert(same_value(x[i], y[i]));
                assert(same_value(y[i], z[i]));
                lemma_same_value_transitive(x[i], y[i], z[i]);
            }
        },
        (ValueView::Object(x), ValueView::Object(y), ValueView::Object(z)) => {
            assert forall|i: int| 0 <= i < x.len() implies same_entry(#[trigger] x[i], z) by {
                assert(same_entry(x[i], y));
                let j = key_position(y, x[i].0)->0;
                lemma_key_position_found(y, x[i].0);
                assert(same_entry(y[j], z));
                let m = key_position(z, y[j].0)->0;
                lemma_same_value_transitive(x[i].1, y[j].1, z[m].1);
            }
        },
        _ => {},
    }
}

/// A self-describing value.
///
/// `Float` holds the bit pattern of an IEEE-754 binary64 number, so that two
/// floats are the same value exactly when their encodings are the same.
#[derive(Debug)]
pub enum Value {
    Int(i64),
    Float(u64),
    String(String),
    Bool(bool),
    Null,
    Ref(TokenRef),
    Array(Vec<Value>),
    Object(ObjectMap),
}

/// A mapping from string keys to values, held as a list of entries in which no
/// key occurs twice. A key is found by going through the entries in order, so
/// a lookup takes time in proportion to the number of entries.
#[derive(Debug)]
pub struct ObjectMap {
    entries: Vec<(String, Value)>,
}

impl View for Value {
    type V = ValueView;

    open spec fn view(&self) -> ValueView
        decreases self, 0nat,
    {
        match self {
            Value::Int(v) => ValueView::Int(*v),
            Value::Float(bits) => ValueView::Float(*bits),
            Value::String(s) => ValueView::String(s@),
            Value::Bool(b) => ValueView::Bool(*b),
            Value::Null => ValueView::Null,
            Value::Ref(r) => ValueView::Ref(*r),
            Value::Array(items) => ValueView::Array(items_view(*items, items@.len())),
            Value::Object(map) => ValueView::Object(map.view()),
        }
    }
}

/// The values of the first `n` of `items`.
pub open spec fn items_view(items: Vec<Value>, n: nat) -> Seq<ValueView>
    decreases items, n,
{
    if n == 0 || n > items@.len() {
        Seq::empty()
    } else {
        items_view(items, (n - 1) as nat).push(items@[n - 1].view())
    }
}

impl View for ObjectMap {
    type V = Seq<(Seq<char>, ValueView)>;

    closed spec fn view(&self) -> Seq<(Seq<char>, ValueView)>
        decreases self, 0nat,
    {
        entries_view(self.entries, self.entries@.len())
    }
}

/// The keys and values of the first `n` of `entries`.
pub closed spec fn entries_view(entries: Vec<(String, Value)>, n: nat) -> Seq<(Seq<char>, ValueView)>
    decreases entries, n,
{
    if n == 0 || n > entries@.len() {
        Seq::empty()
    } else {
        entries_view(entries, (n - 1) as nat).push((entries@[n - 1].0@, entries@[n - 1].1.view()))
    }
}

/// `items_view` holds the value of each item at its own place.
pub(crate) proof fn lemma_items_view(items: Vec<Value>, n: nat)
    requires
        n <= items@.len(),
    ensures
        items_view(items, n).len() == n,
        forall|i: int| 0 <= i < n ==> #[trigger] items_view(items, n)[i] == items@[i]@,
    decreases n,
{
    if n > 0 {
        lemma_items_view(items, (n - 1) as nat);
        assert(items_view(items, n) == items_view(items, (n - 1) as nat).push(items@[n - 1]@));
    } else {
        assert(items_view(items, 0).len() == 0);
    }
}

/// `entries_view` holds the key and value of each entry at its own place.
proof fn lemma_entries_view(entries: Vec<(String, Value)>, n: nat)
    requires
        n <= entries@.len(),
    ensures
        entries_view(entries, n).len() == n,
        forall|i: int|
            0 <= i < n ==> #[trigger] entries_view(entries, n)[i] == (entries@[i].0@, entries@[i].1@),
    decreases n,
{
    if n > 0 {
        lemma_entries_view(entries, (n - 1) as nat);
        assert(entries_view(entries, n) == entries_view(entries, (n - 1) as nat).push(
            (entries@[n - 1].0@, entries@[n - 1].1@),
        ));
    } else {
        assert(entries_view(entries, 0).len() == 0);
    }
}

impl Value {
    /// The value of an array holds the value of each item at its own place.
    pub proof fn lemma_array_view(&self)
        requires
            self is Array,
        ensures
            self@ is Array,
            self@->Array_0.len() == self->Array_0@.len(),
            forall|i: int|
                0 <= i < self->Array_0@.len() ==> #[trigger] self@->Array_0[i]
                    == self->Array_0@[i]@,
    {
        lemma_items_view(self->Array_0, self->Array_0@.len());
    }
}

impl ObjectMap {
    /// The value of the map holds the key and value of each entry at its own
    /// place.
    proof fn lemma_view(&self)
        ensures
            self@.len() == self.entries@.len(),
            forall|i: int|
                0 <= i < self.entries@.len() ==> #[trigger] self@[i] == (
                    self.entries@[i].0@,
                    self.entries@[i].1@,
                ),
    {
        lemma_entries_view(self.entries, self.entries@.len());
    }
}

impl Value {
    /// No object in this value holds a key twice. Every value that is built
    /// through `ObjectMap::insert` is so.
    pub open spec fn wf(&self) -> bool {
        keys_distinct_below(self@)
    }

    /// A copy of the whole tree.
    pub fn deep_copy(&self) -> (copy: Value)
        ensures
            copy@ == self@,
        decreases self@,
    {
        match self {
            Value::Int(v) => Value::Int(*v),
            Value::Float(bits) => Value::Float(*bits),
            Value::String(s) => Value::String(s.clone()),
            Value::Bool(b) => Value::Bool(*b),
            Value::Null => Value::Null,
            Value::Ref(r) => Value::Ref(*r),
            Value::Array(items) => {
                let mut out: Vec<Value> = Vec::new();
                let mut i: usize = 0;
                proof {
                    self.lemma_array_view();
                }
                while i < items.len()
                    invariant
                        i <= items@.len(),
                        out@.len() == i,
                        self@ == ValueView::Array(self@->Array_0),
                        self@->Array_0.len() == items@.len(),
                        forall|j: int|
                            0 <= j < items@.len() ==> items@[j]@ == #[trigger] self@->Array_0[j],
                        forall|j: int| 0 <= j < i ==> (#[trigger] out@[j])@ == items@[j]@,
                    decreases items@.len() - i,
                {
                    assert(decreases_to!(self@->Array_0 => self@->Array_0[i as int]));
                    out.push(items[i].deep_copy());
                    i += 1;
                }
                let copy = Value::Array(out);
                proof {
                    copy.lemma_array_view();
                    assert(copy@->Array_0 =~= self@->Array_0);
                }
                copy
            },
            Value::Object(map) => {
                let mut entries: Vec<(String, Value)> = Vec::new();
                let mut i: usize = 0;
                proof {
                    map.lemma_view();
                }
                while i < map.entries.len()
                    invariant
                        i <= map.entries@.len(),
                        entries@.len() == i,
                        self@ == ValueView::Object(map@),
                        map@.len() == map.entries@.len(),
                        forall|j: int|
                            0 <= j < map.entries@.len() ==> #[trigger] map@[j] == (
                                map.entries@[j].0@,
                                map.entries@[j].1@,
                            ),
                        forall|j: int|
                            0 <= j < i ==> (#[trigger] entries@[j]).0@ == map.entries@[j].0@
                                && entries@[j].1@ == map.entries@[j].1@,
                    decreases map.entries@.len() - i,
                {
                    assert(decreases_to!(self@ => self@->Object_0[i as int].1));
                    let key = map.entries[i].0.clone();
                    let value = map.entries[i].1.deep_copy();
                    entries.push((key, value));
                    i += 1;
                }
                let copy = ObjectMap { entries };
                proof {
                    copy.lemma_view();
                    assert(copy@ =~= map@);
                }
                Value::Object(copy)
            },
        }
    }

    /// Whether `self` and `other` are the same value. The order of an object's
    /// entries does not count.
    pub fn same_as(&self, other: &Value) -> (same: bool)
        ensures
            same == same_value(self@, other@),
        decreases self@,
    {
        match (self, other) {
            (Value::Int(x), Value::Int(y)) => *x == *y,
            (Value::Float(x), Value::Float(y)) => *x == *y,
            (Value::String(x), Value::String(y)) => str_eq(x.as_str(), y.as_str()),
            (Value::Bool(x), Value::Bool(y)) => *x == *y,
            (Value::Null, Value::Null) => true,
            (Value::Ref(x), Value::Ref(y)) => *x == *y,
            (Value::Array(x), Value::Array(y)) => {
                proof {
                    self.lemma_array_view();
                    other.lemma_array_view();
                }
                if x.len() != y.len() {
                    return false;
                }
                let mut i: usize = 0;
                while i < x.len()
                    invariant
                        i <= x.len(),
                        x.len() == y.len(),
                        self@ == ValueView::Array(self@->Array_0),
                        self@->Array_0.len() == x.len(),
                        other@->Array_0.len() == y.len(),
                        other@ is Array,
                        forall|j: int| 0 <= j < x.len() ==> x@[j]@ == #[trigger] self@->Array_0[j],
                        forall|j: int| 0 <= j < y.len() ==> y@[j]@ == #[trigger] other@->Array_0[j],
                        forall|j: int|
                            0 <= j < i ==> same_value(
                                #[trigger] self@->Array_0[j],
                                other@->Array_0[j],
                            ),
                    decreases x.len() - i,
                {
                    assert(decreases_to!(self@->Array_0 => self@->Array_0[i as int]));
                    if !x[i].same_as(&y[i]) {
                        assert(!same_value(self@->Array_0[i as int], other@->Array_0[i as int]));
                        return false;
                    }
                    i += 1;
                }
                true
            },
            (Value::Object(x), Value::Object(y)) => {
                if x.len() != y.len() {
                    return false;
                }
                let mut i: usize = 0;
                while i < x.len()
                    invariant
                        i <= x@.len(),
                        x@.len() == y@.len(),
                        self@ == ValueView::Object(x@),
                        other@ == ValueView::Object(y@),
                        forall|j: int| 0 <= j < i ==> same_entry(#[trigger] x@[j], y@),
                    decreases x@.len() - i,
                {
                    assert(decreases_to!(self@ => self@->Object_0[i as int].1));
                    match y.position(x.key_at(i).as_str()) {
                        Some(j) => {
                            if !x.value_at(i).same_as(y.value_at(j)) {
                                assert(!same_entry(x@[i as int], y@));
                                return false;
                            }
                        },
                        None => {
                            assert(!same_entry(x@[i as int], y@));
                            return false;
                        },
                    }
                    i += 1;
                }
                true
            },
            _ => false,
        }
    }
}

impl Clone for Value {
    fn clone(&self) -> (copy: Value)
        ensures
            copy@ == self@,
    {
        self.deep_copy()
    }
}

impl Clone for ObjectMap {
    fn clone(&self) -> (copy: ObjectMap)
        ensures
            copy@ == self@,
    {
        let mut entries: Vec<(String, Value)> = Vec::new();
        let mut i: usize = 0;
        while i < self.entries.len()
            invariant
                i <= self.entries@.len(),
                entries@.len() == i,
                forall|j: int|
                    0 <= j < i ==> (#[trigger] entries@[j]).0@ == self.entries@[j].0@
                        && entries@[j].1@ == self.entries@[j].1@,
            decreases self.entries@.len() - i,
        {
            let key = self.entries[i].0.clone();
            let value = self.entries[i].1.deep_copy();
            entries.push((key, value));
            i += 1;
        }
        let copy = ObjectMap { entries };
        proof {
            copy.lemma_view();
            self.lemma_view();
            assert(copy@ =~= self@);
        }
        copy
    }
}

impl PartialEq for Value {
    fn eq(&self, other: &Value) -> (same: bool) {
        self.same_as(other)
    }
}

impl PartialEqSpecImpl for Value {
    open spec fn obeys_eq_spec() -> bool {
        true
    }

    open spec fn eq_spec(&self, other: &Value) -> bool {
        same_value(self@, other@)
    }
}

impl PartialEq for ObjectMap {
    fn eq(&self, other: &ObjectMap) -> (same: bool) {
        if self.len() != other.len() {
            return false;
        }
        let mut i: usize = 0;
        while i < self.len()
            invariant
                i <= self@.len(),
                self@.len() == other@.len(),
                forall|j: int| 0 <= j < i ==> same_entry(#[trigger] self@[j], other@),
            decreases self@.len() - i,
        {
            match other.position(self.key_at(i).as_str()) {
                Some(j) => {
                    if !self.value_at(i).same_as(other.value_at(j)) {
                        assert(!same_entry(self@[i as int], other@));
                        return false;
                    }
                },
                None => {
                    assert(!same_entry(self@[i as int], other@));
                    return false;
                },
            }
            i += 1;
        }
        true
    }
}

impl PartialEqSpecImpl for ObjectMap {
    open spec fn obeys_eq_spec() -> bool {
        true
    }

    open spec fn eq_spec(&self, other: &ObjectMap) -> bool {
        same_value(ValueView::Object(self@), ValueView::Object(other@))
    }
}

/// Whether two strings hold the same characters.
pub fn str_eq(a: &str, b: &str) -> (same: bool)
    ensures
        same == (a@ == b@),
{
    let x = a.as_bytes();
    let y = b.as_bytes();
    proof {
        vstd::utf8::encode_utf8_decode_utf8(a@);
        vstd::utf8::encode_utf8_decode_utf8(b@);
    }
    if x.len() != y.len() {
        proof {
            assert(x@ != y@);
        }
        return false;
    }
    let mut i: usize = 0;
    while i < x.len()
        invariant
            i <= x.len(),
            x.len() == y.len(),
            x@ == vstd::utf8::encode_utf8(a@),
            y@ == vstd::utf8::encode_utf8(b@),
            forall|j: int| 0 <= j < i ==> x@[j] == y@[j],
        decreases x.len() - i,
    {
        if x[i] != y[i] {
            proof {
                assert(x@ != y@);
            }
            return false;
        }
        i += 1;
    }
    proof {
        assert(x@ =~= y@);
    }
    true
}

impl ObjectMap {
    /// No key occurs twice.
    pub open spec fn wf(&self) -> bool {
        keys_distinct(self@)
    }

    /// An empty map.
    pub fn new() -> (map: ObjectMap)
        ensures
            map@ == Seq::<(Seq<char>, ValueView)>::empty(),
            map.wf(),
    {
        let map = ObjectMap { entries: Vec::new() };
        proof {
            map.lemma_view();
            assert(map@ =~= Seq::<(Seq<char>, ValueView)>::empty());
        }
        map
    }

    /// The map that comes of setting the given keys to the given values, one
    /// after the other.
    pub fn from_entries(entries: Vec<(String, Value)>) -> (map: ObjectMap)
        ensures
            map@ == entries_set_in_turn(entries_of(entries@), entries@.len()),
            map.wf(),
    {
        let mut map = ObjectMap::new();
        let mut entries = entries;
        let ghost given = entries_of(entries@);
        let ghost total = entries@.len();
        proof {
            assert(entries@.len() == entries.len());
        }
        let mut rest: Vec<(String, Value)> = Vec::new();
        // Entries are taken from the end, so they are first put in reverse.
        let mut taken: usize = 0;
        while entries.len() > 0
            invariant
                total <= usize::MAX,
                taken + entries@.len() == total,
                rest@.len() == taken,
                given.len() == total,
                forall|j: int| 0 <= j < entries@.len() ==> (#[trigger] entries@[j]).0@ == given[j].0
                    && entries@[j].1@ == given[j].1,
                forall|j: int|
                    0 <= j < taken ==> (#[trigger] rest@[j]).0@ == given[total - 1 - j].0
                        && rest@[j].1@ == given[total - 1 - j].1,
            decreases entries@.len(),
        {
            match entries.pop() {
                Some(entry) => {
                    rest.push(entry);
                    taken += 1;
                },
                None => {},
            }
        }
        let mut done: usize = 0;
        while rest.len() > 0
            invariant
                total <= usize::MAX,
                done + rest@.len() == total,
                given.len() == total,
                forall|j: int|
                    0 <= j < rest@.len() ==> (#[trigger] rest@[j]).0@ == given[total - 1 - j].0
                        && rest@[j].1@ == given[total - 1 - j].1,
                map@ == entries_set_in_turn(given, done as nat),
                map.wf(),
            decreases rest@.len(),
        {
            match rest.pop() {
                Some(entry) => {
                    proof {
                        assert(entries_set_in_turn(given, (done + 1) as nat) == entries_insert(
                            entries_set_in_turn(given, done as nat),
                            given[done as int].0,
                            given[done as int].1,
                        ));
                    }
                    let (key, value) = entry;
                    map.insert(key, value);
                    done += 1;
                },
                None => {},
            }
        }
        map
    }

    /// The number of entries.
    pub fn len(&self) -> (n: usize)
        ensures
            n == self@.len(),
    {
        proof {
            self.lemma_view();
        }
        self.entries.len()
    }

    /// Whether the map has no entry.
    pub fn is_empty(&self) -> (empty: bool)
        ensures
            empty == (self@.len() == 0),
    {
        proof {
            self.lemma_view();
        }
        self.entries.len() == 0
    }

    /// The key of the entry at position `i`.
    pub fn key_at(&self, i: usize) -> (key: &String)
        requires
            i < self@.len(),
        ensures
            key@ == self@[i as int].0,
    {
        proof {
            self.lemma_view();
        }
        &self.entries[i].0
    }

    /// The value of the entry at position `i`.
    pub fn value_at(&self, i: usize) -> (value: &Value)
        requires
            i < self@.len(),
        ensures
            value@ == self@[i as int].1,
    {
        proof {
            self.lemma_view();
        }
        &self.entries[i].1
    }

    /// The position of the entry that holds `key`, if there is one.
    pub fn position(&self, key: &str) -> (found: Option<usize>)
        ensures
            match found {
                Some(i) => key_position(self@, key@) == Some(i as int) && i < self@.len(),
                None => key_position(self@, key@) is None,
            },
    {
        let mut i: usize = 0;
        proof {
            self.lemma_view();
        }
        while i < self.entries.len()
            invariant
                i <= self.entries@.len(),
                self@.len() == self.entries@.len(),
                forall|j: int|
                    0 <= j < self.entries@.len() ==> #[trigger] self@[j] == (
                        self.entries@[j].0@,
                        self.entries@[j].1@,
                    ),
                key_position(self@.take(i as int), key@) is None,
            decreases self.entries.len() - i,
        {
            proof {
                assert(self@.take(i + 1).drop_last() =~= self@.take(i as int));
            }
            if str_eq(self.entries[i].0.as_str(), key) {
                proof {
                    lemma_key_position_prefix(self@, key@, i + 1);
                }
                return Some(i);
            }
            i += 1;
        }
        proof {
            assert(self@.take(i as int) =~= self@);
        }
        None
    }

    /// The value stored under `key`, if there is one.
    pub fn get(&self, key: &str) -> (value: Option<&Value>)
        ensures
            match value {
                Some(v) => key_position(self@, key@) matches Some(i) && v@ == self@[i].1,
                None => key_position(self@, key@) is None,
            },
    {
        proof {
            self.lemma_view();
        }
        match self.position(key) {
            Some(i) => Some(&self.entries[i].1),
            None => None,
        }
    }

    /// Whether some entry holds `key`.
    pub fn contains_key(&self, key: &str) -> (found: bool)
        ensures
            found == key_position(self@, key@) is Some,
    {
        self.position(key).is_some()
    }

    /// Sets `key` to `value`. An entry that holds `key` already keeps its place.
    pub fn insert(&mut self, key: String, value: Value)
        ensures
            final(self)@ == entries_insert(old(self)@, key@, value@),
            old(self).wf() ==> final(self).wf(),
            keys_distinct_below(ValueView::Object(old(self)@)) && value.wf() ==> keys_distinct_below(
                ValueView::Object(final(self)@),
            ),
    {
        let ghost before = self@;
        proof {
            self.lemma_view();
            if keys_distinct_below(ValueView::Object(before)) && value.wf() {
                lemma_insert_keeps_distinct_below(before, key@, value@);
            }
        }
        match self.position(key.as_str()) {
            Some(i) => {
                self.entries[i] = (key, value);
                proof {
                    self.lemma_view();
                    assert(self@ =~= before.update(i as int, (key@, value@)));
                    if keys_distinct(before) {
                        lemma_insert_keeps_distinct(before, key@, value@);
                    }
                }
            },
            None => {
                self.entries.push((key, value));
                proof {
                    self.lemma_view();
                    assert(self@ =~= before.push((key@, value@)));
                    if keys_distinct(before) {
                        lemma_insert_keeps_distinct(before, key@, value@);
                    }
                }
            },
        }
    }
}

/// A position found in a prefix of `entries` is the position found in `entries`.
pub(crate) proof fn lemma_key_position_prefix<V>(entries: Seq<(Seq<char>, V)>, key: Seq<char>, n: int)
    requires
        0 <= n <= entries.len(),
        key_position(entries.take(n), key) is Some,
    ensures
        key_position(entries, key) == key_position(entries.take(n), key),
    decreases entries.len() - n,
{
    if n < entries.len() {
        assert(entries.take(n + 1).drop_last() =~= entries.take(n));
        lemma_key_position_prefix(entries, key, n + 1);
    } else {
        assert(entries.take(n) =~= entries);
    }
}

/// What `key_position` finds holds `key`, and no earlier entry does.
pub proof fn lemma_key_position_found<V>(entries: Seq<(Seq<char>, V)>, key: Seq<char>)
    requires
        key_position(entries, key) is Some,
    ensures
        0 <= key_position(entries, key)->0 < entries.len(),
        entries[key_position(entries, key)->0].0 == key,
        forall|j: int| 0 <= j < key_position(entries, key)->0 ==> (#[trigger] entries[j]).0 != key,
    decreases entries.len(),
{
    if entries.len() > 0 {
        let init = entries.drop_last();
        if key_position(init, key) is Some {
            lemma_key_position_found(init, key);
        } else {
            lemma_key_position_absent(init, key);
        }
        assert forall|j: int| 0 <= j < key_position(entries, key)->0 implies (#[trigger] entries[j]).0
            != key by {
            assert(entries[j] == init[j]);
        }
    }
}

/// Where `key_position` finds nothing, no entry holds `key`.
pub proof fn lemma_key_position_absent<V>(entries: Seq<(Seq<char>, V)>, key: Seq<char>)
    requires
        key_position(entries, key) is None,
    ensures
        forall|j: int| 0 <= j < entries.len() ==> (#[trigger] entries[j]).0 != key,
    decreases entries.len(),
{
    if entries.len() > 0 {
        let init = entries.drop_last();
        lemma_key_position_absent(init, key);
        assert forall|j: int| 0 <= j < entries.len() implies (#[trigger] entries[j]).0 != key by {
            if j < init.len() {
                assert(entries[j] == init[j]);
            }
        }
    }
}

} // verus!
