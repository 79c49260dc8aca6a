//! Schemas, and the check of a value against one.

use vstd::prelude::*;
use vstd::std_specs::cmp::PartialEqSpecImpl;
use vstd::string::StringExecFns;
use crate::error::ToonError;
use crate::types::value::{key_position, lemma_key_position_prefix, str_eq, Value, ValueView};

verus! {

/// The shape that a value is held to.
#[derive(Debug)]
pub enum Schema {
    Any,
    Null,
    Bool,
    Int,
    Float,
    String,
    Ref,
    Array(Box<Schema>),
    Object { fields: FieldSchemas, allow_extra: bool },
}

/// The schemas of the fields of an object, by key. No key occurs twice. A
/// key is found by going through the fields in order.
#[derive(Debug)]
pub struct FieldSchemas {
    entries: Vec<(String, Schema)>,
}

/// The mathematical value of a `Schema`.
pub enum SchemaView {
    Any,
    Null,
    Bool,
    Int,
    Float,
    String,
    Ref,
    Array(Box<SchemaView>),
    Object { fields: Seq<(Seq<char>, SchemaView)>, allow_extra: bool },
}

/// Where a value does not match a schema, and how.
pub struct SchemaFault {
    pub path: Seq<char>,
    pub expected: Seq<char>,
    pub actual: Seq<char>,
}

impl View for Schema {
    type V = SchemaView;

    open spec fn view(&self) -> SchemaView
        decreases self, 0nat,
    {
        match self {
            Schema::Any => SchemaView::Any,
            Schema::Null => SchemaView::Null,
            Schema::Bool => SchemaView::Bool,
            Schema::Int => SchemaView::Int,
            Schema::Float => SchemaView::Float,
            Schema::String => SchemaView::String,
            Schema::Ref => SchemaView::Ref,
            Schema::Array(item) => SchemaView::Array(Box::new((**item).view())),
            Schema::Object { fields, allow_extra } => SchemaView::Object {
                fields: fields.view(),
                allow_extra: *allow_extra,
            },
        }
    }
}

impl View for FieldSchemas {
    type V = Seq<(Seq<char>, SchemaView)>;

    closed spec fn view(&self) -> Seq<(Seq<char>, SchemaView)>
        decreases self, 0nat,
    {
        fields_view(self.entries, self.entries@.len())
    }
}

/// The keys and schemas of the first `n` of `entries`.
pub closed spec fn fields_view(entries: Vec<(String, Schema)>, n: nat) -> Seq<
    (Seq<char>, SchemaView),
>
    decreases entries, n,
{
    if n == 0 || n > entries@.len() {
        Seq::empty()
    } else {
        fields_view(entries, (n - 1) as nat).push((entries@[n - 1].0@, entries@[n - 1].1.view()))
    }
}

/// `fields_view` holds the key and schema of each field at its own place.
proof fn lemma_fields_view(entries: Vec<(String, Schema)>, n: nat)
    requires
        n <= entries@.len(),
    ensures
        fields_view(entries, n).len() == n,
        forall|i: int|
            0 <= i < n ==> #[trigger] fields_view(entries, n)[i] == (entries@[i].0@, entries@[i].1@),
    decreases n,
{
    if n > 0 {
        lemma_fields_view(entries, (n - 1) as nat);
        assert(fields_view(entries, n) == fields_view(entries, (n - 1) as nat).push(
            (entries@[n - 1].0@, entries@[n - 1].1@),
        ));
    } else {
        assert(fields_view(entries, 0).len() == 0);
    }
}

impl FieldSchemas {
    /// The value of the list holds the key and schema of each field at its
    /// own place.
    proof fn lemma_view(&self)
        ensures
            self@.len() == self.entries@.len(),
            forall|i: int|
                0 <= i < self.entries@.len() ==> #[trigger] self@[i] == (
                    self.entries@[i].0@,
                    self.entries@[i].1@,
                ),
    {
        lemma_fields_view(self.entries, self.entries@.len());
    }

    /// No fields.
    pub fn new() -> (fields: FieldSchemas)
        ensures
            fields@ == Seq::<(Seq<char>, SchemaView)>::empty(),
    {
        let fields = FieldSchemas { entries: Vec::new() };
        proof {
            fields.lemma_view();
            assert(fields@ =~= Seq::<(Seq<char>, SchemaView)>::empty());
        }
        fields
    }

    /// The number of fields.
    pub fn len(&self) -> (n: usize)
        ensures
            n == self@.len(),
    {
        proof {
            self.lemma_view();
        }
        self.entries.len()
    }

    /// The key of the field at position `i`.
    pub fn key_at(&self, i: usize) -> (key: &String)
        requires
            i < self@.len(),
        ensures
            key@ == self@[i as int].0,
    {
        proof {
            self.lemma_view();
        }
        &self.entries[i].0
    }

    /// The schema of the field at position `i`.
    pub fn schema_at(&self, i: usize) -> (schema: &Schema)
        requires
            i < self@.len(),
        ensures
            schema@ == self@[i as int].1,
    {
        proof {
            self.lemma_view();
        }
        &self.entries[i].1
    }

    /// The position of the field with the given key, if there is one.
    pub fn position(&self, key: &str) -> (found: Option<usize>)
        ensures
            match found {
                Some(i) => key_position(self@, key@) == Some(i as int) && i < self@.len(),
                None => key_position(self@, key@) is None,
            },
    {
        let mut i: usize = 0;
        proof {
            self.lemma_view();
        }
        while i < self.entries.len()
            invariant
                i <= self.entries@.len(),
                self@.len() == self.entries@.len(),
                forall|j: int|
                    0 <= j < self.entries@.len() ==> #[trigger] self@[j] == (
                        self.entries@[j].0@,
                        self.entries@[j].1@,
                    ),
                key_position(self@.take(i as int), key@) is None,
            decreases self.entries.len() - i,
        {
            proof {
                assert(self@.take(i + 1).drop_last() =~= self@.take(i as int));
            }
            if str_eq(self.entries[i].0.as_str(), key) {
                proof {
                    lemma_key_position_prefix(self@, key@, i + 1);
                }
                return Some(i);
            }
            i += 1;
        }
        proof {
            assert(self@.take(i as int) =~= self@);
        }
        None
    }

    /// Whether there is a field with the given key.
    pub fn contains_key(&self, key: &str) -> (found: bool)
        ensures
            found == key_position(self@, key@) is Some,
    {
        self.position(key).is_some()
    }

    /// Sets the schema of the field `key`. A field that is there already keeps
    /// its place.
    pub fn insert(&mut self, key: String, schema: Schema)
        ensures
            final(self)@ == match key_position(old(self)@, key@) {
                Some(i) => old(self)@.update(i, (key@, schema@)),
                None => old(self)@.push((key@, schema@)),
            },
    {
        let ghost before = self@;
        proof {
            self.lemma_view();
        }
        match self.position(key.as_str()) {
            Some(i) => {
                self.entries[i] = (key, schema);
                proof {
                    self.lemma_view();
                    assert(self@ =~= before.update(i as int, (key@, schema@)));
                }
            },
            None => {
                self.entries.push((key, schema));
                proof {
                    self.lemma_view();
                    assert(self@ =~= before.push((key@, schema@)));
                }
            },
        }
    }
}

/// Whether `a` and `b` are the same schema, where the order of the fields of
/// an object does not count.
pub open spec fn same_schema(a: SchemaView, b: SchemaView) -> bool
    decreases a, 0nat,
{
    match (a, b) {
        (SchemaView::Any, SchemaView::Any) => true,
        (SchemaView::Null, SchemaView::Null) => true,
        (SchemaView::Bool, SchemaView::Bool) => true,
        (SchemaView::Int, SchemaView::Int) => true,
        (SchemaView::Float, SchemaView::Float) => true,
        (SchemaView::String, SchemaView::String) => true,
        (SchemaView::Ref, SchemaView::Ref) => true,
        (SchemaView::Array(x), SchemaView::Array(y)) => same_schema(*x, *y),
        (
            SchemaView::Object { fields: x, allow_extra: p },
            SchemaView::Object { fields: y, allow_extra: q },
        ) => {
            &&& p == q
            &&& x.len() == y.len()
            &&& same_fields(x, x.len(), y)
        },
        _ => false,
    }
}

/// Whether each of the first `n` of `fields` is in `others` with the same
/// schema.
pub open spec fn same_fields(
    fields: Seq<(Seq<char>, SchemaView)>,
    n: nat,
    others: Seq<(Seq<char>, SchemaView)>,
) -> bool
    decreases fields, n,
{
    if n == 0 || n > fields.len() {
        true
    } else {
        &&& same_fields(fields, (n - 1) as nat, others)
        &&& match key_position(others, fields[n - 1].0) {
            Some(j) => same_schema(fields[n - 1].1, others[j].1),
            None => false,
        }
    }
}

impl Schema {
    /// A copy of the whole schema.
    pub fn deep_copy(&self) -> (copy: Schema)
        ensures
            copy@ == self@,
        decreases self@,
    {
        match self {
            Schema::Any => Schema::Any,
            Schema::Null => Schema::Null,
            Schema::Bool => Schema::Bool,
            Schema::Int => Schema::Int,
            Schema::Float => Schema::Float,
            Schema::String => Schema::String,
            Schema::Ref => Schema::Ref,
            Schema::Array(item) => {
                assert(decreases_to!(self@ => *self@->Array_0));
                Schema::Array(Box::new(item.deep_copy()))
            },
            Schema::Object { fields, allow_extra } => {
                let mut entries: Vec<(String, Schema)> = Vec::new();
                let mut i: usize = 0;
                proof {
                    fields.lemma_view();
                }
                while i < fields.entries.len()
                    invariant
                        i <= fields.entries@.len(),
                        entries@.len() == i,
                        self@ == (SchemaView::Object {
                            fields: fields@,
                            allow_extra: *allow_extra,
                        }),
                        fields@.len() == fields.entries@.len(),
                        forall|j: int|
                            0 <= j < fields.entries@.len() ==> #[trigger] fields@[j] == (
                                fields.entries@[j].0@,
                                fields.entries@[j].1@,
                            ),
                        forall|j: int|
                            0 <= j < i ==> (#[trigger] entries@[j]).0@ == fields.entries@[j].0@
                                && entries@[j].1@ == fields.entries@[j].1@,
                    decreases fields.entries@.len() - i,
                {
                    assert(decreases_to!(self@ => self@->Object_fields[i as int].1));
                    let key = fields.entries[i].0.clone();
                    let schema = fields.entries[i].1.deep_copy();
                    entries.push((key, schema));
                    i += 1;
                }
                let copy = FieldSchemas { entries };
                proof {
                    copy.lemma_view();
                    assert(copy@ =~= fields@);
                }
                Schema::Object { fields: copy, allow_extra: *allow_extra }
            },
        }
    }

    /// Whether `self` and `other` are the same schema. The order of the
    /// fields of an object does not count.
    pub fn same_as(&self, other: &Schema) -> (same: bool)
        ensures
            same == same_schema(self@, other@),
        decreases self@,
    {
        match (self, other) {
            (Schema::Any, Schema::Any) => true,
            (Schema::Null, Schema::Null) => true,
            (Schema::Bool, Schema::Bool) => true,
            (Schema::Int, Schema::Int) => true,
            (Schema::Float, Schema::Float) => true,
            (Schema::String, Schema::String) => true,
            (Schema::Ref, Schema::Ref) => true,
            (Schema::Array(x), Schema::Array(y)) => {
                assert(decreases_to!(self@ => *self@->Array_0));
                x.same_as(y)
            },
            (
                Schema::Object { fields: x, allow_extra: p },
                Schema::Object { fields: y, allow_extra: q },
            ) => {
                if *p != *q || x.len() != y.len() {
                    return false;
                }
                let count = x.len();
                let mut i: usize = 0;
                while i < count
                    invariant
                        i <= count,
                        count == x@.len(),
                        x@.len() == y@.len(),
                        self@ == (SchemaView::Object { fields: x@, allow_extra: *p }),
                        other@ == (SchemaView::Object { fields: y@, allow_extra: *q }),
                        *p == *q,
                        same_fields(x@, i as nat, y@),
                    decreases count - i,
                {
                    assert(decreases_to!(self@ => self@->Object_fields[i as int].1));
                    proof {
                        assert(same_fields(x@, (i + 1) as nat, y@) == (same_fields(x@, i as nat, y@)
                            && match key_position(y@, x@[i as int].0) {
                            Some(j) => same_schema(x@[i as int].1, y@[j].1),
                            None => false,
                        }));
                    }
                    let same = match y.position(x.key_at(i).as_str()) {
                        Some(j) => x.schema_at(i).same_as(y.schema_at(j)),
                        None => false,
                    };
                    if !same {
                        proof {
                            lemma_same_fields_fails(x@, (i + 1) as nat, x@.len(), y@);
                        }
                        return false;
                    }
                    i += 1;
                }
                true
            },
            _ => false,
        }
    }
}

/// Where the first `n` fields are not all matched, the first `m` are not,
/// for every `m` from `n` on.
proof fn lemma_same_fields_fails(
    fields: Seq<(Seq<char>, SchemaView)>,
    n: nat,
    m: nat,
    others: Seq<(Seq<char>, SchemaView)>,
)
    requires
        n <= m <= fields.len(),
        !same_fields(fields, n, others),
    ensures
        !same_fields(fields, m, others),
    decreases m - n,
{
    if n < m {
        lemma_same_fields_fails(fields, n, (m - 1) as nat, others);
    }
}

impl Clone for Schema {
    fn clone(&self) -> (copy: Schema)
        ensures
            copy@ == self@,
    {
        self.deep_copy()
    }
}

impl PartialEq for Schema {
    fn eq(&self, other: &Schema) -> (same: bool) {
        self.same_as(other)
    }
}

impl PartialEqSpecImpl for Schema {
    open spec fn obeys_eq_spec() -> bool {
        true
    }

    open spec fn eq_spec(&self, other: &Schema) -> bool {
        same_schema(self@, other@)
    }
}

impl Eq for Schema {

}

/// The decimal digit `d` as a character.
pub open spec fn digit_char(d: nat) -> char {
    if d == 0 {
        '0'
    } else if d == 1 {
        '1'
    } else if d == 2 {
        '2'
    } else if d == 3 {
        '3'
    } else if d == 4 {
        '4'
    } else if d == 5 {
        '5'
    } else if d == 6 {
        '6'
    } else if d == 7 {
        '7'
    } else if d == 8 {
        '8'
    } else {
        '9'
    }
}

/// `n` written in decimal.
pub open spec fn decimal(n: nat) -> Seq<char>
    decreases n,
{
    if n < 10 {
        seq![digit_char(n)]
    } else {
        decimal(n / 10).push(digit_char(n % 10))
    }
}

/// The path of the item at `index` of the array at `path`.
pub open spec fn index_path(path: Seq<char>, index: nat) -> Seq<char> {
    path + seq!['['] + decimal(index) + seq![']']
}

/// The path of the field `key` of the object at `path`.
pub open spec fn field_path(path: Seq<char>, key: Seq<char>) -> Seq<char> {
    path + seq!['.'] + key
}

/// The name of the kind of a value.
pub open spec fn kind_name(v: ValueView) -> Seq<char> {
    match v {
        ValueView::Null => "null"@,
        ValueView::Bool(_) => "bool"@,
        ValueView::Int(_) => "int"@,
        ValueView::Float(_) => "float"@,
        ValueView::String(_) => "string"@,
        ValueView::Array(_) => "array"@,
        ValueView::Object(_) => "object"@,
        ValueView::Ref(_) => "ref"@,
    }
}

/// The fault of a value of the wrong kind at `path`.
pub open spec fn wrong_kind(path: Seq<char>, expected: Seq<char>, v: ValueView) -> Option<
    SchemaFault,
> {
    Some(SchemaFault { path, expected, actual: kind_name(v) })
}

/// The first fault of `v`, standing at `path`, against `schema`, if there is
/// one. The items of an array are judged in their order; of an object first
/// the fields of the schema in their order, each of which must be there and
/// match, then, unless extra fields are allowed, the entries of the object in
/// their order, none of which may be without a field in the schema.
pub open spec fn first_fault(v: ValueView, schema: SchemaView, path: Seq<char>) -> Option<
    SchemaFault,
>
    decreases schema, 0nat,
{
    match schema {
        SchemaView::Any => None,
        SchemaView::Null => if v is Null {
            None
        } else {
            wrong_kind(path, "null"@, v)
        },
        SchemaView::Bool => if v is Bool {
            None
        } else {
            wrong_kind(path, "bool"@, v)
        },
        SchemaView::Int => if v is Int {
            None
        } else {
            wrong_kind(path, "int"@, v)
        },
        SchemaView::Float => if v is Float {
            None
        } else {
            wrong_kind(path, "float"@, v)
        },
        SchemaView::String => if v is String {
            None
        } else {
            wrong_kind(path, "string"@, v)
        },
        SchemaView::Ref => if v is Ref {
            None
        } else {
            wrong_kind(path, "ref"@, v)
        },
        SchemaView::Array(item) => match v {
            ValueView::Array(items) => first_fault_in_items(items, items.len(), *item, path),
            _ => wrong_kind(path, "array"@, v),
        },
        SchemaView::Object { fields, allow_extra } => match v {
            ValueView::Object(entries) => match first_fault_in_fields(
                fields,
                fields.len(),
                entries,
                path,
            ) {
                Some(fault) => Some(fault),
                None => if allow_extra {
                    None
                } else {
                    first_extra(entries, entries.len(), fields, path)
                },
            },
            _ => wrong_kind(path, "object"@, v),
        },
    }
}

/// The first fault among the first `n` of `items`, each against `schema`.
pub open spec fn first_fault_in_items(
    items: Seq<ValueView>,
    n: nat,
    schema: SchemaView,
    path: Seq<char>,
) -> Option<SchemaFault>
    decreases schema, n,
{
    if n == 0 || n > items.len() {
        None
    } else {
        match first_fault_in_items(items, (n - 1) as nat, schema, path) {
            Some(fault) => Some(fault),
            None => first_fault(items[n - 1], schema, index_path(path, (n - 1) as nat)),
        }
    }
}

/// The first fault among the first `n` of `fields`: a field that `entries`
/// does not hold, or one whose value does not match.
pub open spec fn first_fault_in_fields(
    fields: Seq<(Seq<char>, SchemaView)>,
    n: nat,
    entries: Seq<(Seq<char>, ValueView)>,
    path: Seq<char>,
) -> Option<SchemaFault>
    decreases fields, n,
{
    if n == 0 || n > fields.len() {
        None
    } else {
        match first_fault_in_fields(fields, (n - 1) as nat, entries, path) {
            Some(fault) => Some(fault),
            None => {
                let key = fields[n - 1].0;
                match key_position(entries, key) {
                    None => Some(
                        SchemaFault {
                            path: field_path(path, key),
                            expected: "present"@,
                            actual: "missing"@,
                        },
                    ),
                    Some(j) => first_fault(entries[j].1, fields[n - 1].1, field_path(path, key)),
                }
            },
        }
    }
}

/// The first of the first `n` of `entries` whose key has no field.
pub open spec fn first_extra(
    entries: Seq<(Seq<char>, ValueView)>,
    n: nat,
    fields: Seq<(Seq<char>, SchemaView)>,
    path: Seq<char>,
) -> Option<SchemaFault>
    decreases n,
{
    if n == 0 || n > entries.len() {
        None
    } else {
        match first_extra(entries, (n - 1) as nat, fields, path) {
            Some(fault) => Some(fault),
            None => if key_position(fields, entries[n - 1].0) is None {
                Some(
                    SchemaFault {
                        path: field_path(path, entries[n - 1].0),
                        expected: "no extra fields"@,
                        actual: "extra field"@,
                    },
                )
            } else {
                None
            },
        }
    }
}

/// Whether `error` reports `fault`.
pub open spec fn reports(error: ToonError, fault: SchemaFault) -> bool {
    error matches ToonError::SchemaViolation { path, expected, actual } && path@ == fault.path
        && expected@ == fault.expected && actual@ == fault.actual
}

/// The decimal digit `d` as text.
fn digit_str(d: usize) -> (text: &'static str)
    requires
        d < 10,
    ensures
        text@ == seq![digit_char(d as nat)],
{
    proof {
        reveal_strlit("0");
        reveal_strlit("1");
        reveal_strlit("2");
        reveal_strlit("3");
        reveal_strlit("4");
        reveal_strlit("5");
        reveal_strlit("6");
        reveal_strlit("7");
        reveal_strlit("8");
        reveal_strlit("9");
    }
    let text = if d == 0 {
        "0"
    } else if d == 1 {
        "1"
    } else if d == 2 {
        "2"
    } else if d == 3 {
        "3"
    } else if d == 4 {
        "4"
    } else if d == 5 {
        "5"
    } else if d == 6 {
        "6"
    } else if d == 7 {
        "7"
    } else if d == 8 {
        "8"
    } else {
        "9"
    };
    proof {
        assert(text@ =~= seq![digit_char(d as nat)]);
    }
    text
}

/// Appends `n` in decimal to `out`.
fn append_decimal(out: &mut String, n: usize)
    ensures
        final(out)@ == old(out)@ + decimal(n as nat),
    decreases n,
{
    if n >= 10 {
        append_decimal(out, n / 10);
    }
    out.append(digit_str(n % 10));
    proof {
        assert(out@ =~= old(out)@ + decimal(n as nat));
    }
}

/// The path of the item at `index` of the array at `path`.
fn item_path(path: &str, index: usize) -> (child: String)
    ensures
        child@ == index_path(path@, index as nat),
{
    proof {
        reveal_strlit("[");
        reveal_strlit("]");
    }
    let mut child = path.to_owned();
    child.append("[");
    append_decimal(&mut child, index);
    child.append("]");
    proof {
        assert(child@ =~= index_path(path@, index as nat));
    }
    child
}

/// The path of the field `key` of the object at `path`.
fn member_path(path: &str, key: &str) -> (child: String)
    ensures
        child@ == field_path(path@, key@),
{
    proof {
        reveal_strlit(".");
    }
    let mut child = path.to_owned();
    child.append(".");
    child.append(key);
    proof {
        assert(child@ =~= field_path(path@, key@));
    }
    child
}

/// The name of the kind of `value`.
fn actual_name(value: &Value) -> (name: &'static str)
    ensures
        name@ == kind_name(value@),
{
    match value {
        Value::Null => "null",
        Value::Bool(_) => "bool",
        Value::Int(_) => "int",
        Value::Float(_) => "float",
        Value::String(_) => "string",
        Value::Array(_) => "array",
        Value::Object(_) => "object",
        Value::Ref(_) => "ref",
    }
}

/// The error for a value of the wrong kind at `path`.
fn mismatch(path: &str, expected: &'static str, actual: &'static str) -> (error: ToonError)
    ensures
        reports(error, SchemaFault { path: path@, expected: expected@, actual: actual@ }),
{
    ToonError::SchemaViolation { path: path.to_owned(), expected, actual }
}

/// Checks `value` against `schema`. Fails with the first fault, at a path
/// that starts with `$`.
pub fn validate_schema(value: &Value, schema: &Schema) -> (verdict: Result<(), ToonError>)
    ensures
        match verdict {
            Ok(()) => first_fault(value@, schema@, "$"@) is None,
            Err(e) => first_fault(value@, schema@, "$"@) matches Some(fault) && reports(e, fault),
        },
{
    validate_schema_at(value, schema, "$")
}

/// Checks `value`, which stands at `path`, against `schema`.
#[verifier::rlimit(40)]
fn validate_schema_at(value: &Value, schema: &Schema, path: &str) -> (verdict: Result<
    (),
    ToonError,
>)
    ensures
        match verdict {
            Ok(()) => first_fault(value@, schema@, path@) is None,
            Err(e) => first_fault(value@, schema@, path@) matches Some(fault) && reports(e, fault),
        },
    decreases schema@, 0nat,
{
    match schema {
        Schema::Any => Ok(()),
        Schema::Null => match value {
            Value::Null => Ok(()),
            other => Err(mismatch(path, "null", actual_name(other))),
        },
        Schema::Bool => match value {
            Value::Bool(_) => Ok(()),
            other => Err(mismatch(path, "bool", actual_name(other))),
        },
        Schema::Int => match value {
            Value::Int(_) => Ok(()),
            other => Err(mismatch(path, "int", actual_name(other))),
        },
        Schema::Float => match value {
            Value::Float(_) => Ok(()),
            other => Err(mismatch(path, "float", actual_name(other))),
        },
        Schema::String => match value {
            Value::String(_) => Ok(()),
            other => Err(mismatch(path, "string", actual_name(other))),
        },
        Schema::Ref => match value {
            Value::Ref(_) => Ok(()),
            other => Err(mismatch(path, "ref", actual_name(other))),
        },
        Schema::Array(item_schema) => match value {
            Value::Array(items) => {
                proof {
                    value.lemma_array_view();
                }
                let ghost views = value@->Array_0;
                let ghost item_view = item_schema@;
                let mut idx: usize = 0;
                while idx < items.len()
                    invariant
                        idx <= items@.len(),
                        value@ == ValueView::Array(views),
                        schema@ == SchemaView::Array(Box::new(item_view)),
                        item_view == item_schema@,
                        views.len() == items@.len(),
                        forall|j: int| 0 <= j < items@.len() ==> items@[j]@ == #[trigger] views[j],
                        first_fault_in_items(views, idx as nat, item_view, path@) is None,
                    decreases items@.len() - idx,
                {
                    let child_path = item_path(path, idx);
                    proof {
                        assert(first_fault_in_items(views, (idx + 1) as nat, item_view, path@)
                            == first_fault(
                            views[idx as int],
                            item_view,
                            index_path(path@, idx as nat),
                        ));
                    }
                    match validate_schema_at(&items[idx], item_schema, child_path.as_str()) {
                        Ok(()) => {},
                        Err(e) => {
                            proof {
                                lemma_fault_in_items_stays(
                                    views,
                                    (idx + 1) as nat,
                                    views.len(),
                                    item_view,
                                    path@,
                                );
                            }
                            return Err(e);
                        },
                    }
                    idx += 1;
                }
                Ok(())
            },
            other => Err(mismatch(path, "array", actual_name(other))),
        },
        Schema::Object { fields, allow_extra } => match value {
            Value::Object(map) => {
                let ghost field_views = fields@;
                let ghost entries = map@;
                let field_count = fields.len();
                let mut i: usize = 0;
                while i < field_count
                    invariant
                        i <= field_count,
                        field_count == field_views.len(),
                        field_views == fields@,
                        entries == map@,
                        value@ == ValueView::Object(entries),
                        schema@ == (SchemaView::Object {
                            fields: field_views,
                            allow_extra: *allow_extra,
                        }),
                        first_fault_in_fields(field_views, i as nat, entries, path@) is None,
                    decreases field_count - i,
                {
                    let key = fields.key_at(i);
                    let child_path = member_path(path, key.as_str());
                    proof {
                        assert(first_fault_in_fields(field_views, (i + 1) as nat, entries, path@)
                            == match key_position(entries, key@) {
                            None => Some(
                                SchemaFault {
                                    path: field_path(path@, key@),
                                    expected: "present"@,
                                    actual: "missing"@,
                                },
                            ),
                            Some(j) => first_fault(
                                entries[j].1,
                                field_views[i as int].1,
                                field_path(path@, key@),
                            ),
                        });
                        assert(decreases_to!(schema@ => schema@->Object_fields[i as int].1));
                    }
                    let verdict = match map.get(key.as_str()) {
                        Some(v) => validate_schema_at(v, fields.schema_at(i), child_path.as_str()),
                        None => Err(
                            ToonError::SchemaViolation {
                                path: child_path,
                                expected: "present",
                                actual: "missing",
                            },
                        ),
                    };
                    match verdict {
                        Ok(()) => {},
                        Err(e) => {
                            proof {
                                lemma_fault_in_fields_stays(
                                    field_views,
                                    (i + 1) as nat,
                                    field_views.len(),
                                    entries,
                                    path@,
                                );
                            }
                            return Err(e);
                        },
                    }
                    i += 1;
                }
                if !*allow_extra {
                    let count = map.len();
                    let mut k: usize = 0;
                    while k < count
                        invariant
                            k <= count,
                            count == entries.len(),
                            field_views == fields@,
                            entries == map@,
                            value@ == ValueView::Object(entries),
                            schema@ == (SchemaView::Object {
                                fields: field_views,
                                allow_extra: false,
                            }),
                            first_fault_in_fields(
                                field_views,
                                field_views.len(),
                                entries,
                                path@,
                            ) is None,
                            first_extra(entries, k as nat, field_views, path@) is None,
                        decreases count - k,
                    {
                        let key = map.key_at(k);
                        proof {
                            assert(first_extra(entries, (k + 1) as nat, field_views, path@) == if key_position(
                                field_views,
                                key@,
                            ) is None {
                                Some(
                                    SchemaFault {
                                        path: field_path(path@, key@),
                                        expected: "no extra fields"@,
                                        actual: "extra field"@,
                                    },
                                )
                            } else {
                                None
                            });
                        }
                        if !fields.contains_key(key.as_str()) {
                            proof {
                                lemma_extra_stays(
                                    entries,
                                    (k + 1) as nat,
                                    entries.len(),
                                    field_views,
                                    path@,
                                );
                            }
                            return Err(
                                ToonError::SchemaViolation {
                                    path: member_path(path, key.as_str()),
                                    expected: "no extra fields",
                                    actual: "extra field",
                                },
                            );
                        }
                        k += 1;
                    }
                }
                Ok(())
            },
            other => Err(mismatch(path, "object", actual_name(other))),
        },
    }
}

/// A fault found among the first `n` items is the one found among the first
/// `m`, for every `m` from `n` on.
proof fn lemma_fault_in_items_stays(
    items: Seq<ValueView>,
    n: nat,
    m: nat,
    schema: SchemaView,
    path: Seq<char>,
)
    requires
        n <= m <= items.len(),
        first_fault_in_items(items, n, schema, path) is Some,
    ensures
        first_fault_in_items(items, m, schema, path) == first_fault_in_items(items, n, schema, path),
    decreases m - n,
{
    if n < m {
        lemma_fault_in_items_stays(items, n, (m - 1) as nat, schema, path);
    }
}

/// A fault found among the first `n` fields is the one found among the first
/// `m`, for every `m` from `n` on.
proof fn lemma_fault_in_fields_stays(
    fields: Seq<(Seq<char>, SchemaView)>,
    n: nat,
    m: nat,
    entries: Seq<(Seq<char>, ValueView)>,
    path: Seq<char>,
)
    requires
        n <= m <= fields.len(),
        first_fault_in_fields(fields, n, entries, path) is Some,
    ensures
        first_fault_in_fields(fields, m, entries, path) == first_fault_in_fields(
            fields,
            n,
            entries,
            path,
        ),
    decreases m - n,
{
    if n < m {
        lemma_fault_in_fields_stays(fields, n, (m - 1) as nat, entries, path);
    }
}

/// An extra entry found among the first `n` entries is the one found among
/// the first `m`, for every `m` from `n` on.
proof fn lemma_extra_stays(
    entries: Seq<(Seq<char>, ValueView)>,
    n: nat,
    m: nat,
    fields: Seq<(Seq<char>, SchemaView)>,
    path: Seq<char>,
)
    requires
        n <= m <= entries.len(),
        first_extra(entries, n, fields, path) is Some,
    ensures
        first_extra(entries, m, fields, path) == first_extra(entries, n, fields, path),
    decreases m - n,
{
    if n < m {
        lemma_extra_stays(entries, n, (m - 1) as nat, fields, path);
    }
}

} // verus!
