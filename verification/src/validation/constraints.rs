//! Limits on the size and the nesting of a value.

use vstd::prelude::*;
use vstd::utf8::encode_utf8;
use crate::error::{ConstraintKind, ToonError};
use crate::types::value::{Value, ValueView};

verus! {

/// Limits on the size and the nesting of a value.
#[derive(Debug, Clone, Copy, PartialEq, Eq, Structural)]
pub struct Constraints {
    pub max_string_len: usize,
    pub max_array_len: usize,
    pub max_object_len: usize,
    pub max_depth: usize,
}

impl Default for Constraints {
    /// Strings of up to 1 MiB, arrays and objects of up to a million entries,
    /// nesting of up to 256 levels.
    fn default() -> (constraints: Constraints)
        ensures
            constraints == (Constraints {
                max_string_len: 1048576,
                max_array_len: 1000000,
                max_object_len: 1000000,
                max_depth: 256,
            }),
    {
        Constraints {
            max_string_len: 1048576,
            max_array_len: 1000000,
            max_object_len: 1000000,
            max_depth: 256,
        }
    }
}

/// The depth one level below `depth`. Depths are counted up to the largest
/// machine number and no further.
pub open spec fn deeper(depth: usize) -> usize {
    if depth < usize::MAX {
        (depth + 1) as usize
    } else {
        depth
    }
}

/// The first limit that `v`, standing at `depth`, goes over, if it goes over
/// one. A value is judged before what it holds: first its depth, then its own
/// length, then its items or entries in their order.
pub open spec fn first_violation(v: ValueView, limits: Constraints, depth: usize) -> Option<
    ToonError,
>
    decreases v, 0nat,
{
    if depth > limits.max_depth {
        Some(
            ToonError::ConstraintViolation {
                kind: ConstraintKind::Depth,
                limit: limits.max_depth,
                actual: depth,
            },
        )
    } else {
        match v {
            ValueView::String(s) => if encode_utf8(s).len() > limits.max_string_len {
                Some(
                    ToonError::ConstraintViolation {
                        kind: ConstraintKind::StringLength,
                        limit: limits.max_string_len,
                        actual: encode_utf8(s).len() as usize,
                    },
                )
            } else {
                None
            },
            ValueView::Array(items) => if items.len() > limits.max_array_len {
                Some(
                    ToonError::ConstraintViolation {
                        kind: ConstraintKind::ArrayLength,
                        limit: limits.max_array_len,
                        actual: items.len() as usize,
                    },
                )
            } else {
                first_violation_in_items(items, items.len(), limits, deeper(depth))
            },
            ValueView::Object(entries) => if entries.len() > limits.max_object_len {
                Some(
                    ToonError::ConstraintViolation {
                        kind: ConstraintKind::ObjectLength,
                        limit: limits.max_object_len,
                        actual: entries.len() as usize,
                    },
                )
            } else {
                first_violation_in_entries(entries, entries.len(), limits, deeper(depth))
            },
            _ => None,
        }
    }
}

/// The first violation among the first `n` of `items`, each standing at
/// `depth`.
pub open spec fn first_violation_in_items(
    items: Seq<ValueView>,
    n: nat,
    limits: Constraints,
    depth: usize,
) -> Option<ToonError>
    decreases items, n,
{
    if n == 0 || n > items.len() {
        None
    } else {
        match first_violation_in_items(items, (n - 1) as nat, limits, depth) {
            Some(e) => Some(e),
            None => first_violation(items[n - 1], limits, depth),
        }
    }
}

/// The first violation among the values of the first `n` of `entries`, each
/// standing at `depth`.
pub open spec fn first_violation_in_entries(
    entries: Seq<(Seq<char>, ValueView)>,
    n: nat,
    limits: Constraints,
    depth: usize,
) -> Option<ToonError>
    decreases entries, n,
{
    if n == 0 || n > entries.len() {
        None
    } else {
        match first_violation_in_entries(entries, (n - 1) as nat, limits, depth) {
            Some(e) => Some(e),
            None => first_violation(entries[n - 1].1, limits, depth),
        }
    }
}

/// Checks `value` against `constraints`. Fails with the first limit that the
/// value goes over, in the order of a walk through it.
pub fn validate_value(value: &Value, constraints: Constraints) -> (verdict: Result<(), ToonError>)
    ensures
        match verdict {
            Ok(()) => first_violation(value@, constraints, 0) is None,
            Err(e) => first_violation(value@, constraints, 0) == Some(e),
        },
{
    validate_value_inner(value, constraints, 0)
}

/// Checks `value`, which stands at `depth`, against `constraints`.
fn validate_value_inner(value: &Value, constraints: Constraints, depth: usize) -> (verdict: Result<
    (),
    ToonError,
>)
    ensures
        match verdict {
            Ok(()) => first_violation(value@, constraints, depth) is None,
            Err(e) => first_violation(value@, constraints, depth) == Some(e),
        },
    decreases value@,
{
    if depth > constraints.max_depth {
        return Err(
            ToonError::ConstraintViolation {
                kind: ConstraintKind::Depth,
                limit: constraints.max_depth,
                actual: depth,
            },
        );
    }
    let below = if depth < usize::MAX {
        depth + 1
    } else {
        depth
    };
    match value {
        Value::String(s) => {
            let len = s.as_str().as_bytes().len();
            if len > constraints.max_string_len {
                return Err(
                    ToonError::ConstraintViolation {
                        kind: ConstraintKind::StringLength,
                        limit: constraints.max_string_len,
                        actual: len,
                    },
                );
            }
        },
        Value::Array(items) => {
            proof {
                value.lemma_array_view();
            }
            let ghost views = value@->Array_0;
            if items.len() > constraints.max_array_len {
                return Err(
                    ToonError::ConstraintViolation {
                        kind: ConstraintKind::ArrayLength,
                        limit: constraints.max_array_len,
                        actual: items.len(),
                    },
                );
            }
            let mut i: usize = 0;
            while i < items.len()
                invariant
                    i <= items@.len(),
                    value@ == ValueView::Array(views),
                    views.len() == items@.len(),
                    forall|j: int| 0 <= j < items@.len() ==> items@[j]@ == #[trigger] views[j],
                    depth <= constraints.max_depth,
                    below == deeper(depth),
                    views.len() <= constraints.max_array_len,
                    first_violation_in_items(views, i as nat, constraints, below) is None,
                decreases items@.len() - i,
            {
                assert(decreases_to!(value@ => value@->Array_0[i as int]));
                proof {
                    assert(first_violation_in_items(views, (i + 1) as nat, constraints, below)
                        == first_violation(views[i as int], constraints, below));
                }
                match validate_value_inner(&items[i], constraints, below) {
                    Ok(()) => {},
                    Err(e) => {
                        proof {
                            lemma_violation_in_items_stays(
                                views,
                                (i + 1) as nat,
                                views.len(),
                                constraints,
                                below,
                            );
                        }
                        return Err(e);
                    },
                }
                i += 1;
            }
        },
        Value::Object(map) => {
            let ghost views = map@;
            let count = map.len();
            if count > constraints.max_object_len {
                return Err(
                    ToonError::ConstraintViolation {
                        kind: ConstraintKind::ObjectLength,
                        limit: constraints.max_object_len,
                        actual: count,
                    },
                );
            }
            let mut i: usize = 0;
            while i < count
                invariant
                    i <= count,
                    count == views.len(),
                    views == map@,
                    value@ == ValueView::Object(views),
                    depth <= constraints.max_depth,
                    below == deeper(depth),
                    views.len() <= constraints.max_object_len,
                    first_violation_in_entries(views, i as nat, constraints, below) is None,
                decreases count - i,
            {
                assert(decreases_to!(value@ => value@->Object_0[i as int].1));
                proof {
                    assert(first_violation_in_entries(views, (i + 1) as nat, constraints, below)
                        == first_violation(views[i as int].1, constraints, below));
                }
                match validate_value_inner(map.value_at(i), constraints, below) {
                    Ok(()) => {},
                    Err(e) => {
                        proof {
                            lemma_violation_in_entries_stays(
                                views,
                                (i + 1) as nat,
                                views.len(),
                                constraints,
                                below,
                            );
                        }
                        return Err(e);
                    },
                }
                i += 1;
            }
        },
        _ => {},
    }
    Ok(())
}

/// A violation found among the first `n` items is the one found among the
/// first `m`, for every `m` from `n` on.
proof fn lemma_violation_in_items_stays(
    items: Seq<ValueView>,
    n: nat,
    m: nat,
    limits: Constraints,
    depth: usize,
)
    requires
        n <= m <= items.len(),
        first_violation_in_items(items, n, limits, depth) is Some,
    ensures
        first_violation_in_items(items, m, limits, depth) == first_violation_in_items(
            items,
            n,
            limits,
            depth,
        ),
    decreases m - n,
{
    if n < m {
        lemma_violation_in_items_stays(items, n, (m - 1) as nat, limits, depth);
    }
}

/// A violation found among the first `n` entries is the one found among the
/// first `m`, for every `m` from `n` on.
proof fn lemma_violation_in_entries_stays(
    entries: Seq<(Seq<char>, ValueView)>,
    n: nat,
    m: nat,
    limits: Constraints,
    depth: usize,
)
    requires
        n <= m <= entries.len(),
        first_violation_in_entries(entries, n, limits, depth) is Some,
    ensures
        first_violation_in_entries(entries, m, limits, depth) == first_violation_in_entries(
            entries,
            n,
            limits,
            depth,
        ),
    decreases m - n,
{
    if n < m {
        lemma_violation_in_entries_stays(entries, n, (m - 1) as nat, limits, depth);
    }
}

} // verus!
