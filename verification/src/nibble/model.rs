//! Maps from keys as their callers see them: what GET, PUT and DEL mean
//! for the mapping of the store, from keys to values, and for that of the
//! index, from keys to entries.

use crate::nibble::common::ErrorCode;
use vstd::prelude::*;

verus! {

/// The mapping that remains after a PUT of `value` under `key` succeeded.
pub open spec fn spec_put<V>(store: Map<u64, V>, key: u64, value: V) -> Map<u64, V> {
    store.insert(key, value)
}

/// What GET finds under `key`, if anything.
pub open spec fn spec_get<V>(store: Map<u64, V>, key: u64) -> Option<V> {
    if store.contains_key(key) {
        Some(store[key])
    } else {
        None
    }
}

/// The mapping that remains after a DEL of `key`.
pub open spec fn spec_del<V>(store: Map<u64, V>, key: u64) -> Map<u64, V> {
    store.remove(key)
}

/// What DEL of `key` answers.
pub open spec fn del_outcome<V>(store: Map<u64, V>, key: u64) -> Result<(), ErrorCode> {
    if store.contains_key(key) {
        Ok(())
    } else {
        Err(ErrorCode::NotFound)
    }
}

/// After a successful PUT of a value under a key, GET of the key finds
/// that value.
pub proof fn lemma_put_then_get<V>(store: Map<u64, V>, key: u64, value: V)
    ensures
        spec_get(spec_put(store, key, value), key) == Some(value),
{
}

/// A PUT or a DEL of another key does not change what GET finds under a
/// key.
pub proof fn lemma_other_key_untouched<V>(store: Map<u64, V>, key: u64, other: u64, value: V)
    requires
        other != key,
    ensures
        spec_get(spec_put(store, other, value), key) == spec_get(store, key),
        spec_get(spec_del(store, other), key) == spec_get(store, key),
{
}

/// After a DEL of a key, GET of the key finds nothing.
pub proof fn lemma_del_then_get<V>(store: Map<u64, V>, key: u64)
    ensures
        spec_get(spec_del(store, key), key) == None::<V>,
{
}

/// Of two PUTs under one key, GET finds the value of the second.
pub proof fn lemma_put_twice_then_get<V>(store: Map<u64, V>, key: u64, first: V, second: V)
    ensures
        spec_get(spec_put(spec_put(store, key, first), key, second), key) == Some(second),
        spec_put(spec_put(store, key, first), key, second) == spec_put(store, key, second),
{
    assert(store.insert(key, first).insert(key, second) =~= store.insert(key, second));
}

/// After a PUT and a DEL of one key, GET of the key finds nothing.
pub proof fn lemma_put_del_then_get<V>(store: Map<u64, V>, key: u64, value: V)
    ensures
        spec_get(spec_del(spec_put(store, key, value), key), key) == None::<V>,
        del_outcome(spec_put(store, key, value), key) == Ok::<(), ErrorCode>(()),
{
}

/// A DEL of a key that follows a DEL of the same key answers `NotFound`
/// and changes nothing.
pub proof fn lemma_del_twice<V>(store: Map<u64, V>, key: u64)
    ensures
        del_outcome(spec_del(store, key), key) == Err::<(), ErrorCode>(ErrorCode::NotFound),
        spec_del(spec_del(store, key), key) == spec_del(store, key),
{
    assert(store.remove(key).remove(key) =~= store.remove(key));
}

/// One step in the life of a mapping: a successful PUT, a DEL, or a round
/// of compaction.
pub enum Mutation<V> {
    Put { key: u64, value: V },
    Del { key: u64 },
    Round,
}

impl<V> Mutation<V> {
    /// Whether the step is a PUT or a DEL of `key`.
    pub open spec fn about(self, key: u64) -> bool {
        match self {
            Mutation::Put { key: k, .. } => k == key,
            Mutation::Del { key: k } => k == key,
            Mutation::Round => false,
        }
    }

    /// The mapping that remains after the step. A round of compaction
    /// leaves the mapping as it is.
    pub open spec fn apply(self, store: Map<u64, V>) -> Map<u64, V> {
        match self {
            Mutation::Put { key, value } => spec_put(store, key, value),
            Mutation::Del { key } => spec_del(store, key),
            Mutation::Round => store,
        }
    }

    /// What GET finds under the key of a PUT or a DEL right after it.
    pub open spec fn leaves(self) -> Option<V> {
        match self {
            Mutation::Put { value, .. } => Some(value),
            _ => None,
        }
    }
}

/// The mapping that remains after a sequence of steps, in their order.
pub open spec fn apply_all<V>(store: Map<u64, V>, steps: Seq<Mutation<V>>) -> Map<u64, V>
    decreases steps.len(),
{
    if steps.len() == 0 {
        store
    } else {
        steps.last().apply(apply_all(store, steps.drop_last()))
    }
}

/// The last step of a sequence that is a PUT or a DEL of `key`, if any.
pub open spec fn last_about<V>(steps: Seq<Mutation<V>>, key: u64) -> Option<Mutation<V>>
    decreases steps.len(),
{
    if steps.len() == 0 {
        None
    } else if steps.last().about(key) {
        Some(steps.last())
    } else {
        last_about(steps.drop_last(), key)
    }
}

/// After any sequence of PUTs, DELs and rounds of compaction, GET of a key
/// finds what the last PUT or DEL of that key left, and what it found
/// before if there was none: changes of other keys and rounds of
/// compaction, wherever they fall, make no difference.
pub proof fn lemma_last_change_wins<V>(store: Map<u64, V>, steps: Seq<Mutation<V>>, key: u64)
    ensures
        spec_get(apply_all(store, steps), key) == (match last_about(steps, key) {
            Some(step) => step.leaves(),
            None => spec_get(store, key),
        }),
    decreases steps.len(),
{
    if steps.len() > 0 {
        lemma_last_change_wins(store, steps.drop_last(), key);
    }
}

/// Rounds of compaction alone leave the mapping as it is, however many.
pub proof fn lemma_rounds_keep<V>(store: Map<u64, V>, steps: Seq<Mutation<V>>)
    requires
        forall|i: int| 0 <= i < steps.len() ==> #[trigger] steps[i] is Round,
    ensures
        apply_all(store, steps) == store,
    decreases steps.len(),
{
    if steps.len() > 0 {
        assert(steps.last() == steps[steps.len() - 1]);
        assert forall|i: int| 0 <= i < steps.drop_last().len() implies #[trigger] steps.drop_last()[i]
            is Round by {
            assert(steps.drop_last()[i] == steps[i]);
        }
        lemma_rounds_keep(store, steps.drop_last());
    }
}

/// The steps of PUTs of `values` under `key`, one after the other.
pub open spec fn puts_of<V>(key: u64, values: Seq<V>) -> Seq<Mutation<V>> {
    Seq::new(values.len(), |i: int| Mutation::Put { key, value: values[i] })
}

/// Of several PUTs in a row under a key that had nothing, the first finds
/// nothing there and each later one finds the value of the one before
/// it; GET then finds the value of the last; and the mapping has grown by
/// that one key.
pub proof fn lemma_puts_in_a_row<V>(store: Map<u64, V>, key: u64, values: Seq<V>)
    requires
        !store.contains_key(key),
        store.dom().finite(),
        values.len() >= 1,
    ensures
        forall|i: int|
            0 <= i < values.len() ==> spec_get(
                #[trigger] apply_all(store, puts_of(key, values).take(i)),
                key,
            ) == (if i == 0 {
                None
            } else {
                Some(values[i - 1])
            }),
        apply_all(store, puts_of(key, values)) == spec_put(store, key, values.last()),
        spec_get(apply_all(store, puts_of(key, values)), key) == Some(values.last()),
        apply_all(store, puts_of(key, values)).dom().len() == store.dom().len() + 1,
{
    assert forall|i: int| 0 <= i < values.len() implies spec_get(
        #[trigger] apply_all(store, puts_of(key, values).take(i)),
        key,
    ) == (if i == 0 {
        None
    } else {
        Some(values[i - 1])
    }) by {
        lemma_puts_prefix(store, key, values, i);
    }
    lemma_puts_prefix(store, key, values, values.len() as int);
    assert(puts_of(key, values).take(values.len() as int) =~= puts_of(key, values));
}

/// What remains after the first `n` of the PUTs of `values` under `key`.
proof fn lemma_puts_prefix<V>(store: Map<u64, V>, key: u64, values: Seq<V>, n: int)
    requires
        0 <= n <= values.len(),
    ensures
        apply_all(store, puts_of(key, values).take(n)) == (if n == 0 {
            store
        } else {
            spec_put(store, key, values[n - 1])
        }),
    decreases n,
{
    let steps = puts_of(key, values).take(n);
    if n > 0 {
        lemma_puts_prefix(store, key, values, n - 1);
        assert(steps.drop_last() =~= puts_of(key, values).take(n - 1));
        assert(steps.last() == Mutation::Put { key, value: values[n - 1] });
        if n > 1 {
            assert(store.insert(key, values[n - 2]).insert(key, values[n - 1]) =~= store.insert(
                key,
                values[n - 1],
            ));
        }
    }
}

} // verus!
