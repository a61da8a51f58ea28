//! The rules of the shared vote counters.
//!
//! The counters live in a store outside this process, one count per food
//! name. Two operations change them, each as one indivisible batch:
//! initialising, which sets missing counts to zero and touches no other, and
//! applying steps, which moves counts up and down but never below zero. This
//! module states both as functions on a mapping from names to counts and
//! holds a store in memory that follows them.

use vstd::prelude::*;

verus! {

/// The count that `m` holds for `key`; a name without a count stands at 0.
pub open spec fn count_of(m: Map<Seq<char>, int>, key: Seq<char>) -> int {
    if m.contains_key(key) {
        m[key]
    } else {
        0
    }
}

/// The counts after one step of `direction` on `key`: the step is taken
/// where the count stays at or above zero, and left out otherwise.
pub open spec fn stepped(m: Map<Seq<char>, int>, key: Seq<char>, direction: int) -> Map<Seq<char>, int> {
    if count_of(m, key) + direction >= 0 {
        m.insert(key, count_of(m, key) + direction)
    } else {
        m
    }
}

/// The counts after the steps of `deltas`, first to last.
pub open spec fn applied(m: Map<Seq<char>, int>, deltas: Seq<(Seq<char>, int)>) -> Map<Seq<char>, int>
    decreases deltas.len(),
{
    if deltas.len() == 0 {
        m
    } else {
        stepped(applied(m, deltas.drop_last()), deltas.last().0, deltas.last().1)
    }
}

/// Whether some step up of `deltas` meets a count that stands at `limit`
/// already, so that the store cannot hold what the step would give. Such a
/// batch is turned down as a whole.
pub open spec fn overflows(m: Map<Seq<char>, int>, deltas: Seq<(Seq<char>, int)>, limit: int) -> bool
    decreases deltas.len(),
{
    if deltas.len() == 0 {
        false
    } else {
        overflows(m, deltas.drop_last(), limit) || (deltas.last().1 == 1 && count_of(
            applied(m, deltas.drop_last()),
            deltas.last().0,
        ) >= limit)
    }
}

/// The counts after `key` was initialised: a missing count is set to zero,
/// a count that is there stays.
pub open spec fn with_key(m: Map<Seq<char>, int>, key: Seq<char>) -> Map<Seq<char>, int> {
    if m.contains_key(key) {
        m
    } else {
        m.insert(key, 0)
    }
}

/// The counts after every name of `keys` was initialised.
pub open spec fn initialized(m: Map<Seq<char>, int>, keys: Seq<Seq<char>>) -> Map<Seq<char>, int>
    decreases keys.len(),
{
    if keys.len() == 0 {
        m
    } else {
        with_key(initialized(m, keys.drop_last()), keys.last())
    }
}

/// Whether no count of `m` is below zero.
pub open spec fn none_negative(m: Map<Seq<char>, int>) -> bool {
    forall|key: Seq<char>| #[trigger] m.contains_key(key) ==> m[key] >= 0
}

/// Whether every step of `deltas` is one up or one down.
pub open spec fn unit_steps(deltas: Seq<(Seq<char>, int)>) -> bool {
    forall|i: int| 0 <= i < deltas.len() ==> (#[trigger] deltas[i]).1 == 1 || deltas[i].1 == -1
}

/// The floor: whatever steps a batch holds, also more steps down than a
/// count has, no count is below zero after it.
pub proof fn lemma_applied_floor(m: Map<Seq<char>, int>, deltas: Seq<(Seq<char>, int)>)
    requires
        none_negative(m),
    ensures
        none_negative(applied(m, deltas)),
    decreases deltas.len(),
{
    if deltas.len() > 0 {
        lemma_applied_floor(m, deltas.drop_last());
    }
}

/// Applying one batch and then another is applying the two in a row, so
/// what holds of one batch holds of any sequence of batches.
pub proof fn lemma_applied_in_a_row(m: Map<Seq<char>, int>, first: Seq<(Seq<char>, int)>, second: Seq<(Seq<char>, int)>)
    ensures
        applied(applied(m, first), second) == applied(m, first + second),
    decreases second.len(),
{
    if second.len() == 0 {
        assert(first + second =~= first);
    } else {
        lemma_applied_in_a_row(m, first, second.drop_last());
        assert((first + second).drop_last() =~= first + second.drop_last());
        assert((first + second).last() == second.last());
    }
}

/// A batch moves the count of a name by at most its number of steps, and
/// leaves alone every name that it does not mention.
pub proof fn lemma_applied_bounds(m: Map<Seq<char>, int>, deltas: Seq<(Seq<char>, int)>, key: Seq<char>)
    requires
        unit_steps(deltas),
    ensures
        count_of(m, key) - deltas.len() <= count_of(applied(m, deltas), key) <= count_of(m, key)
            + deltas.len(),
        (forall|i: int| 0 <= i < deltas.len() ==> (#[trigger] deltas[i]).0 != key) ==> count_of(
            applied(m, deltas),
            key,
        ) == count_of(m, key),
    decreases deltas.len(),
{
    if deltas.len() > 0 {
        let head = deltas.drop_last();
        assert(unit_steps(head)) by {
            assert forall|i: int| 0 <= i < head.len() implies (#[trigger] head[i]).1 == 1
                || head[i].1 == -1 by {
                assert(head[i] == deltas[i]);
            }
        }
        lemma_applied_bounds(m, head, key);
        assert(deltas.last() == deltas[deltas.len() - 1]);
        if forall|i: int| 0 <= i < deltas.len() ==> (#[trigger] deltas[i]).0 != key {
            assert forall|i: int| 0 <= i < head.len() implies (#[trigger] head[i]).0 != key by {
                assert(head[i] == deltas[i]);
            }
        }
    }
}

/// Initialising clobbers nothing: a count that is there is there
/// afterwards, unchanged, whatever names are initialised.
pub proof fn lemma_initialized_keeps(m: Map<Seq<char>, int>, keys: Seq<Seq<char>>, key: Seq<char>)
    requires
        m.contains_key(key),
    ensures
        initialized(m, keys).contains_key(key),
        initialized(m, keys)[key] == m[key],
    decreases keys.len(),
{
    if keys.len() > 0 {
        lemma_initialized_keeps(m, keys.drop_last(), key);
    }
}

/// Initialising gives every name a count: each name of `keys` has one
/// afterwards, zero where it had none before, and no other name gets one.
pub proof fn lemma_initialized_covers(m: Map<Seq<char>, int>, keys: Seq<Seq<char>>, key: Seq<char>)
    ensures
        initialized(m, keys).contains_key(key) <==> m.contains_key(key) || keys.contains(key),
        initialized(m, keys).contains_key(key) && !m.contains_key(key) ==> initialized(m, keys)[key]
            == 0,
        count_of(initialized(m, keys), key) == count_of(m, key),
    decreases keys.len(),
{
    if keys.len() > 0 {
        let head = keys.drop_last();
        lemma_initialized_covers(m, head, key);
        if keys.contains(key) {
            let i = choose|i: int| 0 <= i < keys.len() && keys[i] == key;
            if i < head.len() {
                assert(head[i] == key);
            }
        }
        if head.contains(key) {
            let i = choose|i: int| 0 <= i < head.len() && head[i] == key;
            assert(keys[i] == key);
        }
        assert(keys[keys.len() - 1] == keys.last());
    }
}

/// Initialising twice is initialising once.
pub proof fn lemma_initialized_idempotent(m: Map<Seq<char>, int>, keys: Seq<Seq<char>>)
    ensures
        initialized(initialized(m, keys), keys) == initialized(m, keys),
{
    let once = initialized(m, keys);
    let twice = initialized(once, keys);
    assert forall|key: Seq<char>| once.contains_key(key) <==> twice.contains_key(key) by {
        lemma_initialized_covers(m, keys, key);
        lemma_initialized_covers(once, keys, key);
    }
    assert forall|key: Seq<char>| once.contains_key(key) implies once[key] == twice[key] by {
        lemma_initialized_keeps(once, keys, key);
    }
    assert(once =~= twice);
}

/// A batch that overflows after its first `k` steps overflows as a whole.
pub proof fn lemma_overflow_stays(m: Map<Seq<char>, int>, deltas: Seq<(Seq<char>, int)>, limit: int, k: int)
    requires
        0 <= k <= deltas.len(),
        overflows(m, deltas.take(k), limit),
    ensures
        overflows(m, deltas, limit),
    decreases deltas.len() - k,
{
    if k < deltas.len() {
        assert(deltas.take(k + 1).drop_last() =~= deltas.take(k));
        lemma_overflow_stays(m, deltas, limit, k + 1);
    } else {
        assert(deltas.take(k) =~= deltas);
    }
}

} // verus!
