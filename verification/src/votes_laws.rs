//! What holds of the vote protocol.

use vstd::prelude::*;
use crate::votes::{bit, bit_deltas, byte_deltas, delta_at, deltas_of, Vote, VoteDelta};

verus! {

/// The bit of a bitmap that stands for food `p`: 0 or 1.
pub open spec fn bit_of(bitmap: Seq<u8>, p: int) -> u8 {
    bit(bitmap[p / 8], (p % 8) as u8)
}

/// The step that a flip of food `p`'s bit to `now` stands for.
pub open spec fn flip(p: int, now: u8) -> VoteDelta {
    VoteDelta {
        food_id: p as u32,
        direction: if now == 1 {
            Vote::Increment
        } else {
            Vote::Decrement
        },
    }
}

/// Whether two bitmaps agree on the bit of every food but `p`.
pub open spec fn agree_but_at(old: Seq<u8>, new: Seq<u8>, p: int) -> bool {
    forall|q: int| 0 <= q < old.len() * 8 && q != p ==> bit_of(old, q) == bit_of(new, q)
}

/// A bit is 0 or 1.
pub proof fn lemma_bit_is_binary(byte: u8, i: u8)
    by (bit_vector)
    ensures
        bit(byte, i) == 0 || bit(byte, i) == 1,
{
}

proof fn lemma_bits_single_flip(old: Seq<u8>, new: Seq<u8>, names: Seq<Seq<char>>, p: int, b: int, k: u8)
    requires
        old.len() == new.len(),
        0 <= b < old.len(),
        k <= 8,
        0 <= p < names.len(),
        names[p].len() > 0,
        bit_of(old, p) != bit_of(new, p),
        agree_but_at(old, new, p),
    ensures
        bit_deltas(old[b], new[b], b, names, k) == if b * 8 <= p < b * 8 + k {
            seq![flip(p, bit_of(new, p))]
        } else {
            Seq::empty()
        },
    decreases k,
{
    if k > 0 {
        let i = (k - 1) as u8;
        lemma_bits_single_flip(old, new, names, p, b, i);
        let q = b * 8 + i;
        assert(q / 8 == b && q % 8 == i as int);
        assert(bit_of(old, q) == bit(old[b], i));
        assert(bit_of(new, q) == bit(new[b], i));
        let d = delta_at(old[b], new[b], b, names, i);
        if q == p {
            lemma_bit_is_binary(old[b], i);
            lemma_bit_is_binary(new[b], i);
            assert(d == Some(flip(p, bit_of(new, p))));
            assert(Seq::<VoteDelta>::empty().push(d->0) == seq![d->0]);
        } else {
            assert(d is None);
        }
    }
}

proof fn lemma_bytes_single_flip(old: Seq<u8>, new: Seq<u8>, names: Seq<Seq<char>>, p: int, n: int)
    requires
        old.len() == new.len(),
        0 <= n <= old.len(),
        0 <= p < names.len(),
        names[p].len() > 0,
        bit_of(old, p) != bit_of(new, p),
        agree_but_at(old, new, p),
    ensures
        byte_deltas(old, new, names, n) == if p < n * 8 {
            seq![flip(p, bit_of(new, p))]
        } else {
            Seq::empty()
        },
    decreases n,
{
    if n > 0 {
        lemma_bytes_single_flip(old, new, names, p, n - 1);
        lemma_bits_single_flip(old, new, names, p, n - 1, 8);
        let head = byte_deltas(old, new, names, n - 1);
        let tail = bit_deltas(old[n - 1], new[n - 1], n - 1, names, 8);
        assert(head + Seq::<VoteDelta>::empty() == head);
        assert(Seq::<VoteDelta>::empty() + tail == tail);
    }
}

/// A submission whose two bitmaps differ in exactly one bit, that of a known
/// food `p` with a name, gives exactly one step: on food `p`, up where the
/// bit was set and down where it was cleared.
pub proof fn lemma_single_flip(old: Seq<u8>, new: Seq<u8>, names: Seq<Seq<char>>, p: int)
    requires
        old.len() == new.len(),
        old.len() * 8 <= names.len(),
        0 <= p < old.len() * 8,
        names[p].len() > 0,
        bit_of(old, p) != bit_of(new, p),
        agree_but_at(old, new, p),
    ensures
        deltas_of(old, new, names) == seq![flip(p, bit_of(new, p))],
        p <= u32::MAX ==> deltas_of(old, new, names)[0].food_id == p,
{
    lemma_bytes_single_flip(old, new, names, p, old.len() as int);
}

/// Whether the vote for food `p` changes between two bitmaps and the food
/// has a name in the table.
pub open spec fn flips_at(old: Seq<u8>, new: Seq<u8>, names: Seq<Seq<char>>, p: int) -> bool {
    &&& 0 <= p < old.len() * 8
    &&& p < names.len()
    &&& names[p].len() > 0
    &&& bit_of(old, p) != bit_of(new, p)
}

/// Whether `steps` holds exactly the changes of the foods below `limit`:
/// each step is the change of its food, the foods come in rising order, and
/// no food that changes is left out.
pub open spec fn holds_changes(steps: Seq<VoteDelta>, old: Seq<u8>, new: Seq<u8>, names: Seq<Seq<char>>, limit: int) -> bool {
    &&& forall|j: int|
        0 <= j < steps.len() ==> {
            &&& (#[trigger] steps[j]).food_id < limit
            &&& flips_at(old, new, names, steps[j].food_id as int)
            &&& steps[j] == flip(steps[j].food_id as int, bit_of(new, steps[j].food_id as int))
        }
    &&& forall|i: int, j: int|
        0 <= i < j < steps.len() ==> (#[trigger] steps[i]).food_id < (#[trigger] steps[j]).food_id
    &&& forall|p: int|
        0 <= p < limit && #[trigger] flips_at(old, new, names, p) ==> exists|j: int|
            0 <= j < steps.len() && (#[trigger] steps[j]).food_id == p
}

proof fn lemma_prefix_holds_changes(old: Seq<u8>, new: Seq<u8>, names: Seq<Seq<char>>, n: int, k: u8)
    requires
        old.len() == new.len(),
        old.len() * 8 <= u32::MAX,
        0 <= n <= old.len(),
        k <= 8,
        n == old.len() ==> k == 0,
    ensures
        holds_changes(
            byte_deltas(old, new, names, n) + bit_deltas(old[n], new[n], n, names, k),
            old,
            new,
            names,
            n * 8 + k,
        ),
    decreases n, k,
{
    let whole = byte_deltas(old, new, names, n) + bit_deltas(old[n], new[n], n, names, k);
    if k == 0 {
        if n == 0 {
            assert(whole =~= Seq::<VoteDelta>::empty());
        } else {
            lemma_prefix_holds_changes(old, new, names, n - 1, 8);
            assert(whole =~= byte_deltas(old, new, names, n - 1) + bit_deltas(
                old[n - 1],
                new[n - 1],
                n - 1,
                names,
                8,
            ));
        }
    } else {
        let i = (k - 1) as u8;
        lemma_prefix_holds_changes(old, new, names, n, i);
        let before = byte_deltas(old, new, names, n) + bit_deltas(old[n], new[n], n, names, i);
        let p = n * 8 + i;
        assert(p / 8 == n && p % 8 == i as int);
        assert(bit_of(old, p) == bit(old[n], i) && bit_of(new, p) == bit(new[n], i));
        lemma_bit_is_binary(old[n], i);
        lemma_bit_is_binary(new[n], i);
        match delta_at(old[n], new[n], n, names, i) {
            Some(d) => {
                assert(whole =~= before.push(d));
                assert(flips_at(old, new, names, p));
                assert(d == flip(p, bit_of(new, p)));
                assert forall|j: int| 0 <= j < whole.len() implies {
                    &&& (#[trigger] whole[j]).food_id < n * 8 + k
                    &&& flips_at(old, new, names, whole[j].food_id as int)
                    &&& whole[j] == flip(whole[j].food_id as int, bit_of(new, whole[j].food_id as int))
                } by {
                    if j < before.len() {
                        assert(whole[j] == before[j]);
                    }
                }
                assert forall|a: int, b: int| 0 <= a < b < whole.len() implies (
                #[trigger] whole[a]).food_id < (#[trigger] whole[b]).food_id by {
                    assert(whole[a] == before[a]);
                    if b < before.len() {
                        assert(whole[b] == before[b]);
                    }
                }
                assert forall|q: int|
                    0 <= q < n * 8 + k && #[trigger] flips_at(old, new, names, q) implies exists|
                    j: int,
                | 0 <= j < whole.len() && (#[trigger] whole[j]).food_id == q by {
                    if q < p {
                        let j = choose|j: int|
                            0 <= j < before.len() && (#[trigger] before[j]).food_id == q;
                        assert(whole[j].food_id == q);
                    } else {
                        assert(whole[before.len() as int].food_id == q);
                    }
                }
            },
            None => {
                assert(whole =~= before);
                assert(!flips_at(old, new, names, p));
            },
        }
    }
}

/// The steps of a submission are exactly its changes: one step for every
/// food with a name whose vote differs between the two bitmaps, up where
/// the vote was given and down where it was taken back, in the rising
/// order of the food identifiers, and no other step.
pub proof fn lemma_steps_are_the_changes(old: Seq<u8>, new: Seq<u8>, names: Seq<Seq<char>>)
    requires
        old.len() == new.len(),
        old.len() * 8 <= u32::MAX,
    ensures
        holds_changes(deltas_of(old, new, names), old, new, names, (old.len() * 8) as int),
{
    lemma_prefix_holds_changes(old, new, names, old.len() as int, 0);
    assert(deltas_of(old, new, names) =~= byte_deltas(old, new, names, old.len() as int)
        + bit_deltas(old[old.len() as int], new[old.len() as int], old.len() as int, names, 0));
}

} // verus!
