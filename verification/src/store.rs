//! A counter store in memory that follows the rules of the shared vote
//! counters: it stands for the outside store wherever the rules are to be
//! tried without one.

use vstd::prelude::*;
use crate::counters::{
    applied, count_of, initialized, lemma_overflow_stays, none_negative, overflows,
};
use crate::votes::Vote;

verus! {

/// Why the store turned a batch down.
#[derive(Debug, Clone, Copy, PartialEq, Eq, Structural)]
pub enum StoreError {
    /// A step up would take a count past the largest count that the store
    /// can hold.
    Overflow,
}

/// A list of names with their counts as a mapping; of two entries with one
/// name the later counts.
pub open spec fn counts_view(counts: Seq<(String, i64)>) -> Map<Seq<char>, int>
    decreases counts.len(),
{
    if counts.len() == 0 {
        Map::empty()
    } else {
        counts_view(counts.drop_last()).insert(counts.last().0@, counts.last().1 as int)
    }
}

/// Whether no name occurs twice in `counts`.
pub open spec fn keys_unique(counts: Seq<(String, i64)>) -> bool {
    forall|i: int, j: int|
        0 <= i < counts.len() && 0 <= j < counts.len() && i != j ==> (#[trigger] counts[i]).0@ != (
        #[trigger] counts[j]).0@
}

/// A list of keyed steps as pairs of a name and `+1` or `-1`.
pub open spec fn steps_view(deltas: Seq<(String, Vote)>) -> Seq<(Seq<char>, int)> {
    Seq::new(deltas.len(), |i: int| (deltas[i].0@, deltas[i].1.spec_sign()))
}

/// A list of strings as a list of character sequences.
pub open spec fn keys_view(keys: Seq<String>) -> Seq<Seq<char>> {
    Seq::new(keys.len(), |i: int| keys[i]@)
}

/// The names of the mapping are the names of the list.
pub proof fn lemma_counts_domain(counts: Seq<(String, i64)>, key: Seq<char>)
    ensures
        counts_view(counts).contains_key(key) <==> exists|i: int|
            0 <= i < counts.len() && (#[trigger] counts[i]).0@ == key,
    decreases counts.len(),
{
    if counts.len() > 0 {
        let head = counts.drop_last();
        lemma_counts_domain(head, key);
        if counts_view(counts).contains_key(key) {
            if counts.last().0@ == key {
                assert(counts[counts.len() - 1].0@ == key);
            } else {
                let i = choose|i: int| 0 <= i < head.len() && (#[trigger] head[i]).0@ == key;
                assert(counts[i].0@ == key);
            }
        }
        if exists|i: int| 0 <= i < counts.len() && (#[trigger] counts[i]).0@ == key {
            let i = choose|i: int| 0 <= i < counts.len() && (#[trigger] counts[i]).0@ == key;
            if i < head.len() {
                assert(head[i].0@ == key);
            }
        }
    }
}

/// Where no name occurs twice, the mapping holds for each entry its count.
pub proof fn lemma_counts_at(counts: Seq<(String, i64)>, i: int)
    requires
        keys_unique(counts),
        0 <= i < counts.len(),
    ensures
        counts_view(counts).contains_key(counts[i].0@),
        counts_view(counts)[counts[i].0@] == counts[i].1,
    decreases counts.len(),
{
    let head = counts.drop_last();
    if i < counts.len() - 1 {
        assert(keys_unique(head)) by {
            assert forall|a: int, b: int|
                0 <= a < head.len() && 0 <= b < head.len() && a != b implies (#[trigger] head[a]).0@
                != (#[trigger] head[b]).0@ by {
                assert(head[a] == counts[a] && head[b] == counts[b]);
            }
        }
        lemma_counts_at(head, i);
        assert(head[i] == counts[i]);
        assert(counts[i].0@ != counts[counts.len() - 1].0@);
    }
}

/// Where no name occurs twice, replacing the count of entry `i` renews that
/// name in the mapping and leaves every other name as it was.
pub proof fn lemma_counts_update(counts: Seq<(String, i64)>, i: int, e: (String, i64))
    requires
        keys_unique(counts),
        0 <= i < counts.len(),
        e.0@ == counts[i].0@,
    ensures
        keys_unique(counts.update(i, e)),
        counts_view(counts.update(i, e)) == counts_view(counts).insert(e.0@, e.1 as int),
    decreases counts.len(),
{
    let after = counts.update(i, e);
    assert(keys_unique(after)) by {
        assert forall|a: int, b: int|
            0 <= a < after.len() && 0 <= b < after.len() && a != b implies (#[trigger] after[a]).0@
            != (#[trigger] after[b]).0@ by {
            assert(after[a].0@ == counts[a].0@ && after[b].0@ == counts[b].0@);
        }
    }
    let head = counts.drop_last();
    if i == counts.len() - 1 {
        assert(after.drop_last() =~= head);
        assert(counts_view(after) =~= counts_view(counts).insert(e.0@, e.1 as int));
    } else {
        assert(keys_unique(head)) by {
            assert forall|a: int, b: int|
                0 <= a < head.len() && 0 <= b < head.len() && a != b implies (#[trigger] head[a]).0@
                != (#[trigger] head[b]).0@ by {
                assert(head[a] == counts[a] && head[b] == counts[b]);
            }
        }
        lemma_counts_update(head, i, e);
        assert(after.drop_last() =~= head.update(i, e));
        assert(after.last() == counts.last());
        assert(counts[i].0@ != counts[counts.len() - 1].0@);
        assert(counts_view(after) =~= counts_view(counts).insert(e.0@, e.1 as int));
    }
}

/// The counter store in memory.
#[derive(Debug, Clone)]
pub struct CounterStore {
    /// Each name with its count, no name twice.
    pub counts: Vec<(String, i64)>,
}

impl View for CounterStore {
    type V = Map<Seq<char>, int>;

    open spec fn view(&self) -> Map<Seq<char>, int> {
        counts_view(self.counts@)
    }
}

/// The position of the entry with the name `key`, if there is one.
pub fn position(counts: &Vec<(String, i64)>, key: &String) -> (found: Option<usize>)
    ensures
        match found {
            Some(i) => i < counts.len() && counts@[i as int].0@ == key@,
            None => !counts_view(counts@).contains_key(key@),
        },
{
    let mut i: usize = 0;
    while i < counts.len()
        invariant
            i <= counts.len(),
            forall|j: int| 0 <= j < i ==> (#[trigger] counts@[j]).0@ != key@,
        decreases counts.len() - i,
    {
        if counts[i].0 == *key {
            return Some(i);
        }
        i += 1;
    }
    proof {
        lemma_counts_domain(counts@, key@);
    }
    None
}

/// Two lists with the same names and counts, entry by entry, are the same
/// mapping.
pub proof fn lemma_counts_same(a: Seq<(String, i64)>, b: Seq<(String, i64)>)
    requires
        a.len() == b.len(),
        forall|i: int| 0 <= i < a.len() ==> (#[trigger] a[i]).0@ == b[i].0@ && a[i].1 == b[i].1,
    ensures
        counts_view(a) == counts_view(b),
        keys_unique(a) ==> keys_unique(b),
    decreases a.len(),
{
    if a.len() > 0 {
        let ha = a.drop_last();
        let hb = b.drop_last();
        assert forall|i: int| 0 <= i < ha.len() implies (#[trigger] ha[i]).0@ == hb[i].0@ && ha[i].1
            == hb[i].1 by {
            assert(ha[i] == a[i] && hb[i] == b[i]);
        }
        lemma_counts_same(ha, hb);
        assert(a[a.len() - 1].0@ == b[a.len() - 1].0@);
    }
    if keys_unique(a) {
        assert forall|i: int, j: int|
            0 <= i < b.len() && 0 <= j < b.len() && i != j implies (#[trigger] b[i]).0@ != (
        #[trigger] b[j]).0@ by {
            assert(a[i].0@ == b[i].0@ && a[j].0@ == b[j].0@);
        }
    }
}

fn copy_counts(counts: &Vec<(String, i64)>) -> (out: Vec<(String, i64)>)
    ensures
        out.len() == counts.len(),
        forall|i: int|
            0 <= i < counts.len() ==> (#[trigger] counts@[i]).0@ == out@[i].0@ && counts@[i].1
                == out@[i].1,
{
    let mut out: Vec<(String, i64)> = Vec::new();
    let mut i: usize = 0;
    while i < counts.len()
        invariant
            i <= counts.len(),
            out.len() == i,
            forall|k: int|
                0 <= k < i ==> (#[trigger] counts@[k]).0@ == out@[k].0@ && counts@[k].1 == out@[k].1,
        decreases counts.len() - i,
    {
        out.push((counts[i].0.clone(), counts[i].1));
        i += 1;
    }
    out
}

impl CounterStore {
    /// Whether the store is valid: no name twice, no count below zero.
    pub open spec fn wf(&self) -> bool {
        &&& keys_unique(self.counts@)
        &&& forall|i: int| 0 <= i < self.counts@.len() ==> (#[trigger] self.counts@[i]).1 >= 0
    }

    /// In a valid store no count is below zero.
    pub proof fn lemma_floor(&self)
        requires
            self.wf(),
        ensures
            none_negative(self@),
    {
        assert forall|key: Seq<char>| #[trigger] self@.contains_key(key) implies self@[key]
            >= 0 by {
            lemma_counts_domain(self.counts@, key);
            let i = choose|i: int| 0 <= i < self.counts@.len() && (#[trigger] self.counts@[i]).0@
                == key;
            lemma_counts_at(self.counts@, i);
        }
    }

    /// Whether the store is valid: the test to make of counts that came
    /// from outside before they are used.
    pub fn is_valid(&self) -> (ok: bool)
        ensures
            ok == self.wf(),
    {
        let mut i: usize = 0;
        while i < self.counts.len()
            invariant
                i <= self.counts.len(),
                forall|a: int| 0 <= a < i ==> (#[trigger] self.counts@[a]).1 >= 0,
                forall|a: int, b: int|
                    0 <= a < b < i ==> (#[trigger] self.counts@[a]).0@ != (
                    #[trigger] self.counts@[b]).0@,
            decreases self.counts.len() - i,
        {
            if self.counts[i].1 < 0 {
                return false;
            }
            let mut j: usize = 0;
            while j < i
                invariant
                    j <= i < self.counts.len(),
                    forall|a: int|
                        0 <= a < j ==> (#[trigger] self.counts@[a]).0@ != self.counts@[i as int].0@,
                decreases i - j,
            {
                if self.counts[j].0 == self.counts[i].0 {
                    return false;
                }
                j += 1;
            }
            i += 1;
        }
        assert forall|a: int, b: int|
            0 <= a < self.counts@.len() && 0 <= b < self.counts@.len() && a != b implies (
        #[trigger] self.counts@[a]).0@ != (#[trigger] self.counts@[b]).0@ by {
            if a < b {
                assert(self.counts@[a].0@ != self.counts@[b].0@);
            } else {
                assert(self.counts@[b].0@ != self.counts@[a].0@);
            }
        }
        true
    }

    /// The empty store: every name stands at 0.
    pub fn new() -> (store: CounterStore)
        ensures
            store.wf(),
            store@ == Map::<Seq<char>, int>::empty(),
    {
        CounterStore { counts: Vec::new() }
    }

    /// The count of `key`; 0 for a name without a count.
    pub fn get(&self, key: &String) -> (count: i64)
        requires
            self.wf(),
        ensures
            count == count_of(self@, key@),
            count >= 0,
    {
        match position(&self.counts, key) {
            Some(i) => {
                proof {
                    lemma_counts_at(self.counts@, i as int);
                }
                self.counts[i].1
            },
            None => 0,
        }
    }

    /// Gives every name of `keys` that has no count the count 0, leaves
    /// every count that is there as it is, and returns the count of each
    /// name of `keys`, in their order.
    pub fn initialize(&mut self, keys: &Vec<String>) -> (current: Vec<i64>)
        requires
            old(self).wf(),
        ensures
            final(self).wf(),
            final(self)@ == initialized(old(self)@, keys_view(keys@)),
            current.len() == keys.len(),
            forall|i: int|
                0 <= i < keys.len() ==> (#[trigger] current@[i]) == count_of(
                    final(self)@,
                    keys@[i]@,
                ),
            forall|i: int| 0 <= i < keys.len() ==> final(self)@.contains_key((#[trigger] keys@[i])@),
    {
        let ghost start = self@;
        let ghost names = keys_view(keys@);
        let mut i: usize = 0;
        assert(names.take(0) =~= Seq::empty());
        while i < keys.len()
            invariant
                i <= keys.len(),
                names == keys_view(keys@),
                self.wf(),
                self@ == initialized(start, names.take(i as int)),
            decreases keys.len() - i,
        {
            let ghost before = self.counts@;
            proof {
                lemma_counts_domain(before, keys@[i as int]@);
            }
            if position(&self.counts, &keys[i]).is_none() {
                self.counts.push((keys[i].clone(), 0));
                proof {
                    assert(self.counts@.drop_last() =~= before);
                    assert forall|a: int, b: int|
                        0 <= a < self.counts@.len() && 0 <= b < self.counts@.len() && a
                            != b implies (#[trigger] self.counts@[a]).0@ != (
                    #[trigger] self.counts@[b]).0@ by {
                        if a < before.len() {
                            assert(self.counts@[a] == before[a]);
                        }
                        if b < before.len() {
                            assert(self.counts@[b] == before[b]);
                        }
                    }
                    assert forall|a: int| 0 <= a < self.counts@.len() implies (
                    #[trigger] self.counts@[a]).1 >= 0 by {
                        if a < before.len() {
                            assert(self.counts@[a] == before[a]);
                        }
                    }
                }
            }
            proof {
                assert(names.take(i + 1).drop_last() =~= names.take(i as int));
                assert(names.take(i + 1).last() == keys@[i as int]@);
            }
            i += 1;
        }
        assert(names.take(keys.len() as int) =~= names);
        let mut current: Vec<i64> = Vec::new();
        let mut k: usize = 0;
        while k < keys.len()
            invariant
                k <= keys.len(),
                self.wf(),
                self@ == initialized(start, keys_view(keys@)),
                current.len() == k,
                forall|j: int|
                    0 <= j < k ==> (#[trigger] current@[j]) == count_of(self@, keys@[j]@),
                forall|j: int| 0 <= j < k ==> self@.contains_key((#[trigger] keys@[j])@),
            decreases keys.len() - k,
        {
            proof {
                crate::counters::lemma_initialized_covers(start, keys_view(keys@), keys@[k as int]@);
                assert(keys_view(keys@)[k as int] == keys@[k as int]@);
                assert(keys_view(keys@).contains(keys@[k as int]@));
            }
            current.push(self.get(&keys[k]));
            k += 1;
        }
        current
    }

    /// Takes the steps of `deltas`, first to last, as one batch. A step
    /// that would take a count below zero is left out; the rest of the
    /// batch is taken all the same. A batch with a step up from the largest
    /// count that the store can hold is turned down as a whole and changes
    /// nothing.
    pub fn apply_deltas(&mut self, deltas: &Vec<(String, Vote)>) -> (res: Result<(), StoreError>)
        requires
            old(self).wf(),
        ensures
            final(self).wf(),
            res is Err <==> overflows(old(self)@, steps_view(deltas@), i64::MAX as int),
            res is Ok ==> final(self)@ == applied(old(self)@, steps_view(deltas@)),
            res is Err ==> *final(self) == *old(self),
    {
        let ghost start = self@;
        let ghost steps = steps_view(deltas@);
        let mut work = copy_counts(&self.counts);
        proof {
            lemma_counts_same(self.counts@, work@);
            assert(steps.take(0) =~= Seq::empty());
            assert forall|a: int| 0 <= a < work@.len() implies (#[trigger] work@[a]).1 >= 0 by {
                assert(self.counts@[a].1 == work@[a].1);
            }
        }
        let mut i: usize = 0;
        while i < deltas.len()
            invariant
                i <= deltas.len(),
                steps == steps_view(deltas@),
                keys_unique(work@),
                forall|a: int| 0 <= a < work@.len() ==> (#[trigger] work@[a]).1 >= 0,
                counts_view(work@) == applied(start, steps.take(i as int)),
                !overflows(start, steps.take(i as int), i64::MAX as int),
                *self == *old(self),
                self.wf(),
                start == old(self)@,
            decreases deltas.len() - i,
        {
            let key = &deltas[i].0;
            let up = match deltas[i].1 {
                Vote::Increment => true,
                Vote::Decrement => false,
            };
            let ghost before = work@;
            proof {
                assert(steps.take(i + 1).drop_last() =~= steps.take(i as int));
                assert(steps.take(i + 1).last() == (key@, deltas@[i as int].1.spec_sign()));
            }
            match position(&work, key) {
                Some(p) => {
                    let count = work[p].1;
                    proof {
                        lemma_counts_at(before, p as int);
                    }
                    if up {
                        if count == i64::MAX {
                            proof {
                                lemma_overflow_stays(start, steps, i64::MAX as int, i + 1);
                            }
                            return Err(StoreError::Overflow);
                        }
                        let entry = (key.clone(), count + 1);
                        proof {
                            lemma_counts_update(before, p as int, entry);
                        }
                        work.set(p, entry);
                    } else if count > 0 {
                        let entry = (key.clone(), count - 1);
                        proof {
                            lemma_counts_update(before, p as int, entry);
                        }
                        work.set(p, entry);
                    }
                },
                None => {
                    if up {
                        work.push((key.clone(), 1));
                        proof {
                            assert(work@.drop_last() =~= before);
                            assert forall|a: int| 0 <= a < before.len() implies (
                            #[trigger] before[a]).0@ != key@ by {
                                lemma_counts_domain(before, key@);
                            }
                        }
                    }
                },
            }
            i += 1;
        }
        assert(steps.take(deltas.len() as int) =~= steps);
        self.counts = work;
        Ok(())
    }
}

} // verus!
