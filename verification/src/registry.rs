//! The registry: the append-only directory that gives every food and every
//! location a canonical name and a small integer identifier.
//!
//! Identifiers are handed out in the order in which names are first seen.
//! An identifier, once given, is never given again and never changes: the
//! vote bitmaps and the search index address foods by it.

use vstd::prelude::*;
use vstd::string::StringExecFns;
use crate::sanitize::{is_canonical, is_canonical_name};

verus! {

/// One registered name. For a location, `location` holds the placeholder.
#[derive(Debug, Clone, PartialEq, Eq)]
pub struct RegistryEntry {
    /// The identifier, fixed for ever once given.
    pub id: u32,
    /// The canonical name.
    pub name: String,
    /// Where the food is served today, or the placeholder.
    pub location: String,
}

/// The registry of foods and locations.
#[derive(Debug, Clone, PartialEq, Eq)]
pub struct Bank {
    /// The registered foods, in the order in which they were first seen.
    pub foods: Vec<RegistryEntry>,
    /// The registered locations, in the order in which they were first seen.
    pub locations: Vec<RegistryEntry>,
    /// The identifier that the next new food gets.
    pub next_food_id: u32,
    /// The identifier that the next new location gets.
    pub next_location_id: u32,
}

/// What is known of one registered name.
pub struct EntryView {
    /// The identifier.
    pub id: u32,
    /// The location, or the placeholder.
    pub location: Seq<char>,
}

/// A registry as a pair of mappings from canonical names, with the two
/// counters.
pub struct BankView {
    /// The foods by name.
    pub foods: Map<Seq<char>, EntryView>,
    /// The locations by name.
    pub locations: Map<Seq<char>, EntryView>,
    /// The identifier that the next new food gets.
    pub next_food_id: nat,
    /// The identifier that the next new location gets.
    pub next_location_id: nat,
}

/// The placeholder that stands where no location is known: `none`.
pub open spec fn no_location() -> Seq<char> {
    seq!['n', 'o', 'n', 'e']
}

/// The placeholder is a canonical name.
pub proof fn lemma_no_location_canonical()
    ensures
        is_canonical(no_location()),
        no_location().len() == 4,
{
}

/// Whether entry `i` of `entries` bears the name `name`.
pub open spec fn named_at(entries: Seq<RegistryEntry>, name: Seq<char>, i: int) -> bool {
    0 <= i < entries.len() && entries[i].name@ == name
}

/// The position of the first entry named `name`.
pub open spec fn index_of(entries: Seq<RegistryEntry>, name: Seq<char>) -> int {
    choose|i: int| named_at(entries, name, i)
}

/// A list of entries as a mapping from names.
pub open spec fn entries_view(entries: Seq<RegistryEntry>) -> Map<Seq<char>, EntryView> {
    Map::new(
        |name: Seq<char>| exists|i: int| named_at(entries, name, i),
        |name: Seq<char>|
            EntryView {
                id: entries[index_of(entries, name)].id,
                location: entries[index_of(entries, name)].location@,
            },
    )
}

/// Whether an entry is valid by itself under the counter `next_id`: its name
/// and its location are canonical and not empty, and its identifier lies
/// below the counter.
pub open spec fn entry_wf(e: RegistryEntry, next_id: nat) -> bool {
    &&& e.name@.len() > 0
    &&& is_canonical(e.name@)
    &&& e.location@.len() > 0
    &&& is_canonical(e.location@)
    &&& e.id < next_id
}

/// Whether a list of entries is a valid half of a registry: every entry is
/// valid by itself, and no name and no identifier occurs twice.
pub open spec fn entries_wf(entries: Seq<RegistryEntry>, next_id: nat) -> bool {
    &&& forall|i: int| 0 <= i < entries.len() ==> entry_wf(#[trigger] entries[i], next_id)
    &&& forall|i: int, j: int|
        0 <= i < entries.len() && 0 <= j < entries.len() && i != j ==> {
            &&& (#[trigger] entries[i]).name@ != (#[trigger] entries[j]).name@
            &&& entries[i].id != entries[j].id
        }
}

impl View for Bank {
    type V = BankView;

    open spec fn view(&self) -> BankView {
        BankView {
            foods: entries_view(self.foods@),
            locations: entries_view(self.locations@),
            next_food_id: self.next_food_id as nat,
            next_location_id: self.next_location_id as nat,
        }
    }
}

impl Bank {
    /// Whether the registry is valid.
    pub open spec fn wf(&self) -> bool {
        &&& entries_wf(self.foods@, self.next_food_id as nat)
        &&& entries_wf(self.locations@, self.next_location_id as nat)
    }

    /// The empty registry: no entry in either list, both counters at 0.
    pub fn new() -> (bank: Bank)
        ensures
            bank.wf(),
            bank.foods@ == Seq::<RegistryEntry>::empty(),
            bank.locations@ == Seq::<RegistryEntry>::empty(),
            bank@.foods == Map::<Seq<char>, EntryView>::empty(),
            bank@.locations == Map::<Seq<char>, EntryView>::empty(),
            bank@.next_food_id == 0,
            bank@.next_location_id == 0,
    {
        let bank = Bank {
            foods: Vec::new(),
            locations: Vec::new(),
            next_food_id: 0,
            next_location_id: 0,
        };
        assert(bank@.foods =~= Map::<Seq<char>, EntryView>::empty());
        assert(bank@.locations =~= Map::<Seq<char>, EntryView>::empty());
        bank
    }
}

/// The position of the entry named `name`, if there is one.
pub fn find_entry(entries: &Vec<RegistryEntry>, name: &String) -> (found: Option<usize>)
    ensures
        match found {
            Some(i) => named_at(entries@, name@, i as int) && forall|j: int|
                0 <= j < i ==> entries@[j].name@ != name@,
            None => !entries_view(entries@).contains_key(name@),
        },
        found is Some <==> entries_view(entries@).contains_key(name@),
{
    let mut i: usize = 0;
    while i < entries.len()
        invariant
            i <= entries.len(),
            forall|j: int| 0 <= j < i ==> entries@[j].name@ != name@,
        decreases entries.len() - i,
    {
        if entries[i].name == *name {
            assert(named_at(entries@, name@, i as int));
            return Some(i);
        }
        i += 1;
    }
    assert(!entries_view(entries@).contains_key(name@)) by {
        if exists|k: int| named_at(entries@, name@, k) {
            let k = choose|k: int| named_at(entries@, name@, k);
            assert(entries@[k].name@ == name@);
        }
    }
    None
}

/// The registry `v` after the canonical location name `name` was seen: a
/// new name gets the next identifier; a known or empty name changes nothing.
pub open spec fn with_location(v: BankView, name: Seq<char>) -> BankView {
    if name.len() == 0 || v.locations.contains_key(name) {
        v
    } else {
        BankView {
            locations: v.locations.insert(
                name,
                EntryView { id: v.next_location_id as u32, location: no_location() },
            ),
            next_location_id: v.next_location_id + 1,
            ..v
        }
    }
}

/// The registry `v` after the canonical food name `name` was seen at
/// `location`. A new name gets the next identifier, and the location only
/// where the sighting is of the current day. A known name keeps its
/// identifier; a sighting of the current day renews its location, any other
/// sighting changes nothing. An empty name changes nothing.
pub open spec fn with_food(v: BankView, name: Seq<char>, location: Seq<char>, is_current_day: bool) -> BankView {
    if name.len() == 0 {
        v
    } else if v.foods.contains_key(name) {
        if is_current_day {
            BankView { foods: v.foods.insert(name, EntryView { id: v.foods[name].id, location }), ..v }
        } else {
            v
        }
    } else {
        BankView {
            foods: v.foods.insert(
                name,
                EntryView {
                    id: v.next_food_id as u32,
                    location: if is_current_day {
                        location
                    } else {
                        no_location()
                    },
                },
            ),
            next_food_id: v.next_food_id + 1,
            ..v
        }
    }
}

/// In a list without repeated names, the entry found under a name is the
/// one that bears it.
pub proof fn lemma_index_of(entries: Seq<RegistryEntry>, next_id: nat, i: int)
    requires
        entries_wf(entries, next_id),
        0 <= i < entries.len(),
    ensures
        index_of(entries, entries[i].name@) == i,
        entries_view(entries).contains_key(entries[i].name@),
        entries_view(entries)[entries[i].name@] == (EntryView {
            id: entries[i].id,
            location: entries[i].location@,
        }),
{
    assert(named_at(entries, entries[i].name@, i));
}

/// Appending an entry with a new name adds that name to the mapping and
/// leaves every other name as it was.
pub proof fn lemma_view_push(entries: Seq<RegistryEntry>, next_id: nat, e: RegistryEntry)
    requires
        entries_wf(entries, next_id),
        !entries_view(entries).contains_key(e.name@),
    ensures
        entries_view(entries.push(e)) == entries_view(entries).insert(
            e.name@,
            EntryView { id: e.id, location: e.location@ },
        ),
{
    let after = entries.push(e);
    let want = entries_view(entries).insert(e.name@, EntryView { id: e.id, location: e.location@ });
    assert forall|name: Seq<char>| entries_view(after).contains_key(name) <==> want.contains_key(
        name,
    ) by {
        if entries_view(after).contains_key(name) {
            let k = choose|k: int| named_at(after, name, k);
            if k < entries.len() {
                assert(named_at(entries, name, k));
            }
        }
        if want.contains_key(name) {
            if name == e.name@ {
                assert(named_at(after, name, entries.len() as int));
            } else {
                let k = choose|k: int| named_at(entries, name, k);
                assert(named_at(after, name, k));
            }
        }
    }
    assert forall|name: Seq<char>| entries_view(after).contains_key(name) implies entries_view(
        after,
    )[name] == want[name] by {
        let k = index_of(after, name);
        assert(named_at(after, name, k));
        if k < entries.len() {
            assert(named_at(entries, name, k));
            lemma_index_of(entries, next_id, k);
        } else {
            assert(name == e.name@);
        }
    }
    assert(entries_view(after) =~= want);
}

/// Appending an entry with a new name and the next identifier keeps a list
/// valid under the counter raised by one.
pub proof fn lemma_push_wf(entries: Seq<RegistryEntry>, next_id: nat, e: RegistryEntry)
    requires
        entries_wf(entries, next_id),
        !entries_view(entries).contains_key(e.name@),
        entry_wf(e, next_id + 1),
        e.id == next_id,
    ensures
        entries_wf(entries.push(e), next_id + 1),
{
    let after = entries.push(e);
    assert forall|a: int| 0 <= a < entries.len() implies entries[a].name@ != e.name@ by {
        if entries[a].name@ == e.name@ {
            assert(named_at(entries, e.name@, a));
        }
    }
    assert forall|a: int, b: int|
        0 <= a < after.len() && 0 <= b < after.len() && a != b implies (#[trigger] after[a]).name@
        != (#[trigger] after[b]).name@ && after[a].id != after[b].id by {
        if a < entries.len() {
            assert(after[a] == entries[a]);
        }
        if b < entries.len() {
            assert(after[b] == entries[b]);
        }
    }
    assert forall|a: int| 0 <= a < after.len() implies entry_wf(#[trigger] after[a], next_id + 1) by {
        if a < entries.len() {
            assert(after[a] == entries[a]);
            assert(entry_wf(entries[a], next_id));
        }
    }
}

/// Whether two lists hold the same entries, one by one: the same
/// identifiers, names and locations.
pub open spec fn same_entries(a: Seq<RegistryEntry>, b: Seq<RegistryEntry>) -> bool {
    &&& a.len() == b.len()
    &&& forall|i: int|
        0 <= i < a.len() ==> {
            &&& (#[trigger] b[i]).name@ == a[i].name@
            &&& b[i].id == a[i].id
            &&& b[i].location@ == a[i].location@
        }
}

/// A list that holds the same entries as a valid list is valid, and is the
/// same mapping.
pub proof fn lemma_same_entries(a: Seq<RegistryEntry>, b: Seq<RegistryEntry>, next_id: nat)
    requires
        entries_wf(a, next_id),
        same_entries(a, b),
    ensures
        entries_wf(b, next_id),
        entries_view(b) == entries_view(a),
{
    assert forall|i: int| 0 <= i < b.len() implies entry_wf(#[trigger] b[i], next_id) by {
        assert(entry_wf(a[i], next_id));
    }
    assert forall|i: int, j: int| 0 <= i < b.len() && 0 <= j < b.len() && i != j implies (
    #[trigger] b[i]).name@ != (#[trigger] b[j]).name@ && b[i].id != b[j].id by {
        assert(a[i].name@ != a[j].name@ && a[i].id != a[j].id);
    }
    assert forall|name: Seq<char>| entries_view(b).contains_key(name) <==> entries_view(
        a,
    ).contains_key(name) by {
        if entries_view(b).contains_key(name) {
            let k = choose|k: int| named_at(b, name, k);
            assert(named_at(a, name, k));
        }
        if entries_view(a).contains_key(name) {
            let k = choose|k: int| named_at(a, name, k);
            assert(named_at(b, name, k));
        }
    }
    assert forall|name: Seq<char>| entries_view(b).contains_key(name) implies entries_view(
        b,
    )[name] == entries_view(a)[name] by {
        let k = choose|k: int| named_at(b, name, k);
        lemma_index_of(b, next_id, k);
        lemma_index_of(a, next_id, k);
    }
    assert(entries_view(b) =~= entries_view(a));
}

/// Replacing the location of entry `i` renews that name in the mapping and
/// leaves every other name as it was.
pub proof fn lemma_view_relocate(entries: Seq<RegistryEntry>, next_id: nat, i: int, e: RegistryEntry)
    requires
        entries_wf(entries, next_id),
        0 <= i < entries.len(),
        e.name@ == entries[i].name@,
        e.id == entries[i].id,
        e.location@.len() > 0,
        is_canonical(e.location@),
    ensures
        entries_wf(entries.update(i, e), next_id),
        entries_view(entries.update(i, e)) == entries_view(entries).insert(
            e.name@,
            EntryView { id: e.id, location: e.location@ },
        ),
{
    let after = entries.update(i, e);
    let want = entries_view(entries).insert(e.name@, EntryView { id: e.id, location: e.location@ });
    assert(entries_wf(after, next_id)) by {
        assert forall|a: int, b: int|
            0 <= a < after.len() && 0 <= b < after.len() && a != b implies (#[trigger] after[a]).name@
            != (#[trigger] after[b]).name@ && after[a].id != after[b].id by {
            assert(after[a].name@ == entries[a].name@ && after[a].id == entries[a].id);
            assert(after[b].name@ == entries[b].name@ && after[b].id == entries[b].id);
        }
        assert forall|a: int| 0 <= a < after.len() implies entry_wf(#[trigger] after[a], next_id) by {
            assert(entry_wf(entries[a], next_id));
            if a != i {
                assert(after[a] == entries[a]);
            }
        }
    }
    assert forall|name: Seq<char>| entries_view(after).contains_key(name) <==> want.contains_key(
        name,
    ) by {
        if entries_view(after).contains_key(name) {
            let k = choose|k: int| named_at(after, name, k);
            assert(named_at(entries, name, k));
        }
        if want.contains_key(name) {
            if name == e.name@ {
                assert(named_at(after, name, i));
            } else {
                let k = choose|k: int| named_at(entries, name, k);
                assert(named_at(after, name, k));
            }
        }
    }
    assert forall|name: Seq<char>| entries_view(after).contains_key(name) implies entries_view(
        after,
    )[name] == want[name] by {
        let k = index_of(after, name);
        assert(named_at(after, name, k));
        assert(named_at(entries, name, k));
        lemma_index_of(entries, next_id, k);
        lemma_index_of(after, next_id, k);
    }
    assert(entries_view(after) =~= want);
}

impl Bank {
    /// Records that the canonical location name `name` was seen. Returns
    /// whether the name was new, or `None`, with nothing changed, where the
    /// name is new and no identifier is left for it: an identifier is used
    /// up by a new name only.
    pub fn merge_location(&mut self, name: &String) -> (added: Option<bool>)
        requires
            old(self).wf(),
            is_canonical(name@),
        ensures
            final(self).wf(),
            added is None <==> with_location(old(self)@, name@).next_location_id > u32::MAX,
            added is None ==> *final(self) == *old(self),
            added is Some ==> final(self)@ == with_location(old(self)@, name@) && added->0 == (
            name@.len() > 0 && !old(self)@.locations.contains_key(name@)),
    {
        if name.as_str().is_empty() {
            return Some(false);
        }
        if find_entry(&self.locations, name).is_some() {
            return Some(false);
        }
        if self.next_location_id == u32::MAX {
            return None;
        }
        let entry = RegistryEntry {
            id: self.next_location_id,
            name: name.clone(),
            location: String::from_str("none"),
        };
        proof {
            reveal_strlit("none");
            assert(entry.location@ =~= no_location());
            lemma_no_location_canonical();
            lemma_view_push(self.locations@, self.next_location_id as nat, entry);
            lemma_push_wf(self.locations@, self.next_location_id as nat, entry);
        }
        self.locations.push(entry);
        self.next_location_id = self.next_location_id + 1;
        Some(true)
    }

    /// Records that the canonical food name `name` was seen at `location`.
    /// Returns whether the name was new, or `None`, with nothing changed,
    /// where the name is new and no identifier is left for it: an
    /// identifier is used up by a new name only.
    pub fn merge_food(&mut self, name: &String, location: &String, is_current_day: bool) -> (added:
        Option<bool>)
        requires
            old(self).wf(),
            is_canonical(name@),
            is_canonical(location@),
            location@.len() > 0,
        ensures
            final(self).wf(),
            added is None <==> with_food(
                old(self)@,
                name@,
                location@,
                is_current_day,
            ).next_food_id > u32::MAX,
            added is None ==> *final(self) == *old(self),
            added is Some ==> final(self)@ == with_food(
                old(self)@,
                name@,
                location@,
                is_current_day,
            ) && added->0 == (name@.len() > 0 && !old(self)@.foods.contains_key(name@)),
    {
        if name.as_str().is_empty() {
            return Some(false);
        }
        match find_entry(&self.foods, name) {
            Some(i) => {
                if is_current_day {
                    let entry = RegistryEntry {
                        id: self.foods[i].id,
                        name: name.clone(),
                        location: location.clone(),
                    };
                    proof {
                        lemma_index_of(self.foods@, self.next_food_id as nat, i as int);
                        lemma_view_relocate(self.foods@, self.next_food_id as nat, i as int, entry);
                    }
                    self.foods.set(i, entry);
                }
                Some(false)
            },
            None => {
                if self.next_food_id == u32::MAX {
                    return None;
                }
                let entry = RegistryEntry {
                    id: self.next_food_id,
                    name: name.clone(),
                    location: if is_current_day {
                        location.clone()
                    } else {
                        String::from_str("none")
                    },
                };
                proof {
                    reveal_strlit("none");
                    lemma_no_location_canonical();
                    if !is_current_day {
                        assert(entry.location@ =~= no_location());
                    }
                    lemma_view_push(self.foods@, self.next_food_id as nat, entry);
                    lemma_push_wf(self.foods@, self.next_food_id as nat, entry);
                }
                self.foods.push(entry);
                self.next_food_id = self.next_food_id + 1;
                Some(true)
            },
        }
    }
}

/// Whether entry `i` of `entries` is valid by itself and differs in name
/// and identifier from every entry before it.
pub open spec fn entry_ok(entries: Seq<RegistryEntry>, next_id: nat, i: int) -> bool {
    &&& entry_wf(entries[i], next_id)
    &&& forall|j: int|
        0 <= j < i ==> (#[trigger] entries[j]).name@ != entries[i].name@ && entries[j].id
            != entries[i].id
}

/// Whether a list of entries is a valid half of a registry under the
/// counter `next_id`.
pub fn entries_valid(entries: &Vec<RegistryEntry>, next_id: u32) -> (ok: bool)
    ensures
        ok == entries_wf(entries@, next_id as nat),
{
    let mut i: usize = 0;
    while i < entries.len()
        invariant
            i <= entries.len(),
            forall|k: int| 0 <= k < i ==> entry_ok(entries@, next_id as nat, k),
        decreases entries.len() - i,
    {
        let e = &entries[i];
        if e.name.as_str().is_empty() || !is_canonical_name(e.name.as_str())
            || e.location.as_str().is_empty() || !is_canonical_name(e.location.as_str()) || e.id
            >= next_id {
            return false;
        }
        let mut j: usize = 0;
        while j < i
            invariant
                j <= i < entries.len(),
                e == entries@[i as int],
                forall|k: int|
                    0 <= k < j ==> (#[trigger] entries@[k]).name@ != e.name@ && entries@[k].id
                        != e.id,
            decreases i - j,
        {
            if entries[j].name == e.name || entries[j].id == e.id {
                return false;
            }
            j += 1;
        }
        i += 1;
    }
    assert(entries_wf(entries@, next_id as nat)) by {
        assert forall|a: int, b: int|
            0 <= a < entries@.len() && 0 <= b < entries@.len() && a != b implies (
        #[trigger] entries@[a]).name@ != (#[trigger] entries@[b]).name@ && entries@[a].id
            != entries@[b].id by {
            if a < b {
                assert(entry_ok(entries@, next_id as nat, b));
            } else {
                assert(entry_ok(entries@, next_id as nat, a));
            }
        }
        assert forall|a: int| 0 <= a < entries@.len() implies entry_wf(
            #[trigger] entries@[a],
            next_id as nat,
        ) by {
            assert(entry_ok(entries@, next_id as nat, a));
        }
    }
    true
}

impl Bank {
    /// Whether the registry is valid: the test to make of a registry that
    /// came from outside before it is used.
    pub fn is_valid(&self) -> (ok: bool)
        ensures
            ok == self.wf(),
    {
        entries_valid(&self.foods, self.next_food_id) && entries_valid(
            &self.locations,
            self.next_location_id,
        )
    }
}

} // verus!
