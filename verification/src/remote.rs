//! The registry as the serving side holds it: the registry itself and, for
//! each kind of entry, a table from identifier to name. Position `i` of a
//! table holds the name with identifier `i`, or the empty string where no
//! entry has that identifier.

use vstd::prelude::*;
use crate::error::LoadError;
use crate::registry::{entries_wf, Bank, RegistryEntry};
use crate::snapshot::{bank_data, blank_bank, data_wf, load, parse_bank};

verus! {

/// Whether entry `k` of `entries` has the identifier `id`.
pub open spec fn holds_id(entries: Seq<RegistryEntry>, id: int, k: int) -> bool {
    0 <= k < entries.len() && entries[k].id == id
}

/// The name that has the identifier `id`, or the empty name where no entry
/// has it.
pub open spec fn name_of_id(entries: Seq<RegistryEntry>, id: int) -> Seq<char> {
    if exists|k: int| holds_id(entries, id, k) {
        entries[choose|k: int| holds_id(entries, id, k)].name@
    } else {
        Seq::empty()
    }
}

/// The table from identifier to name for a list of entries under the
/// counter `next_id`.
pub open spec fn lookup_of(entries: Seq<RegistryEntry>, next_id: nat) -> Seq<Seq<char>> {
    Seq::new(next_id, |id: int| name_of_id(entries, id))
}

/// In the table of a valid list, every entry's name stands at the entry's
/// identifier.
pub proof fn lemma_lookup_holds_names(entries: Seq<RegistryEntry>, next_id: nat, i: int)
    requires
        entries_wf(entries, next_id),
        0 <= i < entries.len(),
    ensures
        entries[i].id < lookup_of(entries, next_id).len(),
        lookup_of(entries, next_id)[entries[i].id as int] == entries[i].name@,
        lookup_of(entries, next_id)[entries[i].id as int].len() > 0,
{
    let id = entries[i].id as int;
    assert(crate::registry::entry_wf(entries[i], next_id));
    assert(holds_id(entries, id, i));
    let k = choose|k: int| holds_id(entries, id, k);
    if k != i {
        assert(entries[k].id != entries[i].id);
    }
}

/// Builds the table from identifier to name.
pub fn id_to_name(entries: &Vec<RegistryEntry>, next_id: u32) -> (table: Vec<String>)
    requires
        entries_wf(entries@, next_id as nat),
    ensures
        table.deep_view() == lookup_of(entries@, next_id as nat),
{
    let mut table: Vec<String> = Vec::new();
    let mut i: u32 = 0;
    while i < next_id
        invariant
            i <= next_id,
            table.len() == i,
            forall|p: int| 0 <= p < i ==> (#[trigger] table@[p])@.len() == 0,
        decreases next_id - i,
    {
        table.push(String::new());
        i += 1;
    }
    let mut k: usize = 0;
    while k < entries.len()
        invariant
            k <= entries.len(),
            entries_wf(entries@, next_id as nat),
            table.len() == next_id,
            forall|j: int| 0 <= j < k ==> (#[trigger] table@[entries@[j].id as int])@ == entries@[j].name@,
            forall|p: int|
                0 <= p < next_id && (forall|j: int| 0 <= j < k ==> (#[trigger] entries@[j]).id != p)
                    ==> (#[trigger] table@[p])@.len() == 0,
        decreases entries.len() - k,
    {
        let id = entries[k].id as usize;
        let ghost before = table@;
        table.set(id, entries[k].name.clone());
        proof {
            assert forall|j: int| 0 <= j < k + 1 implies (#[trigger] table@[entries@[j].id as int])@
                == entries@[j].name@ by {
                if j < k {
                    assert(entries@[j].id != entries@[k as int].id);
                    assert(table@[entries@[j].id as int] == before[entries@[j].id as int]);
                }
            }
        }
        k += 1;
    }
    proof {
        let want = lookup_of(entries@, next_id as nat);
        assert forall|p: int| 0 <= p < next_id implies table.deep_view()[p] == want[p] by {
            assert(table.deep_view()[p] == table@[p]@);
            if exists|c: int| holds_id(entries@, p, c) {
                let c = choose|c: int| holds_id(entries@, p, c);
                assert(table@[entries@[c].id as int]@ == entries@[c].name@);
            } else {
                assert forall|j: int| 0 <= j < entries@.len() implies (#[trigger] entries@[j]).id
                    != p by {
                    if entries@[j].id == p {
                        assert(holds_id(entries@, p, j));
                    }
                }
            }
        }
        assert(table.deep_view() =~= want);
    }
    table
}

/// The registry with its two tables.
#[derive(Debug, Clone)]
pub struct RemoteBank {
    /// The registry.
    pub bank: Bank,
    /// The name of each food by identifier.
    pub food_id_to_name: Vec<String>,
    /// The name of each location by identifier.
    pub location_id_to_name: Vec<String>,
}

impl RemoteBank {
    /// Whether the registry is valid and both tables are those of the
    /// registry.
    pub open spec fn wf(&self) -> bool {
        &&& self.bank.wf()
        &&& self.food_id_to_name.deep_view() == lookup_of(
            self.bank.foods@,
            self.bank.next_food_id as nat,
        )
        &&& self.location_id_to_name.deep_view() == lookup_of(
            self.bank.locations@,
            self.bank.next_location_id as nat,
        )
    }

    /// Derives both tables from a valid registry.
    pub fn new(bank: Bank) -> (loaded: RemoteBank)
        requires
            bank.wf(),
        ensures
            loaded.wf(),
            loaded.bank == bank,
    {
        let food_id_to_name = id_to_name(&bank.foods, bank.next_food_id);
        let location_id_to_name = id_to_name(&bank.locations, bank.next_location_id);
        RemoteBank { bank, food_id_to_name, location_id_to_name }
    }

    /// Takes over a registry that came from outside: tests it, and derives
    /// both tables where it is valid. A registry that is not valid is a
    /// corrupt snapshot.
    pub fn from_bank(bank: Bank) -> (res: Result<RemoteBank, LoadError>)
        ensures
            bank.wf() ==> res is Ok && res->Ok_0.wf() && res->Ok_0.bank == bank,
            !bank.wf() ==> res == Err::<RemoteBank, LoadError>(LoadError::CorruptSnapshot),
    {
        if bank.is_valid() {
            Ok(RemoteBank::new(bank))
        } else {
            Err(LoadError::CorruptSnapshot)
        }
    }

    /// Reloads: replaces the registry and both tables as a whole by what
    /// was fetched, or keeps all three as they are where the fetch failed
    /// or brought a corrupt snapshot. The result never mixes the two.
    pub fn reload(self, fetched: Result<Bank, LoadError>) -> (res: (RemoteBank, Option<LoadError>))
        requires
            self.wf(),
        ensures
            res.0.wf(),
            match fetched {
                Ok(bank) => if bank.wf() {
                    res.0.bank == bank && res.1 is None
                } else {
                    res.0 == self && res.1 == Some(LoadError::CorruptSnapshot)
                },
                Err(e) => res.0 == self && res.1 == Some(e),
            },
    {
        match fetched {
            Ok(bank) => match RemoteBank::from_bank(bank) {
                Ok(loaded) => (loaded, None),
                Err(e) => (self, Some(e)),
            },
            Err(e) => (self, Some(e)),
        }
    }
}

/// Loads the registry from a snapshot that was fetched and derives both
/// tables. Bytes that are no snapshot of a valid registry are a corrupt
/// snapshot.
pub fn get_remote_bank(snapshot: &[u8]) -> (res: Result<RemoteBank, LoadError>)
    ensures
        match parse_bank(snapshot@, blank_bank()) {
            Some(data) => if data_wf(data) {
                res is Ok && res->Ok_0.wf() && bank_data(res->Ok_0.bank) == data
            } else {
                res == Err::<RemoteBank, LoadError>(LoadError::CorruptSnapshot)
            },
            None => res == Err::<RemoteBank, LoadError>(LoadError::CorruptSnapshot),
        },
{
    match load(snapshot) {
        Ok(bank) => Ok(RemoteBank::new(bank)),
        Err(e) => Err(e),
    }
}

} // verus!
