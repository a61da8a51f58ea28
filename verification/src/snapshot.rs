//! The registry as a snapshot of bytes.
//!
//! A snapshot is a message of four fields: every food as one field with
//! number 1, every location as one field with number 2, and the two
//! counters under the numbers 3 and 4. An entry is a message in turn: its
//! identifier under number 1, its name under number 2 and its location
//! under number 3. A number or a text that is not there stands at its
//! default: 0, the empty name, and the placeholder for no location. Names
//! are UTF-8 text.

use vstd::prelude::*;
use vstd::slice::slice_subrange;
use vstd::string::StringExecFns;
use crate::error::LoadError;
use crate::registry::{entries_wf, entry_wf, no_location, Bank, RegistryEntry};
use crate::sanitize::is_canonical;
use crate::text::{lemma_utf8_round_trip, utf8_string, utf8_text};
use vstd::utf8::{encode_utf8, is_ascii_chars_encode_utf8};
use crate::wire::{
    bytes_field, decode_field, encode_bytes_field, encode_varint_field,
    lemma_bytes_field_read_back, lemma_next_field_bounds, lemma_varint_field_read_back,
    next_field, varint_field, RECURSION_LIMIT,
};

verus! {

/// One entry as a snapshot holds it.
pub struct ItemView {
    /// The identifier.
    pub id: u32,
    /// The name.
    pub name: Seq<char>,
    /// The location, or the placeholder.
    pub location: Seq<char>,
}

/// The 32-bit number that a field's 64-bit value stands for: its lowest 32
/// bits.
pub open spec fn low32(number: u64) -> u32 {
    (number % 0x1_0000_0000) as u32
}

/// The entry before any of its fields is read.
pub open spec fn blank_item() -> ItemView {
    ItemView { id: 0, name: Seq::empty(), location: no_location() }
}

/// The entry that `bytes` holds, read field by field on top of `item`: the
/// identifier must be laid out as a variable length integer, the name and
/// the location as bytes that are UTF-8 text; the last field of a number
/// counts, and a field or a group with another number is passed over. None
/// where `bytes` is no such run of fields.
pub open spec fn parse_item(bytes: Seq<u8>, item: ItemView) -> Option<ItemView>
    decreases bytes.len(),
    via parse_item_decreases
{
    if bytes.len() == 0 {
        Some(item)
    } else {
        match next_field(bytes, (RECURSION_LIMIT - 1) as nat) {
            None => None,
            Some(field) => {
                let rest = bytes.skip(field.used as int);
                if field.tag == 1 {
                    if field.wire == 0 {
                        parse_item(rest, ItemView { id: low32(field.number), ..item })
                    } else {
                        None
                    }
                } else if field.tag == 2 {
                    match utf8_text(field.payload) {
                        Some(name) if field.wire == 2 => parse_item(rest, ItemView { name, ..item }),
                        _ => None,
                    }
                } else if field.tag == 3 {
                    match utf8_text(field.payload) {
                        Some(location) if field.wire == 2 => parse_item(
                            rest,
                            ItemView { location, ..item },
                        ),
                        _ => None,
                    }
                } else {
                    parse_item(rest, item)
                }
            },
        }
    }
}

#[via_fn]
proof fn parse_item_decreases(bytes: Seq<u8>, item: ItemView) {
    lemma_next_field_bounds(bytes, (RECURSION_LIMIT - 1) as nat);
}

/// An entry of the registry as a snapshot holds it.
pub open spec fn item_of(e: RegistryEntry) -> ItemView {
    ItemView { id: e.id, name: e.name@, location: e.location@ }
}

/// Reads one entry from its bytes.
pub fn decode_item(bytes: &[u8]) -> (out: Option<RegistryEntry>)
    ensures
        match parse_item(bytes@, blank_item()) {
            Some(item) => out is Some && item_of(out->0) == item,
            None => out is None,
        },
{
    let mut id: u32 = 0;
    let mut name = String::new();
    let mut location = String::from_str("none");
    proof {
        reveal_strlit("none");
        assert(location@ =~= no_location());
        assert(bytes@.skip(0) =~= bytes@);
    }
    let mut pos: usize = 0;
    while pos < bytes.len()
        invariant
            pos <= bytes.len(),
            parse_item(bytes@, blank_item()) == parse_item(
                bytes@.skip(pos as int),
                ItemView { id, name: name@, location: location@ },
            ),
        decreases bytes.len() - pos,
    {
        let ghost rest = bytes@.skip(pos as int);
        proof {
            lemma_next_field_bounds(rest, (RECURSION_LIMIT - 1) as nat);
        }
        let field = match decode_field(bytes, pos, RECURSION_LIMIT - 1) {
            Some(field) => field,
            None => { return None; },
        };
        assert(rest.skip(field.next - pos) =~= bytes@.skip(field.next as int));
        if field.tag == 1 {
            if field.wire != 0 {
                return None;
            }
            id = (field.number % 0x1_0000_0000) as u32;
        } else if field.tag == 2 || field.tag == 3 {
            let text = utf8_string(slice_subrange(bytes, field.start, field.end));
            if field.wire != 2 {
                return None;
            }
            match text {
                Some(text) => {
                    if field.tag == 2 {
                        name = text;
                    } else {
                        location = text;
                    }
                },
                None => { return None; },
            }
        }
        pos = field.next;
    }
    Some(RegistryEntry { id, name, location })
}

/// A registry as a snapshot holds it.
pub struct BankData {
    /// The foods, in the order of the snapshot.
    pub foods: Seq<ItemView>,
    /// The locations, in the order of the snapshot.
    pub locations: Seq<ItemView>,
    /// The identifier that the next new food gets.
    pub next_food_id: u32,
    /// The identifier that the next new location gets.
    pub next_location_id: u32,
}

/// The registry before any of its fields is read.
pub open spec fn blank_bank() -> BankData {
    BankData { foods: Seq::empty(), locations: Seq::empty(), next_food_id: 0, next_location_id: 0 }
}

/// The registry that `bytes` holds, read field by field on top of `data`:
/// each field with number 1 adds a food and each with number 2 a location,
/// and must hold an entry; the counters must be laid out as variable length
/// integers, and the last field of each counts; a field or a group with
/// another number is passed over. None where `bytes` is no such run of
/// fields.
pub open spec fn parse_bank(bytes: Seq<u8>, data: BankData) -> Option<BankData>
    decreases bytes.len(),
    via parse_bank_decreases
{
    if bytes.len() == 0 {
        Some(data)
    } else {
        match next_field(bytes, RECURSION_LIMIT as nat) {
            None => None,
            Some(field) => {
                let rest = bytes.skip(field.used as int);
                if field.tag == 1 {
                    match parse_item(field.payload, blank_item()) {
                        Some(item) if field.wire == 2 => parse_bank(
                            rest,
                            BankData { foods: data.foods.push(item), ..data },
                        ),
                        _ => None,
                    }
                } else if field.tag == 2 {
                    match parse_item(field.payload, blank_item()) {
                        Some(item) if field.wire == 2 => parse_bank(
                            rest,
                            BankData { locations: data.locations.push(item), ..data },
                        ),
                        _ => None,
                    }
                } else if field.tag == 3 {
                    if field.wire == 0 {
                        parse_bank(rest, BankData { next_food_id: low32(field.number), ..data })
                    } else {
                        None
                    }
                } else if field.tag == 4 {
                    if field.wire == 0 {
                        parse_bank(rest, BankData { next_location_id: low32(field.number), ..data })
                    } else {
                        None
                    }
                } else {
                    parse_bank(rest, data)
                }
            },
        }
    }
}

#[via_fn]
proof fn parse_bank_decreases(bytes: Seq<u8>, data: BankData) {
    lemma_next_field_bounds(bytes, RECURSION_LIMIT as nat);
}

/// A list of entries as a snapshot holds them.
pub open spec fn items_of(entries: Seq<RegistryEntry>) -> Seq<ItemView> {
    Seq::new(entries.len(), |i: int| item_of(entries[i]))
}

/// A registry as a snapshot holds it.
pub open spec fn bank_data(bank: Bank) -> BankData {
    BankData {
        foods: items_of(bank.foods@),
        locations: items_of(bank.locations@),
        next_food_id: bank.next_food_id,
        next_location_id: bank.next_location_id,
    }
}

/// Whether a list of entries of a snapshot is a valid half of a registry
/// under the counter `next_id`: names and locations are canonical and not
/// empty, identifiers lie below the counter, and no name and no identifier
/// occurs twice.
pub open spec fn items_wf(items: Seq<ItemView>, next_id: nat) -> bool {
    &&& forall|i: int|
        0 <= i < items.len() ==> {
            &&& (#[trigger] items[i]).name.len() > 0
            &&& is_canonical(items[i].name)
            &&& items[i].location.len() > 0
            &&& is_canonical(items[i].location)
            &&& items[i].id < next_id
        }
    &&& forall|i: int, j: int|
        0 <= i < items.len() && 0 <= j < items.len() && i != j ==> {
            &&& (#[trigger] items[i]).name != (#[trigger] items[j]).name
            &&& items[i].id != items[j].id
        }
}

/// Whether what a snapshot holds is a valid registry.
pub open spec fn data_wf(data: BankData) -> bool {
    &&& items_wf(data.foods, data.next_food_id as nat)
    &&& items_wf(data.locations, data.next_location_id as nat)
}

/// A list of entries is valid exactly when it is valid as a snapshot holds
/// it.
pub proof fn lemma_items_wf(entries: Seq<RegistryEntry>, next_id: nat)
    ensures
        entries_wf(entries, next_id) <==> items_wf(items_of(entries), next_id),
{
    let items = items_of(entries);
    if entries_wf(entries, next_id) {
        assert forall|i: int| 0 <= i < items.len() implies {
            &&& (#[trigger] items[i]).name.len() > 0
            &&& is_canonical(items[i].name)
            &&& items[i].location.len() > 0
            &&& is_canonical(items[i].location)
            &&& items[i].id < next_id
        } by {
            assert(entry_wf(entries[i], next_id));
        }
        assert forall|i: int, j: int|
            0 <= i < items.len() && 0 <= j < items.len() && i != j implies (#[trigger] items[i]).name
            != (#[trigger] items[j]).name && items[i].id != items[j].id by {
            assert(entries[i].name@ != entries[j].name@ && entries[i].id != entries[j].id);
        }
    }
    if items_wf(items, next_id) {
        assert forall|i: int| 0 <= i < entries.len() implies entry_wf(
            #[trigger] entries[i],
            next_id,
        ) by {
            assert(items[i].name == entries[i].name@);
        }
        assert forall|i: int, j: int|
            0 <= i < entries.len() && 0 <= j < entries.len() && i != j implies (
        #[trigger] entries[i]).name@ != (#[trigger] entries[j]).name@ && entries[i].id
            != entries[j].id by {
            assert(items[i].name != items[j].name && items[i].id != items[j].id);
        }
    }
}

/// Reads a registry from its bytes as they stand, without testing whether
/// the registry is valid.
pub fn decode_bank(bytes: &[u8]) -> (out: Option<Bank>)
    ensures
        match parse_bank(bytes@, blank_bank()) {
            Some(data) => out is Some && bank_data(out->0) == data,
            None => out is None,
        },
{
    let mut bank = Bank {
        foods: Vec::new(),
        locations: Vec::new(),
        next_food_id: 0,
        next_location_id: 0,
    };
    proof {
        assert(bank_data(bank).foods =~= Seq::empty());
        assert(bank_data(bank).locations =~= Seq::empty());
        assert(bytes@.skip(0) =~= bytes@);
    }
    let mut pos: usize = 0;
    while pos < bytes.len()
        invariant
            pos <= bytes.len(),
            parse_bank(bytes@, blank_bank()) == parse_bank(bytes@.skip(pos as int), bank_data(bank)),
        decreases bytes.len() - pos,
    {
        let ghost rest = bytes@.skip(pos as int);
        let ghost before = bank_data(bank);
        proof {
            lemma_next_field_bounds(rest, RECURSION_LIMIT as nat);
        }
        let field = match decode_field(bytes, pos, RECURSION_LIMIT) {
            Some(field) => field,
            None => { return None; },
        };
        assert(rest.skip(field.next - pos) =~= bytes@.skip(field.next as int));
        if field.tag == 1 || field.tag == 2 {
            let entry = decode_item(slice_subrange(bytes, field.start, field.end));
            if field.wire != 2 {
                return None;
            }
            match entry {
                Some(entry) => {
                    if field.tag == 1 {
                        bank.foods.push(entry);
                        assert(bank_data(bank).foods =~= before.foods.push(item_of(entry)));
                    } else {
                        bank.locations.push(entry);
                        assert(bank_data(bank).locations =~= before.locations.push(item_of(entry)));
                    }
                },
                None => { return None; },
            }
        } else if field.tag == 3 {
            if field.wire != 0 {
                return None;
            }
            bank.next_food_id = (field.number % 0x1_0000_0000) as u32;
        } else if field.tag == 4 {
            if field.wire != 0 {
                return None;
            }
            bank.next_location_id = (field.number % 0x1_0000_0000) as u32;
        }
        pos = field.next;
    }
    Some(bank)
}

/// Loads a registry from a snapshot. Bytes that are no snapshot, or that
/// hold a registry that is not valid, are a corrupt snapshot.
pub fn load(snapshot: &[u8]) -> (res: Result<Bank, LoadError>)
    ensures
        match parse_bank(snapshot@, blank_bank()) {
            Some(data) => if data_wf(data) {
                res is Ok && res->Ok_0.wf() && bank_data(res->Ok_0) == data
            } else {
                res == Err::<Bank, LoadError>(LoadError::CorruptSnapshot)
            },
            None => res == Err::<Bank, LoadError>(LoadError::CorruptSnapshot),
        },
{
    match decode_bank(snapshot) {
        Some(bank) => {
            proof {
                lemma_items_wf(bank.foods@, bank.next_food_id as nat);
                lemma_items_wf(bank.locations@, bank.next_location_id as nat);
            }
            if bank.is_valid() {
                Ok(bank)
            } else {
                Err(LoadError::CorruptSnapshot)
            }
        },
        None => Err(LoadError::CorruptSnapshot),
    }
}

/// The bytes that hold an identifier: one field, or nothing for 0.
pub open spec fn id_part(id: u32) -> Seq<u8> {
    if id != 0 {
        varint_field(1, id as u64)
    } else {
        Seq::empty()
    }
}

/// The bytes that hold a name: one field, or nothing for the empty name.
pub open spec fn name_part(name: Seq<char>) -> Seq<u8> {
    if name.len() > 0 {
        bytes_field(2, encode_utf8(name))
    } else {
        Seq::empty()
    }
}

/// The bytes that hold a location: one field, or nothing for the
/// placeholder.
pub open spec fn location_part(location: Seq<char>) -> Seq<u8> {
    if location != no_location() {
        bytes_field(3, encode_utf8(location))
    } else {
        Seq::empty()
    }
}

/// The bytes that hold one entry: its identifier unless it is 0, its name
/// unless it is empty, and its location unless it is the placeholder.
pub open spec fn item_bytes(item: ItemView) -> Seq<u8> {
    id_part(item.id) + name_part(item.name) + location_part(item.location)
}

/// The bytes that hold a list of entries, each as one field with the
/// number `tag`, in their order.
pub open spec fn items_bytes(tag: u32, items: Seq<ItemView>) -> Seq<u8>
    decreases items.len(),
{
    if items.len() == 0 {
        Seq::empty()
    } else {
        items_bytes(tag, items.drop_last()) + bytes_field(tag, item_bytes(items.last()))
    }
}

/// The bytes that hold the two counters: each unless it is 0.
pub open spec fn counters_bytes(next_food_id: u32, next_location_id: u32) -> Seq<u8> {
    (if next_food_id != 0 {
        varint_field(3, next_food_id as u64)
    } else {
        Seq::empty()
    }) + (if next_location_id != 0 {
        varint_field(4, next_location_id as u64)
    } else {
        Seq::empty()
    })
}

/// The bytes that hold a registry: the foods, the locations, and the
/// counters.
pub open spec fn bank_bytes(data: BankData) -> Seq<u8> {
    items_bytes(1, data.foods) + items_bytes(2, data.locations) + counters_bytes(
        data.next_food_id,
        data.next_location_id,
    )
}

/// Whether an entry can be written and read back: every length fits in 64
/// bits.
pub open spec fn item_sized(item: ItemView) -> bool {
    &&& encode_utf8(item.name).len() <= u64::MAX
    &&& encode_utf8(item.location).len() <= u64::MAX
    &&& item_bytes(item).len() <= u64::MAX
}

/// Whether every entry of a list can be written and read back.
pub open spec fn items_fit(items: Seq<ItemView>) -> bool {
    forall|i: int| 0 <= i < items.len() ==> item_sized(#[trigger] items[i])
}

/// A location that was written is read back on top of what was read
/// before it.
pub proof fn lemma_location_part_round_trip(item: ItemView, location: Seq<char>)
    requires
        encode_utf8(location).len() <= u64::MAX,
        item.location == no_location(),
    ensures
        parse_item(location_part(location), item) == Some(ItemView { location, ..item }),
{
    let none = Seq::<u8>::empty();
    assert(parse_item(none, ItemView { location, ..item }) == Some(ItemView { location, ..item }));
    if location != no_location() {
        lemma_bytes_field_read_back(3, encode_utf8(location), none, (RECURSION_LIMIT - 1) as nat);
        lemma_utf8_round_trip(location);
        assert(location_part(location) + none =~= location_part(location));
    } else {
        assert(ItemView { location, ..item } == item);
    }
}

/// A name that was written is read back on top of what was read before
/// it, and what follows it is read next.
pub proof fn lemma_name_part_round_trip(item: ItemView, name: Seq<char>, rest: Seq<u8>)
    requires
        encode_utf8(name).len() <= u64::MAX,
        item.name.len() == 0,
    ensures
        parse_item(name_part(name) + rest, item) == parse_item(rest, ItemView { name, ..item }),
{
    if name.len() > 0 {
        lemma_bytes_field_read_back(2, encode_utf8(name), rest, (RECURSION_LIMIT - 1) as nat);
        lemma_utf8_round_trip(name);
    } else {
        assert(name =~= item.name);
        assert(ItemView { name, ..item } == item);
        assert(name_part(name) + rest =~= rest);
    }
}

/// An identifier that was written is read back on top of what was read
/// before it, and what follows it is read next.
pub proof fn lemma_id_part_round_trip(item: ItemView, id: u32, rest: Seq<u8>)
    requires
        item.id == 0,
    ensures
        parse_item(id_part(id) + rest, item) == parse_item(rest, ItemView { id, ..item }),
{
    if id != 0 {
        lemma_varint_field_read_back(1, id as u64, rest, (RECURSION_LIMIT - 1) as nat);
        assert(low32(id as u64) == id);
    } else {
        assert(ItemView { id, ..item } == item);
        assert(id_part(id) + rest =~= rest);
    }
}

/// An entry that was written is read back as it was.
pub proof fn lemma_item_round_trip(item: ItemView)
    requires
        item_sized(item),
    ensures
        parse_item(item_bytes(item), blank_item()) == Some(item),
{
    let after_id = ItemView { id: item.id, ..blank_item() };
    let after_name = ItemView { name: item.name, ..after_id };
    let tail = name_part(item.name) + location_part(item.location);
    lemma_id_part_round_trip(blank_item(), item.id, tail);
    lemma_name_part_round_trip(after_id, item.name, location_part(item.location));
    lemma_location_part_round_trip(after_name, item.location);
    assert(ItemView { location: item.location, ..after_name } == item);
    assert(item_bytes(item) =~= id_part(item.id) + tail);
}

/// A list of entries that was written is read back behind the entries that
/// were read before it, whatever follows it.
pub proof fn lemma_foods_round_trip(items: Seq<ItemView>, rest: Seq<u8>, data: BankData)
    requires
        items_fit(items),
    ensures
        parse_bank(items_bytes(1, items) + rest, data) == parse_bank(
            rest,
            BankData { foods: data.foods + items, ..data },
        ),
    decreases items.len(),
{
    if items.len() == 0 {
        assert(items_bytes(1, items) + rest =~= rest);
        assert(data.foods + items =~= data.foods);
    } else {
        let head = items.drop_last();
        let last = bytes_field(1, item_bytes(items.last()));
        assert(items_fit(head)) by {
            assert forall|i: int| 0 <= i < head.len() implies item_sized(#[trigger] head[i]) by {
                assert(head[i] == items[i]);
            }
        }
        assert(item_sized(items[items.len() - 1]));
        lemma_foods_round_trip(head, last + rest, data);
        assert(items_bytes(1, items) + rest =~= items_bytes(1, head) + (last + rest));
        let mid = BankData { foods: data.foods + head, ..data };
        lemma_bytes_field_read_back(1, item_bytes(items.last()), rest, RECURSION_LIMIT as nat);
        lemma_item_round_trip(items.last());
        assert((data.foods + head).push(items.last()) =~= data.foods + items);
    }
}

/// A list of entries that was written is read back behind the entries that
/// were read before it, whatever follows it.
pub proof fn lemma_locations_round_trip(items: Seq<ItemView>, rest: Seq<u8>, data: BankData)
    requires
        items_fit(items),
    ensures
        parse_bank(items_bytes(2, items) + rest, data) == parse_bank(
            rest,
            BankData { locations: data.locations + items, ..data },
        ),
    decreases items.len(),
{
    if items.len() == 0 {
        assert(items_bytes(2, items) + rest =~= rest);
        assert(data.locations + items =~= data.locations);
    } else {
        let head = items.drop_last();
        let last = bytes_field(2, item_bytes(items.last()));
        assert(items_fit(head)) by {
            assert forall|i: int| 0 <= i < head.len() implies item_sized(#[trigger] head[i]) by {
                assert(head[i] == items[i]);
            }
        }
        assert(item_sized(items[items.len() - 1]));
        lemma_locations_round_trip(head, last + rest, data);
        assert(items_bytes(2, items) + rest =~= items_bytes(2, head) + (last + rest));
        lemma_bytes_field_read_back(2, item_bytes(items.last()), rest, RECURSION_LIMIT as nat);
        lemma_item_round_trip(items.last());
        assert((data.locations + head).push(items.last()) =~= data.locations + items);
    }
}

/// Counters that were written are read back behind what was read before
/// them.
pub proof fn lemma_counters_round_trip(data: BankData)
    ensures
        parse_bank(
            counters_bytes(data.next_food_id, data.next_location_id),
            BankData { next_food_id: 0, next_location_id: 0, ..data },
        ) == Some(data),
{
    let none = Seq::<u8>::empty();
    let third = if data.next_food_id != 0 {
        varint_field(3, data.next_food_id as u64)
    } else {
        none
    };
    let fourth = if data.next_location_id != 0 {
        varint_field(4, data.next_location_id as u64)
    } else {
        none
    };
    let start = BankData { next_food_id: 0, next_location_id: 0, ..data };
    let with_next_food = BankData { next_food_id: data.next_food_id, ..start };
    assert(parse_bank(none, data) == Some(data));
    assert(parse_bank(fourth, with_next_food) == Some(data)) by {
        if data.next_location_id != 0 {
            lemma_varint_field_read_back(4, data.next_location_id as u64, none, RECURSION_LIMIT as nat);
            assert(fourth + none =~= fourth);
            assert(low32(data.next_location_id as u64) == data.next_location_id);
            assert(BankData { next_location_id: data.next_location_id, ..with_next_food }
                == data);
        } else {
            assert(with_next_food == data);
        }
    }
    assert(parse_bank(third + fourth, start) == Some(data)) by {
        if data.next_food_id != 0 {
            lemma_varint_field_read_back(3, data.next_food_id as u64, fourth, RECURSION_LIMIT as nat);
            assert(low32(data.next_food_id as u64) == data.next_food_id);
        } else {
            assert(with_next_food == start);
            assert(third + fourth =~= fourth);
        }
    }
}

/// A registry that was written is read back as it was.
pub proof fn lemma_snapshot_round_trip(data: BankData)
    requires
        items_fit(data.foods),
        items_fit(data.locations),
    ensures
        parse_bank(bank_bytes(data), blank_bank()) == Some(data),
{
    let tail = counters_bytes(data.next_food_id, data.next_location_id);
    let with_foods = BankData { foods: data.foods, ..blank_bank() };
    let with_locations = BankData { locations: data.locations, ..with_foods };
    assert(parse_bank(tail, with_locations) == Some(data)) by {
        lemma_counters_round_trip(data);
        assert(with_locations == BankData { next_food_id: 0, next_location_id: 0, ..data });
    }
    assert(parse_bank(items_bytes(2, data.locations) + tail, with_foods) == parse_bank(
        tail,
        with_locations,
    )) by {
        lemma_locations_round_trip(data.locations, tail, with_foods);
        assert(Seq::<ItemView>::empty() + data.locations =~= data.locations);
    }
    assert(parse_bank(
        items_bytes(1, data.foods) + (items_bytes(2, data.locations) + tail),
        blank_bank(),
    ) == parse_bank(items_bytes(2, data.locations) + tail, with_foods)) by {
        lemma_foods_round_trip(data.foods, items_bytes(2, data.locations) + tail, blank_bank());
        assert(Seq::<ItemView>::empty() + data.foods =~= data.foods);
    }
    assert(bank_bytes(data) =~= items_bytes(1, data.foods) + (items_bytes(2, data.locations)
        + tail));
}

/// Writes one entry as bytes.
pub fn encode_item(e: &RegistryEntry) -> (out: Vec<u8>)
    ensures
        out@ == item_bytes(item_of(*e)),
        item_sized(item_of(*e)),
{
    let mut out: Vec<u8> = Vec::new();
    let name = e.name.as_str().as_bytes();
    let location = e.location.as_str().as_bytes();
    let none = String::from_str("none");
    proof {
        reveal_strlit("none");
        assert(none@ =~= no_location());
    }
    if e.id != 0 {
        encode_varint_field(1, e.id as u64, &mut out);
    }
    if name.len() > 0 {
        encode_bytes_field(2, name, &mut out);
    }
    if !(e.location == none) {
        encode_bytes_field(3, location, &mut out);
    }
    proof {
        assert(e.name@.len() == 0 <==> name@.len() == 0) by {
            if e.name@.len() == 0 {
                assert(e.name@ =~= Seq::<char>::empty());
                reveal_with_fuel(encode_utf8, 1);
            } else {
                vstd::utf8::encode_utf8_first_scalar(e.name@);
            }
        }
        assert(out@ =~= item_bytes(item_of(*e)));
        if e.location@ == no_location() {
            is_ascii_chars_encode_utf8(no_location());
        }
        assert(out@.len() == out.len());
    }
    out
}

fn encode_items(tag: u32, entries: &Vec<RegistryEntry>, out: &mut Vec<u8>)
    requires
        tag == 1 || tag == 2,
    ensures
        final(out)@ == old(out)@ + items_bytes(tag, items_of(entries@)),
        forall|i: int| 0 <= i < entries.len() ==> item_sized(#[trigger] items_of(entries@)[i]),
{
    let ghost start = out@;
    let ghost items = items_of(entries@);
    let mut i: usize = 0;
    assert(start + items_bytes(tag, items.take(0)) =~= start);
    while i < entries.len()
        invariant
            i <= entries.len(),
            tag == 1 || tag == 2,
            items == items_of(entries@),
            out@ == start + items_bytes(tag, items.take(i as int)),
            forall|k: int| 0 <= k < i ==> item_sized(#[trigger] items[k]),
        decreases entries.len() - i,
    {
        let ghost before = out@;
        let item = encode_item(&entries[i]);
        encode_bytes_field(tag, item.as_slice(), out);
        proof {
            assert(items.take(i + 1).drop_last() =~= items.take(i as int));
            assert(items.take(i + 1).last() == item_of(entries@[i as int]));
            assert(out@ =~= start + items_bytes(tag, items.take(i + 1)));
        }
        i += 1;
    }
    assert(items.take(entries.len() as int) =~= items);
}

/// Writes the registry as a snapshot: the foods and the locations in their
/// stored order, then the counters. Every registry is read back from its
/// snapshot as it was written.
pub fn save(bank: &Bank) -> (out: Vec<u8>)
    ensures
        out@ == bank_bytes(bank_data(*bank)),
        parse_bank(out@, blank_bank()) == Some(bank_data(*bank)),
        bank.wf() ==> data_wf(bank_data(*bank)),
{
    let mut out: Vec<u8> = Vec::new();
    encode_items(1, &bank.foods, &mut out);
    encode_items(2, &bank.locations, &mut out);
    if bank.next_food_id != 0 {
        encode_varint_field(3, bank.next_food_id as u64, &mut out);
    }
    if bank.next_location_id != 0 {
        encode_varint_field(4, bank.next_location_id as u64, &mut out);
    }
    proof {
        let data = bank_data(*bank);
        assert(out@ =~= bank_bytes(data));
        lemma_items_wf(bank.foods@, bank.next_food_id as nat);
        lemma_items_wf(bank.locations@, bank.next_location_id as nat);
        lemma_snapshot_round_trip(data);
    }
    out
}

} // verus!
