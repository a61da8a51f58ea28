//! Building the registry from the menu feed.
//!
//! The feed names a location and, under it, the items served there. Every
//! raw name is brought to canonical form first; what has no canonical form
//! is passed over. New names get the next identifier in the order in which
//! they are seen; known names keep theirs.

use vstd::prelude::*;
use vstd::pervasive::unreached;
use crate::registry::{
    entries_view, entries_wf, lemma_index_of, lemma_same_entries, named_at, same_entries,
    with_food, with_location, Bank, BankView, RegistryEntry,
};
use crate::models::{DiningCourt, ItemShell, Meal, Response, Station};
use crate::sanitize::{canonical_of, sanitize};
use crate::sanitize_laws::lemma_canonical_fixed;

verus! {

/// The registry `v` after one sighting: the raw item name `item_raw` under
/// the raw location name `location_raw`. A sighting whose location has no
/// canonical form changes nothing.
pub open spec fn sighted(v: BankView, location_raw: Seq<char>, item_raw: Seq<char>, is_current_day: bool) -> BankView {
    let location = canonical_of(location_raw);
    if location.len() == 0 {
        v
    } else {
        with_food(with_location(v, location), canonical_of(item_raw), location, is_current_day)
    }
}

/// The registry `v` after the sightings of `feed`, first to last.
pub open spec fn merged(v: BankView, feed: Seq<(Seq<char>, Seq<char>)>, is_current_day: bool) -> BankView
    decreases feed.len(),
{
    if feed.len() == 0 {
        v
    } else {
        sighted(
            merged(v, feed.drop_last(), is_current_day),
            feed.last().0,
            feed.last().1,
            is_current_day,
        )
    }
}

/// A list of pairs of strings as pairs of character sequences.
pub open spec fn feed_view(feed: Seq<(String, String)>) -> Seq<(Seq<char>, Seq<char>)> {
    Seq::new(feed.len(), |i: int| (feed[i].0@, feed[i].1@))
}

/// Whether both counters of `v` fit in 32 bits.
pub open spec fn fits(v: BankView) -> bool {
    v.next_food_id <= u32::MAX && v.next_location_id <= u32::MAX
}

/// The counters after the first `k` sightings of a feed are no higher than
/// after all of them.
pub proof fn lemma_prefix_counters(v: BankView, feed: Seq<(Seq<char>, Seq<char>)>, is_current_day: bool, k: int)
    requires
        0 <= k <= feed.len(),
    ensures
        merged(v, feed.take(k), is_current_day).next_food_id <= merged(
            v,
            feed,
            is_current_day,
        ).next_food_id,
        merged(v, feed.take(k), is_current_day).next_location_id <= merged(
            v,
            feed,
            is_current_day,
        ).next_location_id,
    decreases feed.len() - k,
{
    if k < feed.len() {
        assert(feed.take(k + 1).drop_last() =~= feed.take(k));
        lemma_prefix_counters(v, feed, is_current_day, k + 1);
    } else {
        assert(feed.take(k) =~= feed);
    }
}

fn merge_sightings(bank: &mut Bank, feed_items: &Vec<(String, String)>, is_current_day: bool) -> (counts: Option<
    (usize, usize),
>)
    requires
        old(bank).wf(),
    ensures
        final(bank).wf(),
        counts is Some <==> fits(merged(old(bank)@, feed_view(feed_items@), is_current_day)),
        match counts {
            Some(new) => {
                &&& final(bank)@ == merged(old(bank)@, feed_view(feed_items@), is_current_day)
                &&& new.0 == final(bank)@.next_food_id - old(bank)@.next_food_id
                &&& new.1 == final(bank)@.next_location_id - old(bank)@.next_location_id
            },
            None => true,
        },
{
    let ghost start = bank@;
    let ghost feed = feed_view(feed_items@);
    let mut new_items: usize = 0;
    let mut new_locations: usize = 0;
    let mut i: usize = 0;
    assert(feed.take(0) =~= Seq::empty());
    while i < feed_items.len()
        invariant
            i <= feed_items.len(),
            feed == feed_view(feed_items@),
            bank.wf(),
            start == old(bank)@,
            bank@ == merged(start, feed.take(i as int), is_current_day),
            new_items == bank@.next_food_id - start.next_food_id,
            new_locations == bank@.next_location_id - start.next_location_id,
            new_items <= i,
            new_locations <= i,
        decreases feed_items.len() - i,
    {
        let ghost before = bank@;
        proof {
            assert(feed.take(i + 1).drop_last() =~= feed.take(i as int));
            assert(feed.take(i + 1).last() == feed[i as int]);
            lemma_prefix_counters(start, feed, is_current_day, i + 1);
        }
        let location = sanitize(feed_items[i].0.as_str());
        if !location.as_str().is_empty() {
            let item = sanitize(feed_items[i].1.as_str());
            let ghost next = sighted(before, feed[i as int].0, feed[i as int].1, is_current_day);
            proof {
                assert(next == merged(start, feed.take(i + 1), is_current_day));
                assert(next.next_location_id == with_location(before, location@).next_location_id);
            }
            match bank.merge_location(&location) {
                Some(added) => {
                    if added {
                        new_locations += 1;
                    }
                },
                None => { return None; },
            }
            match bank.merge_food(&item, &location, is_current_day) {
                Some(added) => {
                    if added {
                        new_items += 1;
                    }
                },
                None => { return None; },
            }
        }
        i += 1;
    }
    assert(feed.take(feed_items.len() as int) =~= feed);
    Some((new_items, new_locations))
}

/// Merges the sightings of `feed_items` into the registry, first to last,
/// and returns how many foods and how many locations were new. The
/// identifiers that the new names need must fit in 32 bits.
pub fn merge_menu(bank: &mut Bank, feed_items: &Vec<(String, String)>, is_current_day: bool) -> (counts: (
    usize,
    usize,
))
    requires
        old(bank).wf(),
        fits(merged(old(bank)@, feed_view(feed_items@), is_current_day)),
    ensures
        final(bank).wf(),
        final(bank)@ == merged(old(bank)@, feed_view(feed_items@), is_current_day),
        counts.0 == final(bank)@.next_food_id - old(bank)@.next_food_id,
        counts.1 == final(bank)@.next_location_id - old(bank)@.next_location_id,
{
    match merge_sightings(bank, feed_items, is_current_day) {
        Some(counts) => counts,
        None => unreached(),
    }
}

fn copy_entries(entries: &Vec<RegistryEntry>) -> (out: Vec<RegistryEntry>)
    ensures
        same_entries(entries@, out@),
{
    let mut out: Vec<RegistryEntry> = Vec::new();
    let mut i: usize = 0;
    while i < entries.len()
        invariant
            i <= entries.len(),
            out.len() == i,
            forall|k: int|
                0 <= k < i ==> {
                    &&& (#[trigger] out@[k]).name@ == entries@[k].name@
                    &&& out@[k].id == entries@[k].id
                    &&& out@[k].location@ == entries@[k].location@
                },
        decreases entries.len() - i,
    {
        out.push(
            RegistryEntry {
                id: entries[i].id,
                name: entries[i].name.clone(),
                location: entries[i].location.clone(),
            },
        );
        i += 1;
    }
    out
}

/// Merges the sightings of `feed_items` into the registry, first to last,
/// and returns how many foods and how many locations were new. Where a new
/// name cannot get an identifier within 32 bits, nothing is merged and
/// `None` is returned; a feed of known names is merged whatever the
/// counters are.
pub fn try_merge_menu(bank: &mut Bank, feed_items: &Vec<(String, String)>, is_current_day: bool) -> (counts: Option<
    (usize, usize),
>)
    requires
        old(bank).wf(),
    ensures
        final(bank).wf(),
        counts is Some <==> fits(merged(old(bank)@, feed_view(feed_items@), is_current_day)),
        match counts {
            Some(new) => {
                &&& final(bank)@ == merged(old(bank)@, feed_view(feed_items@), is_current_day)
                &&& new.0 == final(bank)@.next_food_id - old(bank)@.next_food_id
                &&& new.1 == final(bank)@.next_location_id - old(bank)@.next_location_id
            },
            None => true,
        },
        counts is None ==> *final(bank) == *old(bank),
{
    let mut work = Bank {
        foods: copy_entries(&bank.foods),
        locations: copy_entries(&bank.locations),
        next_food_id: bank.next_food_id,
        next_location_id: bank.next_location_id,
    };
    proof {
        lemma_same_entries(bank.foods@, work.foods@, bank.next_food_id as nat);
        lemma_same_entries(bank.locations@, work.locations@, bank.next_location_id as nat);
        assert(work@ == bank@);
    }
    match merge_sightings(&mut work, feed_items, is_current_day) {
        Some(counts) => {
            *bank = work;
            Some(counts)
        },
        None => None,
    }
}

/// Whether `after` is `before` with every name brought to canonical form
/// and nothing else changed.
pub open spec fn names_sanitized(before: Seq<RegistryEntry>, after: Seq<RegistryEntry>) -> bool {
    &&& after.len() == before.len()
    &&& forall|i: int|
        0 <= i < before.len() ==> {
            &&& (#[trigger] after[i]).name@ == canonical_of(before[i].name@)
            &&& after[i].id == before[i].id
            &&& after[i].location@ == before[i].location@
        }
}

/// On a valid list, bringing the names to canonical form changes nothing:
/// the names are canonical already.
pub proof fn lemma_sanitized_valid_list(before: Seq<RegistryEntry>, after: Seq<RegistryEntry>, next_id: nat)
    requires
        entries_wf(before, next_id),
        names_sanitized(before, after),
    ensures
        entries_wf(after, next_id),
        entries_view(after) == entries_view(before),
{
    assert forall|i: int| 0 <= i < before.len() implies (#[trigger] after[i]).name@
        == before[i].name@ by {
        lemma_canonical_fixed(before[i].name@);
    }
    assert(entries_wf(after, next_id)) by {
        assert forall|a: int, b: int|
            0 <= a < after.len() && 0 <= b < after.len() && a != b implies (#[trigger] after[a]).name@
            != (#[trigger] after[b]).name@ && after[a].id != after[b].id by {
            assert(before[a].name@ != before[b].name@);
        }
    }
    assert forall|name: Seq<char>| entries_view(after).contains_key(name)
        <==> entries_view(before).contains_key(name) by {
        if entries_view(after).contains_key(name) {
            let k = choose|k: int| named_at(after, name, k);
            assert(named_at(before, name, k));
        }
        if entries_view(before).contains_key(name) {
            let k = choose|k: int| named_at(before, name, k);
            assert(named_at(after, name, k));
        }
    }
    assert forall|name: Seq<char>| entries_view(after).contains_key(name) implies entries_view(
        after,
    )[name] == entries_view(before)[name] by {
        let k = choose|k: int| named_at(after, name, k);
        lemma_index_of(after, next_id, k);
        lemma_index_of(before, next_id, k);
    }
    assert(entries_view(after) =~= entries_view(before));
}

/// Brings the name of every entry to canonical form, in place.
pub fn sanitize_keys(entries: &mut Vec<RegistryEntry>)
    ensures
        names_sanitized(old(entries)@, final(entries)@),
{
    let ghost before = entries@;
    let mut i: usize = 0;
    while i < entries.len()
        invariant
            i <= entries.len(),
            entries.len() == before.len(),
            forall|k: int|
                0 <= k < i ==> {
                    &&& (#[trigger] entries@[k]).name@ == canonical_of(before[k].name@)
                    &&& entries@[k].id == before[k].id
                    &&& entries@[k].location@ == before[k].location@
                },
            forall|k: int| i <= k < entries.len() ==> entries@[k] == before[k],
        decreases entries.len() - i,
    {
        let entry = RegistryEntry {
            id: entries[i].id,
            name: sanitize(entries[i].name.as_str()),
            location: entries[i].location.clone(),
        };
        entries.set(i, entry);
        i += 1;
    }
}

/// Brings every name of the registry to canonical form. A valid registry
/// holds canonical names only, so on it this changes nothing.
pub fn sanitize_bank(bank: &mut Bank)
    ensures
        names_sanitized(old(bank).foods@, final(bank).foods@),
        names_sanitized(old(bank).locations@, final(bank).locations@),
        final(bank).next_food_id == old(bank).next_food_id,
        final(bank).next_location_id == old(bank).next_location_id,
        old(bank).wf() ==> final(bank).wf() && final(bank)@ == old(bank)@,
{
    sanitize_keys(&mut bank.foods);
    sanitize_keys(&mut bank.locations);
    proof {
        if old(bank).wf() {
            lemma_sanitized_valid_list(old(bank).foods@, bank.foods@, bank.next_food_id as nat);
            lemma_sanitized_valid_list(
                old(bank).locations@,
                bank.locations@,
                bank.next_location_id as nat,
            );
        }
    }
}

/// The sightings that one station gives under `location`.
pub open spec fn station_pairs(location: Seq<char>, items: Seq<ItemShell>) -> Seq<(Seq<char>, Seq<char>)> {
    Seq::new(items.len(), |i: int| (location, items[i].item.name@))
}

/// The sightings that the stations of one meal give under `location`.
pub open spec fn meal_pairs(location: Seq<char>, stations: Seq<Station>) -> Seq<(Seq<char>, Seq<char>)>
    decreases stations.len(),
{
    if stations.len() == 0 {
        Seq::empty()
    } else {
        meal_pairs(location, stations.drop_last()) + station_pairs(location, stations.last().items@)
    }
}

/// The sightings that the meals of one day give under `location`.
pub open spec fn menu_pairs(location: Seq<char>, meals: Seq<Meal>) -> Seq<(Seq<char>, Seq<char>)>
    decreases meals.len(),
{
    if meals.len() == 0 {
        Seq::empty()
    } else {
        menu_pairs(location, meals.drop_last()) + meal_pairs(location, meals.last().stations@)
    }
}

/// The sightings that one dining court gives: first the court itself, with
/// no item, then each of its items.
pub open spec fn court_pairs(court: DiningCourt) -> Seq<(Seq<char>, Seq<char>)> {
    seq![(court.formal_name@, Seq::<char>::empty())] + menu_pairs(
        court.formal_name@,
        court.daily_menu.meals@,
    )
}

/// The sightings that a list of dining courts gives.
pub open spec fn courts_pairs(courts: Seq<DiningCourt>) -> Seq<(Seq<char>, Seq<char>)>
    decreases courts.len(),
{
    if courts.len() == 0 {
        Seq::empty()
    } else {
        courts_pairs(courts.drop_last()) + court_pairs(courts.last())
    }
}

fn push_station(out: &mut Vec<(String, String)>, location: &String, items: &Vec<ItemShell>)
    ensures
        feed_view(final(out)@) == feed_view(old(out)@) + station_pairs(location@, items@),
{
    let ghost start = feed_view(out@);
    let mut i: usize = 0;
    while i < items.len()
        invariant
            i <= items.len(),
            feed_view(out@) == start + station_pairs(location@, items@).take(i as int),
        decreases items.len() - i,
    {
        let ghost before = out@;
        out.push((location.clone(), items[i].item.name.clone()));
        assert(feed_view(out@) =~= feed_view(before).push((location@, items@[i as int].item.name@)));
        i += 1;
    }
    assert(station_pairs(location@, items@).take(items.len() as int) =~= station_pairs(
        location@,
        items@,
    ));
}

fn push_meal(out: &mut Vec<(String, String)>, location: &String, stations: &Vec<Station>)
    ensures
        feed_view(final(out)@) == feed_view(old(out)@) + meal_pairs(location@, stations@),
{
    let ghost start = feed_view(out@);
    let mut i: usize = 0;
    while i < stations.len()
        invariant
            i <= stations.len(),
            feed_view(out@) == start + meal_pairs(location@, stations@.take(i as int)),
        decreases stations.len() - i,
    {
        push_station(out, location, &stations[i].items);
        assert(stations@.take(i + 1).drop_last() =~= stations@.take(i as int));
        i += 1;
    }
    assert(stations@.take(stations.len() as int) =~= stations@);
}

fn push_menu(out: &mut Vec<(String, String)>, location: &String, meals: &Vec<Meal>)
    ensures
        feed_view(final(out)@) == feed_view(old(out)@) + menu_pairs(location@, meals@),
{
    let ghost start = feed_view(out@);
    let mut i: usize = 0;
    while i < meals.len()
        invariant
            i <= meals.len(),
            feed_view(out@) == start + menu_pairs(location@, meals@.take(i as int)),
        decreases meals.len() - i,
    {
        push_meal(out, location, &meals[i].stations);
        assert(meals@.take(i + 1).drop_last() =~= meals@.take(i as int));
        i += 1;
    }
    assert(meals@.take(meals.len() as int) =~= meals@);
}

/// Lays an answer of the menu feed out as sightings, in the order in which
/// the answer lists them: each court first, then its items.
pub fn feed_pairs(response: &Response) -> (out: Vec<(String, String)>)
    ensures
        feed_view(out@) == courts_pairs(response.data.dining_courts@),
{
    let courts = &response.data.dining_courts;
    let mut out: Vec<(String, String)> = Vec::new();
    let mut i: usize = 0;
    while i < courts.len()
        invariant
            i <= courts.len(),
            feed_view(out@) == courts_pairs(courts@.take(i as int)),
        decreases courts.len() - i,
    {
        let ghost before = out@;
        out.push((courts[i].formal_name.clone(), String::new()));
        assert(feed_view(out@) =~= feed_view(before) + seq![
            (courts@[i as int].formal_name@, Seq::<char>::empty()),
        ]);
        push_menu(&mut out, &courts[i].formal_name, &courts[i].daily_menu.meals);
        assert(courts@.take(i + 1).drop_last() =~= courts@.take(i as int));
        i += 1;
    }
    assert(courts@.take(courts.len() as int) =~= courts@);
    out
}

/// Merges one answer of the menu feed into the registry and returns how
/// many foods and how many locations were new. Where a new name cannot get
/// an identifier within 32 bits, nothing is merged and `None` is returned;
/// an answer of known names is merged whatever the counters are.
pub fn merge_response(bank: &mut Bank, response: &Response, is_current_day: bool) -> (counts: Option<
    (usize, usize),
>)
    requires
        old(bank).wf(),
    ensures
        final(bank).wf(),
        counts is Some <==> fits(
            merged(old(bank)@, courts_pairs(response.data.dining_courts@), is_current_day),
        ),
        match counts {
            Some(new) => {
                &&& final(bank)@ == merged(
                    old(bank)@,
                    courts_pairs(response.data.dining_courts@),
                    is_current_day,
                )
                &&& new.0 == final(bank)@.next_food_id - old(bank)@.next_food_id
                &&& new.1 == final(bank)@.next_location_id - old(bank)@.next_location_id
            },
            None => true,
        },
        counts is None ==> *final(bank) == *old(bank),
{
    let feed = feed_pairs(response);
    try_merge_menu(bank, &feed, is_current_day)
}

/// Whether a merge found anything new, so that the registry is worth
/// writing out again.
pub fn has_news(counts: (usize, usize)) -> (news: bool)
    ensures
        news == (counts.0 != 0 || counts.1 != 0),
{
    counts.0 != 0 || counts.1 != 0
}

} // verus!
